//! Surfaces: a peer's ports projected to a dedicated local address.
//!
//! A surface binds a peer's granted ports at one address you choose or that is
//! allocated, under a name. What the operating system has to do for that is
//! decided here and carried out by the shell:
//!
//! - the local address (`ensure_addr` / `remove_addr`): nothing on Linux, where
//!   all of `127.0.0.0/8` already routes to `lo`; an `ifconfig lo0 alias` on
//!   macOS, where extra loopback addresses must be added.
//! - the names (`sync_hosts`): a managed block in a hosts file.

use crate::addr::{has_ip, ip_text, ip_views, v4, v4_text, IpAddr, IpView, Ipv4Addr};
use crate::order::{lemma_filter_again, lemma_filter_drops_last, lemma_filter_holds, lemma_filter_step};
use crate::text::{
    chomp, is_line, is_space, lemma_lines_concat, lemma_lines_hold_no_end, lemma_lines_of_unlines,
    lemma_one_line, lines, lines_of, opt_text, same_text, texts, trim, trimmed, unlines,
};
use vstd::prelude::*;

verus! {

/// A projected surface: where a peer's ports are bound locally.
#[derive(Clone, Debug, PartialEq, Eq)]
pub struct Surface {
    pub ip: IpAddr,
    pub name: Option<String>,
}

/// A surface as plain values.
pub struct SurfaceView {
    pub ip: IpView,
    pub name: Option<Seq<char>>,
}

impl View for Surface {
    type V = SurfaceView;

    open spec fn view(&self) -> SurfaceView {
        SurfaceView { ip: self.ip@, name: opt_text(self.name) }
    }
}

// --------------------------------------------------------------- allocation

/// The network that loopback surfaces are allocated from: `127.0.1.0/24`.
pub const LOOPBACK_BASE: [u8; 3] = [127, 0, 1];

/// The network that surfaces on a TUN device are allocated from:
/// `10.99.1.0/24`.
pub const TUN_BASE: [u8; 3] = [10, 99, 1];

/// The first host that is allocated: `.0` is the network and `.1` is taken by
/// some systems for the hostname.
pub const FIRST_HOST: u8 = 2;

/// The last host that is allocated: `.255` is broadcast.
pub const LAST_HOST: u8 = 254;

/// Every address of the network is taken.
#[derive(Copy, Clone, PartialEq, Eq, Debug)]
pub struct NoFreeAddress {
    pub base: [u8; 3],
}

/// The address of a host in a network.
pub open spec fn host_at(base: Seq<u8>, host: u8) -> IpView {
    v4(base[0], base[1], base[2], host)
}

/// The text of the error when every address of `base` is taken.
pub open spec fn no_free_address_text(base: Seq<u8>) -> Seq<char> {
    "no free address in "@ + v4_text(seq![base[0], base[1], base[2], 0u8]) + "/24; unproject a surface first"@
}

impl NoFreeAddress {
    /// What to tell the user.
    pub fn to_string(&self) -> (s: String)
        ensures
            s@ == no_free_address_text(self.base@),
    {
        let mut s = "no free address in ".to_owned();
        s.append(Ipv4Addr::new(self.base[0], self.base[1], self.base[2], 0).to_string().as_str());
        s.append("/24; unproject a surface first");
        s
    }
}

/// Whether `host` is the lowest one whose address is not taken.
pub open spec fn is_lowest_free(taken: Seq<IpView>, base: Seq<u8>, host: u8) -> bool {
    &&& FIRST_HOST <= host <= LAST_HOST
    &&& !taken.contains(host_at(base, host))
    &&& forall|h: u8| FIRST_HOST <= h < host ==> taken.contains(#[trigger] host_at(base, h))
}

/// The address of the lowest host that is not taken; None when all are.
pub open spec fn free_address(taken: Seq<IpView>, base: Seq<u8>) -> Option<IpView> {
    if exists|host: u8| is_lowest_free(taken, base, host) {
        Some(host_at(base, choose|host: u8| is_lowest_free(taken, base, host)))
    } else {
        None
    }
}

/// There is at most one lowest free host.
proof fn lemma_lowest_free(taken: Seq<IpView>, base: Seq<u8>, host: u8)
    requires
        is_lowest_free(taken, base, host),
    ensures
        free_address(taken, base) == Some(host_at(base, host)),
{
    let h = choose|h: u8| is_lowest_free(taken, base, h);
    assert(is_lowest_free(taken, base, h));
    if h < host {
        assert(taken.contains(host_at(base, h)));
    } else if host < h {
        assert(taken.contains(host_at(base, host)));
    }
}

/// Allocate a loopback address not already in `taken`, from `127.0.1.2` upward.
pub fn allocate(taken: &[IpAddr]) -> (r: Result<IpAddr, NoFreeAddress>)
    ensures
        match r {
            Ok(ip) => free_address(ip_views(taken@), LOOPBACK_BASE@) == Some(ip@),
            Err(e) => free_address(ip_views(taken@), LOOPBACK_BASE@) is None && e.base@ == LOOPBACK_BASE@,
        },
{
    allocate_in(taken, LOOPBACK_BASE)
}

/// Allocate an address of the network `base` not already in `taken`.
pub fn allocate_in(taken: &[IpAddr], base: [u8; 3]) -> (r: Result<IpAddr, NoFreeAddress>)
    ensures
        match r {
            Ok(ip) => free_address(ip_views(taken@), base@) == Some(ip@),
            Err(e) => free_address(ip_views(taken@), base@) is None && e.base@ == base@,
        },
{
    let mut host: u8 = FIRST_HOST;
    while host <= LAST_HOST
        invariant
            FIRST_HOST <= host <= LAST_HOST + 1,
            forall|h: u8| FIRST_HOST <= h < host ==> ip_views(taken@).contains(#[trigger] host_at(base@, h)),
        decreases LAST_HOST + 1 - host,
    {
        let ip = IpAddr::V4(Ipv4Addr::new(base[0], base[1], base[2], host));
        assert(ip@ == host_at(base@, host));
        if !has_ip(taken, &ip) {
            proof {
                lemma_lowest_free(ip_views(taken@), base@, host);
            }
            return Ok(ip);
        }
        host = host + 1;
    }
    Err(NoFreeAddress { base })
}

// ---------------------------------------------------------- local addresses

/// The systems that differ in how a local address comes about.
#[derive(Copy, Clone, PartialEq, Eq, Debug)]
pub enum Platform {
    Linux,
    MacOs,
    Other,
}

/// This system cannot give a surface an address of its own.
#[derive(Copy, Clone, PartialEq, Eq, Debug)]
pub struct UnsupportedAddress {
    pub ip: IpAddr,
}

impl UnsupportedAddress {
    /// What to tell the user.
    pub fn to_string(&self) -> (s: String)
        ensures
            s@ == unsupported_text(self.ip@),
    {
        let mut s = "projecting ".to_owned();
        s.append(self.ip.to_string().as_str());
        s.append(" needs a loopback alias, unsupported on this OS (use --ip 127.0.0.1)");
        s
    }
}

/// The text of the error when a system cannot add an address.
pub open spec fn unsupported_text(ip: IpView) -> Seq<char> {
    "projecting "@ + ip_text(ip) + " needs a loopback alias, unsupported on this OS (use --ip 127.0.0.1)"@
}

/// Whether `ip` is the address every system has.
pub open spec fn is_stock(ip: IpView) -> bool {
    ip == v4(127, 0, 0, 1)
}

/// The arguments of the command that adds an address, where one is needed.
pub open spec fn add_args(ip: IpView) -> Seq<Seq<char>> {
    seq!["lo0"@, "alias"@, ip_text(ip), "up"@]
}

/// The arguments of the command that removes an address, where one is needed.
pub open spec fn remove_args(ip: IpView) -> Seq<Seq<char>> {
    seq!["lo0"@, "-alias"@, ip_text(ip)]
}

/// The arguments of a command, if there is one to run.
pub open spec fn opt_args(o: Option<Vec<String>>) -> Option<Seq<Seq<char>>> {
    match o {
        Some(v) => Some(texts(v@)),
        None => None,
    }
}

/// Whether `ip` is the address every system has.
pub fn is_stock_loopback(ip: &IpAddr) -> (r: bool)
    ensures
        r == is_stock(ip@),
{
    ip.same(&IpAddr::V4(Ipv4Addr::new(127, 0, 0, 1)))
}

/// What makes `ip` usable as a local bind address: nothing, or the arguments of
/// an `ifconfig` to run. The stock address needs nothing anywhere.
pub fn ensure_addr(platform: Platform, ip: IpAddr) -> (r: Result<Option<Vec<String>>, UnsupportedAddress>)
    ensures
        match r {
            Ok(args) => {
                &&& opt_args(args) == if is_stock(ip@) || platform is Linux {
                    None
                } else {
                    Some(add_args(ip@))
                }
                &&& is_stock(ip@) || !(platform is Other)
            },
            Err(e) => e.ip@ == ip@ && !is_stock(ip@) && platform is Other,
        },
{
    if is_stock_loopback(&ip) {
        return Ok(None);
    }
    match platform {
        Platform::Linux => Ok(None),
        Platform::MacOs => {
            let mut args: Vec<String> = Vec::new();
            args.push("lo0".to_owned());
            args.push("alias".to_owned());
            args.push(ip.to_string());
            args.push("up".to_owned());
            assert(texts(args@) =~= add_args(ip@));
            Ok(Some(args))
        },
        Platform::Other => Err(UnsupportedAddress { ip }),
    }
}

/// What takes a local bind address away again: nothing, or the arguments of an
/// `ifconfig` to run. The stock address is never touched.
pub fn remove_addr(platform: Platform, ip: IpAddr) -> (r: Option<Vec<String>>)
    ensures
        opt_args(r) == if is_stock(ip@) || !(platform is MacOs) {
            None
        } else {
            Some(remove_args(ip@))
        },
{
    if is_stock_loopback(&ip) {
        return None;
    }
    match platform {
        Platform::MacOs => {
            let mut args: Vec<String> = Vec::new();
            args.push("lo0".to_owned());
            args.push("-alias".to_owned());
            args.push(ip.to_string());
            assert(texts(args@) =~= remove_args(ip@));
            Some(args)
        },
        _ => None,
    }
}

/// What to report when a command failed: the command, its arguments, and what
/// it printed.
pub fn command_failure(cmd: &str, args: &Vec<String>, stderr: &str) -> (s: String)
    ensures
        s@ == cmd@.push(' ') + crate::text::join_spec(texts(args@), ' ') + ": "@ + trimmed(stderr@),
{
    let mut s = cmd.to_owned();
    s.push(' ');
    s.append(crate::text::join(args, ' ').as_str());
    s.append(": ");
    s.append(trim(stderr).as_str());
    s
}

// -------------------------------------------------------------- hosts block

/// The line that opens the managed block.
pub const HOSTS_BEGIN: &'static str = "# BEGIN pai-sho (managed, do not edit)";

/// The line that closes it.
pub const HOSTS_END: &'static str = "# END pai-sho";

/// The lines outside the managed block. `in_block` says whether the first line
/// stands inside one already.
pub open spec fn outside_block(lines: Seq<Seq<char>>, in_block: bool) -> Seq<Seq<char>>
    decreases lines.len(),
{
    if lines.len() == 0 {
        seq![]
    } else if trimmed(lines[0]) == HOSTS_BEGIN@ {
        outside_block(lines.drop_first(), true)
    } else if in_block {
        outside_block(lines.drop_first(), trimmed(lines[0]) != HOSTS_END@)
    } else {
        seq![lines[0]] + outside_block(lines.drop_first(), false)
    }
}

/// A text without the managed block and its markers.
pub open spec fn stripped(text: Seq<char>) -> Seq<char> {
    unlines(outside_block(lines_of(text), false))
}

/// One entry of the block: an address and a name.
pub open spec fn entry_text(entry: (IpView, Seq<char>)) -> Seq<char> {
    (ip_text(entry.0).push('\t') + entry.1).push('\n')
}

/// The entries of the block.
pub open spec fn entries_text(entries: Seq<(IpView, Seq<char>)>) -> Seq<char>
    decreases entries.len(),
{
    if entries.len() == 0 {
        seq![]
    } else {
        entries_text(entries.drop_last()) + entry_text(entries.last())
    }
}

/// The managed block, markers and all; nothing when there are no entries.
pub open spec fn block_text(entries: Seq<(IpView, Seq<char>)>) -> Seq<char> {
    if entries.len() == 0 {
        seq![]
    } else {
        HOSTS_BEGIN@.push('\n') + entries_text(entries) + HOSTS_END@.push('\n')
    }
}

/// A hosts file with its managed block holding exactly `entries`.
pub open spec fn hosts_text(current: Seq<char>, entries: Seq<(IpView, Seq<char>)>) -> Seq<char> {
    stripped(current) + block_text(entries)
}

/// The views of a sequence of entries.
pub open spec fn entry_views(entries: Seq<(IpAddr, String)>) -> Seq<(IpView, Seq<char>)> {
    Seq::new(entries.len(), |i: int| (entries[i].0@, entries[i].1@))
}

/// What a hosts file that holds `current` has to hold for its managed block to
/// be exactly `entries`. With no entries the block goes, which is how names
/// left by a crashed run are cleaned up.
pub fn sync_hosts(current: &str, entries: &[(IpAddr, String)]) -> (out: String)
    ensures
        out@ == hosts_text(current@, entry_views(entries@)),
{
    let ghost all = entry_views(entries@);
    let mut out = strip_block(current);
    if entries.len() > 0 {
        out.append(HOSTS_BEGIN);
        out.push('\n');
        let ghost head = out@;
        let mut i: usize = 0;
        assert(all.take(0) =~= Seq::<(IpView, Seq<char>)>::empty());
        assert(head + entries_text(all.take(0)) =~= head);
        while i < entries.len()
            invariant
                i <= entries@.len(),
                all == entry_views(entries@),
                out@ == head + entries_text(all.take(i as int)),
            decreases entries@.len() - i,
        {
            let ghost before = out@;
            out.append(entries[i].0.to_string().as_str());
            out.push('\t');
            out.append(entries[i].1.as_str());
            out.push('\n');
            proof {
                let next = all.take(i + 1);
                assert(next.drop_last() =~= all.take(i as int));
                assert(next.last() == all[i as int]);
                assert(out@ =~= before + entry_text(all[i as int]));
                assert(out@ =~= head + entries_text(next));
            }
            i = i + 1;
        }
        assert(all.take(entries@.len() as int) =~= all);
        out.append(HOSTS_END);
        out.push('\n');
        assert(out@ =~= hosts_text(current@, all));
    } else {
        assert(out@ =~= hosts_text(current@, all));
    }
    out
}

/// Return `text` with the managed block (and its markers) removed.
pub fn strip_block(text: &str) -> (out: String)
    ensures
        out@ == stripped(text@),
{
    let ls = lines(text);
    let ghost all = texts(ls@);
    let mut out = String::new();
    let mut in_block: bool = false;
    let mut i: usize = 0;
    assert(all.skip(0) =~= all);
    assert(out@ + unlines(outside_block(all, false)) =~= stripped(text@));
    while i < ls.len()
        invariant
            i <= ls@.len(),
            all == texts(ls@),
            out@ + unlines(outside_block(all.skip(i as int), in_block)) == stripped(text@),
        decreases ls@.len() - i,
    {
        let ghost rest = all.skip(i as int);
        let ghost before = out@;
        assert(rest[0] == ls@[i as int]@);
        assert(rest.drop_first() =~= all.skip(i + 1));
        let t = trim(ls[i].as_str());
        if same_text(t.as_str(), HOSTS_BEGIN) {
            in_block = true;
        } else if in_block {
            if same_text(t.as_str(), HOSTS_END) {
                in_block = false;
            }
        } else {
            out.append(ls[i].as_str());
            out.push('\n');
            proof {
                let tail = outside_block(rest.drop_first(), false);
                let kept = seq![rest[0]] + tail;
                assert(kept.drop_first() =~= tail);
                assert(before + unlines(kept) =~= out@ + unlines(tail));
            }
        }
        i = i + 1;
    }
    assert(all.skip(ls@.len() as int) =~= Seq::<Seq<char>>::empty());
    assert(outside_block(all.skip(ls@.len() as int), in_block) =~= Seq::<Seq<char>>::empty());
    assert(out@ =~= stripped(text@));
    out
}

// -------------------------------------------------------------- persistence

/// A projected surface, persisted next to the daemon key so it survives a
/// restart. Keyed by the text of the peer's key.
#[derive(Clone, Debug, PartialEq, Eq)]
pub struct SurfaceRecord {
    pub key: String,
    pub ip: IpAddr,
    pub name: Option<String>,
}

/// A record as plain values.
pub struct RecordView {
    pub key: Seq<char>,
    pub ip: IpView,
    pub name: Option<Seq<char>>,
}

impl View for SurfaceRecord {
    type V = RecordView;

    open spec fn view(&self) -> RecordView {
        RecordView { key: self.key@, ip: self.ip@, name: opt_text(self.name) }
    }
}

/// The views of a sequence of records.
pub open spec fn record_views(records: Seq<SurfaceRecord>) -> Seq<RecordView> {
    Seq::new(records.len(), |i: int| records[i]@)
}

/// Keeps the records of every other key.
pub open spec fn record_of_other(key: Seq<char>) -> spec_fn(RecordView) -> bool {
    |r: RecordView| r.key != key
}

/// Surfaces persisted across restarts, in the file at `path`. The shell reads
/// the file and writes it back; what it holds afterwards is decided here.
#[derive(Debug)]
pub struct SurfaceStore {
    pub path: String,
}

impl SurfaceStore {
    /// The surfaces kept at `path`.
    pub fn new(path: String) -> (r: SurfaceStore)
        ensures
            r.path == path,
    {
        SurfaceStore { path }
    }

    /// What to write when the peer with `key` is projected and the file holds
    /// `records`: one record for that key, behind those of every other.
    pub fn add(
        &self,
        records: Vec<SurfaceRecord>,
        key: &str,
        ip: IpAddr,
        name: Option<String>,
    ) -> (r: Vec<SurfaceRecord>)
        ensures
            record_views(r@) == record_views(records@).filter(record_of_other(key@)).push(
                RecordView { key: key@, ip: ip@, name: opt_text(name) },
            ),
    {
        let mut out = self.remove(records, key);
        let ghost before = out@;
        out.push(SurfaceRecord { key: key.to_owned(), ip, name });
        assert(record_views(out@) =~= record_views(before).push(
            RecordView { key: key@, ip: ip@, name: opt_text(name) },
        ));
        out
    }

    /// What to write when the peer with `key` is no longer projected and the
    /// file holds `records`.
    pub fn remove(&self, records: Vec<SurfaceRecord>, key: &str) -> (r: Vec<SurfaceRecord>)
        ensures
            record_views(r@) == record_views(records@).filter(record_of_other(key@)),
    {
        let ghost all = record_views(records@);
        let mut out: Vec<SurfaceRecord> = Vec::new();
        proof {
            reveal(Seq::filter);
            assert(record_views(out@) =~= all.take(0).filter(record_of_other(key@)));
        }
        for r in it: records
            invariant
                it.seq() == records@,
                all == record_views(records@),
                record_views(out@) == all.take(it.index()).filter(record_of_other(key@)),
        {
            let ghost before = out@;
            proof {
                lemma_filter_step(all, record_of_other(key@), it.index());
                assert(all[it.index()] == r@);
            }
            if !same_text(r.key.as_str(), key) {
                out.push(r);
                assert(record_views(out@) =~= record_views(before).push(r@));
            }
        }
        assert(all.take(records@.len() as int) =~= all);
        out
    }
}

// --------------------------------------------------------------------- laws

/// No line outside the block ends in a carriage return of its own.
pub open spec fn keeps_line_ends(text: Seq<char>) -> bool {
    let kept = outside_block(lines_of(text), false);
    forall|i: int| 0 <= i < kept.len() ==> chomp(#[trigger] kept[i]) == kept[i]
}

/// Whether the block with these entries is one block again when it is read: no
/// name in it ends it early.
pub open spec fn is_one_block(entries: Seq<(IpView, Seq<char>)>) -> bool {
    outside_block(lines_of(block_text(entries)), false).len() == 0
}

/// No line that the entry is written as reads as the end of the block.
spec fn is_plain_entry(entry: (IpView, Seq<char>)) -> bool {
    let ls = lines_of(entry_text(entry));
    forall|i: int| 0 <= i < ls.len() ==> trimmed(#[trigger] ls[i]) != HOSTS_END@
}

/// Lines that do not open the block are kept outside it.
proof fn lemma_outside_keeps(kept: Seq<Seq<char>>, rest: Seq<Seq<char>>)
    requires
        forall|i: int| 0 <= i < kept.len() ==> trimmed(#[trigger] kept[i]) != HOSTS_BEGIN@,
    ensures
        outside_block(kept + rest, false) == kept + outside_block(rest, false),
    decreases kept.len(),
{
    if kept.len() == 0 {
        assert(kept + rest =~= rest);
        assert(kept + outside_block(rest, false) =~= outside_block(rest, false));
    } else {
        let tail = kept.drop_first();
        assert forall|i: int| 0 <= i < tail.len() implies trimmed(#[trigger] tail[i]) != HOSTS_BEGIN@ by {
            assert(tail[i] == kept[i + 1]);
        }
        lemma_outside_keeps(tail, rest);
        assert((kept + rest)[0] == kept[0]);
        assert((kept + rest).drop_first() =~= tail + rest);
        assert(outside_block(kept + rest, false) =~= seq![kept[0]] + (tail + outside_block(rest, false)));
        assert(outside_block(kept + rest, false) =~= kept + outside_block(rest, false));
    }
}

/// What is kept are lines of the text that do not open the block.
proof fn lemma_kept_lines(all: Seq<Seq<char>>, in_block: bool)
    ensures
        forall|i: int|
            0 <= i < outside_block(all, in_block).len() ==> trimmed(#[trigger] outside_block(all, in_block)[i])
                != HOSTS_BEGIN@ && all.contains(outside_block(all, in_block)[i]),
    decreases all.len(),
{
    if all.len() > 0 {
        let rest = all.drop_first();
        lemma_kept_lines(rest, true);
        lemma_kept_lines(rest, false);
        let kept = outside_block(all, in_block);
        assert forall|i: int| 0 <= i < kept.len() implies trimmed(#[trigger] kept[i]) != HOSTS_BEGIN@ && all.contains(
            kept[i],
        ) by {
            if trimmed(all[0]) == HOSTS_BEGIN@ {
                assert(kept[i] == outside_block(rest, true)[i]);
                lemma_drop_first_contains(all, kept[i]);
            } else if in_block && trimmed(all[0]) != HOSTS_END@ {
                assert(kept[i] == outside_block(rest, true)[i]);
                lemma_drop_first_contains(all, kept[i]);
            } else if in_block {
                assert(kept[i] == outside_block(rest, false)[i]);
                lemma_drop_first_contains(all, kept[i]);
            } else if i > 0 {
                assert(kept[i] == outside_block(rest, false)[i - 1]);
                lemma_drop_first_contains(all, kept[i]);
            } else {
                assert(kept[0] == all[0]);
            }
        }
    }
}

proof fn lemma_drop_first_contains(all: Seq<Seq<char>>, x: Seq<char>)
    requires
        all.len() > 0,
    ensures
        all.drop_first().contains(x) ==> all.contains(x),
{
    if all.drop_first().contains(x) {
        let i = choose|i: int| 0 <= i < all.drop_first().len() && all.drop_first()[i] == x;
        assert(all[i + 1] == x);
    }
}

/// Inside the block nothing is kept up to the line that ends it.
proof fn lemma_inside_drops(inner: Seq<Seq<char>>, end: Seq<char>)
    requires
        forall|i: int| 0 <= i < inner.len() ==> trimmed(#[trigger] inner[i]) != HOSTS_END@,
        trimmed(end) == HOSTS_END@,
        HOSTS_END@ != HOSTS_BEGIN@,
    ensures
        outside_block(inner.push(end), true) == Seq::<Seq<char>>::empty(),
    decreases inner.len(),
{
    let all = inner.push(end);
    if inner.len() == 0 {
        assert(all.drop_first() =~= Seq::<Seq<char>>::empty());
        assert(outside_block(all.drop_first(), false) =~= Seq::<Seq<char>>::empty());
    } else {
        let tail = inner.drop_first();
        assert forall|i: int| 0 <= i < tail.len() implies trimmed(#[trigger] tail[i]) != HOSTS_END@ by {
            assert(tail[i] == inner[i + 1]);
        }
        lemma_inside_drops(tail, end);
        assert(all[0] == inner[0]);
        assert(all.drop_first() =~= tail.push(end));
    }
}

/// The markers are lines of their own, with nothing to trim.
proof fn lemma_markers()
    ensures
        HOSTS_BEGIN@ != HOSTS_END@,
        trimmed(HOSTS_BEGIN@) == HOSTS_BEGIN@,
        trimmed(HOSTS_END@) == HOSTS_END@,
        is_line(HOSTS_BEGIN@),
        is_line(HOSTS_END@),
        HOSTS_END@.len() > 0,
        HOSTS_END@[0] == '#',
{
    reveal_strlit("# BEGIN pai-sho (managed, do not edit)");
    reveal_strlit("# END pai-sho");
    crate::text::lemma_trimmed_is_same(HOSTS_BEGIN@);
    crate::text::lemma_trimmed_is_same(HOSTS_END@);
}

/// Entries end their lines, and none of those reads as the end of the block.
proof fn lemma_entries(entries: Seq<(IpView, Seq<char>)>)
    requires
        forall|i: int| 0 <= i < entries.len() ==> is_plain_entry(#[trigger] entries[i]),
    ensures
        entries_text(entries).len() == 0 || entries_text(entries).last() == '\n',
        forall|i: int|
            0 <= i < lines_of(entries_text(entries)).len() ==> trimmed(#[trigger] lines_of(entries_text(entries))[i])
                != HOSTS_END@,
    decreases entries.len(),
{
    if entries.len() > 0 {
        let init = entries.drop_last();
        assert forall|i: int| 0 <= i < init.len() implies is_plain_entry(#[trigger] init[i]) by {
            assert(init[i] == entries[i]);
        }
        lemma_entries(init);
        let e = entry_text(entries.last());
        assert(is_plain_entry(entries[entries.len() - 1]));
        lemma_lines_concat(entries_text(init), e);
        let (a, b) = (lines_of(entries_text(init)), lines_of(e));
        let all = lines_of(entries_text(entries));
        assert(all == a + b);
        assert forall|i: int| 0 <= i < all.len() implies trimmed(#[trigger] all[i]) != HOSTS_END@ by {
            if i < a.len() {
                assert(all[i] == a[i]);
            } else {
                assert(all[i] == b[i - a.len()]);
            }
        }
        assert(entries_text(entries).last() == e.last());
    }
}

/// Plain entries make one block.
proof fn lemma_plain_entries(entries: Seq<(IpView, Seq<char>)>)
    requires
        forall|i: int| 0 <= i < entries.len() ==> is_plain_entry(#[trigger] entries[i]),
    ensures
        is_one_block(entries),
{
    if entries.len() == 0 {
        assert(lines_of(block_text(entries)) =~= Seq::<Seq<char>>::empty());
    } else {
        lemma_markers();
        lemma_entries(entries);
        let begin = HOSTS_BEGIN@.push('\n');
        let body = entries_text(entries);
        let end = HOSTS_END@.push('\n');
        lemma_one_line(HOSTS_BEGIN@);
        lemma_one_line(HOSTS_END@);
        assert(block_text(entries) =~= begin + (body + end));
        lemma_lines_concat(begin, body + end);
        lemma_lines_concat(body, end);
        let inner = lines_of(body);
        let all = lines_of(block_text(entries));
        assert(all =~= seq![HOSTS_BEGIN@] + inner.push(HOSTS_END@));
        lemma_inside_drops(inner, HOSTS_END@);
        assert(all[0] == HOSTS_BEGIN@);
        assert(all.drop_first() =~= inner.push(HOSTS_END@));
    }
}

/// Writing the block leaves every other line of the file as it was, and a later
/// write finds exactly those again.
pub proof fn law_rest_is_intact(text: Seq<char>, entries: Seq<(IpView, Seq<char>)>)
    requires
        keeps_line_ends(text),
        is_one_block(entries),
    ensures
        outside_block(lines_of(hosts_text(text, entries)), false) == outside_block(lines_of(text), false),
        stripped(hosts_text(text, entries)) == stripped(text),
{
    let kept = outside_block(lines_of(text), false);
    lemma_kept_lines(lines_of(text), false);
    lemma_lines_hold_no_end(text);
    assert forall|i: int| 0 <= i < kept.len() implies is_line(#[trigger] kept[i]) by {
        assert(lines_of(text).contains(kept[i]));
        let j = choose|j: int| 0 <= j < lines_of(text).len() && lines_of(text)[j] == kept[i];
        assert(!lines_of(text)[j].contains('\n'));
        assert(chomp(kept[i]) == kept[i]);
    }
    lemma_lines_of_unlines(kept);
    lemma_lines_concat(stripped(text), block_text(entries));
    lemma_outside_keeps(kept, lines_of(block_text(entries)));
    assert(kept + outside_block(lines_of(block_text(entries)), false) =~= kept);
}

/// A second write replaces the block rather than stacking another one.
pub proof fn law_resync_replaces_the_block(
    text: Seq<char>,
    first: Seq<(IpView, Seq<char>)>,
    second: Seq<(IpView, Seq<char>)>,
)
    requires
        keeps_line_ends(text),
        is_one_block(first),
    ensures
        hosts_text(hosts_text(text, first), second) == hosts_text(text, second),
{
    law_rest_is_intact(text, first);
}

/// Emptying removes the block and leaves the rest.
pub proof fn law_emptying_removes_the_block(text: Seq<char>, entries: Seq<(IpView, Seq<char>)>)
    requires
        keeps_line_ends(text),
        is_one_block(entries),
    ensures
        hosts_text(hosts_text(text, entries), Seq::<(IpView, Seq<char>)>::empty()) == stripped(text),
        forall|i: int|
            0 <= i < outside_block(lines_of(text), false).len() ==> trimmed(
                #[trigger] outside_block(lines_of(text), false)[i],
            ) != HOSTS_BEGIN@,
{
    law_rest_is_intact(text, entries);
    lemma_kept_lines(lines_of(text), false);
    assert(hosts_text(hosts_text(text, entries), Seq::<(IpView, Seq<char>)>::empty()) =~= stripped(text));
}

/// Writing a record replaces the one of that key and leaves every other in its
/// place; dropping it leaves what dropping it before would have left.
pub proof fn law_one_record_for_each_key(records: Seq<RecordView>, record: RecordView)
    ensures
        ({
            let written = records.filter(record_of_other(record.key)).push(record);
            &&& written.last() == record
            &&& written.filter(record_of_other(record.key)) == records.filter(record_of_other(record.key))
            &&& forall|i: int|
                0 <= i < written.len() - 1 ==> (#[trigger] written[i]).key != record.key
        }),
{
    broadcast use vstd::seq_lib::group_filter_ensures;

    let keep = record_of_other(record.key);
    let others = records.filter(keep);
    lemma_filter_drops_last(others, keep, record);
    lemma_filter_again(records, keep);
    let written = others.push(record);
    assert forall|i: int| 0 <= i < written.len() - 1 implies (#[trigger] written[i]).key != record.key by {
        assert(keep(others[i]));
    }
}

/// Whether an address has the parts that an address has.
pub open spec fn is_address(ip: IpView) -> bool {
    match ip {
        IpView::V4(o) => o.len() == 4,
        IpView::V6(s) => s.len() == 8,
    }
}

/// Names that stand on one line each make one block, whatever else they hold.
pub proof fn law_one_line_names_make_one_block(entries: Seq<(IpView, Seq<char>)>)
    requires
        forall|i: int|
            0 <= i < entries.len() ==> is_address((#[trigger] entries[i]).0) && !entries[i].1.contains('\n'),
    ensures
        is_one_block(entries),
{
    assert forall|i: int| 0 <= i < entries.len() implies is_plain_entry(#[trigger] entries[i]) by {
        lemma_one_line_name(entries[i].0, entries[i].1);
    }
    lemma_plain_entries(entries);
}

/// A name on one line makes a plain entry, at any address.
proof fn lemma_one_line_name(ip: IpView, name: Seq<char>)
    requires
        is_address(ip),
        !name.contains('\n'),
    ensures
        is_plain_entry((ip, name)),
{
    crate::addr::lemma_ip_text(ip);
    lemma_markers();
    let a = ip_text(ip);
    let line = a.push('\t') + name;
    assert(!line.contains('\n')) by {
        if line.contains('\n') {
            let i = choose|i: int| 0 <= i < line.len() && line[i] == '\n';
            if i < a.len() {
                assert(a[i] == '\n');
            } else if i > a.len() {
                assert(name[i - a.len() - 1] == '\n');
            }
        }
    }
    lemma_one_line(line);
    let l = chomp(line);
    assert(l.len() > 0 && l[0] == a[0]);
    lemma_trim_end_keeps_first(l);
}

proof fn lemma_trim_end_keeps_first(s: Seq<char>)
    requires
        s.len() > 0,
        !is_space(s[0]),
    ensures
        trimmed(s).len() > 0,
        trimmed(s)[0] == s[0],
    decreases s.len(),
{
    if is_space(s.last()) {
        assert(s.len() > 1);
        lemma_trim_end_keeps_first(s.drop_last());
        assert(s.drop_last()[0] == s[0]);
    }
}

/// An address that was allocated was free, and is never the stock one; there is
/// none only when all are taken.
pub proof fn law_allocation_is_free(taken: Seq<IpView>, base: Seq<u8>)
    ensures
        match free_address(taken, base) {
            Some(ip) => !taken.contains(ip) && !is_stock(ip),
            None => forall|h: u8| FIRST_HOST <= h <= LAST_HOST ==> taken.contains(#[trigger] host_at(base, h)),
        },
{
    match free_address(taken, base) {
        Some(_) => {
            let host = choose|host: u8| is_lowest_free(taken, base, host);
            assert(host_at(base, host)->V4_0[3] == host);
            assert(v4(127, 0, 0, 1)->V4_0[3] == 1);
        },
        None => {
            assert forall|h: u8| FIRST_HOST <= h <= LAST_HOST implies taken.contains(#[trigger] host_at(base, h)) by {
                lemma_all_taken(taken, base, h);
            }
        },
    }
}

/// Without a lowest free host, every host is taken.
proof fn lemma_all_taken(taken: Seq<IpView>, base: Seq<u8>, h: u8)
    requires
        forall|host: u8| !is_lowest_free(taken, base, host),
        FIRST_HOST <= h <= LAST_HOST,
    ensures
        forall|g: u8| FIRST_HOST <= g <= h ==> taken.contains(#[trigger] host_at(base, g)),
    decreases h,
{
    if h > FIRST_HOST {
        lemma_all_taken(taken, base, (h - 1) as u8);
    }
    assert(!is_lowest_free(taken, base, h));
}

/// Writing or dropping the record of one key keeps every record of every other
/// key, and none of that key.
pub proof fn law_other_records_stay(records: Seq<RecordView>, key: Seq<char>, r: RecordView)
    ensures
        records.filter(record_of_other(key)).contains(r) <==> records.contains(r) && r.key != key,
{
    lemma_filter_holds(records, record_of_other(key), r);
}

/// Lines outside a managed block stay, all of them and in their order: a file
/// without a block is kept whole, and of one with a block exactly the block
/// goes, markers and all. A block that is never closed reaches to the end.
pub proof fn law_lines_outside_the_block_stay(
    above: Seq<Seq<char>>,
    begin: Seq<char>,
    inner: Seq<Seq<char>>,
    end: Seq<char>,
    below: Seq<Seq<char>>,
)
    requires
        forall|i: int| 0 <= i < above.len() ==> trimmed(#[trigger] above[i]) != HOSTS_BEGIN@,
        trimmed(begin) == HOSTS_BEGIN@,
        forall|i: int| 0 <= i < inner.len() ==> trimmed(#[trigger] inner[i]) != HOSTS_END@,
        trimmed(end) == HOSTS_END@,
        forall|i: int| 0 <= i < below.len() ==> trimmed(#[trigger] below[i]) != HOSTS_BEGIN@,
    ensures
        outside_block(above, false) == above,
        outside_block(above + seq![begin] + inner + seq![end] + below, false) == above + below,
        outside_block(above + seq![begin] + inner, false) == above,
{
    let none = Seq::<Seq<char>>::empty();
    lemma_markers();
    lemma_outside_keeps(above, none);
    assert(above + none =~= above);
    assert(outside_block(none, false) =~= none);
    let closed = seq![begin] + (inner.push(end) + below);
    assert(above + seq![begin] + inner + seq![end] + below =~= above + closed);
    lemma_outside_keeps(above, closed);
    assert(closed.drop_first() =~= inner.push(end) + below);
    lemma_inside_goes(inner, end, below);
    lemma_outside_keeps(below, none);
    assert(below + none =~= below);
    let open_ended = seq![begin] + inner;
    assert(above + seq![begin] + inner =~= above + open_ended);
    lemma_outside_keeps(above, open_ended);
    assert(open_ended.drop_first() =~= inner);
    lemma_all_inside(inner);
    assert(above + none =~= above);
}

/// Inside the block nothing is kept up to the line that ends it; what follows is
/// outside.
proof fn lemma_inside_goes(inner: Seq<Seq<char>>, end: Seq<char>, below: Seq<Seq<char>>)
    requires
        forall|i: int| 0 <= i < inner.len() ==> trimmed(#[trigger] inner[i]) != HOSTS_END@,
        trimmed(end) == HOSTS_END@,
        HOSTS_END@ != HOSTS_BEGIN@,
    ensures
        outside_block(inner.push(end) + below, true) == outside_block(below, false),
    decreases inner.len(),
{
    let all = inner.push(end) + below;
    if inner.len() == 0 {
        assert(all[0] == end);
        assert(all.drop_first() =~= below);
    } else {
        let tail = inner.drop_first();
        assert forall|i: int| 0 <= i < tail.len() implies trimmed(#[trigger] tail[i]) != HOSTS_END@ by {
            assert(tail[i] == inner[i + 1]);
        }
        lemma_inside_goes(tail, end, below);
        assert(all[0] == inner[0]);
        assert(all.drop_first() =~= tail.push(end) + below);
    }
}

proof fn lemma_all_inside(inner: Seq<Seq<char>>)
    requires
        forall|i: int| 0 <= i < inner.len() ==> trimmed(#[trigger] inner[i]) != HOSTS_END@,
    ensures
        outside_block(inner, true) == Seq::<Seq<char>>::empty(),
    decreases inner.len(),
{
    if inner.len() > 0 {
        let tail = inner.drop_first();
        assert forall|i: int| 0 <= i < tail.len() implies trimmed(#[trigger] tail[i]) != HOSTS_END@ by {
            assert(tail[i] == inner[i + 1]);
        }
        lemma_all_inside(tail);
    }
}

/// The lines of a hosts file that was written: those outside the block, and
/// then, if there are entries, the block with a line for each entry, in their
/// order, that holds its address, a tab and its name.
pub proof fn law_every_entry_is_written(text: Seq<char>, entries: Seq<(IpView, Seq<char>)>)
    requires
        keeps_line_ends(text),
        forall|i: int| 0 <= i < entries.len() ==> is_address((#[trigger] entries[i]).0) && is_line(entries[i].1),
    ensures
        lines_of(hosts_text(text, entries)) == outside_block(lines_of(text), false) + (if entries.len() == 0 {
            Seq::<Seq<char>>::empty()
        } else {
            seq!["# BEGIN pai-sho (managed, do not edit)"@] + Seq::new(
                entries.len(),
                |i: int| ip_text(entries[i].0) + seq!['\t'] + entries[i].1,
            ) + seq!["# END pai-sho"@]
        }),
{
    let kept = outside_block(lines_of(text), false);
    lemma_kept_lines(lines_of(text), false);
    lemma_lines_hold_no_end(text);
    assert forall|i: int| 0 <= i < kept.len() implies is_line(#[trigger] kept[i]) by {
        assert(lines_of(text).contains(kept[i]));
        let j = choose|j: int| 0 <= j < lines_of(text).len() && lines_of(text)[j] == kept[i];
        assert(!lines_of(text)[j].contains('\n'));
        assert(chomp(kept[i]) == kept[i]);
    }
    lemma_lines_of_unlines(kept);
    lemma_lines_concat(stripped(text), block_text(entries));
    if entries.len() == 0 {
        assert(lines_of(block_text(entries)) =~= Seq::<Seq<char>>::empty());
    } else {
        lemma_markers();
        lemma_entry_lines(entries);
        let begin = HOSTS_BEGIN@.push('\n');
        let body = entries_text(entries);
        let end = HOSTS_END@.push('\n');
        lemma_one_line(HOSTS_BEGIN@);
        lemma_one_line(HOSTS_END@);
        assert(block_text(entries) =~= begin + (body + end));
        lemma_lines_concat(begin, body + end);
        lemma_lines_concat(body, end);
        let inner = Seq::new(entries.len(), |i: int| ip_text(entries[i].0) + seq!['\t'] + entries[i].1);
        assert(lines_of(block_text(entries)) =~= seq![HOSTS_BEGIN@] + inner + seq![HOSTS_END@]);
    }
}

/// Each entry is a line of its own.
proof fn lemma_entry_lines(entries: Seq<(IpView, Seq<char>)>)
    requires
        forall|i: int| 0 <= i < entries.len() ==> is_address((#[trigger] entries[i]).0) && is_line(entries[i].1),
    ensures
        entries_text(entries).len() == 0 || entries_text(entries).last() == '\n',
        lines_of(entries_text(entries)) == Seq::new(
            entries.len(),
            |i: int| ip_text(entries[i].0) + seq!['\t'] + entries[i].1,
        ),
    decreases entries.len(),
{
    let want = Seq::new(entries.len(), |i: int| ip_text(entries[i].0) + seq!['\t'] + entries[i].1);
    if entries.len() == 0 {
        assert(lines_of(entries_text(entries)) =~= want);
    } else {
        let init = entries.drop_last();
        let last = entries.last();
        assert(entries[entries.len() - 1] == last);
        assert forall|i: int| 0 <= i < init.len() implies is_address((#[trigger] init[i]).0) && is_line(init[i].1) by {
            assert(init[i] == entries[i]);
        }
        lemma_entry_lines(init);
        crate::addr::lemma_ip_text(last.0);
        let a = ip_text(last.0);
        let line = a.push('\t') + last.1;
        assert(!line.contains('\n')) by {
            if line.contains('\n') {
                let i = choose|i: int| 0 <= i < line.len() && line[i] == '\n';
                if i < a.len() {
                    assert(a[i] == '\n');
                } else if i > a.len() {
                    assert(last.1[i - a.len() - 1] == '\n');
                }
            }
        }
        assert(chomp(line) == line) by {
            if last.1.len() > 0 {
                assert(line.last() == last.1.last());
            } else {
                assert(line.last() == '\t');
            }
        }
        assert(line =~= a + seq!['\t'] + last.1);
        lemma_one_line(line);
        assert(entry_text(last) =~= line.push('\n'));
        lemma_lines_concat(entries_text(init), entry_text(last));
        assert(lines_of(entries_text(entries)) =~= want);
        assert(entries_text(entries).last() == '\n');
    }
}

/// An address comes up and goes by commands that name that very address, and
/// differ.
pub proof fn law_commands_name_the_address(ip: IpView)
    ensures
        add_args(ip) == seq!["lo0"@, "alias"@, ip_text(ip), "up"@],
        remove_args(ip) == seq!["lo0"@, "-alias"@, ip_text(ip)],
{
}

/// What is allocated is the lowest address of the network, from `.2` to `.254`,
/// that is not taken.
pub proof fn law_allocation_is_the_lowest(taken: Seq<IpView>, base: Seq<u8>)
    ensures
        free_address(taken, base) matches Some(ip) ==> exists|h: u8|
            2 <= h <= 254 && ip == #[trigger] v4(base[0], base[1], base[2], h) && forall|g: u8|
                2 <= g < h ==> taken.contains(#[trigger] v4(base[0], base[1], base[2], g)),
        (exists|h: u8| 2 <= h <= 254 && !taken.contains(#[trigger] v4(base[0], base[1], base[2], h))) ==> free_address(taken, base) is Some,
{
    law_allocation_is_free(taken, base);
    match free_address(taken, base) {
        Some(ip) => {
            let h = choose|h: u8| is_lowest_free(taken, base, h);
            assert(ip == v4(base[0], base[1], base[2], h));
            assert forall|g: u8| 2 <= g < h implies taken.contains(#[trigger] v4(base[0], base[1], base[2], g)) by {
                assert(taken.contains(host_at(base, g)));
            }
        },
        None => {
            assert forall|h: u8| 2 <= h <= 254 implies taken.contains(#[trigger] v4(base[0], base[1], base[2], h)) by {
                assert(taken.contains(host_at(base, h)));
            }
        },
    }
}

}
