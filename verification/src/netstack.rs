//! The network the daemon owns on a TUN device.
//!
//! The shell runs the device and its sockets. What the stack knows is kept
//! here: which surface name stands for which address, so that the resolver in
//! the stack can answer, and at which addresses and ports it accepts
//! connections.

use crate::addr::Ipv4Addr;
use crate::resolver::{asked_label, asks_for, build_reply, opt_v4, parse_question, question_of, reply_bytes};
use crate::text::{opt_text, same_text};
use vstd::prelude::*;

verus! {

/// A name and the address it stands for.
#[derive(Debug)]
struct NameRow {
    name: String,
    ip: Ipv4Addr,
}

/// An address and a port at which connections are accepted.
#[derive(Debug)]
struct Listener {
    ip: Ipv4Addr,
    port: u16,
}

/// What the stack knows, as plain values.
#[verifier::ext_equal]
pub struct StackView {
    /// surface name -> address, for the resolver in the stack
    pub names: Map<Seq<char>, Seq<u8>>,
    /// where connections are accepted
    pub listeners: Set<(Seq<u8>, u16)>,
}

/// What the stack knows.
#[derive(Debug)]
pub struct NetStack {
    /// No name occurs twice.
    names: Vec<NameRow>,
    /// No address and port occur twice.
    listeners: Vec<Listener>,
}

/// The names of `m` that do not stand for `ip`.
pub open spec fn names_without(m: Map<Seq<char>, Seq<u8>>, ip: Seq<u8>) -> Map<Seq<char>, Seq<u8>> {
    Map::new(|n: Seq<char>| m.contains_key(n) && m[n] != ip, |n: Seq<char>| m[n])
}

/// The stack after a surface was added: its name, if it has one, stands for its
/// address.
pub open spec fn after_add_surface(s: StackView, ip: Seq<u8>, name: Option<Seq<char>>) -> StackView {
    match name {
        Some(n) => StackView { names: s.names.insert(n, ip), ..s },
        None => s,
    }
}

/// The stack after a surface was removed: no name stands for its address.
pub open spec fn after_remove_surface(s: StackView, ip: Seq<u8>) -> StackView {
    StackView { names: names_without(s.names, ip), ..s }
}

/// The stack after it began to accept at an address and port.
pub open spec fn after_listen(s: StackView, ip: Seq<u8>, port: u16) -> StackView {
    StackView { listeners: s.listeners.insert((ip, port)), ..s }
}

/// The stack after it ceased to accept at an address and port.
pub open spec fn after_unlisten(s: StackView, ip: Seq<u8>, port: u16) -> StackView {
    StackView { listeners: s.listeners.remove((ip, port)), ..s }
}

/// The address a name stands for.
pub open spec fn lookup_in(m: Map<Seq<char>, Seq<u8>>, label: Seq<char>) -> Option<Seq<u8>> {
    if m.contains_key(label) {
        Some(m[label])
    } else {
        None
    }
}

spec fn name_at(rows: Seq<NameRow>, name: Seq<char>, i: int) -> bool {
    0 <= i < rows.len() && rows[i].name@ == name
}

spec fn names_map(rows: Seq<NameRow>) -> Map<Seq<char>, Seq<u8>> {
    Map::new(
        |n: Seq<char>| exists|i: int| name_at(rows, n, i),
        |n: Seq<char>| rows[choose|i: int| name_at(rows, n, i)].ip@,
    )
}

spec fn distinct_names(rows: Seq<NameRow>) -> bool {
    forall|i: int, j: int| #![trigger rows[i], rows[j]] 0 <= i < j < rows.len() ==> rows[i].name@ != rows[j].name@
}

/// A row of distinct rows is what the map holds under its name.
proof fn lemma_names_map(rows: Seq<NameRow>, i: int)
    requires
        distinct_names(rows),
        0 <= i < rows.len(),
    ensures
        names_map(rows).contains_key(rows[i].name@),
        names_map(rows)[rows[i].name@] == rows[i].ip@,
{
    let n = rows[i].name@;
    assert(name_at(rows, n, i));
    let j = choose|j: int| name_at(rows, n, j);
    assert(name_at(rows, n, j));
    if i < j {
        assert(rows[i].name@ != rows[j].name@);
    } else if j < i {
        assert(rows[j].name@ != rows[i].name@);
    }
}

spec fn listener_set(rows: Seq<Listener>) -> Set<(Seq<u8>, u16)> {
    Set::new(|l: (Seq<u8>, u16)| exists|i: int| 0 <= i < rows.len() && (#[trigger] rows[i]).ip@ == l.0 && rows[i].port == l.1)
}

impl View for NetStack {
    type V = StackView;

    closed spec fn view(&self) -> StackView {
        StackView { names: names_map(self.names@), listeners: listener_set(self.listeners@) }
    }
}

impl NetStack {
    /// No name occurs twice.
    pub closed spec fn wf(&self) -> bool {
        distinct_names(self.names@)
    }

    /// A stack that knows nothing yet.
    pub fn new() -> (r: NetStack)
        ensures
            r.wf(),
            r@ == (StackView { names: Map::empty(), listeners: Set::empty() }),
    {
        let r = NetStack { names: Vec::new(), listeners: Vec::new() };
        assert(r@ =~= (StackView { names: Map::empty(), listeners: Set::empty() }));
        r
    }

    /// Keeps the names that are neither `name` nor stand for `ip`, where those
    /// are given.
    fn keep_names(&mut self, name: Option<&str>, ip: Option<Ipv4Addr>)
        requires
            old(self).wf(),
        ensures
            final(self).wf(),
            final(self)@.listeners == old(self)@.listeners,
            forall|n: Seq<char>| #[trigger]
                final(self)@.names.contains_key(n) <==> old(self)@.names.contains_key(n) && !(name is Some && name->Some_0@
                    == n) && !(ip is Some && ip->Some_0@ == old(self)@.names[n]),
            forall|n: Seq<char>| #[trigger]
                final(self)@.names.contains_key(n) ==> final(self)@.names[n] == old(self)@.names[n],
    {
        let mut rows: Vec<NameRow> = Vec::new();
        std::mem::swap(&mut rows, &mut self.names);
        let ghost all = rows@;
        let mut kept: Vec<NameRow> = Vec::new();
        let ghost mut from: Seq<int> = seq![];
        for row in it: rows
            invariant
                it.seq() == all,
                distinct_names(all),
                from.len() == kept@.len(),
                forall|x: int| 0 <= x < from.len() ==> 0 <= #[trigger] from[x] < it.index() && kept@[x] == all[from[x]]
                    && stays(all[from[x]], name, ip),
                forall|x: int, y: int| #![trigger from[x], from[y]] 0 <= x < y < from.len() ==> from[x] < from[y],
                forall|i: int| 0 <= i < it.index() && stays(#[trigger] all[i], name, ip) ==> from.contains(i),
        {
            let ghost n = it.index();
            let ghost before = from;
            assert(row == all[n]);
            let named = match name {
                Some(s) => same_text(row.name.as_str(), s),
                None => false,
            };
            let placed = match ip {
                Some(a) => row.ip.same(&a),
                None => false,
            };
            if !named && !placed {
                kept.push(row);
                proof {
                    from = from.push(n);
                    assert(from[before.len() as int] == n);
                    assert forall|i: int| before.contains(i) implies #[trigger] from.contains(i) by {
                        let x = choose|x: int| 0 <= x < before.len() && before[x] == i;
                        assert(from[x] == i);
                    }
                }
            }
        }
        self.names = kept;
        proof {
            let now = kept@;
            assert forall|x: int, y: int| #![trigger now[x], now[y]] 0 <= x < y < now.len() implies now[x].name@
                != now[y].name@ by {
                assert(from[x] < from[y]);
                assert(now[x] == all[from[x]] && now[y] == all[from[y]]);
            }
            assert forall|n: Seq<char>| #[trigger] names_map(now).contains_key(n) implies names_map(all).contains_key(n)
                && names_map(now)[n] == names_map(all)[n] && !(name is Some && name->Some_0@ == n) && !(ip is Some
                && ip->Some_0@ == names_map(all)[n]) by {
                let x = choose|x: int| name_at(now, n, x);
                assert(name_at(now, n, x));
                assert(now[x] == all[from[x]]);
                lemma_names_map(now, x);
                lemma_names_map(all, from[x]);
            }
            assert forall|n: Seq<char>| #[trigger] names_map(all).contains_key(n) && !(name is Some && name->Some_0@ == n)
                && !(ip is Some && ip->Some_0@ == names_map(all)[n]) implies names_map(now).contains_key(n) by {
                let i = choose|i: int| name_at(all, n, i);
                assert(name_at(all, n, i));
                lemma_names_map(all, i);
                assert(stays(all[i], name, ip));
                let x = choose|x: int| 0 <= x < from.len() && from[x] == i;
                assert(name_at(now, n, x));
            }
        }
    }

    /// Record a surface's name for the resolver. The address itself needs no
    /// change to the device, so this is just the name map.
    pub fn add_surface(&mut self, ip: Ipv4Addr, name: Option<String>)
        requires
            old(self).wf(),
        ensures
            final(self).wf(),
            final(self)@ == after_add_surface(old(self)@, ip@, opt_text(name)),
    {
        if let Some(name) = name {
            self.keep_names(Some(name.as_str()), None);
            let ghost kept = self.names@;
            let ghost n = name@;
            let ghost had = self@.names;
            proof {
                assert forall|i: int| 0 <= i < kept.len() implies #[trigger] kept[i].name@ != n by {
                    assert(name_at(kept, kept[i].name@, i));
                    assert(had.contains_key(kept[i].name@));
                }
            }
            self.names.push(NameRow { name, ip });
            proof {
                let now = self.names@;
                let last = kept.len() as int;
                assert(now[last].name@ == n);
                assert(distinct_names(now));
                lemma_names_map(now, last);
                assert forall|m: Seq<char>| m != n && #[trigger] names_map(now).contains_key(m) <==> had.contains_key(m) by {
                    if names_map(now).contains_key(m) && m != n {
                        let i = choose|i: int| name_at(now, m, i);
                        assert(name_at(now, m, i));
                        assert(name_at(kept, m, i));
                    }
                    if had.contains_key(m) {
                        let i = choose|i: int| name_at(kept, m, i);
                        assert(name_at(kept, m, i));
                        assert(name_at(now, m, i));
                    }
                }
                assert forall|m: Seq<char>| #[trigger] had.contains_key(m) implies names_map(now)[m] == had[m] by {
                    let i = choose|i: int| name_at(kept, m, i);
                    assert(name_at(kept, m, i));
                    lemma_names_map(kept, i);
                    lemma_names_map(now, i);
                }
                assert(self@.names =~= old(self)@.names.insert(n, ip@));
            }
        }
    }

    /// Drop the names of the surface at `ip`.
    pub fn remove_surface(&mut self, ip: Ipv4Addr)
        requires
            old(self).wf(),
        ensures
            final(self).wf(),
            final(self)@ == after_remove_surface(old(self)@, ip@),
    {
        self.keep_names(None, Some(ip));
        assert(self@.names =~= names_without(old(self)@.names, ip@));
    }

    /// The address that `label` stands for.
    pub fn lookup(&self, label: &str) -> (r: Option<Ipv4Addr>)
        requires
            self.wf(),
        ensures
            opt_v4(r) == lookup_in(self@.names, label@),
    {
        let mut i: usize = 0;
        while i < self.names.len()
            invariant
                i <= self.names@.len(),
                self.wf(),
                forall|j: int| 0 <= j < i ==> (#[trigger] self.names@[j]).name@ != label@,
            decreases self.names@.len() - i,
        {
            if same_text(self.names[i].name.as_str(), label) {
                proof {
                    lemma_names_map(self.names@, i as int);
                }
                return Some(self.names[i].ip);
            }
            i = i + 1;
        }
        proof {
            if self@.names.contains_key(label@) {
                let j = choose|j: int| name_at(self.names@, label@, j);
                assert(name_at(self.names@, label@, j));
            }
        }
        None
    }

    /// The reply of the resolver in the stack to one query packet, or None if
    /// it is malformed.
    pub fn answer(&self, query: &[u8]) -> (r: Option<Vec<u8>>)
        requires
            self.wf(),
        ensures
            match question_of(query@) {
                None => r is None,
                Some(q) => {
                    &&& r is Some
                    &&& r->Some_0@ == reply_bytes(
                        query@,
                        q.qend,
                        match asked_label(q) {
                            Some(label) => lookup_in(self@.names, label),
                            None => None,
                        },
                    )
                },
            },
    {
        let q = match parse_question(query) {
            Some(q) => q,
            None => {
                return None;
            },
        };
        let answer = match asks_for(&q) {
            Some(label) => self.lookup(label.as_str()),
            None => None,
        };
        Some(build_reply(query, q.qend, answer))
    }

    /// The position of a listener.
    fn find_listener(&self, ip: &Ipv4Addr, port: u16) -> (r: Option<usize>)
        ensures
            match r {
                Some(i) => i < self.listeners@.len() && self.listeners@[i as int].ip@ == ip@ && self.listeners@[i as int].port
                    == port && self@.listeners.contains((ip@, port)),
                None => !self@.listeners.contains((ip@, port)),
            },
    {
        let mut i: usize = 0;
        while i < self.listeners.len()
            invariant
                i <= self.listeners@.len(),
                forall|j: int| 0 <= j < i ==> !((#[trigger] self.listeners@[j]).ip@ == ip@ && self.listeners@[j].port == port),
            decreases self.listeners@.len() - i,
        {
            if self.listeners[i].port == port && self.listeners[i].ip.same(ip) {
                return Some(i);
            }
            i = i + 1;
        }
        None
    }

    /// Start accepting on `ip:port`, feeding each connection to the daemon.
    /// Says whether the shell has anything to start: idempotent per address and
    /// port.
    pub fn listen(&mut self, ip: Ipv4Addr, port: u16) -> (start: bool)
        requires
            old(self).wf(),
        ensures
            final(self).wf(),
            start == !old(self)@.listeners.contains((ip@, port)),
            final(self)@ == after_listen(old(self)@, ip@, port),
    {
        if self.find_listener(&ip, port).is_some() {
            assert(self@.listeners =~= after_listen(old(self)@, ip@, port).listeners);
            return false;
        }
        let ghost before = self.listeners@;
        self.listeners.push(Listener { ip, port });
        proof {
            let now = self.listeners@;
            assert(now[before.len() as int].ip@ == ip@);
            assert forall|l: (Seq<u8>, u16)| #[trigger] listener_set(before).contains(l) implies listener_set(now).contains(l) by {
                let i = choose|i: int| 0 <= i < before.len() && (#[trigger] before[i]).ip@ == l.0 && before[i].port == l.1;
                assert(now[i] == before[i]);
            }
            assert forall|l: (Seq<u8>, u16)| #[trigger] listener_set(now).contains(l) implies listener_set(before).contains(l)
                || l == (ip@, port) by {
                let i = choose|i: int| 0 <= i < now.len() && (#[trigger] now[i]).ip@ == l.0 && now[i].port == l.1;
                if i < before.len() {
                    assert(now[i] == before[i]);
                }
            }
            assert(self@ =~= after_listen(old(self)@, ip@, port));
        }
        true
    }

    /// Stop accepting on `ip:port`. Says whether the shell has anything to stop.
    pub fn unlisten(&mut self, ip: Ipv4Addr, port: u16) -> (stop: bool)
        requires
            old(self).wf(),
        ensures
            final(self).wf(),
            stop == old(self)@.listeners.contains((ip@, port)),
            final(self)@ == after_unlisten(old(self)@, ip@, port),
    {
        let stop = self.find_listener(&ip, port).is_some();
        let mut rows: Vec<Listener> = Vec::new();
        std::mem::swap(&mut rows, &mut self.listeners);
        let ghost all = rows@;
        let mut kept: Vec<Listener> = Vec::new();
        for row in it: rows
            invariant
                it.seq() == all,
                forall|x: int| 0 <= x < kept@.len() ==> listener_set(all).contains(
                    ((#[trigger] kept@[x]).ip@, kept@[x].port),
                ) && (kept@[x].ip@, kept@[x].port) != (ip@, port),
                forall|i: int|
                    0 <= i < it.index() && ((#[trigger] all[i]).ip@, all[i].port) != (ip@, port) ==> listener_set(
                        kept@,
                    ).contains((all[i].ip@, all[i].port)),
        {
            let ghost n = it.index();
            let ghost before = kept@;
            assert(row == all[n]);
            if !(row.port == port && row.ip.same(&ip)) {
                kept.push(row);
                proof {
                    assert(kept@[before.len() as int] == all[n]);
                    assert forall|l: (Seq<u8>, u16)| #[trigger] listener_set(before).contains(l) implies listener_set(
                        kept@,
                    ).contains(l) by {
                        let i = choose|i: int|
                            0 <= i < before.len() && (#[trigger] before[i]).ip@ == l.0 && before[i].port == l.1;
                        assert(kept@[i] == before[i]);
                    }
                }
            }
        }
        self.listeners = kept;
        proof {
            let now = kept@;
            assert forall|l: (Seq<u8>, u16)| #[trigger] listener_set(now).contains(l) <==> listener_set(all).contains(l) && l
                != (ip@, port) by {
                if listener_set(now).contains(l) {
                    let x = choose|x: int| 0 <= x < now.len() && (#[trigger] now[x]).ip@ == l.0 && now[x].port == l.1;
                    assert(listener_set(all).contains((now[x].ip@, now[x].port)));
                }
                if listener_set(all).contains(l) && l != (ip@, port) {
                    let i = choose|i: int| 0 <= i < all.len() && (#[trigger] all[i]).ip@ == l.0 && all[i].port == l.1;
                    assert(listener_set(now).contains((all[i].ip@, all[i].port)));
                }
            }
            assert(self@ =~= after_unlisten(old(self)@, ip@, port));
        }
        stop
    }
}

/// Whether a row is neither named `name` nor at `ip`, where those are given.
spec fn stays(row: NameRow, name: Option<&str>, ip: Option<Ipv4Addr>) -> bool {
    &&& !(name is Some && name->Some_0@ == row.name@)
    &&& !(ip is Some && ip->Some_0@ == row.ip@)
}

// ------------------------------------------------------------------- device

/// How many bytes an interface name may take, with the zero that ends it.
pub const IFNAMSIZ: usize = 16;

/// The length of the request that attaches to a device.
pub const IFREQ_LEN: usize = 40;

/// The device name does not fit into a request.
#[derive(Copy, Clone, PartialEq, Eq, Debug)]
pub struct TunNameTooLong;

impl TunNameTooLong {
    /// What to tell the user.
    pub fn as_str(&self) -> (s: &'static str)
        ensures
            s@ == "tun name too long"@,
    {
        "tun name too long"
    }
}

/// The request that attaches to a device: its name, padded with zeros, and then
/// the flags.
pub open spec fn tun_request_bytes(name: Seq<u8>, flags: Seq<u8>) -> Seq<u8> {
    Seq::new(
        IFREQ_LEN as nat,
        |i: int|
            if i < name.len() {
                name[i]
            } else if IFNAMSIZ <= i < IFNAMSIZ + 2 {
                flags[i - IFNAMSIZ]
            } else {
                0
            },
    )
}

/// The request that attaches to the device `name` with `flags`.
pub fn tun_request(name: &[u8], flags: [u8; 2]) -> (r: Result<[u8; 40], TunNameTooLong>)
    ensures
        match r {
            Ok(req) => name@.len() < IFNAMSIZ && req@ == tun_request_bytes(name@, flags@),
            Err(_) => name@.len() >= IFNAMSIZ,
        },
{
    if name.len() >= IFNAMSIZ {
        return Err(TunNameTooLong);
    }
    let mut req: [u8; 40] = [0; 40];
    let mut i: usize = 0;
    while i < name.len()
        invariant
            i <= name@.len() < IFNAMSIZ,
            forall|j: int| 0 <= j < 40 ==> #[trigger] req@[j] == if j < i {
                name@[j]
            } else {
                0
            },
        decreases name@.len() - i,
    {
        req[i] = name[i];
        i = i + 1;
    }
    req[IFNAMSIZ] = flags[0];
    req[IFNAMSIZ + 1] = flags[1];
    assert(req@ =~= tun_request_bytes(name@, flags@));
    Ok(req)
}

// --------------------------------------------------------------------- laws

/// A surface's name resolves to its address while it is up, and to nothing once
/// it is gone.
pub proof fn law_name_lives_as_long_as_its_surface(s: StackView, ip: Seq<u8>, name: Seq<char>)
    ensures
        lookup_in(after_add_surface(s, ip, Some(name)).names, name) == Some(ip),
        lookup_in(after_remove_surface(after_add_surface(s, ip, Some(name)), ip).names, name) is None,
{
}

/// Ceasing to accept undoes a start, and touches no other listener.
pub proof fn law_unlisten_undoes_listen(s: StackView, ip: Seq<u8>, port: u16)
    requires
        !s.listeners.contains((ip, port)),
    ensures
        after_unlisten(after_listen(s, ip, port), ip, port) == s,
{
    assert(after_unlisten(after_listen(s, ip, port), ip, port) =~= s);
}

/// A surface that comes up, or goes, touches the name and the address of no
/// other, and no listener.
pub proof fn law_other_names_stay(s: StackView, ip: Seq<u8>, name: Option<Seq<char>>, other: Seq<char>)
    ensures
        name != Some(other) ==> lookup_in(after_add_surface(s, ip, name).names, other) == lookup_in(s.names, other),
        lookup_in(s.names, other) != Some(ip) ==> lookup_in(after_remove_surface(s, ip).names, other) == lookup_in(s.names, other),
        lookup_in(s.names, other) == Some(ip) ==> lookup_in(after_remove_surface(s, ip).names, other) is None,
        after_add_surface(s, ip, name).listeners == s.listeners,
        after_remove_surface(s, ip).listeners == s.listeners,
{
}

/// Beginning to accept at an address and port, or ceasing to, changes that alone.
pub proof fn law_other_listeners_stay(s: StackView, ip: Seq<u8>, port: u16, other: (Seq<u8>, u16))
    ensures
        after_listen(s, ip, port).listeners.contains(other) <==> s.listeners.contains(other) || other == (ip, port),
        after_unlisten(s, ip, port).listeners.contains(other) <==> s.listeners.contains(other) && other != (ip, port),
        after_listen(s, ip, port).names == s.names,
        after_unlisten(s, ip, port).names == s.names,
{
}

/// A request for a device is forty bytes: the name, zeros up to the sixteenth
/// byte, the two bytes of the flags, and zeros.
pub proof fn law_device_request_layout(name: Seq<u8>, flags: Seq<u8>, i: int)
    requires
        name.len() < 16,
        flags.len() == 2,
        0 <= i < 40,
    ensures
        tun_request_bytes(name, flags).len() == 40,
        i < name.len() ==> tun_request_bytes(name, flags)[i] == name[i],
        name.len() <= i < 16 || i >= 18 ==> tun_request_bytes(name, flags)[i] == 0,
        i == 16 || i == 17 ==> tun_request_bytes(name, flags)[i] == flags[i - 16],
{
}

}
