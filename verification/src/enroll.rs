//! Enrollment: one-time codes that admit a peer, and the peers pinned by them.
//!
//! A code is claimed at most once and only while it is fresh. An unclaimed code
//! just expires and leaves nothing behind.

use crate::key::{key_of_text, EndpointId};
use crate::order::{lemma_filter_again, lemma_filter_drops_last, lemma_filter_holds, lemma_filter_step};
use crate::text::{copy_opt, hex, opt_text, same_text, to_hex};
use vstd::prelude::*;

verus! {

/// How long a code can be claimed, in milliseconds: five minutes.
pub const CODE_TTL_MS: u64 = 300_000;

/// A point in time on the process's monotonic clock. Opaque: it is only ever
/// asked how long ago it was.
#[verifier::external_type_specification]
#[verifier::external_body]
pub struct ExInstant(std::time::Instant);

/// The current time, from `std::time::Instant::now`. Nothing is known of it.
#[verifier::external_body]
fn start_clock() -> std::time::Instant {
    std::time::Instant::now()
}

/// The whole milliseconds since `start`, from `std::time::Instant::elapsed`.
/// Nothing is known of the number.
#[verifier::external_body]
fn elapsed_ms(start: &std::time::Instant) -> u64 {
    start.elapsed().as_millis() as u64
}

/// Sixteen bytes from `rand::random`. Nothing is known of them.
#[verifier::external_body]
fn random_bytes() -> [u8; 16] {
    rand::random()
}

// -------------------------------------------------------------------- codes

/// What a code stands for until it is claimed.
pub struct CodeView {
    pub name: Option<Seq<char>>,
    pub ports: Seq<u16>,
    pub minted: u64,
}

/// A minted code: what to call the peer that claims it, the ports it is granted,
/// and when the code was minted.
#[derive(Debug)]
struct Code {
    code: String,
    name: Option<String>,
    ports: Vec<u16>,
    minted: u64,
}

impl View for Code {
    type V = CodeView;

    closed spec fn view(&self) -> CodeView {
        CodeView { name: opt_text(self.name), ports: self.ports@, minted: self.minted }
    }
}

/// What a claimed code grants its claimer.
#[derive(PartialEq, Eq, Debug)]
pub struct Claimed {
    pub name: Option<String>,
    pub ports: Vec<u16>,
}

/// The codes that can still be claimed.
#[derive(Debug)]
pub struct Tokens {
    codes: Vec<Code>,
    started: std::time::Instant,
}

/// Whether a code minted at `minted` can be claimed at `now`.
pub open spec fn fresh(minted: u64, now: u64) -> bool {
    now < minted + CODE_TTL_MS
}

/// The codes of `m` that can be claimed at `now`.
pub open spec fn fresh_codes(m: Map<Seq<char>, CodeView>, now: u64) -> Map<Seq<char>, CodeView> {
    Map::new(|c: Seq<char>| m.contains_key(c) && fresh(m[c].minted, now), |c: Seq<char>| m[c])
}

/// Whether `now` is too late for a code minted at `minted`.
fn is_fresh(minted: u64, now: u64) -> (r: bool)
    ensures
        r == fresh(minted, now),
{
    now < minted || now - minted < CODE_TTL_MS
}

impl View for Tokens {
    type V = Map<Seq<char>, CodeView>;

    closed spec fn view(&self) -> Map<Seq<char>, CodeView> {
        Map::new(
            |c: Seq<char>| exists|i: int| 0 <= i < self.codes@.len() && (#[trigger] self.codes@[i]).code@ == c,
            |c: Seq<char>| self.codes@[code_at(self.codes@, c)]@,
        )
    }
}

/// Where `c` stands in `codes`.
spec fn code_at(codes: Seq<Code>, c: Seq<char>) -> int {
    choose|i: int| 0 <= i < codes.len() && (#[trigger] codes[i]).code@ == c
}

impl Tokens {
    /// No code is held twice.
    pub closed spec fn wf(&self) -> bool {
        forall|i: int, j: int|
            0 <= i < j < self.codes@.len() ==> (#[trigger] self.codes@[i]).code@ != (
            #[trigger] self.codes@[j]).code@
    }

    /// When the clock was started. It is never set anew: a code's age is counted
    /// from one and the same point.
    pub closed spec fn clock(&self) -> std::time::Instant {
        self.started
    }

    proof fn lemma_at(&self, i: int)
        requires
            self.wf(),
            0 <= i < self.codes@.len(),
        ensures
            self@.contains_key(self.codes@[i].code@),
            self@[self.codes@[i].code@] == self.codes@[i]@,
    {
        let c = self.codes@[i].code@;
        let k = code_at(self.codes@, c);
        assert(0 <= k < self.codes@.len() && self.codes@[k].code@ == c);
        if k < i {
            assert(self.codes@[k].code@ != self.codes@[i].code@);
        } else if i < k {
            assert(self.codes@[i].code@ != self.codes@[k].code@);
        }
    }

    /// No codes, with the clock started.
    pub fn new() -> (r: Tokens)
        ensures
            r.wf(),
            r@ == Map::<Seq<char>, CodeView>::empty(),
    {
        let r = Tokens { codes: Vec::new(), started: start_clock() };
        assert(r@ =~= Map::<Seq<char>, CodeView>::empty());
        r
    }

    /// The milliseconds since the clock was started.
    pub fn now(&self) -> u64 {
        elapsed_ms(&self.started)
    }

    /// Keeps the codes that can be claimed at `now`, save `code`.
    fn keep_fresh(&mut self, code: &str, now: u64)
        requires
            old(self).wf(),
        ensures
            final(self).wf(),
            final(self).clock() == old(self).clock(),
            final(self)@ == fresh_codes(old(self)@, now).remove(code@),
    {
        let ghost before = *self;
        let ghost all = self.codes@;
        let mut old_codes: Vec<Code> = Vec::new();
        std::mem::swap(&mut old_codes, &mut self.codes);
        let mut kept: Vec<Code> = Vec::new();
        let ghost mut from: Seq<int> = seq![];
        let ghost mut n: int = all.len() as int;
        while old_codes.len() > 0
            invariant
                before.wf(),
                before.codes@ == all,
                n == old_codes@.len(),
                n <= all.len(),
                old_codes@ == all.take(n),
                kept@.len() == from.len(),
                forall|a: int| #![trigger from[a]]
                    0 <= a < from.len() ==> n <= from[a] < all.len() && kept@[a] == all[from[a]],
                forall|a: int, b: int| 0 <= a < b < from.len() ==> #[trigger] from[a] > #[trigger] from[b],
                forall|i: int| #![trigger all[i]]
                    n <= i < all.len() ==> (from.contains(i) <==> all[i].code@ != code@ && fresh(
                        all[i].minted,
                        now,
                    )),
            decreases old_codes@.len(),
        {
            let c = old_codes.pop().unwrap();
            proof {
                n = n - 1;
            }
            assert(c == all[n]);
            let ghost pf = from;
            if !same_text(c.code.as_str(), code) && is_fresh(c.minted, now) {
                kept.push(c);
                proof {
                    from = from.push(n);
                    assert(from[pf.len() as int] == n);
                }
            }
            assert forall|i: int| #![trigger all[i]] n <= i < all.len() implies (from.contains(i)
                <==> all[i].code@ != code@ && fresh(all[i].minted, now)) by {
                if i == n {
                    assert(!pf.contains(n));
                } else {
                    if pf.contains(i) {
                        let x = choose|x: int| 0 <= x < pf.len() && pf[x] == i;
                        assert(from[x] == i);
                    }
                    if from.contains(i) {
                        let x = choose|x: int| 0 <= x < from.len() && from[x] == i;
                        assert(pf[x] == i);
                    }
                }
            }
        }
        self.codes = kept;
        proof {
            assert(self.wf()) by {
                assert forall|i: int, j: int| 0 <= i < j < self.codes@.len() implies (
                #[trigger] self.codes@[i]).code@ != (#[trigger] self.codes@[j]).code@ by {
                    assert(from[i] > from[j]);
                    assert(all[from[j]].code@ != all[from[i]].code@);
                }
            }
            let want = fresh_codes(before@, now).remove(code@);
            assert forall|c: Seq<char>| #[trigger] self@.contains_key(c) <==> want.contains_key(c) by {
                if self@.contains_key(c) {
                    let i = choose|i: int| 0 <= i < self.codes@.len() && (#[trigger] self.codes@[i]).code@ == c;
                    assert(from.contains(from[i]));
                    before.lemma_at(from[i]);
                }
                if want.contains_key(c) {
                    let k = choose|k: int| 0 <= k < all.len() && (#[trigger] all[k]).code@ == c;
                    before.lemma_at(k);
                    assert(from.contains(k));
                    let a = choose|a: int| 0 <= a < from.len() && from[a] == k;
                    assert(self.codes@[a].code@ == c);
                }
            }
            assert forall|c: Seq<char>| #[trigger] self@.contains_key(c) implies self@[c] == want[c] by {
                let i = choose|i: int| 0 <= i < self.codes@.len() && (#[trigger] self.codes@[i]).code@ == c;
                self.lemma_at(i);
                assert(from[i] < all.len());
                before.lemma_at(from[i]);
            }
            assert(self@ =~= want);
        }
    }

    /// Holds `code` from `now` on. Codes that have expired are dropped.
    pub fn mint_at(&mut self, code: String, now: u64, name: Option<String>, ports: Vec<u16>)
        requires
            old(self).wf(),
        ensures
            final(self).wf(),
            final(self).clock() == old(self).clock(),
            final(self)@ == fresh_codes(old(self)@, now).insert(
                code@,
                CodeView { name: opt_text(name), ports: ports@, minted: now },
            ),
    {
        self.keep_fresh(code.as_str(), now);
        let ghost mid = *self;
        let ghost cv = CodeView { name: opt_text(name), ports: ports@, minted: now };
        let ghost c = code@;
        self.codes.push(Code { code, name, ports, minted: now });
        proof {
            let n = mid.codes@.len() as int;
            assert forall|i: int| 0 <= i < n implies (#[trigger] self.codes@[i]).code@ != c by {
                assert(self.codes@[i] == mid.codes@[i]);
                mid.lemma_at(i);
            }
            assert(self.wf());
            self.lemma_at(n);
            let want = mid@.insert(c, cv);
            assert forall|d: Seq<char>| #[trigger] self@.contains_key(d) <==> want.contains_key(d) by {
                if self@.contains_key(d) {
                    let i = choose|i: int| 0 <= i < self.codes@.len() && (#[trigger] self.codes@[i]).code@ == d;
                    if i < n {
                        mid.lemma_at(i);
                    }
                }
                if mid@.contains_key(d) {
                    let i = choose|i: int| 0 <= i < mid.codes@.len() && (#[trigger] mid.codes@[i]).code@ == d;
                    assert(self.codes@[i].code@ == d);
                }
            }
            assert forall|d: Seq<char>| #[trigger] self@.contains_key(d) implies self@[d] == want[d] by {
                let i = choose|i: int| 0 <= i < self.codes@.len() && (#[trigger] self.codes@[i]).code@ == d;
                self.lemma_at(i);
                if i < n {
                    mid.lemma_at(i);
                }
            }
            assert(self@ =~= want);
            assert(want =~= fresh_codes(old(self)@, now).insert(c, cv));
        }
    }

    /// Claims `code` at `now`: it is given up once, and only while it is fresh.
    pub fn claim_at(&mut self, code: &str, now: u64) -> (r: Option<Claimed>)
        requires
            old(self).wf(),
        ensures
            final(self).wf(),
            final(self).clock() == old(self).clock(),
            final(self)@ == fresh_codes(old(self)@, now).remove(code@),
            match r {
                Some(c) => {
                    &&& fresh_codes(old(self)@, now).contains_key(code@)
                    &&& opt_text(c.name) == old(self)@[code@].name
                    &&& c.ports@ == old(self)@[code@].ports
                },
                None => !fresh_codes(old(self)@, now).contains_key(code@),
            },
    {
        let mut found: Option<Claimed> = None;
        let mut i: usize = 0;
        while i < self.codes.len()
            invariant
                i <= self.codes@.len(),
                *self == *old(self),
                self.wf(),
                match found {
                    Some(c) => {
                        &&& fresh_codes(self@, now).contains_key(code@)
                        &&& opt_text(c.name) == self@[code@].name
                        &&& c.ports@ == self@[code@].ports
                    },
                    None => forall|j: int|
                        0 <= j < i ==> (#[trigger] self.codes@[j]).code@ != code@ || !fresh(
                            self.codes@[j].minted,
                            now,
                        ),
                },
            decreases self.codes@.len() - i,
        {
            proof {
                self.lemma_at(i as int);
            }
            if same_text(self.codes[i].code.as_str(), code) && is_fresh(self.codes[i].minted, now) {
                let ports = self.codes[i].ports.clone();
                assert(ports@ =~= self.codes@[i as int].ports@);
                found = Some(Claimed { name: copy_opt(&self.codes[i].name), ports });
            }
            i = i + 1;
        }
        proof {
            if found is None && fresh_codes(self@, now).contains_key(code@) {
                let j = choose|j: int| 0 <= j < self.codes@.len() && (#[trigger] self.codes@[j]).code@ == code@;
                self.lemma_at(j);
            }
        }
        self.keep_fresh(code, now);
        found
    }

    /// Mints a one-time code that nobody can guess: sixteen random bytes in
    /// hexadecimal, claimable from now on.
    pub fn mint(&mut self, name: Option<String>, ports: Vec<u16>) -> (code: String)
        requires
            old(self).wf(),
        ensures
            final(self).wf(),
            final(self).clock() == old(self).clock(),
            exists|bytes: Seq<u8>| bytes.len() == 16 && code@ == #[trigger] hex(bytes),
            exists|now: u64|
                final(self)@ == (#[trigger] fresh_codes(old(self)@, now)).insert(
                    code@,
                    CodeView { name: opt_text(name), ports: ports@, minted: now },
                ),
    {
        let bytes = random_bytes();
        let code = to_hex(bytes.as_slice());
        let now = self.now();
        assert(code@ == hex(bytes@));
        self.mint_at(code.clone(), now, name, ports);
        code
    }
}

// --------------------------------------------------------------------- pins

/// A pin as its texts.
pub struct PinView {
    pub key: Seq<char>,
    pub label: Option<Seq<char>>,
    pub by_code: bool,
}

/// A peer authorized across restarts: its key, what it is called, and how it
/// came to be authorized.
#[derive(PartialEq, Eq, Debug)]
pub struct Pin {
    pub key: String,
    pub label: Option<String>,
    /// Whether it presented a code; else its key was vouched for
    pub by_code: bool,
}

impl View for Pin {
    type V = PinView;

    open spec fn view(&self) -> PinView {
        PinView { key: self.key@, label: opt_text(self.label), by_code: self.by_code }
    }
}

/// The views of a sequence of pins.
pub open spec fn pin_views(pins: Seq<Pin>) -> Seq<PinView> {
    Seq::new(pins.len(), |i: int| pins[i]@)
}

/// Whether two texts are one text or read as one key: a key can be written in
/// more ways than one.
pub open spec fn same_key_text(a: Seq<char>, b: Seq<char>) -> bool {
    a == b || (key_of_text(a) is Some && key_of_text(a) == key_of_text(b))
}

/// Whether two texts are one text or read as one key.
fn is_same_key(a: &str, b: &str) -> (r: bool)
    ensures
        r == same_key_text(a@, b@),
{
    if same_text(a, b) {
        return true;
    }
    match (EndpointId::parse(a), EndpointId::parse(b)) {
        (Ok(x), Ok(y)) => x.same(&y),
        _ => false,
    }
}

/// Keeps the pins of every other key.
pub open spec fn pin_of_other(key: Seq<char>) -> spec_fn(PinView) -> bool {
    |p: PinView| !same_key_text(p.key, key)
}

/// Pins persisted across restarts, in the file at `path`. The shell reads the
/// file and writes it back; what it holds afterwards is decided here.
#[derive(Debug)]
pub struct Pins {
    pub path: String,
}

impl Pins {
    /// The pins kept at `path`.
    pub fn new(path: String) -> (r: Pins)
        ensures
            r.path == path,
    {
        Pins { path }
    }

    /// What to write when `key` is pinned under `label` and the file holds
    /// `pins`: a pin for that key alone replaces any earlier one, however it
    /// was written.
    pub fn add(&self, pins: Vec<Pin>, key: &str, label: Option<String>, by_code: bool) -> (r: Vec<Pin>)
        ensures
            pin_views(r@) == pin_views(pins@).filter(pin_of_other(key@)).push(
                PinView { key: key@, label: opt_text(label), by_code },
            ),
    {
        let mut out = self.remove(pins, key);
        let ghost before = out@;
        out.push(Pin { key: key.to_owned(), label, by_code });
        assert(pin_views(out@) =~= pin_views(before).push(
            PinView { key: key@, label: opt_text(label), by_code },
        ));
        out
    }

    /// What to write when `key` is dropped and the file holds `pins`.
    pub fn remove(&self, pins: Vec<Pin>, key: &str) -> (r: Vec<Pin>)
        ensures
            pin_views(r@) == pin_views(pins@).filter(pin_of_other(key@)),
    {
        let ghost all = pin_views(pins@);
        let mut out: Vec<Pin> = Vec::new();
        proof {
            reveal(Seq::filter);
            assert(pin_views(out@) =~= all.take(0).filter(pin_of_other(key@)));
        }
        for p in it: pins
            invariant
                it.seq() == pins@,
                all == pin_views(pins@),
                pin_views(out@) == all.take(it.index()).filter(pin_of_other(key@)),
        {
            let ghost before = out@;
            proof {
                lemma_filter_step(all, pin_of_other(key@), it.index());
                assert(all[it.index()] == p@);
            }
            if !is_same_key(p.key.as_str(), key) {
                out.push(p);
                assert(pin_views(out@) =~= pin_views(before).push(p@));
            }
        }
        assert(all.take(pins@.len() as int) =~= all);
        out
    }
}

// --------------------------------------------------------------------- laws

/// A code admits at most once: whatever a first claim of it does, a second
/// claim finds nothing, at any time.
pub proof fn law_code_is_single_use(codes: Map<Seq<char>, CodeView>, code: Seq<char>, first: u64, second: u64)
    ensures
        !fresh_codes(fresh_codes(codes, first).remove(code), second).contains_key(code),
{
}

/// A code that has just been minted can be claimed, with what it was minted for.
pub proof fn law_minted_code_is_claimable(
    codes: Map<Seq<char>, CodeView>,
    code: Seq<char>,
    name: Option<Seq<char>>,
    ports: Seq<u16>,
    minted: u64,
    now: u64,
)
    requires
        now < minted + CODE_TTL_MS,
    ensures
        ({
            let after = fresh_codes(codes, minted).insert(code, CodeView { name, ports, minted });
            &&& fresh_codes(after, now).contains_key(code)
            &&& after[code].name == name
            &&& after[code].ports == ports
        }),
{
}

/// An unclaimed code expires five minutes after it was minted.
pub proof fn law_code_expires(
    codes: Map<Seq<char>, CodeView>,
    code: Seq<char>,
    name: Option<Seq<char>>,
    ports: Seq<u16>,
    minted: u64,
    now: u64,
)
    requires
        now >= minted + CODE_TTL_MS,
    ensures
        !fresh_codes(
            fresh_codes(codes, minted).insert(code, CodeView { name, ports, minted }),
            now,
        ).contains_key(code),
{
}

/// Writing a pin replaces the one of that key and leaves every other in its
/// place; dropping it leaves what dropping it before would have left.
pub proof fn law_one_pin_for_each_key(pins: Seq<PinView>, pin: PinView)
    ensures
        ({
            let written = pins.filter(pin_of_other(pin.key)).push(pin);
            &&& written.last() == pin
            &&& written.filter(pin_of_other(pin.key)) == pins.filter(pin_of_other(pin.key))
            &&& forall|i: int| 0 <= i < written.len() - 1 ==> !same_key_text((#[trigger] written[i]).key, pin.key)
        }),
{
    broadcast use vstd::seq_lib::group_filter_ensures;

    let keep = pin_of_other(pin.key);
    let others = pins.filter(keep);
    lemma_filter_drops_last(others, keep, pin);
    lemma_filter_again(pins, keep);
    let written = others.push(pin);
    assert forall|i: int| 0 <= i < written.len() - 1 implies !same_key_text((#[trigger] written[i]).key, pin.key) by {
        assert(keep(others[i]));
    }
}

/// Writing or dropping the pin of one key keeps every pin of every other key, and
/// none of that key, however it was written.
pub proof fn law_other_pins_stay(pins: Seq<PinView>, key: Seq<char>, p: PinView)
    ensures
        pins.filter(pin_of_other(key)).contains(p) <==> pins.contains(p) && p.key != key && !(key_of_text(key) is Some
            && key_of_text(p.key) == key_of_text(key)),
{
    lemma_filter_holds(pins, pin_of_other(key), p);
}

/// A code can be claimed for five minutes, and stands for what it stood for; time
/// alone brings no code about.
pub proof fn law_code_lives_five_minutes(codes: Map<Seq<char>, CodeView>, code: Seq<char>, now: u64)
    ensures
        fresh_codes(codes, now).contains_key(code) <==> codes.contains_key(code) && now < codes[code].minted + 300_000,
        fresh_codes(codes, now).contains_key(code) ==> fresh_codes(codes, now)[code] == codes[code],
{
}

}
