//! The one ascending listing of a set under a strict order.

use vstd::prelude::*;

verus! {

/// A strict order: no two elements each sort before the other, and sorting
/// before is transitive.
pub open spec fn strict_order<T>(lt: spec_fn(T, T) -> bool) -> bool {
    &&& forall|a: T, b: T| #[trigger] lt(a, b) ==> !lt(b, a)
    &&& forall|a: T, b: T, c: T| #[trigger] lt(a, b) && #[trigger] lt(b, c) ==> lt(a, c)
}

/// Every element sorts before all that follow it.
pub open spec fn ascending<T>(s: Seq<T>, lt: spec_fn(T, T) -> bool) -> bool {
    forall|i: int, j: int| #![trigger s[i], s[j]] 0 <= i < j < s.len() ==> lt(s[i], s[j])
}

/// `s` lists the elements of `set` in ascending order, each once.
pub open spec fn lists<T>(s: Seq<T>, set: Set<T>, lt: spec_fn(T, T) -> bool) -> bool {
    &&& ascending(s, lt)
    &&& forall|x: T| #[trigger] s.contains(x) <==> set.contains(x)
}

/// The elements of `set` in ascending order.
pub open spec fn listing<T>(set: Set<T>, lt: spec_fn(T, T) -> bool) -> Seq<T> {
    choose|s: Seq<T>| lists(s, set, lt)
}

/// A set has at most one ascending listing.
pub proof fn lemma_lists_unique<T>(s: Seq<T>, t: Seq<T>, set: Set<T>, lt: spec_fn(T, T) -> bool)
    requires
        strict_order(lt),
        lists(s, set, lt),
        lists(t, set, lt),
    ensures
        s == t,
{
    assert forall|i: int| 0 <= i < s.len() && i < t.len() implies s[i] == t[i] by {
        lemma_same_prefix(s, t, set, lt, i + 1);
    }
    if s.len() < t.len() {
        lemma_not_longer(s, t, set, lt);
    } else if t.len() < s.len() {
        lemma_not_longer(t, s, set, lt);
    }
    assert(s =~= t);
}

proof fn lemma_not_longer<T>(s: Seq<T>, t: Seq<T>, set: Set<T>, lt: spec_fn(T, T) -> bool)
    requires
        strict_order(lt),
        lists(s, set, lt),
        lists(t, set, lt),
        forall|i: int| 0 <= i < s.len() && i < t.len() ==> s[i] == t[i],
    ensures
        s.len() >= t.len(),
{
    if s.len() < t.len() {
        let x = t[s.len() as int];
        assert(t.contains(x));
        assert(s.contains(x));
        let m = choose|m: int| 0 <= m < s.len() && s[m] == x;
        assert(t[m] == x);
        assert(lt(t[m], t[s.len() as int]));
    }
}

proof fn lemma_same_prefix<T>(
    s: Seq<T>,
    t: Seq<T>,
    set: Set<T>,
    lt: spec_fn(T, T) -> bool,
    n: int,
)
    requires
        strict_order(lt),
        lists(s, set, lt),
        lists(t, set, lt),
        0 <= n <= s.len(),
        n <= t.len(),
    ensures
        forall|i: int| 0 <= i < n ==> s[i] == t[i],
    decreases n,
{
    if n > 0 {
        lemma_same_prefix(s, t, set, lt, n - 1);
        let a = s[n - 1];
        let b = t[n - 1];
        assert(s.contains(a) && t.contains(b));
        assert(t.contains(a) && s.contains(b));
        let j = choose|j: int| 0 <= j < t.len() && t[j] == a;
        let m = choose|m: int| 0 <= m < s.len() && s[m] == b;
        if a != b {
            if j < n - 1 {
                assert(s[j] == a);
                assert(lt(s[j], s[n - 1]));
            }
            if m < n - 1 {
                assert(t[m] == b);
                assert(lt(t[m], t[n - 1]));
            }
            assert(lt(t[n - 1], t[j]));
            assert(lt(s[n - 1], s[m]));
        }
    }
}

/// A sequence that lists a set is its listing.
pub proof fn lemma_listing<T>(s: Seq<T>, set: Set<T>, lt: spec_fn(T, T) -> bool)
    requires
        strict_order(lt),
        lists(s, set, lt),
    ensures
        listing(set, lt) == s,
        lists(listing(set, lt), set, lt),
{
    lemma_lists_unique(listing(set, lt), s, set, lt);
}

/// Nothing occurs twice in an ascending sequence.
pub proof fn lemma_ascending_is_distinct<T>(s: Seq<T>, lt: spec_fn(T, T) -> bool)
    requires
        strict_order(lt),
        ascending(s, lt),
    ensures
        s.no_duplicates(),
{
    assert forall|i: int, j: int| 0 <= i < s.len() && 0 <= j < s.len() && i != j implies s[i] != s[j] by {
        if i < j {
            assert(lt(s[i], s[j]));
        } else {
            assert(lt(s[j], s[i]));
        }
    }
}

// ------------------------------------------------------------------- orders

/// The order of port numbers.
pub open spec fn port_order() -> spec_fn(u16, u16) -> bool {
    |a: u16, b: u16| a < b
}

/// The order of keys.
pub open spec fn key_order() -> spec_fn(Seq<u8>, Seq<u8>) -> bool {
    |a: Seq<u8>, b: Seq<u8>| crate::key::key_lt(a, b)
}

/// Port numbers are strictly ordered.
pub proof fn lemma_port_order()
    ensures
        strict_order(port_order()),
{
}

/// Keys are strictly ordered.
pub proof fn lemma_key_order()
    ensures
        strict_order(key_order()),
{
    assert forall|a: Seq<u8>, b: Seq<u8>| #[trigger] key_order()(a, b) implies !key_order()(b, a) by {
        crate::key::lemma_key_lt_asym(a, b);
    }
    assert forall|a: Seq<u8>, b: Seq<u8>, c: Seq<u8>| #[trigger]
        key_order()(a, b) && #[trigger] key_order()(b, c) implies key_order()(a, c) by {
        crate::key::lemma_key_lt_trans(a, b, c);
    }
}

/// The ports of a set below a bound have an ascending listing.
proof fn lemma_ports_below(set: Set<u16>, below: nat) -> (s: Seq<u16>)
    requires
        below <= 0x1_0000,
    ensures
        ascending(s, port_order()),
        forall|p: u16| #[trigger] s.contains(p) <==> set.contains(p) && p < below,
    decreases below,
{
    if below == 0 {
        seq![]
    } else {
        let s = lemma_ports_below(set, (below - 1) as nat);
        let p = (below - 1) as u16;
        if set.contains(p) {
            let t = s.push(p);
            assert forall|i: int, j: int| #![trigger t[i], t[j]] 0 <= i < j < t.len() implies port_order()(t[i], t[j]) by {
                assert(s.contains(s[i]));
                if j < s.len() {
                    assert(port_order()(s[i], s[j]));
                }
            }
            assert forall|q: u16| #[trigger] t.contains(q) <==> set.contains(q) && q < below by {
                if s.contains(q) {
                    let x = choose|x: int| 0 <= x < s.len() && s[x] == q;
                    assert(t[x] == q);
                }
                if q == p {
                    assert(t[s.len() as int] == q);
                }
                if t.contains(q) {
                    let x = choose|x: int| 0 <= x < t.len() && t[x] == q;
                    if x < s.len() {
                        assert(s.contains(s[x]));
                    }
                }
            }
            t
        } else {
            s
        }
    }
}

/// Every set of ports has an ascending listing.
pub proof fn lemma_port_listing(set: Set<u16>)
    ensures
        lists(listing(set, port_order()), set, port_order()),
{
    let l = lemma_ports_below(set, 0x1_0000);
    lemma_port_order();
    assert(lists(l, set, port_order()));
    lemma_listing(l, set, port_order());
}

// ---------------------------------------------------------------- filtering

/// Filtering one more element keeps it at the end, or drops it.
pub proof fn lemma_filter_step<T>(s: Seq<T>, keep: spec_fn(T) -> bool, i: int)
    requires
        0 <= i < s.len(),
    ensures
        s.take(i + 1).filter(keep) == if keep(s[i]) {
            s.take(i).filter(keep).push(s[i])
        } else {
            s.take(i).filter(keep)
        },
{
    reveal(Seq::filter);
    assert(s.take(i + 1).drop_last() =~= s.take(i));
    assert(s.take(i + 1).last() == s[i]);
}

/// Filtering twice is filtering once.
pub proof fn lemma_filter_again<T>(s: Seq<T>, keep: spec_fn(T) -> bool)
    ensures
        s.filter(keep).filter(keep) == s.filter(keep),
    decreases s.len(),
{
    reveal(Seq::filter);
    if s.len() > 0 {
        lemma_filter_again(s.drop_last(), keep);
        let f = s.drop_last().filter(keep);
        if keep(s.last()) {
            assert(f.push(s.last()).drop_last() =~= f);
            assert(f.push(s.last()).last() == s.last());
        }
    }
}

/// Filtering drops an element at the end that is not kept.
pub proof fn lemma_filter_drops_last<T>(s: Seq<T>, keep: spec_fn(T) -> bool, x: T)
    requires
        !keep(x),
    ensures
        s.push(x).filter(keep) == s.filter(keep),
{
    reveal(Seq::filter);
    assert(s.push(x).drop_last() =~= s);
}

/// What filtering leaves is what was there and is kept.
pub proof fn lemma_filter_holds<T>(s: Seq<T>, keep: spec_fn(T) -> bool, x: T)
    ensures
        s.filter(keep).contains(x) <==> s.contains(x) && keep(x),
    decreases s.len(),
{
    reveal(Seq::filter);
    if s.len() > 0 {
        let init = s.drop_last();
        let (a, b) = (init.filter(keep), s.filter(keep));
        lemma_filter_holds(init, keep, x);
        assert(s[s.len() - 1] == s.last());
        if a.contains(x) {
            let i = choose|i: int| 0 <= i < a.len() && a[i] == x;
            assert(b[i] == x);
        }
        if init.contains(x) {
            let i = choose|i: int| 0 <= i < init.len() && init[i] == x;
            assert(s[i] == x);
        }
        if b.contains(x) {
            let i = choose|i: int| 0 <= i < b.len() && b[i] == x;
            if i < a.len() {
                assert(a[i] == x);
            }
        }
        if s.contains(x) && keep(x) {
            let i = choose|i: int| 0 <= i < s.len() && s[i] == x;
            if i < init.len() {
                assert(init[i] == x);
            } else {
                assert(b[a.len() as int] == x);
            }
        }
    }
}

}
