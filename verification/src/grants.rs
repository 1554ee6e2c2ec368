//! Directed grants: which port is exposed to which peer.
//!
//! A grant names one port and one key. Nothing is reachable without one, and a
//! grant to one peer says nothing about any other.

use crate::key::{key_has_32_bytes, key_lt, lemma_key_lt_asym, lemma_key_lt_total, lemma_key_lt_trans, EndpointId};
use crate::order::{ascending, lemma_listing, lemma_port_order, listing, lists, port_order, strict_order};
use vstd::prelude::*;

verus! {

/// One grant: `port` may be reached by the holder of `to`.
#[derive(Copy, Clone, PartialEq, Eq, Debug)]
struct Grant {
    port: u16,
    to: EndpointId,
}

impl View for Grant {
    type V = (u16, Seq<u8>);

    closed spec fn view(&self) -> (u16, Seq<u8>) {
        (self.port, self.to@)
    }
}

/// The grants in force.
#[derive(Debug)]
pub struct Grants {
    /// Ascending by port, then by key.
    rows: Vec<Grant>,
}

/// The order of grants: by port, then by key.
pub open spec fn grant_order() -> spec_fn((u16, Seq<u8>), (u16, Seq<u8>)) -> bool {
    |a: (u16, Seq<u8>), b: (u16, Seq<u8>)| a.0 < b.0 || (a.0 == b.0 && key_lt(a.1, b.1))
}

/// Grants are strictly ordered.
pub proof fn lemma_grant_order()
    ensures
        strict_order(grant_order()),
{
    assert forall|a: (u16, Seq<u8>), b: (u16, Seq<u8>)| #[trigger] grant_order()(a, b) implies !grant_order()(b, a) by {
        if a.0 == b.0 {
            lemma_key_lt_asym(a.1, b.1);
        }
    }
    assert forall|a: (u16, Seq<u8>), b: (u16, Seq<u8>), c: (u16, Seq<u8>)| #[trigger]
        grant_order()(a, b) && #[trigger] grant_order()(b, c) implies grant_order()(a, c) by {
        if a.0 == b.0 && b.0 == c.0 {
            lemma_key_lt_trans(a.1, b.1, c.1);
        }
    }
}

/// The rows of a sequence of grants, each key as its bytes.
pub open spec fn grant_views(rows: Seq<(u16, EndpointId)>) -> Seq<(u16, Seq<u8>)> {
    Seq::new(rows.len(), |i: int| (rows[i].0, rows[i].1@))
}

/// The views of the stored rows.
spec fn row_views(rows: Seq<Grant>) -> Seq<(u16, Seq<u8>)> {
    Seq::new(rows.len(), |i: int| rows[i]@)
}

/// The ports granted to `key`.
pub open spec fn ports_to(grants: Set<(u16, Seq<u8>)>, key: Seq<u8>) -> Set<u16> {
    Set::new(|p: u16| grants.contains((p, key)))
}

/// The ports granted to anyone.
pub open spec fn ports_granted(grants: Set<(u16, Seq<u8>)>) -> Set<u16> {
    Set::new(|p: u16| exists|k: Seq<u8>| #[trigger] grants.contains((p, k)))
}

/// The ports granted to `key`, ascending: what that peer is told.
pub open spec fn announced(grants: Set<(u16, Seq<u8>)>, key: Seq<u8>) -> Seq<u16> {
    listing(ports_to(grants, key), port_order())
}

/// What is left of `grants` when `port` is revoked, for one key or for all.
pub open spec fn without(
    grants: Set<(u16, Seq<u8>)>,
    port: u16,
    to: Option<Seq<u8>>,
) -> Set<(u16, Seq<u8>)> {
    Set::new(
        |g: (u16, Seq<u8>)|
            grants.contains(g) && !(g.0 == port && (to is None || to == Some(g.1))),
    )
}

/// What is left of `grants` when everything granted to `key` is revoked.
pub open spec fn without_grantee(grants: Set<(u16, Seq<u8>)>, key: Seq<u8>) -> Set<(u16, Seq<u8>)> {
    Set::new(|g: (u16, Seq<u8>)| grants.contains(g) && g.1 != key)
}

impl View for Grants {
    type V = Set<(u16, Seq<u8>)>;

    closed spec fn view(&self) -> Set<(u16, Seq<u8>)> {
        Set::new(|g: (u16, Seq<u8>)| row_views(self.rows@).contains(g))
    }
}

impl Grants {
    /// The rows are in ascending order, so no grant is stored twice.
    pub closed spec fn wf(&self) -> bool {
        ascending(row_views(self.rows@), grant_order())
    }

    /// Every grant is listed once.
    pub proof fn lemma_all(&self)
        requires
            self.wf(),
        ensures
            lists(listing(self@, grant_order()), self@, grant_order()),
    {
        lemma_grant_order();
        lemma_listing(row_views(self.rows@), self@, grant_order());
    }

    /// No grants.
    pub fn new() -> (r: Grants)
        ensures
            r.wf(),
            r@ == Set::<(u16, Seq<u8>)>::empty(),
    {
        let r = Grants { rows: Vec::new() };
        assert(r@ =~= Set::<(u16, Seq<u8>)>::empty());
        r
    }

    /// Grants `port` to `to`. Granting it again changes nothing.
    pub fn add(&mut self, port: u16, to: EndpointId)
        requires
            old(self).wf(),
        ensures
            final(self).wf(),
            final(self)@ == old(self)@.insert((port, to@)),
    {
        broadcast use key_has_32_bytes;

        let ghost before = row_views(self.rows@);
        let ghost g = (port, to@);
        let row = Grant { port, to };
        let n = self.rows.len();
        let mut i: usize = 0;
        while i < n && (self.rows[i].port < port || (self.rows[i].port == port
            && self.rows[i].to.before(&to)))
            invariant
                i <= n == self.rows@.len(),
                *self == *old(self),
                g == (port, to@),
                forall|j: int| 0 <= j < i ==> grant_order()(#[trigger] self.rows@[j]@, g),
            decreases n - i,
        {
            i = i + 1;
        }
        if i < n && self.rows[i].port == port && self.rows[i].to.same(&to) {
            assert(before[i as int] == g);
            assert(self@ =~= old(self)@.insert(g));
            return;
        }
        proof {
            lemma_grant_order();
            if i < n {
                let r = self.rows@[i as int]@;
                if r.0 == port {
                    lemma_key_lt_total(r.1, to@);
                }
                assert(grant_order()(g, r));
            }
        }
        self.rows.insert(i, row);
        proof {
            let after = row_views(self.rows@);
            assert(after =~= before.insert(i as int, g));
            assert forall|a: int, b: int| 0 <= a < b < after.len() implies grant_order()(
                #[trigger] after[a],
                #[trigger] after[b],
            ) by {
                if a == i {
                    if b > i + 1 {
                        assert(grant_order()(before[i as int], before[b - 1]));
                    }
                } else if b == i {
                    assert(after[a] == self.rows@[a]@);
                    assert(grant_order()(old(self).rows@[a]@, g));
                } else {
                    let x = if a < i { a } else { a - 1 };
                    let y = if b < i { b } else { b - 1 };
                    assert(grant_order()(before[x], before[y]));
                }
            }
            assert forall|h: (u16, Seq<u8>)| #[trigger] after.contains(h) <==> before.contains(h) || h == g by {
                if before.contains(h) {
                    let x = choose|x: int| 0 <= x < before.len() && before[x] == h;
                    let y = if x < i { x } else { x + 1 };
                    assert(after[y] == h);
                }
                if h == g {
                    assert(after[i as int] == h);
                }
                if after.contains(h) {
                    let y = choose|y: int| 0 <= y < after.len() && after[y] == h;
                    if y != i {
                        let x = if y < i { y } else { y - 1 };
                        assert(before[x] == h);
                    }
                }
            }
            assert(self@ =~= old(self)@.insert(g));
        }
    }

    /// Whether `port` is granted to `to`.
    pub fn allows(&self, port: u16, to: &EndpointId) -> (r: bool)
        ensures
            r == self@.contains((port, to@)),
    {
        let mut i: usize = 0;
        while i < self.rows.len()
            invariant
                i <= self.rows@.len(),
                forall|j: int| 0 <= j < i ==> (#[trigger] self.rows@[j])@ != (port, to@),
            decreases self.rows@.len() - i,
        {
            if self.rows[i].port == port && self.rows[i].to.same(to) {
                assert(row_views(self.rows@)[i as int] == (port, to@));
                return true;
            }
            i = i + 1;
        }
        false
    }

    /// Revokes the grants for `port`: one grantee's, or every one of them.
    pub fn remove(&mut self, port: u16, to: Option<EndpointId>)
        requires
            old(self).wf(),
        ensures
            final(self).wf(),
            final(self)@ == without(
                old(self)@,
                port,
                match to {
                    Some(k) => Some(k@),
                    None => None,
                },
            ),
    {
        self.drop_matching(Some(port), to);
        assert(self@ =~= without(
            old(self)@,
            port,
            match to {
                Some(k) => Some(k@),
                None => None,
            },
        ));
    }

    /// Revokes everything granted to `to`.
    pub fn revoke_grantee(&mut self, to: &EndpointId)
        requires
            old(self).wf(),
        ensures
            final(self).wf(),
            final(self)@ == without_grantee(old(self)@, to@),
    {
        self.drop_matching(None, Some(*to));
        assert(self@ =~= without_grantee(old(self)@, to@));
    }

    /// Drops the grants for `port` to `to`, either of which may be left open.
    fn drop_matching(&mut self, port: Option<u16>, to: Option<EndpointId>)
        requires
            old(self).wf(),
        ensures
            final(self).wf(),
            forall|g: (u16, Seq<u8>)| #[trigger]
                final(self)@.contains(g) <==> old(self)@.contains(g) && !matches_spec(g, port, to),
    {
        let ghost before = row_views(self.rows@);
        let mut kept: Vec<Grant> = Vec::new();
        let mut i: usize = 0;
        while i < self.rows.len()
            invariant
                i <= self.rows@.len(),
                *self == *old(self),
                before == row_views(self.rows@),
                ascending(before, grant_order()),
                ascending(row_views(kept@), grant_order()),
                forall|a: int, b: int|
                    0 <= a < kept@.len() && i <= b < before.len() ==> grant_order()(
                        (#[trigger] kept@[a])@,
                        #[trigger] before[b],
                    ),
                forall|a: int|
                    0 <= a < kept@.len() ==> before.contains((#[trigger] kept@[a])@)
                        && !matches_spec(kept@[a]@, port, to),
                forall|b: int|
                    0 <= b < i && !matches_spec(#[trigger] before[b], port, to)
                        ==> row_views(kept@).contains(before[b]),
            decreases self.rows@.len() - i,
        {
            let row = self.rows[i];
            let port_hit = match port {
                Some(p) => p == row.port,
                None => true,
            };
            let to_hit = match to {
                Some(k) => k.same(&row.to),
                None => true,
            };
            assert(before[i as int] == row@);
            if !(port_hit && to_hit) {
                let ghost prev = kept@;
                kept.push(row);
                proof {
                    let pv = row_views(prev);
                    let kv = row_views(kept@);
                    assert(kv =~= pv.push(row@));
                    assert(kv[prev.len() as int] == row@);
                    assert forall|h: (u16, Seq<u8>)| #[trigger] pv.contains(h) implies kv.contains(h) by {
                        let x = choose|x: int| 0 <= x < pv.len() && pv[x] == h;
                        assert(kv[x] == h);
                    }
                    assert forall|a: int, b: int| 0 <= a < b < kv.len() implies grant_order()(
                        #[trigger] kv[a],
                        #[trigger] kv[b],
                    ) by {
                        if b == prev.len() {
                            assert(grant_order()(prev[a]@, before[i as int]));
                        } else {
                            assert(grant_order()(pv[a], pv[b]));
                        }
                    }
                    assert forall|a: int, b: int| 0 <= a < kept@.len() && i + 1 <= b < before.len() implies grant_order()(
                        (#[trigger] kept@[a])@,
                        #[trigger] before[b],
                    ) by {
                        if a == prev.len() {
                            assert(grant_order()(before[i as int], before[b]));
                        } else {
                            assert(kept@[a] == prev[a]);
                        }
                    }
                    assert forall|a: int| 0 <= a < kept@.len() implies before.contains(
                        (#[trigger] kept@[a])@,
                    ) && !matches_spec(kept@[a]@, port, to) by {
                        if a < prev.len() {
                            assert(kept@[a] == prev[a]);
                        }
                    }
                }
            }
            i = i + 1;
        }
        self.rows = kept;
        proof {
            let after = row_views(self.rows@);
            assert forall|g: (u16, Seq<u8>)| #[trigger] self@.contains(g) <==> old(self)@.contains(g)
                && !matches_spec(g, port, to) by {
                if after.contains(g) {
                    let x = choose|x: int| 0 <= x < after.len() && after[x] == g;
                    assert(kept@[x]@ == g);
                }
                if before.contains(g) && !matches_spec(g, port, to) {
                    let x = choose|x: int| 0 <= x < before.len() && before[x] == g;
                    assert(after.contains(before[x]));
                }
            }
        }
    }

    /// The ports granted to `to`, ascending.
    pub fn ports_for(&self, to: &EndpointId) -> (r: Vec<u16>)
        requires
            self.wf(),
        ensures
            r@ == announced(self@, to@),
            lists(r@, ports_to(self@, to@), port_order()),
    {
        let ghost rows = row_views(self.rows@);
        let mut out: Vec<u16> = Vec::new();
        let mut i: usize = 0;
        while i < self.rows.len()
            invariant
                i <= self.rows@.len(),
                self.wf(),
                rows == row_views(self.rows@),
                ascending(out@, port_order()),
                forall|a: int| 0 <= a < out@.len() ==> rows.contains((#[trigger] out@[a], to@)),
                forall|b: int| 0 <= b < i && (#[trigger] rows[b]).1 == to@ ==> out@.contains(rows[b].0),
                forall|a: int, b: int|
                    0 <= a < out@.len() && i <= b < rows.len() && (#[trigger] rows[b]).1 == to@
                        ==> #[trigger] out@[a] < rows[b].0,
            decreases self.rows@.len() - i,
        {
            let row = self.rows[i];
            assert(rows[i as int] == row@);
            if row.to.same(to) {
                let ghost prev = out@;
                out.push(row.port);
                proof {
                    lemma_grant_order();
                    assert(out@[prev.len() as int] == row.port);
                    assert forall|b: int| 0 <= b < i + 1 && (#[trigger] rows[b]).1 == to@ implies out@.contains(
                        rows[b].0,
                    ) by {
                        if b < i {
                            let x = choose|x: int| 0 <= x < prev.len() && prev[x] == rows[b].0;
                            assert(out@[x] == rows[b].0);
                        }
                    }
                    assert forall|a: int, b: int|
                        0 <= a < out@.len() && i + 1 <= b < rows.len() && (#[trigger] rows[b]).1 == to@ implies #[trigger] out@[a]
                        < rows[b].0 by {
                        if a == prev.len() {
                            assert(grant_order()(rows[i as int], rows[b]));
                            if rows[b].0 == row.port {
                                lemma_key_lt_asym(to@, to@);
                            }
                        } else {
                            assert(out@[a] == prev[a]);
                        }
                    }
                }
            }
            i = i + 1;
        }
        proof {
            assert forall|p: u16| #[trigger] out@.contains(p) <==> ports_to(self@, to@).contains(p) by {
                if out@.contains(p) {
                    let x = choose|x: int| 0 <= x < out@.len() && out@[x] == p;
                    assert(rows.contains((out@[x], to@)));
                }
                if self@.contains((p, to@)) {
                    let x = choose|x: int| 0 <= x < rows.len() && rows[x] == (p, to@);
                    assert(out@.contains(rows[x].0));
                }
            }
            lemma_port_order();
            lemma_listing(out@, ports_to(self@, to@), port_order());
        }
        out
    }

    /// Every granted port, ascending, each once.
    pub fn ports(&self) -> (r: Vec<u16>)
        requires
            self.wf(),
        ensures
            r@ == listing(ports_granted(self@), port_order()),
            lists(r@, ports_granted(self@), port_order()),
    {
        let ghost rows = row_views(self.rows@);
        let mut out: Vec<u16> = Vec::new();
        let mut i: usize = 0;
        while i < self.rows.len()
            invariant
                i <= self.rows@.len(),
                self.wf(),
                rows == row_views(self.rows@),
                ascending(out@, port_order()),
                forall|a: int| 0 <= a < out@.len() ==> ports_granted(self@).contains(#[trigger] out@[a]),
                forall|b: int| 0 <= b < i ==> out@.contains((#[trigger] rows[b]).0),
                i > 0 ==> out@.len() > 0 && out@.last() == rows[i - 1].0,
                i == 0 ==> out@.len() == 0,
            decreases self.rows@.len() - i,
        {
            let p = self.rows[i].port;
            assert(rows[i as int] == self.rows@[i as int]@);
            assert(rows.contains(rows[i as int]));
            assert(self@.contains((p, self.rows@[i as int].to@)));
            let ghost prev = out@;
            if out.len() == 0 || out[out.len() - 1] != p {
                out.push(p);
                assert(out@[prev.len() as int] == p);
                proof {
                    if i > 0 {
                        assert(grant_order()(rows[i - 1], rows[i as int]));
                    }
                    assert forall|a: int, b: int| 0 <= a < b < out@.len() implies port_order()(
                        #[trigger] out@[a],
                        #[trigger] out@[b],
                    ) by {
                        if b == prev.len() {
                            if a < prev.len() - 1 {
                                assert(port_order()(prev[a], prev[prev.len() - 1]));
                            }
                        } else {
                            assert(port_order()(prev[a], prev[b]));
                        }
                    }
                }
            }
            assert forall|b: int| 0 <= b < i + 1 implies out@.contains((#[trigger] rows[b]).0) by {
                if b < i {
                    let x = choose|x: int| 0 <= x < prev.len() && prev[x] == rows[b].0;
                    assert(out@[x] == rows[b].0);
                } else {
                    assert(out@[out@.len() - 1] == rows[b].0);
                }
            }
            i = i + 1;
        }
        proof {
            assert forall|p: u16| #[trigger] out@.contains(p) <==> ports_granted(self@).contains(p) by {
                if ports_granted(self@).contains(p) {
                    let k = choose|k: Seq<u8>| #[trigger] self@.contains((p, k));
                    let x = choose|x: int| 0 <= x < rows.len() && rows[x] == (p, k);
                    assert(out@.contains(rows[x].0));
                }
            }
            lemma_port_order();
            lemma_listing(out@, ports_granted(self@), port_order());
        }
        out
    }

    /// Every grant, one row for each port and grantee, ascending.
    pub fn all(&self) -> (r: Vec<(u16, EndpointId)>)
        requires
            self.wf(),
        ensures
            grant_views(r@) == listing(self@, grant_order()),
            lists(grant_views(r@), self@, grant_order()),
    {
        let mut out: Vec<(u16, EndpointId)> = Vec::new();
        let mut i: usize = 0;
        while i < self.rows.len()
            invariant
                i <= self.rows@.len(),
                grant_views(out@) == row_views(self.rows@).take(i as int),
            decreases self.rows@.len() - i,
        {
            let ghost before = grant_views(out@);
            out.push((self.rows[i].port, self.rows[i].to));
            assert(grant_views(out@) =~= before.push(self.rows@[i as int]@));
            assert(grant_views(out@) =~= row_views(self.rows@).take(i + 1));
            i = i + 1;
        }
        assert(grant_views(out@) =~= row_views(self.rows@));
        proof {
            lemma_grant_order();
            lemma_listing(grant_views(out@), self@, grant_order());
        }
        out
    }
}

/// Whether a grant is for `port` and to `to`, where those are given.
spec fn matches_spec(g: (u16, Seq<u8>), port: Option<u16>, to: Option<EndpointId>) -> bool {
    &&& (port is None || port == Some(g.0))
    &&& (to is None || to->Some_0@ == g.1)
}

}
