//! The admitted peers, in the order of their keys.

use crate::key::{key_has_32_bytes, lemma_key_lt_asym, lemma_key_lt_total, EndpointId};
use crate::order::{ascending, key_order, lemma_key_order, lemma_listing, listing, lists};
use crate::text::{copy_opt, opt_text};
use vstd::prelude::*;

verus! {

/// How a peer came to be admitted. Recorded because the routes carry different
/// weight when auditing: a code was held, a key was vouched for.
#[derive(Copy, Clone, PartialEq, Eq, Debug)]
pub enum Admission {
    /// The operator added it by key.
    Added,
    /// It presented a valid one-time enrollment code.
    Code,
    /// Its key was pinned ahead of time, no secret involved.
    Key,
}

impl Admission {
    /// The name used in `list` output.
    pub open spec fn name(self) -> Seq<char> {
        match self {
            Admission::Added => "added"@,
            Admission::Code => "code"@,
            Admission::Key => "key"@,
        }
    }

    /// Name used in `list` output.
    pub fn as_str(self) -> (s: &'static str)
        ensures
            s@ == self.name(),
    {
        match self {
            Admission::Added => "added",
            Admission::Code => "code",
            Admission::Key => "key",
        }
    }
}

/// An admitted peer as plain values.
pub struct AdmittedView {
    pub label: Option<Seq<char>>,
    pub admission: Admission,
}

/// An admitted peer, as far as admission and access are concerned.
#[derive(Clone, PartialEq, Eq, Debug)]
pub struct Admitted {
    pub label: Option<String>,
    pub admission: Admission,
}

impl View for Admitted {
    type V = AdmittedView;

    open spec fn view(&self) -> AdmittedView {
        AdmittedView { label: opt_text(self.label), admission: self.admission }
    }
}

#[derive(Debug)]
struct Row {
    key: EndpointId,
    peer: Admitted,
}

/// The peers admitted right now.
#[derive(Debug)]
pub struct Roster {
    /// Ascending by key.
    rows: Vec<Row>,
}

/// The keys of a sequence of rows.
spec fn row_keys(rows: Seq<Row>) -> Seq<Seq<u8>> {
    Seq::new(rows.len(), |i: int| rows[i].key@)
}

/// Where `key` stands in `rows`.
spec fn row_at(rows: Seq<Row>, key: Seq<u8>) -> int {
    choose|i: int| 0 <= i < rows.len() && (#[trigger] rows[i]).key@ == key
}

/// The keys of the admitted peers, ascending.
pub open spec fn keys_in_order(peers: Map<Seq<u8>, AdmittedView>) -> Seq<Seq<u8>> {
    listing(peers.dom(), key_order())
}

/// The bytes of a sequence of endpoint ids.
pub open spec fn id_views(ids: Seq<EndpointId>) -> Seq<Seq<u8>> {
    Seq::new(ids.len(), |i: int| ids[i]@)
}

impl View for Roster {
    type V = Map<Seq<u8>, AdmittedView>;

    closed spec fn view(&self) -> Map<Seq<u8>, AdmittedView> {
        Map::new(
            |k: Seq<u8>| exists|i: int| 0 <= i < self.rows@.len() && (#[trigger] self.rows@[i]).key@ == k,
            |k: Seq<u8>| self.rows@[row_at(self.rows@, k)].peer@,
        )
    }
}

impl Roster {
    /// The rows are in ascending order of key.
    pub closed spec fn wf(&self) -> bool {
        ascending(row_keys(self.rows@), key_order())
    }

    proof fn lemma_at(&self, i: int)
        requires
            self.wf(),
            0 <= i < self.rows@.len(),
        ensures
            self@.contains_key(self.rows@[i].key@),
            self@[self.rows@[i].key@] == self.rows@[i].peer@,
            forall|j: int| 0 <= j < self.rows@.len() && (#[trigger] self.rows@[j]).key@ == self.rows@[i].key@ ==> j == i,
    {
        let rows = self.rows@;
        let k = rows[i].key@;
        let ks = row_keys(rows);
        assert forall|j: int| 0 <= j < rows.len() && (#[trigger] rows[j]).key@ == k implies j == i by {
            if j < i {
                assert(key_order()(ks[j], ks[i]));
                lemma_key_lt_asym(k, k);
            } else if i < j {
                assert(key_order()(ks[i], ks[j]));
                lemma_key_lt_asym(k, k);
            }
        }
        let m = row_at(rows, k);
        assert(0 <= m < rows.len() && rows[m].key@ == k);
    }

    /// No peers.
    pub fn new() -> (r: Roster)
        ensures
            r.wf(),
            r@ == Map::<Seq<u8>, AdmittedView>::empty(),
    {
        let r = Roster { rows: Vec::new() };
        assert(r@ =~= Map::<Seq<u8>, AdmittedView>::empty());
        r
    }

    /// The position of `key`, if it is admitted.
    fn find(&self, key: &EndpointId) -> (r: Option<usize>)
        requires
            self.wf(),
        ensures
            match r {
                Some(i) => i < self.rows@.len() && self.rows@[i as int].key@ == key@ && self@.contains_key(key@)
                    && self@[key@] == self.rows@[i as int].peer@,
                None => !self@.contains_key(key@),
            },
    {
        let mut i: usize = 0;
        while i < self.rows.len()
            invariant
                i <= self.rows@.len(),
                self.wf(),
                forall|j: int| 0 <= j < i ==> (#[trigger] self.rows@[j]).key@ != key@,
            decreases self.rows@.len() - i,
        {
            if self.rows[i].key.same(key) {
                proof {
                    self.lemma_at(i as int);
                }
                return Some(i);
            }
            i = i + 1;
        }
        None
    }

    /// Whether `key` is admitted.
    pub fn contains(&self, key: &EndpointId) -> (r: bool)
        requires
            self.wf(),
        ensures
            r == self@.contains_key(key@),
    {
        self.find(key).is_some()
    }

    /// How `key` was admitted.
    pub fn admission(&self, key: &EndpointId) -> (r: Option<Admission>)
        requires
            self.wf(),
        ensures
            r == if self@.contains_key(key@) {
                Some(self@[key@].admission)
            } else {
                None
            },
    {
        match self.find(key) {
            Some(i) => Some(self.rows[i].peer.admission),
            None => None,
        }
    }

    /// What `key` is called.
    pub fn label(&self, key: &EndpointId) -> (r: Option<String>)
        requires
            self.wf(),
        ensures
            opt_text(r) == if self@.contains_key(key@) {
                self@[key@].label
            } else {
                None
            },
    {
        match self.find(key) {
            Some(i) => copy_opt(&self.rows[i].peer.label),
            None => None,
        }
    }

    /// Admits `key`, in place of what it was before.
    pub fn insert(&mut self, key: EndpointId, peer: Admitted)
        requires
            old(self).wf(),
        ensures
            final(self).wf(),
            final(self)@ == old(self)@.insert(key@, peer@),
    {
        broadcast use key_has_32_bytes;

        self.remove(&key);
        let ghost mid = *self;
        let ghost before = row_keys(self.rows@);
        let ghost pv = peer@;
        let n = self.rows.len();
        let mut i: usize = 0;
        while i < n && self.rows[i].key.before(&key)
            invariant
                i <= n == self.rows@.len(),
                *self == mid,
                forall|j: int| 0 <= j < i ==> key_order()((#[trigger] self.rows@[j]).key@, key@),
            decreases n - i,
        {
            i = i + 1;
        }
        proof {
            lemma_key_order();
            if i < n {
                mid.lemma_at(i as int);
                lemma_key_lt_total(self.rows@[i as int].key@, key@);
                assert(key_order()(key@, before[i as int]));
            }
        }
        self.rows.insert(i, Row { key, peer });
        proof {
            let after = row_keys(self.rows@);
            assert(after =~= before.insert(i as int, key@));
            assert forall|a: int, b: int| 0 <= a < b < after.len() implies key_order()(
                #[trigger] after[a],
                #[trigger] after[b],
            ) by {
                if a == i {
                    if b > i + 1 {
                        assert(key_order()(before[i as int], before[b - 1]));
                    }
                } else if b == i {
                    assert(key_order()(mid.rows@[a].key@, key@));
                } else {
                    let x = if a < i { a } else { a - 1 };
                    let y = if b < i { b } else { b - 1 };
                    assert(key_order()(before[x], before[y]));
                }
            }
            let want = mid@.insert(key@, pv);
            self.lemma_at(i as int);
            assert forall|k: Seq<u8>| #[trigger] self@.contains_key(k) <==> want.contains_key(k) by {
                if self@.contains_key(k) {
                    let y = choose|y: int| 0 <= y < self.rows@.len() && (#[trigger] self.rows@[y]).key@ == k;
                    if y != i {
                        let x = if y < i { y } else { y - 1 };
                        assert(mid.rows@[x] == self.rows@[y]);
                        mid.lemma_at(x);
                    }
                }
                if mid@.contains_key(k) {
                    let x = choose|x: int| 0 <= x < mid.rows@.len() && (#[trigger] mid.rows@[x]).key@ == k;
                    let y = if x < i { x } else { x + 1 };
                    assert(self.rows@[y] == mid.rows@[x]);
                }
            }
            assert forall|k: Seq<u8>| #[trigger] self@.contains_key(k) implies self@[k] == want[k] by {
                let y = choose|y: int| 0 <= y < self.rows@.len() && (#[trigger] self.rows@[y]).key@ == k;
                self.lemma_at(y);
                if y != i {
                    let x = if y < i { y } else { y - 1 };
                    assert(mid.rows@[x] == self.rows@[y]);
                    mid.lemma_at(x);
                }
            }
            assert(self@ =~= want);
            assert(want =~= old(self)@.insert(key@, pv));
        }
    }

    /// Drops `key`. Says whether it was admitted.
    pub fn remove(&mut self, key: &EndpointId) -> (r: bool)
        requires
            old(self).wf(),
        ensures
            final(self).wf(),
            final(self)@ == old(self)@.remove(key@),
            r == old(self)@.contains_key(key@),
    {
        match self.find(key) {
            None => {
                assert(self@ =~= old(self)@.remove(key@));
                false
            },
            Some(i) => {
                let ghost mid = *self;
                let ghost before = row_keys(self.rows@);
                proof {
                    mid.lemma_at(i as int);
                }
                let _ = self.rows.remove(i);
                proof {
                    let after = row_keys(self.rows@);
                    assert(after =~= before.remove(i as int));
                    assert forall|a: int, b: int| 0 <= a < b < after.len() implies key_order()(
                        #[trigger] after[a],
                        #[trigger] after[b],
                    ) by {
                        let x = if a < i { a } else { a + 1 };
                        let y = if b < i { b } else { b + 1 };
                        assert(key_order()(before[x], before[y]));
                    }
                    let want = mid@.remove(key@);
                    assert forall|k: Seq<u8>| #[trigger] self@.contains_key(k) <==> want.contains_key(k) by {
                        if self@.contains_key(k) {
                            let y = choose|y: int| 0 <= y < self.rows@.len() && (#[trigger] self.rows@[y]).key@ == k;
                            let x = if y < i { y } else { y + 1 };
                            assert(mid.rows@[x] == self.rows@[y]);
                            mid.lemma_at(x);
                        }
                        if want.contains_key(k) {
                            let x = choose|x: int| 0 <= x < mid.rows@.len() && (#[trigger] mid.rows@[x]).key@ == k;
                            let y = if x < i { x } else { x - 1 };
                            assert(self.rows@[y] == mid.rows@[x]);
                        }
                    }
                    assert forall|k: Seq<u8>| #[trigger] self@.contains_key(k) implies self@[k] == want[k] by {
                        let y = choose|y: int| 0 <= y < self.rows@.len() && (#[trigger] self.rows@[y]).key@ == k;
                        self.lemma_at(y);
                        let x = if y < i { y } else { y + 1 };
                        assert(mid.rows@[x] == self.rows@[y]);
                        mid.lemma_at(x);
                    }
                    assert(self@ =~= want);
                }
                true
            },
        }
    }

    proof fn lemma_row_keys(&self)
        requires
            self.wf(),
        ensures
            lists(row_keys(self.rows@), self@.dom(), key_order()),
    {
        let ks = row_keys(self.rows@);
        assert forall|k: Seq<u8>| #[trigger] ks.contains(k) <==> self@.dom().contains(k) by {
            if ks.contains(k) {
                let x = choose|x: int| 0 <= x < ks.len() && ks[x] == k;
                assert(self.rows@[x].key@ == k);
            }
            if self@.contains_key(k) {
                let x = choose|x: int| 0 <= x < self.rows@.len() && (#[trigger] self.rows@[x]).key@ == k;
                assert(ks[x] == k);
            }
        }
    }

    /// The keys in order are exactly those of the admitted peers.
    pub proof fn lemma_keys(&self)
        requires
            self.wf(),
        ensures
            lists(keys_in_order(self@), self@.dom(), key_order()),
    {
        self.lemma_row_keys();
        lemma_key_order();
        lemma_listing(row_keys(self.rows@), self@.dom(), key_order());
    }

    /// The keys of the admitted peers, ascending.
    pub fn keys(&self) -> (r: Vec<EndpointId>)
        requires
            self.wf(),
        ensures
            id_views(r@) == keys_in_order(self@),
            lists(id_views(r@), self@.dom(), key_order()),
    {
        let mut out: Vec<EndpointId> = Vec::new();
        let mut i: usize = 0;
        while i < self.rows.len()
            invariant
                i <= self.rows@.len(),
                out@.len() == i,
                forall|j: int| 0 <= j < i ==> out@[j] == (#[trigger] self.rows@[j]).key,
            decreases self.rows@.len() - i,
        {
            out.push(self.rows[i].key);
            i = i + 1;
        }
        proof {
            assert(id_views(out@) =~= row_keys(self.rows@));
            self.lemma_keys();
            self.lemma_row_keys();
            lemma_key_order();
            lemma_listing(id_views(out@), self@.dom(), key_order());
        }
        out
    }
}

}
