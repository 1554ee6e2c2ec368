//! The concurrent maps that the peer table is built on.
//!
//! The peers stand in a list; `dashmap::DashMap` finds the place of one by the
//! bytes of its key, and the task that serves a bound port by the port.

use dashmap::DashMap;
use vstd::prelude::*;

verus! {

/// The concurrent map itself. Opaque: what it holds is said by the names below.
#[verifier::external_type_specification]
#[verifier::external_body]
#[verifier::reject_recursive_types(K)]
#[verifier::reject_recursive_types(V)]
#[verifier::reject_recursive_types(S)]
pub struct ExDashMap<K, V, S>(DashMap<K, V, S>);

/// What a map from keys to places holds.
pub uninterp spec fn places_in(m: DashMap<[u8; 32], u64>) -> Map<Seq<u8>, u64>;

/// What a map from ports to tasks holds.
pub uninterp spec fn tasks_in(m: DashMap<u16, u64>) -> Map<u16, u64>;

/// `DashMap::new` makes an empty map.
#[verifier::external_body]
pub(crate) fn new_places() -> (m: DashMap<[u8; 32], u64>)
    ensures
        (places_in(m) == Map::<Seq<u8>, u64>::empty()),
{
    DashMap::new()
}

/// `DashMap::get` finds the value under a key, if the map holds one.
#[verifier::external_body]
pub(crate) fn get_place(m: &DashMap<[u8; 32], u64>, key: &[u8; 32]) -> (r: Option<u64>)
    ensures
        r == if places_in(*m).contains_key(key@) {
            Some(places_in(*m)[key@])
        } else {
            None
        },
{
    m.get(key).map(|place| *place.value())
}

/// `DashMap::insert` puts a value under a key, in place of any other.
#[verifier::external_body]
pub(crate) fn insert_place(m: &mut DashMap<[u8; 32], u64>, key: [u8; 32], place: u64)
    ensures
        places_in(*final(m)) == places_in(*old(m)).insert(key@, place),
{
    m.insert(key, place);
}

/// `DashMap::remove` takes a key out, with its value.
#[verifier::external_body]
pub(crate) fn remove_place(m: &mut DashMap<[u8; 32], u64>, key: &[u8; 32])
    ensures
        places_in(*final(m)) == places_in(*old(m)).remove(key@),
{
    m.remove(key);
}

/// `DashMap::new` makes an empty map.
#[verifier::external_body]
pub(crate) fn new_tasks() -> (m: DashMap<u16, u64>)
    ensures
        (tasks_in(m) == Map::<u16, u64>::empty()),
{
    DashMap::new()
}

/// `DashMap::contains_key` says whether the map holds a key.
#[verifier::external_body]
pub(crate) fn has_task(m: &DashMap<u16, u64>, port: u16) -> (r: bool)
    ensures
        r == tasks_in(*m).contains_key(port),
{
    m.contains_key(&port)
}

/// `DashMap::insert` puts a value under a key, in place of any other, which it
/// hands back.
#[verifier::external_body]
pub(crate) fn insert_task(m: &mut DashMap<u16, u64>, port: u16, task: u64) -> (r: Option<u64>)
    ensures
        tasks_in(*final(m)) == tasks_in(*old(m)).insert(port, task),
        r == if tasks_in(*old(m)).contains_key(port) {
            Some(tasks_in(*old(m))[port])
        } else {
            None
        },
{
    m.insert(port, task)
}

/// `DashMap::remove` takes a key out and hands its value back, if the map holds
/// one.
#[verifier::external_body]
pub(crate) fn remove_task(m: &mut DashMap<u16, u64>, port: u16) -> (r: Option<u64>)
    ensures
        tasks_in(*final(m)) == tasks_in(*old(m)).remove(port),
        r == if tasks_in(*old(m)).contains_key(port) {
            Some(tasks_in(*old(m))[port])
        } else {
            None
        },
{
    m.remove(&port).map(|(_, task)| task)
}

/// `DashMap::iter` visits every entry once, in no particular order; these are
/// the keys it comes by.
#[verifier::external_body]
pub(crate) fn task_ports(m: &DashMap<u16, u64>) -> (r: Vec<u16>)
    ensures
        r@.no_duplicates(),
        forall|p: u16| #[trigger] r@.contains(p) <==> tasks_in(*m).contains_key(p),
{
    m.iter().map(|entry| *entry.key()).collect()
}

}
