//! The ordered entry store of a point: a `crossbeam_skiplist::SkipMap`
//! keyed by (key, sequence), reached through the trusted items below.
use vstd::prelude::*;
use crossbeam_skiplist::SkipMap;
use std::ops::Bound;
use crate::order::{EntryPos, pos_le, pos_lt};

verus! {

#[verifier::external_type_specification]
#[verifier::external_body]
#[verifier::reject_recursive_types(K)]
#[verifier::reject_recursive_types(V)]
pub struct ExSkipMap<K, V>(SkipMap<K, V>);

/// The entry store of a point, keyed by (key text, insertion sequence).
pub type EntryStore = SkipMap<(String, u64), String>;

/// What an entry store holds: each (key, sequence) position with its value.
pub uninterp spec fn store_contents(m: EntryStore) -> Map<(Seq<char>, u64), Seq<char>>;

/// The position of an executable (key, sequence) pair.
pub open spec fn pos_of(k: (String, u64)) -> EntryPos {
    (k.0@, k.1)
}

/// Calls `SkipMap::new`: the new map is empty.
#[verifier::external_body]
pub(crate) fn store_new() -> (fresh: EntryStore)
    ensures
        store_contents(fresh).dom().is_empty(),
{
    SkipMap::new()
}

/// Calls `SkipMap::insert`: the key is bound to the value, replacing an entry
/// with an equal key if there was one; nothing else changes.
#[verifier::external_body]
pub(crate) fn store_insert(m: &mut EntryStore, key: (String, u64), value: String)
    ensures
        store_contents(*final(m)) == store_contents(*old(m)).insert(pos_of(key), value@),
{
    m.insert(key, value);
}

/// Calls `SkipMap::remove`: the entry with an equal key, if any, leaves the map;
/// nothing else changes.
#[verifier::external_body]
pub(crate) fn store_remove(m: &mut EntryStore, key: &(String, u64))
    ensures
        store_contents(*final(m)) == store_contents(*old(m)).remove(pos_of(*key)),
{
    m.remove(key);
}

/// Calls `SkipMap::lower_bound` with an inclusive bound: the entry with the
/// least key at or above `key`, copied out, or `None` where there is none.
/// The order of keys is that of `(String, u64)`: by text, then by number.
#[verifier::external_body]
pub(crate) fn store_lower_bound(m: &EntryStore, key: &(String, u64)) -> (r: Option<((String, u64), String)>)
    ensures
        match r {
            Some((k, v)) => {
                &&& store_contents(*m).contains_key(pos_of(k))
                &&& store_contents(*m)[pos_of(k)] == v@
                &&& pos_le(pos_of(*key), pos_of(k))
                &&& forall|j: EntryPos|
                    #![trigger store_contents(*m).contains_key(j)]
                    store_contents(*m).contains_key(j) && pos_le(pos_of(*key), j) ==> pos_le(pos_of(k), j)
            },
            None => forall|j: EntryPos|
                #![trigger store_contents(*m).contains_key(j)]
                store_contents(*m).contains_key(j) ==> !pos_le(pos_of(*key), j),
        },
{
    m.lower_bound(Bound::Included(key)).map(|e| (e.key().clone(), e.value().clone()))
}

/// Calls `SkipMap::iter`: every entry, copied out, in ascending key order.
#[verifier::external_body]
pub(crate) fn store_iter(m: &EntryStore) -> (r: Vec<((String, u64), String)>)
    ensures
        forall|i: int, j: int| 0 <= i < j < r@.len() ==> pos_lt(pos_of(#[trigger] r@[i].0), pos_of(#[trigger] r@[j].0)),
        forall|i: int|
            0 <= i < r@.len() ==> {
                &&& store_contents(*m).contains_key(pos_of(#[trigger] r@[i].0))
                &&& store_contents(*m)[pos_of(r@[i].0)] == r@[i].1@
            },
        forall|j: EntryPos|
            #![trigger store_contents(*m).contains_key(j)]
            store_contents(*m).contains_key(j) ==> exists|i: int| 0 <= i < r@.len() && pos_of(#[trigger] r@[i].0) == j,
{
    m.iter().map(|e| (e.key().clone(), e.value().clone())).collect()
}

} // verus!
