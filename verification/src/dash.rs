//! The hash maps of the registry: a `dashmap::DashMap` from point names to
//! point slots, and one per point holding the names of its children, reached
//! through the trusted items below.
use vstd::prelude::*;
use dashmap::DashMap;

verus! {

#[verifier::external_type_specification]
#[verifier::external_body]
#[verifier::reject_recursive_types(K)]
#[verifier::reject_recursive_types(V)]
#[verifier::reject_recursive_types(S)]
pub struct ExDashMap<K, V, S>(DashMap<K, V, S>);

/// The registry of named points: name to slot.
pub type NameTable = DashMap<String, usize>;

/// The set of child names of a point.
pub type ChildTable = DashMap<String, ()>;

/// What a name table holds: each registered name with its slot.
pub uninterp spec fn name_contents(m: NameTable) -> Map<Seq<char>, usize>;

/// What a child table holds: the names it lists.
pub uninterp spec fn child_contents(m: ChildTable) -> Set<Seq<char>>;

// ── the name table ────────────────────────────────────────────────────────

/// Calls `DashMap::new`: the new table is empty.
#[verifier::external_body]
pub(crate) fn names_new() -> (fresh: NameTable)
    ensures
        name_contents(fresh).dom().is_empty(),
{
    DashMap::new()
}

/// Calls `DashMap::get`: the slot registered under `name`, copied out.
#[verifier::external_body]
pub(crate) fn names_get(m: &NameTable, name: &str) -> (r: Option<usize>)
    ensures
        r == (if name_contents(*m).contains_key(name@) {
            Some(name_contents(*m)[name@])
        } else {
            None::<usize>
        }),
{
    m.get(name).map(|e| *e.value())
}

/// Calls `DashMap::entry` and `Entry::or_insert`: the slot already registered
/// under `name` is kept and returned; where there is none, `slot` is
/// registered under it and returned.
#[verifier::external_body]
pub(crate) fn names_get_or_insert(m: &mut NameTable, name: String, slot: usize) -> (r: usize)
    ensures
        name_contents(*old(m)).contains_key(name@) ==> {
            &&& r == name_contents(*old(m))[name@]
            &&& name_contents(*final(m)) == name_contents(*old(m))
        },
        !name_contents(*old(m)).contains_key(name@) ==> {
            &&& r == slot
            &&& name_contents(*final(m)) == name_contents(*old(m)).insert(name@, slot)
        },
{
    *m.entry(name).or_insert(slot)
}

/// Calls `DashMap::remove`: the name leaves the table; its slot, if it had
/// one, is returned.
#[verifier::external_body]
pub(crate) fn names_remove(m: &mut NameTable, name: &str) -> (r: Option<usize>)
    ensures
        name_contents(*final(m)) == name_contents(*old(m)).remove(name@),
        r == (if name_contents(*old(m)).contains_key(name@) {
            Some(name_contents(*old(m))[name@])
        } else {
            None::<usize>
        }),
{
    m.remove(name).map(|(_, slot)| slot)
}

/// Calls `DashMap::iter`: every (name, slot) pair, copied out, each once, in
/// an order that the table's hasher decides and that nothing here states.
#[verifier::external_body]
pub(crate) fn names_iter(m: &NameTable) -> (r: Vec<(String, usize)>)
    ensures
        forall|i: int, j: int| 0 <= i < j < r@.len() ==> (#[trigger] r@[i]).0@ != (#[trigger] r@[j]).0@,
        forall|i: int|
            0 <= i < r@.len() ==> {
                &&& name_contents(*m).contains_key((#[trigger] r@[i]).0@)
                &&& name_contents(*m)[r@[i].0@] == r@[i].1
            },
        forall|x: Seq<char>|
            #![trigger name_contents(*m).contains_key(x)]
            name_contents(*m).contains_key(x) ==> exists|i: int| 0 <= i < r@.len() && (#[trigger] r@[i]).0@ == x,
{
    m.iter().map(|e| (e.key().clone(), *e.value())).collect()
}

// ── the child tables ──────────────────────────────────────────────────────

/// Calls `DashMap::new`: the new table is empty.
#[verifier::external_body]
pub(crate) fn children_new() -> (fresh: ChildTable)
    ensures
        child_contents(fresh).is_empty(),
{
    DashMap::new()
}

/// Calls `DashMap::insert`: the name is listed; nothing else changes.
#[verifier::external_body]
pub(crate) fn children_insert(m: &mut ChildTable, name: String)
    ensures
        child_contents(*final(m)) == child_contents(*old(m)).insert(name@),
{
    m.insert(name, ());
}

/// Calls `DashMap::remove`: the name is no longer listed; nothing else changes.
#[verifier::external_body]
pub(crate) fn children_remove(m: &mut ChildTable, name: &str)
    ensures
        child_contents(*final(m)) == child_contents(*old(m)).remove(name@),
{
    m.remove(name);
}

/// Calls `DashMap::iter`: every listed name, copied out, each once, in an
/// order that the table's hasher decides and that nothing here states.
#[verifier::external_body]
pub(crate) fn children_iter(m: &ChildTable) -> (r: Vec<String>)
    ensures
        forall|i: int, j: int| 0 <= i < j < r@.len() ==> (#[trigger] r@[i])@ != (#[trigger] r@[j])@,
        forall|i: int| 0 <= i < r@.len() ==> child_contents(*m).contains((#[trigger] r@[i])@),
        forall|x: Seq<char>|
            #![trigger child_contents(*m).contains(x)]
            child_contents(*m).contains(x) ==> exists|i: int| 0 <= i < r@.len() && (#[trigger] r@[i])@ == x,
{
    m.iter().map(|e| e.key().clone()).collect()
}

} // verus!
