//! Points and the registry that owns them.
use vstd::prelude::*;
use crate::order::{lemma_pos_le_same_text, lemma_text_lt_asymmetric};
use crate::skip::{EntryStore, store_contents, pos_of, store_new, store_insert, store_remove, store_lower_bound, store_iter};
use crate::dash::{NameTable, ChildTable, name_contents, child_contents, names_new, names_get, names_get_or_insert, names_remove, names_iter, children_new, children_insert, children_remove, children_iter};
use crate::laws::{law_empty_consistent, law_point_keeps_consistent, law_entries_keep_consistent, law_attach_keeps_consistent, law_detach_keeps_consistent, law_purge_point_keeps_consistent, law_parent_matches_children};
use crate::model::{indent, NodeView, DexterView, seq_span, run_below, run_of, values_of, without_key, is_listing, fresh_node, lemma_run_gap, lemma_run_members, lemma_values_of_run, lemma_same_shape, lemma_up_succ, lemma_up_ended, lemma_detach_shape, lemma_detach_keeps_wf, lemma_attach_keeps_wf, lemma_reaches_self, lemma_reaches_child, lemma_closed_holds_reached, lemma_distinct_below};

verus! {

/// Why `attach` refused.
#[derive(Debug, Clone, Copy, PartialEq, Eq, Structural)]
pub enum AttachError {
    /// A point cannot be its own child.
    SelfAttach,
    /// The child is an ancestor of the parent.
    WouldCycle,
}

impl AttachError {
    /// The message that describes the refusal.
    pub fn to_string(&self) -> (r: String)
        ensures
            r@ == (match self {
                AttachError::SelfAttach => "AttachError: cannot attach a Point to itself"@,
                AttachError::WouldCycle => "AttachError: attachment would point a cycle"@,
            }),
    {
        match self {
            AttachError::SelfAttach => "AttachError: cannot attach a Point to itself".to_owned(),
            AttachError::WouldCycle => "AttachError: attachment would point a cycle".to_owned(),
        }
    }
}

/// The data of one point.
struct Node {
    name: String,
    entries: EntryStore,
    entry_sequence: u64,
    children: ChildTable,
    parent: Option<usize>,
}

impl View for Node {
    type V = NodeView;

    closed spec fn view(&self) -> NodeView {
        NodeView {
            name: self.name@,
            entries: store_contents(self.entries),
            next_seq: self.entry_sequence,
            children: child_contents(self.children),
            parent: self.parent,
        }
    }
}

/// The entries stored under `key`, as (sequence, value) pairs in sequence
/// order, found by stepping from one entry to the next with `lower_bound`.
fn key_run(store: &EntryStore, key: &str) -> (r: Vec<(u64, String)>)
    ensures
        r@.len() == run_of(store_contents(*store), key@).len(),
        forall|i: int|
            0 <= i < r@.len() ==> (#[trigger] r@[i]).0 == run_of(store_contents(*store), key@)[i].0
                && r@[i].1@ == run_of(store_contents(*store), key@)[i].1,
{
    let ghost e = store_contents(*store);
    let mut out: Vec<(u64, String)> = Vec::new();
    let mut s: u64 = 0;
    loop
        invariant
            e == store_contents(*store),
            out@.len() == run_below(e, key@, s as nat).len(),
            forall|i: int|
                0 <= i < out@.len() ==> (#[trigger] out@[i]).0 == run_below(e, key@, s as nat)[i].0
                    && out@[i].1@ == run_below(e, key@, s as nat)[i].1,
        decreases seq_span() - s,
    {
        let probe: (String, u64) = (key.to_owned(), s);
        let found = store_lower_bound(store, &probe);
        let mut stop = true;
        let mut next: u64 = 0;
        match found {
            Some((k, v)) => {
                if k.0 == probe.0 {
                    let t = k.1;
                    proof {
                        lemma_pos_le_same_text(key@, s, t);
                        assert forall|u: u64| s <= u < t implies !#[trigger] e.contains_key((key@, u)) by {
                            if e.contains_key((key@, u)) {
                                lemma_pos_le_same_text(key@, s, u);
                                lemma_pos_le_same_text(key@, t, u);
                            }
                        }
                        lemma_run_gap(e, key@, s as nat, t as nat);
                    }
                    out.push((t, v));
                    if t < u64::MAX {
                        stop = false;
                        next = t + 1;
                    } else {
                        proof {
                            assert(run_below(e, key@, seq_span()) == run_below(e, key@, t as nat).push((t, e[(key@, t)])));
                        }
                        return out;
                    }
                } else {
                    proof {
                        assert forall|u: u64| s <= u implies !#[trigger] e.contains_key((key@, u)) by {
                            if e.contains_key((key@, u)) {
                                lemma_pos_le_same_text(key@, s, u);
                                lemma_text_lt_asymmetric(key@, k.0@);
                            }
                        }
                    }
                }
            },
            None => {
                proof {
                    assert forall|u: u64| s <= u implies !#[trigger] e.contains_key((key@, u)) by {
                        if e.contains_key((key@, u)) {
                            lemma_pos_le_same_text(key@, s, u);
                        }
                    }
                }
            },
        }
        if stop {
            proof {
                lemma_run_gap(e, key@, s as nat, seq_span());
            }
            return out;
        }
        s = next;
    }
}


/// The values stored under `key`, in sequence order.
fn key_values(store: &EntryStore, key: &str) -> (r: Vec<String>)
    ensures
        r@.len() == values_of(store_contents(*store), key@).len(),
        forall|i: int| 0 <= i < r@.len() ==> (#[trigger] r@[i])@ == values_of(store_contents(*store), key@)[i],
{
    let run = key_run(store, key);
    proof { lemma_values_of_run(store_contents(*store), key@); }
    let mut out: Vec<String> = Vec::new();
    let mut i: usize = 0;
    while i < run.len()
        invariant
            i <= run@.len(),
            out@.len() == i,
            run@.len() == run_of(store_contents(*store), key@).len(),
            forall|j: int| 0 <= j < run@.len() ==> (#[trigger] run@[j]).1@ == run_of(store_contents(*store), key@)[j].1,
            forall|j: int| 0 <= j < i ==> (#[trigger] out@[j])@ == values_of(store_contents(*store), key@)[j],
        decreases run@.len() - i,
    {
        out.push(run[i].1.clone());
        i = i + 1;
    }
    out
}

/// Every (key, value) pair of a store in ascending position order, with the
/// positions they come from.
fn entry_list(store: &EntryStore) -> (r: (Vec<(String, String)>, Ghost<Seq<(Seq<char>, u64)>>))
    ensures
        is_listing(store_contents(*store), r.1@),
        r.0@.len() == r.1@.len(),
        forall|i: int| 0 <= i < r.1@.len() ==> (#[trigger] r.0@[i]).0@ == r.1@[i].0
            && r.0@[i].1@ == store_contents(*store)[r.1@[i]],
{
    let all = store_iter(store);
    let ghost e = store_contents(*store);
    let ghost ks = all@.map_values(|x: ((String, u64), String)| pos_of(x.0));
    let mut out: Vec<(String, String)> = Vec::new();
    let mut i: usize = 0;
    while i < all.len()
        invariant
            i <= all@.len(),
            out@.len() == i,
            ks.len() == all@.len(),
            forall|j: int| 0 <= j < all@.len() ==> #[trigger] ks[j] == pos_of(all@[j].0),
            forall|j: int| 0 <= j < all@.len() ==> e.contains_key(pos_of((#[trigger] all@[j]).0)) && e[pos_of(all@[j].0)] == all@[j].1@,
            forall|j: int| 0 <= j < i ==> (#[trigger] out@[j]).0@ == ks[j].0 && out@[j].1@ == e[ks[j]],
        decreases all@.len() - i,
    {
        out.push((all[i].0.0.clone(), all[i].1.clone()));
        i = i + 1;
    }
    proof {
        assert(is_listing(e, ks)) by {
            assert forall|a: int, b: int| 0 <= a < b < ks.len() implies crate::order::pos_lt(#[trigger] ks[a], #[trigger] ks[b]) by {
                assert(ks[a] == pos_of(all@[a].0));
                assert(ks[b] == pos_of(all@[b].0));
            }
            assert forall|p: (Seq<char>, u64)| #[trigger] e.contains_key(p) implies ks.contains(p) by {
                let j = choose|j: int| 0 <= j < all@.len() && pos_of((#[trigger] all@[j]).0) == p;
                assert(ks[j] == p);
            }
        }
    }
    (out, Ghost(ks))
}

/// The registry: every point ever made, by slot, and the names under which
/// points are registered. A purged point keeps its slot, so a handle to it
/// keeps working on the point's own data; its memory is held until the
/// registry is dropped.
pub struct PointDexter {
    points: NameTable,
    nodes: Vec<Node>,
}

impl View for PointDexter {
    type V = DexterView;

    closed spec fn view(&self) -> DexterView {
        DexterView {
            points: name_contents(self.points),
            nodes: self.nodes@.map_values(|n: Node| n@),
        }
    }
}

/// A handle to a point of a registry. Two handles are equal when they name the
/// same point.
#[derive(Debug, Clone, Copy, PartialEq, Eq, Structural)]
pub struct Point(usize);

impl Point {
    /// The slot of the point in its registry.
    pub closed spec fn slot(self) -> usize {
        self.0
    }

    /// Two handles are equal exactly when they name the same slot.
    pub proof fn lemma_slot_identifies(p: Point, q: Point)
        ensures
            (p.slot() == q.slot()) == (p == q),
    {
    }
}

impl Default for PointDexter {
    fn default() -> (d: Self)
        ensures
            d.wf(),
            d@.consistent(),
            d@.points.dom().is_empty(),
            d@.nodes.len() == 0,
    {
        PointDexter::new()
    }
}

impl PointDexter {
    /// The registry's invariant.
    pub open spec fn wf(&self) -> bool {
        self@.wf()
    }

    /// `p` names a point of this registry.
    pub open spec fn holds(&self, p: Point) -> bool {
        self@.has(p.slot())
    }

    /// An empty registry.
    pub fn new() -> (d: Self)
        ensures
            d.wf(),
            d@.consistent(),
            d@.points.dom().is_empty(),
            d@.nodes.len() == 0,
    {
        let d = PointDexter { points: names_new(), nodes: Vec::new() };
        proof {
            assert(d@.ranked(Seq::empty()));
            law_empty_consistent(d@);
        }
        d
    }

    /// The point registered under `name`, made empty and registered first
    /// where there is none.
    pub fn point(&mut self, name: &str) -> (p: Point)
        requires
            old(self).wf(),
        ensures
            final(self).wf(),
            p.slot() == old(self)@.point_slot(name@),
            final(self)@ == old(self)@.after_point(name@),
            final(self).holds(p),
            old(self)@.consistent() ==> final(self)@.consistent(),
    {
        proof {
            if old(self)@.consistent() {
                law_point_keeps_consistent(old(self)@, name@);
            }
        }
        let slot = self.nodes.len();
        let got = names_get_or_insert(&mut self.points, name.to_owned(), slot);
        if got == slot {
            let node = Node {
                name: name.to_owned(),
                entries: store_new(),
                entry_sequence: 0,
                children: children_new(),
                parent: None,
            };
            proof {
                assert(store_contents(node.entries) =~= Map::empty());
                assert(child_contents(node.children) =~= Set::empty());
            }
            let ghost nv = node@;
            self.nodes.push(node);
            proof {
                let o = old(self)@;
                assert(!o.points.contains_key(name@)) by {
                    if o.points.contains_key(name@) {
                        assert(o.points[name@] < o.nodes.len());
                    }
                }
                assert(nv == fresh_node(name@));
                assert(self@.nodes =~= o.nodes.push(fresh_node(name@)));
                assert(self@ == o.after_point(name@));
                assert(self.nodes.len() <= usize::MAX);
                let h = choose|h: Seq<nat>| o.ranked(h);
                let h2 = h.push(0nat);
                assert(self@.ranked(h2)) by {
                    assert forall|i: int| 0 <= i < self@.nodes.len() && (#[trigger] self@.nodes[i]).parent is Some implies {
                        &&& self@.nodes[i].parent.unwrap() < self@.nodes.len()
                        &&& h2[self@.nodes[i].parent.unwrap() as int] < h2[i]
                    } by {
                        assert(i < o.nodes.len());
                        assert(self@.nodes[i] == o.nodes[i]);
                    }
                }
                assert forall|x: Seq<char>| #[trigger] self@.points.contains_key(x) implies {
                    &&& self@.points[x] < self@.nodes.len()
                    &&& self@.nodes[self@.points[x] as int].name == x
                } by {
                    if x != name@ {
                        assert(o.points.contains_key(x));
                    }
                }
            }
        } else {
            proof {
                let o = old(self)@;
                assert(o.points.contains_key(name@)) by {
                    if !o.points.contains_key(name@) {
                        assert(got == slot);
                    }
                }
                assert(self@ == o);
            }
        }
        Point(got)
    }

    /// The point registered under `name`, if any.
    pub fn get(&self, name: &str) -> (r: Option<Point>)
        requires
            self.wf(),
        ensures
            match r {
                Some(p) => self@.points.contains_key(name@) && p.slot() == self@.points[name@],
                None => !self@.points.contains_key(name@),
            },
            r matches Some(p) ==> self.holds(p),
    {
        match names_get(&self.points, name) {
            Some(slot) => Some(Point(slot)),
            None => None,
        }
    }
}

impl Point {
    /// The name the point was made with.
    pub fn name<'a>(&self, dexter: &'a PointDexter) -> (r: &'a str)
        requires
            dexter.holds(*self),
        ensures
            r@ == dexter@.nodes[self.slot() as int].name,
    {
        self.nodes_name(dexter)
    }

    fn nodes_name<'a>(&self, dexter: &'a PointDexter) -> (r: &'a str)
        requires
            dexter.holds(*self),
        ensures
            r@ == dexter@.nodes[self.slot() as int].name,
    {
        dexter.nodes[self.0].name.as_str()
    }

    /// Stores `value` under `key`; earlier values under the same key stay.
    pub fn insert(&self, dexter: &mut PointDexter, key: &str, value: &str)
        requires
            old(dexter).wf(),
            old(dexter).holds(*self),
        ensures
            final(dexter).wf(),
            final(dexter)@ == old(dexter)@.after_insert(self.slot(), key@, value@),
            old(dexter)@.consistent() ==> final(dexter)@.consistent(),
    {
        proof {
            if old(dexter)@.consistent() {
                law_entries_keep_consistent(old(dexter)@, self.slot(), key@, value@);
            }
        }
        let i = self.0;
        let s = dexter.nodes[i].entry_sequence;
        store_insert(&mut dexter.nodes[i].entries, (key.to_owned(), s), value.to_owned());
        dexter.nodes[i].entry_sequence = if s == u64::MAX { 0 } else { s + 1 };
        proof {
            let o = old(dexter)@;
            assert(dexter@.nodes =~= o.after_insert(i, key@, value@).nodes);
            lemma_same_shape(o, dexter@);
        }
    }

    /// Removes every value stored under `key`.
    pub fn purge_key(&self, dexter: &mut PointDexter, key: &str)
        requires
            old(dexter).wf(),
            old(dexter).holds(*self),
        ensures
            final(dexter).wf(),
            final(dexter)@ == old(dexter)@.after_purge_key(self.slot(), key@),
            old(dexter)@.consistent() ==> final(dexter)@.consistent(),
    {
        proof {
            if old(dexter)@.consistent() {
                law_entries_keep_consistent(old(dexter)@, self.slot(), key@, key@);
            }
        }
        let i = self.0;
        let ghost e = store_contents(dexter.nodes[i as int].entries);
        let run = key_run(&dexter.nodes[i].entries, key);
        proof { lemma_run_members(e, key@, seq_span()); }
        let mut j: usize = 0;
        while j < run.len()
            invariant
                i == self.0,
                i < dexter.nodes@.len(),
                dexter.nodes@.len() == old(dexter).nodes@.len(),
                dexter.points == old(dexter).points,
                forall|n: int| 0 <= n < dexter.nodes@.len() && n != i ==> dexter.nodes@[n] == old(dexter).nodes@[n],
                dexter.nodes@[i as int].name == old(dexter).nodes@[i as int].name,
                dexter.nodes@[i as int].entry_sequence == old(dexter).nodes@[i as int].entry_sequence,
                dexter.nodes@[i as int].children == old(dexter).nodes@[i as int].children,
                dexter.nodes@[i as int].parent == old(dexter).nodes@[i as int].parent,
                e == store_contents(old(dexter).nodes@[i as int].entries),
                j <= run@.len(),
                run@.len() == run_of(e, key@).len(),
                forall|m: int| 0 <= m < run@.len() ==> (#[trigger] run@[m]).0 == run_of(e, key@)[m].0,
                forall|p: (Seq<char>, u64)|
                    #[trigger] store_contents(dexter.nodes@[i as int].entries).contains_key(p) <==> (e.contains_key(p)
                        && !(p.0 == key@ && exists|m: int| 0 <= m < j && (#[trigger] run@[m]).0 == p.1)),
                forall|p: (Seq<char>, u64)|
                    #[trigger] store_contents(dexter.nodes@[i as int].entries).contains_key(p) ==>
                        store_contents(dexter.nodes@[i as int].entries)[p] == e[p],
            decreases run@.len() - j,
        {
            let pos: (String, u64) = (key.to_owned(), run[j].0);
            store_remove(&mut dexter.nodes[i].entries, &pos);
            proof {
                let cur = store_contents(dexter.nodes@[i as int].entries);
                assert forall|p: (Seq<char>, u64)|
                    #[trigger] cur.contains_key(p) <==> (e.contains_key(p)
                        && !(p.0 == key@ && exists|m: int| 0 <= m < j + 1 && (#[trigger] run@[m]).0 == p.1)) by {
                    if p.0 == key@ && p.1 == run@[j as int].0 {
                        assert(run@[j as int].0 == p.1);
                    }
                }
            }
            j = j + 1;
        }
        proof {
            let o = old(dexter)@;
            let cur = store_contents(dexter.nodes@[i as int].entries);
            assert(cur =~= without_key(e, key@)) by {
                assert forall|p: (Seq<char>, u64)| cur.contains_key(p) <==> without_key(e, key@).contains_key(p) by {
                    if e.contains_key(p) && p.0 == key@ {
                        let m = choose|m: int| 0 <= m < run_of(e, key@).len() && (#[trigger] run_of(e, key@)[m]).0 == p.1;
                        assert(run@[m].0 == p.1);
                    }
                }
            }
            assert(dexter@.nodes =~= o.after_purge_key(i, key@).nodes);
            lemma_same_shape(o, dexter@);
        }
    }

    /// The values stored under `key`, in the order they were inserted.
    pub fn get(&self, dexter: &PointDexter, key: &str) -> (r: Vec<String>)
        requires
            dexter.holds(*self),
        ensures
            r@.len() == values_of(dexter@.nodes[self.slot() as int].entries, key@).len(),
            forall|i: int| 0 <= i < r@.len() ==> (#[trigger] r@[i])@ == values_of(dexter@.nodes[self.slot() as int].entries, key@)[i],
    {
        key_values(&dexter.nodes[self.0].entries, key)
    }

    /// The first value stored under `key`, if any.
    pub fn get_first(&self, dexter: &PointDexter, key: &str) -> (r: Option<String>)
        requires
            dexter.holds(*self),
        ensures
            match r {
                Some(v) => values_of(dexter@.nodes[self.slot() as int].entries, key@).len() > 0
                    && v@ == values_of(dexter@.nodes[self.slot() as int].entries, key@)[0],
                None => values_of(dexter@.nodes[self.slot() as int].entries, key@).len() == 0,
            },
    {
        let mut all = self.get(dexter, key);
        if all.len() > 0 {
            Some(all.remove(0))
        } else {
            None
        }
    }

    /// Every (key, value) pair of the point, ordered by key and then by
    /// insertion.
    pub fn entries(&self, dexter: &PointDexter) -> (r: Vec<(String, String)>)
        requires
            dexter.holds(*self),
        ensures
            exists|ks: Seq<(Seq<char>, u64)>| {
                &&& is_listing(dexter@.nodes[self.slot() as int].entries, ks)
                &&& r@.len() == ks.len()
                &&& forall|i: int| 0 <= i < ks.len() ==> (#[trigger] r@[i]).0@ == ks[i].0
                    && r@[i].1@ == dexter@.nodes[self.slot() as int].entries[ks[i]]
            },
    {
        proof {
            assert(dexter.nodes@[self.0 as int]@ == dexter@.nodes[self.0 as int]);
        }
        let (out, Ghost(ks)) = entry_list(&dexter.nodes[self.0].entries);
        proof {
            assert(dexter@.nodes[self.0 as int].entries == store_contents(dexter.nodes@[self.0 as int].entries));
            assert(forall|i: int| 0 <= i < ks.len() ==> (#[trigger] out@[i]).0@ == ks[i].0
                && out@[i].1@ == dexter@.nodes[self.slot() as int].entries[ks[i]]);
        }
        out
    }
}


impl PointDexter {
    /// Whether `target` is an ancestor of the point in slot `n`, found by
    /// walking up its parent links.
    fn has_ancestor(&self, n: usize, target: usize) -> (r: bool)
        requires
            self.wf(),
            self@.has(n),
        ensures
            r == self@.is_ancestor(n, target),
    {
        let ghost v = self@;
        let ghost h = choose|h: Seq<nat>| v.ranked(h);
        proof {
            assert(v.up(n, 1) == (match v.nodes[n as int].parent { Some(q) => v.up(q, 0), None => None::<usize> }));
            assert(self.nodes@[n as int]@ == v.nodes[n as int]);
        }
        let mut cur = self.nodes[n].parent;
        let ghost mut k: nat = 1;
        loop
            invariant
                self.wf(),
                v == self@,
                v.ranked(h),
                k >= 1,
                cur == v.up(n, k),
                cur matches Some(x) ==> x < v.nodes.len(),
                forall|j: nat| 1 <= j < k ==> #[trigger] v.up(n, j) != Some(target),
            decreases (match cur { Some(x) => h[x as int] + 1, None => 0 }),
        {
            match cur {
                Some(x) => {
                    if x == target {
                        return true;
                    }
                    proof {
                        lemma_up_succ(v, n, k);
                        assert(self.nodes@[x as int]@ == v.nodes[x as int]);
                        assert(v.nodes[x as int].parent is Some ==> h[v.nodes[x as int].parent.unwrap() as int] < h[x as int]);
                    }
                    cur = self.nodes[x].parent;
                    proof {
                        k = k + 1;
                    }
                },
                None => {
                    proof {
                        assert forall|j: nat| j >= 1 implies #[trigger] v.up(n, j) != Some(target) by {
                            if j >= k {
                                lemma_up_ended(v, n, k, j);
                            }
                        }
                    }
                    return false;
                },
            }
        }
    }

    /// Takes the point in slot `c` out from under its parent.
    fn unlink(&mut self, c: usize)
        requires
            old(self).wf(),
            old(self)@.has(c),
        ensures
            final(self).wf(),
            final(self)@ == old(self)@.after_detach(c),
    {
        let ghost v = self@;
        proof {
            let h = choose|h: Seq<nat>| v.ranked(h);
            assert(self.nodes@[c as int]@ == v.nodes[c as int]);
        }
        let old_parent = self.nodes[c].parent;
        self.nodes[c].parent = None;
        match old_parent {
            Some(q) => {
                let name = self.nodes[c].name.clone();
                children_remove(&mut self.nodes[q].children, name.as_str());
            },
            None => {},
        }
        proof {
            assert(self@.nodes =~= v.after_detach(c).nodes);
            lemma_detach_keeps_wf(v, c);
        }
    }

    /// The slots of the children of the point in slot `a`: the registered
    /// points whose names it lists, each once.
    fn children_slots(&self, a: usize) -> (r: Vec<usize>)
        requires
            self.wf(),
            self@.has(a),
        ensures
            forall|i: int, j: int| 0 <= i < j < r@.len() ==> r@[i] != r@[j],
            forall|i: int| 0 <= i < r@.len() ==> self@.child_link(a, #[trigger] r@[i]),
            forall|b: usize| #[trigger] self@.child_link(a, b) ==> r@.contains(b),
    {
        let ghost v = self@;
        proof {
            assert(self.nodes@[a as int]@ == v.nodes[a as int]);
        }
        let names = children_iter(&self.nodes[a].children);
        let mut out: Vec<usize> = Vec::new();
        let mut i: usize = 0;
        while i < names.len()
            invariant
                v == self@,
                self.wf(),
                self@.has(a),
                child_contents(self.nodes@[a as int].children) == v.nodes[a as int].children,
                i <= names@.len(),
                forall|x: int, y: int| 0 <= x < y < names@.len() ==> (#[trigger] names@[x])@ != (#[trigger] names@[y])@,
                forall|x: int| 0 <= x < names@.len() ==> v.nodes[a as int].children.contains((#[trigger] names@[x])@),
                forall|x: int, y: int| 0 <= x < y < out@.len() ==> out@[x] != out@[y],
                forall|x: int| 0 <= x < out@.len() ==> v.child_link(a, #[trigger] out@[x]),
                forall|x: int| 0 <= x < out@.len() ==> exists|y: int| 0 <= y < i && v.nodes[(#[trigger] out@[x]) as int].name == (#[trigger] names@[y])@,
                forall|y: int| 0 <= y < i && v.points.contains_key((#[trigger] names@[y])@) ==> out@.contains(v.points[names@[y]@]),
            decreases names@.len() - i,
        {
            match names_get(&self.points, names[i].as_str()) {
                Some(b) => {
                    proof {
                        let x = names@[i as int]@;
                        assert(v.points.contains_key(x));
                        assert forall|m: int| 0 <= m < out@.len() implies out@[m] != b by {
                            let y = choose|y: int| 0 <= y < i && v.nodes[(#[trigger] out@[m]) as int].name == (#[trigger] names@[y])@;
                            assert(names@[y]@ != names@[i as int]@);
                        }
                    }
                    let ghost prev = out@;
                    out.push(b);
                    proof {
                        let x = names@[i as int]@;
                        assert(v.child_link(a, b));
                        assert forall|m: int| 0 <= m < out@.len() implies exists|y: int| 0 <= y < i + 1 && v.nodes[(#[trigger] out@[m]) as int].name == (#[trigger] names@[y])@ by {
                            if m < out@.len() - 1 {
                                assert(out@[m] == prev[m]);
                                let y = choose|y: int| 0 <= y < i && v.nodes[(#[trigger] prev[m]) as int].name == (#[trigger] names@[y])@;
                            } else {
                                assert(v.nodes[out@[m] as int].name == names@[i as int]@);
                            }
                        }
                        assert forall|y: int| 0 <= y < i + 1 && v.points.contains_key((#[trigger] names@[y])@) implies out@.contains(v.points[names@[y]@]) by {
                            if y < i {
                                assert(prev.contains(v.points[names@[y]@]));
                                let z = choose|z: int| 0 <= z < prev.len() && prev[z] == v.points[names@[y]@];
                                assert(out@[z] == prev[z]);
                            } else {
                                assert(out@[out@.len() - 1] == b);
                            }
                        }
                    }
                },
                None => {},
            }
            i = i + 1;
        }
        proof {
            assert forall|b: usize| #[trigger] v.child_link(a, b) implies out@.contains(b) by {
                let x = v.nodes[b as int].name;
                let y = choose|y: int| 0 <= y < names@.len() && (#[trigger] names@[y])@ == x;
            }
        }
        out
    }
}

impl Point {
    /// Attaches `child` under this point, moving it from its old parent.
    /// Refused where `child` is this point, or an ancestor of it.
    pub fn attach(&self, dexter: &mut PointDexter, child: &Point) -> (r: Result<(), AttachError>)
        requires
            old(dexter).wf(),
            old(dexter).holds(*self),
            old(dexter).holds(*child),
        ensures
            final(dexter).wf(),
            r == old(dexter)@.attach_outcome(self.slot(), child.slot()),
            final(dexter)@ == old(dexter)@.after_attach(self.slot(), child.slot()),
            old(dexter)@.consistent() && old(dexter)@.live(self.slot()) && old(dexter)@.live(child.slot())
                ==> final(dexter)@.consistent(),
    {
        proof {
            if old(dexter)@.consistent() && old(dexter)@.live(self.slot()) && old(dexter)@.live(child.slot()) {
                law_attach_keeps_consistent(old(dexter)@, self.slot(), child.slot());
            }
        }
        let p = self.0;
        let c = child.0;
        if p == c {
            return Err(AttachError::SelfAttach);
        }
        if dexter.has_ancestor(p, c) {
            return Err(AttachError::WouldCycle);
        }
        let ghost v = dexter@;
        dexter.unlink(c);
        let ghost d = dexter@;
        proof {
            lemma_detach_shape(v, c);
            assert(dexter.nodes@[c as int]@ == d.nodes[c as int]);
        }
        dexter.nodes[c].parent = Some(p);
        let name = dexter.nodes[c].name.clone();
        children_insert(&mut dexter.nodes[p].children, name);
        proof {
            assert(dexter@.nodes =~= v.after_attach(p, c).nodes);
            lemma_attach_keeps_wf(v, p, c);
        }
        Ok(())
    }

    /// Takes this point out from under its parent.
    pub fn detach(&self, dexter: &mut PointDexter)
        requires
            old(dexter).wf(),
            old(dexter).holds(*self),
        ensures
            final(dexter).wf(),
            final(dexter)@ == old(dexter)@.after_detach(self.slot()),
            old(dexter)@.consistent() && old(dexter)@.live(self.slot()) ==> final(dexter)@.consistent(),
    {
        proof {
            if old(dexter)@.consistent() && old(dexter)@.live(self.slot()) {
                law_detach_keeps_consistent(old(dexter)@, self.slot());
            }
        }
        dexter.unlink(self.0);
    }

    /// The parent of this point, as the point registered under the parent's
    /// name.
    pub fn parent(&self, dexter: &PointDexter) -> (r: Option<Point>)
        requires
            dexter.wf(),
            dexter.holds(*self),
        ensures
            match r {
                Some(q) => dexter@.parent_of(self.slot()) == Some(q.slot()),
                None => dexter@.parent_of(self.slot()) is None,
            },
            r matches Some(q) ==> dexter.holds(q),
            dexter@.consistent() && dexter@.live(self.slot()) ==> match r {
                Some(q) => dexter@.live(q.slot()) && dexter@.child_link(q.slot(), self.slot()),
                None => dexter@.nodes[self.slot() as int].parent is None,
            },
    {
        let ghost v = dexter@;
        proof {
            if v.consistent() && v.live(self.slot()) && v.nodes[self.slot() as int].parent is Some {
                let q = v.nodes[self.slot() as int].parent.unwrap();
                assert(v.live(q));
                law_parent_matches_children(v, q, self.slot());
            }
        }
        proof {
            let h = choose|h: Seq<nat>| v.ranked(h);
            assert(dexter.nodes@[self.0 as int]@ == v.nodes[self.0 as int]);
        }
        match dexter.nodes[self.0].parent {
            Some(q) => {
                proof {
                    assert(dexter.nodes@[q as int]@ == v.nodes[q as int]);
                }
                match names_get(&dexter.points, dexter.nodes[q].name.as_str()) {
                    Some(slot) => Some(Point(slot)),
                    None => None,
                }
            },
            None => None,
        }
    }

    /// The children of this point: the registered points whose names it
    /// lists, each once, in no stated order.
    pub fn children(&self, dexter: &PointDexter) -> (r: Vec<Point>)
        requires
            dexter.wf(),
            dexter.holds(*self),
        ensures
            forall|i: int, j: int| 0 <= i < j < r@.len() ==> r@[i].slot() != r@[j].slot(),
            forall|i: int| 0 <= i < r@.len() ==> dexter@.child_link(self.slot(), (#[trigger] r@[i]).slot()),
            forall|b: usize| #[trigger] dexter@.child_link(self.slot(), b) ==> exists|i: int| 0 <= i < r@.len() && r@[i].slot() == b,
            dexter@.consistent() && dexter@.live(self.slot()) ==> forall|c: usize| #[trigger] dexter@.live(c) ==>
                ((exists|i: int| 0 <= i < r@.len() && r@[i].slot() == c) <==> dexter@.parent_of(c) == Some(self.slot())),
    {
        proof {
            if dexter@.consistent() && dexter@.live(self.slot()) {
                assert forall|c: usize| #[trigger] dexter@.live(c) implies
                    (dexter@.child_link(self.slot(), c) <==> dexter@.parent_of(c) == Some(self.slot())) by {
                    law_parent_matches_children(dexter@, self.slot(), c);
                }
            }
        }
        let slots = dexter.children_slots(self.0);
        let mut out: Vec<Point> = Vec::new();
        let mut i: usize = 0;
        while i < slots.len()
            invariant
                i <= slots@.len(),
                out@.len() == i,
                forall|j: int| 0 <= j < i ==> (#[trigger] out@[j]).slot() == slots@[j],
            decreases slots@.len() - i,
        {
            out.push(Point(slots[i]));
            i = i + 1;
        }
        proof {
            assert forall|b: usize| #[trigger] dexter@.child_link(self.slot(), b) implies exists|i: int| 0 <= i < out@.len() && out@[i].slot() == b by {
                let j = choose|j: int| 0 <= j < slots@.len() && slots@[j] == b;
                assert(out@[j].slot() == b);
            }
            assert forall|i: int, j: int| 0 <= i < j < out@.len() implies out@[i] != out@[j] by {
                assert(out@[i].slot() == slots@[i]);
                assert(out@[j].slot() == slots@[j]);
            }
        }
        out
    }
}


/// The texts of a list of (name, value) results.
pub open spec fn text_pairs(r: Seq<(String, String)>) -> Seq<(Seq<char>, Seq<char>)> {
    r.map_values(|x: (String, String)| (x.0@, x.1@))
}

impl PointDexter {
    /// Appends the (name, value) pairs that `key` finds in the point in slot `n`.
    fn collect_hits(&self, n: usize, key: &str, out: &mut Vec<(String, String)>)
        requires
            self.wf(),
            self@.has(n),
        ensures
            text_pairs(final(out)@) == text_pairs(old(out)@) + self@.hits_in(n, key@),
    {
        proof {
            assert(self.nodes@[n as int]@ == self@.nodes[n as int]);
        }
        let vals = key_values(&self.nodes[n].entries, key);
        let ghost start = out@;
        let ghost want = self@.hits_in(n, key@);
        let mut i: usize = 0;
        while i < vals.len()
            invariant
                i <= vals@.len(),
                want == self@.hits_in(n, key@),
                self@.has(n),
                self.nodes@[n as int]@ == self@.nodes[n as int],
                want.len() == vals@.len(),
                forall|j: int| 0 <= j < vals@.len() ==> want[j] == (self@.nodes[n as int].name, (#[trigger] vals@[j])@),
                text_pairs(out@) == text_pairs(start) + want.take(i as int),
            decreases vals@.len() - i,
        {
            let ghost before = out@;
            out.push((self.nodes[n].name.clone(), vals[i].clone()));
            proof {
                assert(text_pairs(out@) =~= text_pairs(before).push((self@.nodes[n as int].name, vals@[i as int]@)));
                assert(want.take(i + 1) =~= want.take(i as int).push(want[i as int]));
            }
            i = i + 1;
        }
        proof {
            assert(want.take(vals@.len() as int) =~= want);
        }
    }
}

impl Point {
    /// Every (point name, value) pair stored under `key` in the subtree under
    /// this point, point after point in a depth-first walk from this point,
    /// each point's values in insertion order.
    pub fn search(&self, dexter: &PointDexter, key: &str) -> (r: Vec<(String, String)>)
        requires
            dexter.wf(),
            dexter.holds(*self),
        ensures
            exists|order: Seq<usize>, depths: Seq<nat>| {
                &&& dexter@.is_walk(self.slot(), order, depths)
                &&& text_pairs(r@) == dexter@.hits(order, key@)
            },
    {
        let ghost v = dexter@;
        let (order, depths) = self.preorder(dexter);
        let ghost dn = depths@.map_values(|x: usize| x as nat);
        let mut results: Vec<(String, String)> = Vec::new();
        let mut i: usize = 0;
        proof {
            assert(text_pairs(results@) =~= v.hits(order@.take(0), key@));
        }
        while i < order.len()
            invariant
                v == dexter@,
                dexter.wf(),
                i <= order@.len(),
                forall|k: int| 0 <= k < order@.len() ==> v.has(#[trigger] order@[k]),
                text_pairs(results@) == v.hits(order@.take(i as int), key@),
            decreases order@.len() - i,
        {
            dexter.collect_hits(order[i], key, &mut results);
            proof {
                assert(order@.take(i + 1).drop_last() =~= order@.take(i as int));
                assert(order@.take(i + 1).last() == order@[i as int]);
            }
            i = i + 1;
        }
        proof {
            assert(order@.take(order@.len() as int) =~= order@);
            assert(v.is_walk(self.slot(), order@, dn)) by {
                assert forall|k: int| 0 < k < order@.len() implies exists|j: int|
                    0 <= j < k && v.child_link(order@[j], #[trigger] order@[k]) && dn[k] == dn[j] + 1
                    && forall|x: int| j < x < k ==> dn[x] > dn[j] by {
                    let j = choose|j: int| 0 <= j < k && v.child_link(order@[j], #[trigger] order@[k]) && depths@[k] == depths@[j] + 1
                        && forall|x: int| j < x < k ==> depths@[x] > depths@[j];
                    assert(dn[k] == depths@[k] as nat && dn[j] == depths@[j] as nat);
                    assert forall|x: int| j < x < k implies dn[x] > dn[j] by {
                        assert(dn[x] == depths@[x] as nat);
                    }
                }
            }
        }
        results
    }
}


impl PointDexter {
    /// Purges the point registered under `name` and its whole subtree: every
    /// point in it is unregistered, loses its parent link and its child list,
    /// and the purged point's parent no longer lists it. Nothing happens where
    /// `name` is not registered.
    #[verifier::rlimit(50)]
    pub fn purge_point(&mut self, name: &str)
        requires
            old(self).wf(),
        ensures
            final(self).wf(),
            final(self)@ == old(self)@.after_purge_point(name@),
            old(self)@.consistent() ==> final(self)@.consistent(),
    {
        proof {
            if old(self)@.consistent() {
                law_purge_point_keeps_consistent(old(self)@, name@);
            }
        }
        let ghost v = self@;
        let root = match names_remove(&mut self.points, name) {
            Some(r) => r,
            None => {
                proof {
                    assert(name_contents(self.points) =~= v.points);
                }
                return;
            },
        };
        let ghost b0 = v.after_detach(root);
        let ghost gone = v.subtree(root);
        proof {
            lemma_detach_shape(v, root);
            let h = choose|h: Seq<nat>| v.ranked(h);
            assert(self.nodes@[root as int]@ == v.nodes[root as int]);
            lemma_reaches_self(v, root);
        }
        let old_parent = self.nodes[root].parent;
        self.nodes[root].parent = None;
        match old_parent {
            Some(q) => {
                children_remove(&mut self.nodes[q].children, name);
            },
            None => {},
        }
        proof {
            assert(self@.nodes =~= b0.nodes);
        }
        let n = self.nodes.len();
        let mut stack: Vec<usize> = Vec::new();
        stack.push(root);
        let ghost mut done: Seq<usize> = Seq::empty();
        proof {
            assert(stack@ == seq![root]);
            assert(stack@[0] == root);
        }
        while stack.len() > 0
            invariant
                n == v.nodes.len(),
                n == self@.nodes.len(),
                v.wf(),
                v.points.contains_key(name@),
                root == v.points[name@],
                b0 == v.after_detach(root),
                gone == v.subtree(root),
                done.no_duplicates(),
                stack@.no_duplicates(),
                forall|m: usize| done.contains(m) ==> !stack@.contains(m),
                done.contains(root) || stack@.contains(root),
                forall|i: int| 0 <= i < done.len() ==> (#[trigger] done[i]) < n && gone.contains(done[i]),
                forall|i: int| 0 <= i < stack@.len() ==> (#[trigger] stack@[i]) < n && gone.contains(stack@[i]),
                forall|a: usize, b: usize| done.contains(a) && #[trigger] v.child_link(a, b) ==> done.contains(b) || stack@.contains(b),
                forall|x: Seq<char>| #[trigger] name_contents(self.points).contains_key(x) <==>
                    (v.points.contains_key(x) && !(done.contains(v.points[x]) || stack@.contains(v.points[x]))),
                forall|x: Seq<char>| #[trigger] name_contents(self.points).contains_key(x) ==> name_contents(self.points)[x] == v.points[x],
                forall|i: int|
                    0 <= i < n ==> {
                        &&& (#[trigger] self@.nodes[i]).name == v.nodes[i].name
                        &&& self@.nodes[i].entries == v.nodes[i].entries
                        &&& self@.nodes[i].next_seq == v.nodes[i].next_seq
                        &&& done.contains(i as usize) ==> self@.nodes[i].children.is_empty() && self@.nodes[i].parent is None
                        &&& stack@.contains(i as usize) ==> self@.nodes[i].children == b0.nodes[i].children && self@.nodes[i].parent is None
                        &&& !(done.contains(i as usize) || stack@.contains(i as usize)) ==> self@.nodes[i] == b0.nodes[i]
                    },
            decreases n - done.len(),
        {
            let ghost before = stack@;
            let cur = stack.pop().unwrap();
            proof {
                assert(before == stack@.push(cur));
                assert(before[before.len() - 1] == cur);
                assert forall|m: usize| #[trigger] stack@.contains(m) implies before.contains(m) && m != cur by {
                    let i = choose|i: int| 0 <= i < stack@.len() && stack@[i] == m;
                    assert(before[i] == m);
                }
                assert forall|m: usize| before.contains(m) implies #[trigger] stack@.contains(m) || m == cur by {
                    let i = choose|i: int| 0 <= i < before.len() && before[i] == m;
                    if i < stack@.len() {
                        assert(stack@[i] == before[i]);
                    }
                }
                let d2 = done.push(cur);
                assert forall|m: usize| #[trigger] d2.contains(m) <==> (done.contains(m) || m == cur) by {
                    if d2.contains(m) {
                        let i = choose|i: int| 0 <= i < d2.len() && d2[i] == m;
                        if i < done.len() {
                            assert(done[i] == d2[i]);
                        }
                    }
                    if done.contains(m) {
                        let i = choose|i: int| 0 <= i < done.len() && done[i] == m;
                        assert(d2[i] == done[i]);
                    }
                    if m == cur {
                        assert(d2[done.len() as int] == cur);
                    }
                }
                assert(d2.no_duplicates()) by {
                    assert(!done.contains(cur));
                }
                assert(gone.contains(cur));
                done = d2;
                lemma_distinct_below(done, n as nat);
                assert(self@.nodes[cur as int].children == b0.nodes[cur as int].children);
                assert(self.nodes@[cur as int]@ == self@.nodes[cur as int]);
            }
            let names = children_iter(&self.nodes[cur].children);
            let mut j: usize = 0;
            while j < names.len()
                invariant
                    n == v.nodes.len(),
                    n == self@.nodes.len(),
                    v.wf(),
                    b0 == v.after_detach(root),
                    gone == v.subtree(root),
                    cur < n,
                    gone.contains(cur),
                    done.len() > 0,
                    done.last() == cur,
                    done.no_duplicates(),
                    stack@.no_duplicates(),
                    forall|m: usize| done.contains(m) ==> !stack@.contains(m),
                    done.contains(root) || stack@.contains(root),
                    forall|i: int| 0 <= i < done.len() ==> (#[trigger] done[i]) < n && gone.contains(done[i]),
                    forall|i: int| 0 <= i < stack@.len() ==> (#[trigger] stack@[i]) < n && gone.contains(stack@[i]),
                    forall|a: usize, b: usize| done.contains(a) && a != cur && #[trigger] v.child_link(a, b) ==> done.contains(b) || stack@.contains(b),
                    j <= names@.len(),
                    forall|x: int, y: int| 0 <= x < y < names@.len() ==> (#[trigger] names@[x])@ != (#[trigger] names@[y])@,
                    forall|x: int| 0 <= x < names@.len() ==> b0.nodes[cur as int].children.contains((#[trigger] names@[x])@),
                    forall|x: Seq<char>| #[trigger] b0.nodes[cur as int].children.contains(x) ==> exists|y: int| 0 <= y < names@.len() && (#[trigger] names@[y])@ == x,
                    forall|y: int| 0 <= y < j && v.points.contains_key((#[trigger] names@[y])@) ==>
                        done.contains(v.points[names@[y]@]) || stack@.contains(v.points[names@[y]@]),
                    forall|x: Seq<char>| #[trigger] self@.nodes[cur as int].children.contains(x) <==>
                        (b0.nodes[cur as int].children.contains(x) && !(exists|y: int| 0 <= y < j && (#[trigger] names@[y])@ == x)),
                    self@.nodes[cur as int].parent is None,
                    forall|x: Seq<char>| #[trigger] name_contents(self.points).contains_key(x) <==>
                        (v.points.contains_key(x) && !(done.contains(v.points[x]) || stack@.contains(v.points[x]))),
                    forall|x: Seq<char>| #[trigger] name_contents(self.points).contains_key(x) ==> name_contents(self.points)[x] == v.points[x],
                    forall|i: int|
                        0 <= i < n ==> {
                            &&& (#[trigger] self@.nodes[i]).name == v.nodes[i].name
                            &&& self@.nodes[i].entries == v.nodes[i].entries
                            &&& self@.nodes[i].next_seq == v.nodes[i].next_seq
                            &&& done.contains(i as usize) && i != cur ==> self@.nodes[i].children.is_empty() && self@.nodes[i].parent is None
                            &&& stack@.contains(i as usize) ==> self@.nodes[i].children == b0.nodes[i].children && self@.nodes[i].parent is None
                            &&& !(done.contains(i as usize) || stack@.contains(i as usize)) ==> self@.nodes[i] == b0.nodes[i]
                        },
                decreases names@.len() - j,
            {
                let ghost pre = self@;
                let ghost pre_stack = stack@;
                children_remove(&mut self.nodes[cur].children, names[j].as_str());
                let ghost after_rm = self@;
                proof {
                    assert forall|i: int| 0 <= i < n && i != cur implies #[trigger] self@.nodes[i] == pre.nodes[i] by {
                        assert(self.nodes@[i]@ == pre.nodes[i]);
                    }
                    assert(self.nodes@[cur as int]@ == self@.nodes[cur as int]);
                    assert(pre.nodes[cur as int] == pre.nodes[cur as int]);
                    assert(after_rm.nodes[cur as int].children == pre.nodes[cur as int].children.remove(names@[j as int]@));
                    assert(after_rm.nodes[cur as int].parent == pre.nodes[cur as int].parent);
                    assert(done[done.len() - 1] == cur);
                    assert(done.contains(cur));
                }
                match names_remove(&mut self.points, names[j].as_str()) {
                    Some(child) => {
                        proof {
                            let x = names@[j as int]@;
                            assert(v.points.contains_key(x));
                            assert(v.points[x] == child);
                            assert(!(done.contains(child) || stack@.contains(child)));
                            assert(v.nodes[child as int].name == x);
                            assert(v.live(child));
                            assert(v.nodes[cur as int].children.contains(x)) by {
                                lemma_detach_shape(v, root);
                            }
                            assert(v.child_link(cur, child));
                            lemma_reaches_child(v, root, cur, child);
                            assert(child < n);
                            assert(child != cur);
                        }
                        let ghost mid = self@;
                        self.nodes[child].parent = None;
                        stack.push(child);
                        proof {
                            assert forall|i: int| 0 <= i < n && i != child implies #[trigger] self@.nodes[i] == mid.nodes[i] by {
                                assert(self.nodes@[i]@ == mid.nodes[i]);
                            }
                            assert(self.nodes@[child as int]@ == self@.nodes[child as int]);
                            assert forall|m: usize| #[trigger] stack@.contains(m) <==> (pre_stack.contains(m) || m == child) by {
                                if stack@.contains(m) {
                                    let i = choose|i: int| 0 <= i < stack@.len() && stack@[i] == m;
                                    if i < pre_stack.len() {
                                        assert(stack@[i] == pre_stack[i]);
                                    }
                                }
                                if pre_stack.contains(m) {
                                    let i = choose|i: int| 0 <= i < pre_stack.len() && pre_stack[i] == m;
                                    assert(stack@[i] == pre_stack[i]);
                                }
                                if m == child {
                                    assert(stack@[pre_stack.len() as int] == child);
                                }
                            }
                        }
                    },
                    None => {},
                }
                proof {
                    let x = names@[j as int]@;
                    assert(self@.nodes[cur as int] == after_rm.nodes[cur as int]);
                    assert forall|i: int|
                        0 <= i < n implies {
                            &&& (#[trigger] self@.nodes[i]).name == v.nodes[i].name
                            &&& self@.nodes[i].entries == v.nodes[i].entries
                            &&& self@.nodes[i].next_seq == v.nodes[i].next_seq
                            &&& done.contains(i as usize) && i != cur ==> self@.nodes[i].children.is_empty() && self@.nodes[i].parent is None
                            &&& stack@.contains(i as usize) ==> self@.nodes[i].children == b0.nodes[i].children && self@.nodes[i].parent is None
                            &&& !(done.contains(i as usize) || stack@.contains(i as usize)) ==> self@.nodes[i] == b0.nodes[i]
                        } by {
                        assert(pre.nodes[i].name == v.nodes[i].name);
                        if i != cur && !stack@.contains(i as usize) {
                            assert(!pre_stack.contains(i as usize) || stack@.contains(i as usize));
                        }
                    }
                    assert forall|y: Seq<char>| #[trigger] self@.nodes[cur as int].children.contains(y) <==>
                        (b0.nodes[cur as int].children.contains(y) && !(exists|z: int| 0 <= z < j + 1 && (#[trigger] names@[z])@ == y)) by {
                        if exists|z: int| 0 <= z < j + 1 && (#[trigger] names@[z])@ == y {
                            let z = choose|z: int| 0 <= z < j + 1 && (#[trigger] names@[z])@ == y;
                            if z < j {
                                assert(!pre.nodes[cur as int].children.contains(y));
                            }
                        }
                    }
                }
                j = j + 1;
            }
            proof {
                assert(self@.nodes[cur as int].children =~= Set::empty()) by {
                    assert forall|x: Seq<char>| !self@.nodes[cur as int].children.contains(x) by {
                        if b0.nodes[cur as int].children.contains(x) {
                            let y = choose|y: int| 0 <= y < names@.len() && (#[trigger] names@[y])@ == x;
                        }
                    }
                }
                assert forall|a: usize, b: usize| done.contains(a) && #[trigger] v.child_link(a, b) implies done.contains(b) || stack@.contains(b) by {
                    if a == cur {
                        let x = v.nodes[b as int].name;
                        lemma_detach_shape(v, root);
                        if b0.nodes[cur as int].children.contains(x) {
                            let y = choose|y: int| 0 <= y < names@.len() && (#[trigger] names@[y])@ == x;
                            assert(v.points.contains_key(x));
                        } else {
                            assert(v.nodes[root as int].name == name@);
                            assert(x == name@);
                            assert(b == root);
                        }
                    }
                }
            }
        }
        proof {
            let w = v.after_purge_point(name@);
            assert forall|m: usize| done.contains(m) <==> gone.contains(m) by {
                if gone.contains(m) {
                    let s = done.to_set();
                    assert forall|a: usize, b: usize| s.contains(a) && #[trigger] v.child_link(a, b) implies s.contains(b) by {}
                    lemma_closed_holds_reached(v, s, root, m);
                }
                if done.contains(m) {
                    let i = choose|i: int| 0 <= i < done.len() && done[i] == m;
                }
            }
            lemma_detach_shape(v, root);
            assert(v.nodes[root as int].name == name@);
            assert(name_contents(self.points) =~= w.points);
            assert forall|i: int| 0 <= i < n implies #[trigger] self@.nodes[i] == w.nodes[i] by {
                if gone.contains(i as usize) {
                    assert(self@.nodes[i].children =~= Set::empty());
                } else {
                    assert(self@.nodes[i] == b0.nodes[i]);
                }
            }
            assert(self@.nodes =~= w.nodes);
            let h = choose|h: Seq<nat>| v.ranked(h);
            assert(self@.ranked(h)) by {
                assert forall|i: int| 0 <= i < self@.nodes.len() && (#[trigger] self@.nodes[i]).parent is Some implies {
                    &&& self@.nodes[i].parent.unwrap() < self@.nodes.len()
                    &&& h[self@.nodes[i].parent.unwrap() as int] < h[i]
                } by {
                    assert(self@.nodes[i].parent == v.nodes[i].parent);
                }
            }
            assert forall|x: Seq<char>| #[trigger] self@.points.contains_key(x) implies {
                &&& self@.points[x] < self@.nodes.len()
                &&& self@.nodes[self@.points[x] as int].name == x
            } by {
                assert(v.points.contains_key(x));
            }
        }
    }
}


impl PointDexter {
    /// The slots of all registered points, each once, in no stated order.
    fn live_slots(&self) -> (r: Vec<usize>)
        requires
            self.wf(),
        ensures
            r@.no_duplicates(),
            forall|i: int| 0 <= i < r@.len() ==> self@.live(#[trigger] r@[i]),
            forall|m: usize| #[trigger] self@.live(m) ==> r@.contains(m),
    {
        let ghost v = self@;
        let all = names_iter(&self.points);
        let mut out: Vec<usize> = Vec::new();
        let mut i: usize = 0;
        while i < all.len()
            invariant
                v == self@,
                self.wf(),
                i <= all@.len(),
                out@.len() == i,
                forall|x: int, y: int| 0 <= x < y < all@.len() ==> (#[trigger] all@[x]).0@ != (#[trigger] all@[y]).0@,
                forall|x: int| 0 <= x < all@.len() ==> v.points.contains_key((#[trigger] all@[x]).0@) && v.points[all@[x].0@] == all@[x].1,
                forall|x: int| 0 <= x < i ==> #[trigger] out@[x] == all@[x].1,
            decreases all@.len() - i,
        {
            out.push(all[i].1);
            i = i + 1;
        }
        proof {
            assert forall|x: int| 0 <= x < out@.len() implies v.live(#[trigger] out@[x]) by {
                assert(v.points.contains_key(all@[x].0@));
            }
            assert(out@.no_duplicates()) by {
                assert forall|x: int, y: int| 0 <= x < out@.len() && 0 <= y < out@.len() && x != y implies out@[x] != out@[y] by {
                    assert(v.points.contains_key(all@[x].0@));
                    assert(v.points.contains_key(all@[y].0@));
                    if x < y {
                        assert(all@[x].0@ != all@[y].0@);
                    } else {
                        assert(all@[y].0@ != all@[x].0@);
                    }
                }
            }
            assert forall|m: usize| #[trigger] v.live(m) implies out@.contains(m) by {
                let x = v.nodes[m as int].name;
                assert(v.points.contains_key(x));
                let k = choose|k: int| 0 <= k < all@.len() && (#[trigger] all@[k]).0@ == x;
                assert(out@[k] == m);
            }
        }
        out
    }

    /// Every (point name, value) pair stored under `key` in any registered
    /// point, point after point in no stated order, each point's values in
    /// insertion order.
    pub fn search(&self, key: &str) -> (r: Vec<(String, String)>)
        requires
            self.wf(),
        ensures
            exists|order: Seq<usize>| {
                &&& order.no_duplicates()
                &&& forall|m: usize| order.contains(m) <==> self@.live(m)
                &&& text_pairs(r@) == self@.hits(order, key@)
            },
    {
        let slots = self.live_slots();
        let mut results: Vec<(String, String)> = Vec::new();
        let mut i: usize = 0;
        proof {
            assert(text_pairs(results@) =~= self@.hits(slots@.take(0), key@));
        }
        while i < slots.len()
            invariant
                self.wf(),
                i <= slots@.len(),
                forall|x: int| 0 <= x < slots@.len() ==> self@.live(#[trigger] slots@[x]),
                text_pairs(results@) == self@.hits(slots@.take(i as int), key@),
            decreases slots@.len() - i,
        {
            proof {
                assert(self@.live(slots@[i as int]));
            }
            self.collect_hits(slots[i], key, &mut results);
            proof {
                assert(slots@.take(i + 1).drop_last() =~= slots@.take(i as int));
                assert(slots@.take(i + 1).last() == slots@[i as int]);
            }
            i = i + 1;
        }
        proof {
            assert(slots@.take(slots@.len() as int) =~= slots@);
        }
        results
    }

    /// The registered points that have no parent link, each once, in no
    /// stated order.
    pub fn roots(&self) -> (r: Vec<Point>)
        requires
            self.wf(),
        ensures
            forall|i: int, j: int| 0 <= i < j < r@.len() ==> r@[i].slot() != r@[j].slot(),
            forall|i: int| 0 <= i < r@.len() ==> self@.root_set().contains((#[trigger] r@[i]).slot()),
            forall|m: usize| #[trigger] self@.root_set().contains(m) ==> exists|i: int| 0 <= i < r@.len() && r@[i].slot() == m,
    {
        let slots = self.live_slots();
        let mut out: Vec<Point> = Vec::new();
        let mut i: usize = 0;
        while i < slots.len()
            invariant
                self.wf(),
                i <= slots@.len(),
                slots@.no_duplicates(),
                forall|x: int| 0 <= x < slots@.len() ==> self@.live(#[trigger] slots@[x]),
                forall|x: int, y: int| 0 <= x < y < out@.len() ==> out@[x] != out@[y],
                forall|x: int| 0 <= x < out@.len() ==> self@.root_set().contains((#[trigger] out@[x]).slot()),
                forall|x: int| 0 <= x < out@.len() ==> exists|y: int| 0 <= y < i && (#[trigger] out@[x]).slot() == slots@[y],
                forall|y: int| 0 <= y < i && self@.root_set().contains(#[trigger] slots@[y]) ==> exists|x: int| 0 <= x < out@.len() && out@[x].slot() == slots@[y],
            decreases slots@.len() - i,
        {
            let slot = slots[i];
            proof {
                assert(self@.live(slot));
                assert(self.nodes@[slot as int]@ == self@.nodes[slot as int]);
            }
            if self.nodes[slot].parent.is_none() {
                let ghost prev = out@;
                out.push(Point(slot));
                proof {
                    assert forall|x: int, y: int| 0 <= x < y < out@.len() implies out@[x] != out@[y] by {
                        if y == out@.len() - 1 {
                            assert(out@[x] == prev[x]);
                            let z = choose|z: int| 0 <= z < i && (#[trigger] prev[x]).slot() == slots@[z];
                            assert(slots@[z] != slots@[i as int]);
                        } else {
                            assert(out@[x] == prev[x] && out@[y] == prev[y]);
                        }
                    }
                    assert forall|x: int| 0 <= x < out@.len() implies exists|y: int| 0 <= y < i + 1 && (#[trigger] out@[x]).slot() == slots@[y] by {
                        if x < prev.len() {
                            assert(out@[x] == prev[x]);
                            let z = choose|z: int| 0 <= z < i && (#[trigger] prev[x]).slot() == slots@[z];
                        } else {
                            assert(out@[x].slot() == slots@[i as int]);
                        }
                    }
                    assert forall|y: int| 0 <= y < i + 1 && self@.root_set().contains(#[trigger] slots@[y]) implies exists|x: int| 0 <= x < out@.len() && out@[x].slot() == slots@[y] by {
                        if y < i {
                            let x = choose|x: int| 0 <= x < prev.len() && prev[x].slot() == slots@[y];
                            assert(out@[x] == prev[x]);
                        } else {
                            assert(out@[prev.len() as int].slot() == slots@[y]);
                        }
                    }
                    assert forall|x: int| 0 <= x < out@.len() implies self@.root_set().contains((#[trigger] out@[x]).slot()) by {
                        if x < prev.len() {
                            assert(out@[x] == prev[x]);
                        }
                    }
                }
            }
            i = i + 1;
        }
        proof {
            assert forall|m: usize| #[trigger] self@.root_set().contains(m) implies exists|i: int| 0 <= i < out@.len() && out@[i].slot() == m by {
                assert(self@.live(m));
                let y = choose|y: int| 0 <= y < slots@.len() && slots@[y] == m;
                assert(self@.root_set().contains(slots@[y]));
            }
        }
        out
    }
}


impl PointDexter {
    /// A handle to every registered point, each once, in no stated order.
    pub fn points(&self) -> (r: Vec<Point>)
        requires
            self.wf(),
        ensures
            forall|i: int, j: int| 0 <= i < j < r@.len() ==> r@[i].slot() != r@[j].slot(),
            forall|i: int| 0 <= i < r@.len() ==> self@.live((#[trigger] r@[i]).slot()),
            forall|m: usize| #[trigger] self@.live(m) ==> exists|i: int| 0 <= i < r@.len() && r@[i].slot() == m,
    {
        let slots = self.live_slots();
        let mut out: Vec<Point> = Vec::new();
        let mut i: usize = 0;
        while i < slots.len()
            invariant
                i <= slots@.len(),
                out@.len() == i,
                forall|x: int| 0 <= x < i ==> (#[trigger] out@[x]).slot() == slots@[x],
            decreases slots@.len() - i,
        {
            out.push(Point(slots[i]));
            i = i + 1;
        }
        proof {
            assert forall|a: int, b: int| 0 <= a < b < out@.len() implies out@[a].slot() != out@[b].slot() by {
                assert(out@[a].slot() == slots@[a] && out@[b].slot() == slots@[b]);
            }
            assert forall|a: int| 0 <= a < out@.len() implies self@.live((#[trigger] out@[a]).slot()) by {
                assert(out@[a].slot() == slots@[a]);
            }
            assert forall|m: usize| #[trigger] self@.live(m) implies exists|a: int| 0 <= a < out@.len() && out@[a].slot() == m by {
                let a = choose|a: int| 0 <= a < slots@.len() && slots@[a] == m;
                assert(out@[a].slot() == slots@[a]);
            }
        }
        out
    }

    /// Calls `f` once on each of the handles that `points` gives.
    fn visit_live<F: FnMut(&Point)>(&self, f: F)
        requires
            self.wf(),
            forall|p: Point| self@.live(p.slot()) ==> call_requires(f, (&p,)),
        ensures
            forall|m: usize| #[trigger] self@.live(m) ==> exists|p: Point| p.slot() == m && call_ensures(f, (&p,), ()),
    {
        let all = self.points();
        let ghost f0 = f;
        let mut f = f;
        let mut i: usize = 0;
        while i < all.len()
            invariant
                i <= all@.len(),
                f == f0,
                forall|p: Point| self@.live(p.slot()) ==> call_requires(f0, (&p,)),
                forall|j: int| 0 <= j < all@.len() ==> self@.live((#[trigger] all@[j]).slot()),
                forall|j: int| 0 <= j < i ==> call_ensures(f0, (&(#[trigger] all@[j]),), ()),
            decreases all@.len() - i,
        {
            f(&all[i]);
            i = i + 1;
        }
        proof {
            assert forall|m: usize| #[trigger] self@.live(m) implies exists|p: Point| p.slot() == m && call_ensures(f0, (&p,), ()) by {
                let j = choose|j: int| 0 <= j < all@.len() && all@[j].slot() == m;
                assert(call_ensures(f0, (&all@[j],), ()));
            }
        }
    }

    /// Calls `f` once on each handle that `points` gives, so once on every
    /// registered point, in no stated order. The registry cannot change while
    /// it runs: it is borrowed.
    pub fn iter_lockfree<F: FnMut(&Point)>(&self, f: F)
        requires
            self.wf(),
            forall|p: Point| self@.live(p.slot()) ==> call_requires(f, (&p,)),
        ensures
            forall|m: usize| #[trigger] self@.live(m) ==> exists|p: Point| p.slot() == m && call_ensures(f, (&p,), ()),
    {
        self.visit_live(f)
    }

    /// Calls `f` once on each handle that `points` gives, so once on every
    /// registered point, in no stated order. The registry cannot change while
    /// it runs: it is borrowed.
    pub fn iter<F: FnMut(&Point)>(&self, f: F)
        requires
            self.wf(),
            forall|p: Point| self@.live(p.slot()) ==> call_requires(f, (&p,)),
        ensures
            forall|m: usize| #[trigger] self@.live(m) ==> exists|p: Point| p.slot() == m && call_ensures(f, (&p,), ()),
    {
        self.visit_live(f)
    }
}


/// Marks the unseen slots among `kids` as seen and pushes each of them with
/// depth `d`.
fn push_unseen(kids: &Vec<usize>, seen: &mut Vec<bool>, stack: &mut Vec<usize>, dstack: &mut Vec<usize>, d: usize)
    requires
        forall|i: int| 0 <= i < kids@.len() ==> (#[trigger] kids@[i]) < old(seen)@.len(),
        kids@.no_duplicates(),
        old(stack)@.len() == old(dstack)@.len(),
    ensures
        final(seen)@.len() == old(seen)@.len(),
        forall|m: usize| (m as int) < old(seen)@.len() ==> (#[trigger] final(seen)@[m as int] <==> (old(seen)@[m as int] || kids@.contains(m))),
        final(stack)@.len() == final(dstack)@.len(),
        final(stack)@.len() >= old(stack)@.len(),
        forall|i: int| 0 <= i < old(stack)@.len() ==> final(stack)@[i] == old(stack)@[i] && final(dstack)@[i] == old(dstack)@[i],
        forall|i: int| old(stack)@.len() <= i < final(stack)@.len() ==> final(dstack)@[i] == d
            && kids@.contains(#[trigger] final(stack)@[i]) && !old(seen)@[final(stack)@[i] as int],
        forall|i: int, j: int| old(stack)@.len() <= i < j < final(stack)@.len() ==> final(stack)@[i] != final(stack)@[j],
        forall|b: usize| #[trigger] kids@.contains(b) && !old(seen)@[b as int] ==> exists|i: int|
            old(stack)@.len() <= i < final(stack)@.len() && final(stack)@[i] == b,
{
    let ghost s0 = seen@;
    let ghost st0 = stack@;
    let ghost ds0 = dstack@;
    let ghost mut marked: Set<usize> = Set::empty();
    let mut j: usize = 0;
    while j < kids.len()
        invariant
            j <= kids@.len(),
            forall|i: int| 0 <= i < kids@.len() ==> (#[trigger] kids@[i]) < s0.len(),
            kids@.no_duplicates(),
            ds0.len() == st0.len(),
            seen@.len() == s0.len(),
            forall|m: usize| (m as int) < s0.len() ==> (seen@[m as int] <==> (s0[m as int] || marked.contains(m))),
            forall|m: usize| #[trigger] marked.contains(m) ==> kids@.contains(m),
            forall|x: int| 0 <= x < j ==> marked.contains(#[trigger] kids@[x]),
            forall|m: usize| #[trigger] marked.contains(m) ==> exists|x: int| 0 <= x < j && kids@[x] == m,
            stack@.len() == dstack@.len(),
            stack@.len() >= st0.len(),
            forall|i: int| 0 <= i < st0.len() ==> stack@[i] == st0[i] && dstack@[i] == ds0[i],
            forall|i: int| st0.len() <= i < dstack@.len() ==> #[trigger] dstack@[i] == d,
            forall|i: int| st0.len() <= i < stack@.len() ==> marked.contains(#[trigger] stack@[i]) && !s0[stack@[i] as int],
            forall|i: int, k: int| st0.len() <= i < k < stack@.len() ==> stack@[i] != stack@[k],
            forall|x: int| 0 <= x < j && !s0[kids@[x] as int] ==> exists|i: int|
                st0.len() <= i < stack@.len() && stack@[i] == #[trigger] kids@[x],
        decreases kids@.len() - j,
    {
        let b = kids[j];
        let ghost sb0 = stack@;
        let ghost db0 = dstack@;
        proof {
            assert(kids@.contains(b));
            assert(!marked.contains(b)) by {
                if marked.contains(b) {
                    let x = choose|x: int| 0 <= x < j && kids@[x] == b;
                    assert(kids@[x] == kids@[j as int]);
                }
            }
        }
        if !seen[b] {
            let ghost sb = stack@;
            let ghost db = dstack@;
            proof {
                assert(!seen@[b as int]);
                assert((b as int) < s0.len());
                assert(!s0[b as int]);
                assert forall|i: int| st0.len() <= i < sb.len() implies sb[i] != b by {
                    assert(marked.contains(sb[i]));
                }
            }
            seen.set(b, true);
            stack.push(b);
            dstack.push(d);
            proof {
                assert(stack@[sb.len() as int] == b);
                assert forall|i: int| 0 <= i < st0.len() implies stack@[i] == st0[i] && dstack@[i] == ds0[i] by {
                    assert(stack@[i] == sb[i] && dstack@[i] == db[i]);
                }
                assert forall|x: int| 0 <= x < j && !s0[kids@[x] as int] implies exists|i: int|
                    st0.len() <= i < stack@.len() && stack@[i] == #[trigger] kids@[x] by {
                    let i = choose|i: int| st0.len() <= i < sb.len() && sb[i] == #[trigger] kids@[x];
                    assert(stack@[i] == sb[i]);
                }
            }
        }
        proof {
            let old_marked = marked;
            marked = marked.insert(b);
            assert forall|m: usize| #[trigger] marked.contains(m) implies exists|x: int| 0 <= x < j + 1 && kids@[x] == m by {
                if m != b {
                    assert(old_marked.contains(m));
                    let x = choose|x: int| 0 <= x < j && kids@[x] == m;
                }
            }
            assert forall|i: int| st0.len() <= i < dstack@.len() implies #[trigger] dstack@[i] == d by {
                if i < db0.len() {
                    assert(dstack@[i] == db0[i]);
                }
            }
            assert forall|i: int| st0.len() <= i < stack@.len() implies marked.contains(#[trigger] stack@[i]) && !s0[stack@[i] as int] by {
                if i < sb0.len() {
                    assert(stack@[i] == sb0[i]);
                    assert(old_marked.contains(sb0[i]));
                } else {
                    assert(stack@[i] == b);
                    assert(!s0[b as int]);
                }
            }
        }
        j = j + 1;
    }
    proof {
        assert forall|m: usize| (m as int) < s0.len() implies (seen@[m as int] <==> (s0[m as int] || kids@.contains(m))) by {
            if kids@.contains(m) {
                let x = choose|x: int| 0 <= x < kids@.len() && kids@[x] == m;
                assert(marked.contains(kids@[x]));
            }
        }
        assert forall|b: usize| #[trigger] kids@.contains(b) && !s0[b as int] implies exists|i: int|
            st0.len() <= i < stack@.len() && stack@[i] == b by {
            let x = choose|x: int| 0 <= x < kids@.len() && kids@[x] == b;
            assert(!s0[kids@[x] as int]);
        }
        assert forall|i: int| st0.len() <= i < stack@.len() implies dstack@[i] == d && kids@.contains(#[trigger] stack@[i]) && !s0[stack@[i] as int] by {
            assert(marked.contains(stack@[i]));
            assert(dstack@[i] == d);
        }
    }
}

impl Point {
    /// The subtree under this point in depth-first order, from this point
    /// down, with the depth of each point.
    #[verifier::rlimit(40)]
    fn preorder(&self, dexter: &PointDexter) -> (r: (Vec<usize>, Vec<usize>))
        requires
            dexter.wf(),
            dexter.holds(*self),
        ensures
            r.0@.len() == r.1@.len(),
            r.0@.no_duplicates(),
            r.0@.len() > 0,
            r.0@[0] == self.slot(),
            r.1@[0] == 0,
            forall|m: usize| r.0@.contains(m) <==> dexter@.reaches(self.slot(), m),
            forall|i: int| 0 < i < r.0@.len() ==> exists|j: int|
                0 <= j < i && dexter@.child_link(r.0@[j], #[trigger] r.0@[i]) && r.1@[i] == r.1@[j] + 1
                && forall|k: int| j < k < i ==> r.1@[k] > r.1@[j],
    {
        let ghost v = dexter@;
        let n = dexter.nodes.len();
        let root = self.0;
        let mut seen: Vec<bool> = Vec::new();
        while seen.len() < n
            invariant
                seen@.len() <= n,
                forall|m: int| 0 <= m < seen@.len() ==> !seen@[m],
            decreases n - seen@.len(),
        {
            seen.push(false);
        }
        let mut order: Vec<usize> = Vec::new();
        let mut depths: Vec<usize> = Vec::new();
        let mut stack: Vec<usize> = Vec::new();
        let mut dstack: Vec<usize> = Vec::new();
        stack.push(root);
        dstack.push(0);
        seen.set(root, true);
        let ghost mut par: Seq<int> = Seq::empty();
        let ghost mut spar: Seq<int> = seq![0int];
        proof {
            lemma_reaches_self(v, root);
            assert(stack@ == seq![root]);
            assert forall|m: int| 0 <= m < n implies (seen@[m] <==> (order@.contains(m as usize) || stack@.contains(m as usize))) by {
                if m == root {
                    assert(stack@[0] == root);
                }
            }
        }
        while stack.len() > 0
            invariant
                v == dexter@,
                dexter.wf(),
                n == v.nodes.len(),
                root == self.slot(),
                root < n,
                seen@.len() == n,
                forall|m: int| 0 <= m < n ==> (seen@[m] <==> (order@.contains(m as usize) || stack@.contains(m as usize))),
                order@.no_duplicates(),
                stack@.no_duplicates(),
                forall|m: usize| order@.contains(m) ==> !stack@.contains(m),
                forall|i: int| 0 <= i < order@.len() ==> (#[trigger] order@[i]) < n && v.reaches(root, order@[i]),
                forall|i: int| 0 <= i < stack@.len() ==> (#[trigger] stack@[i]) < n && v.reaches(root, stack@[i]),
                forall|a: usize, b: usize| order@.contains(a) && #[trigger] v.child_link(a, b) ==> seen@[b as int],
                order@.len() == 0 ==> stack@ == seq![root] && dstack@ == seq![0usize],
                order@.len() > 0 ==> order@[0] == root && depths@[0] == 0,
                depths@.len() == order@.len(),
                par.len() == order@.len(),
                forall|i: int| 0 <= i < depths@.len() ==> (#[trigger] depths@[i]) <= i,
                forall|i: int| 0 < i < order@.len() ==> 0 <= #[trigger] par[i] < i
                    && v.child_link(order@[par[i]], order@[i]) && depths@[i] == depths@[par[i]] + 1,
                dstack@.len() == stack@.len(),
                spar.len() == stack@.len(),
                order@.len() > 0 ==> forall|i: int| 0 <= i < stack@.len() ==> 0 <= #[trigger] spar[i] < order@.len()
                    && v.child_link(order@[spar[i]], stack@[i]) && dstack@[i] == depths@[spar[i]] + 1,
                forall|i: int, k: int| #![trigger par[i], depths@[k]] 0 < i < order@.len() && par[i] < k < i ==> depths@[k] > depths@[par[i]],
                order@.len() > 0 ==> forall|i: int, i2: int| #![trigger spar[i], spar[i2]] 0 <= i < i2 < stack@.len() ==> spar[i] <= spar[i2],
                order@.len() > 0 ==> forall|i: int, k: int| #![trigger spar[i], depths@[k]] 0 <= i < stack@.len() && spar[i] < k < order@.len() ==> depths@[k] > depths@[spar[i]],
            decreases n - order@.len(),
        {
            let ghost before = stack@;
            let ghost dbefore = dstack@;
            let ghost obefore = order@;
            let ghost dpbefore = depths@;
            let cur = stack.pop().unwrap();
            let d = dstack.pop().unwrap();
            let ghost pcur = spar.last();
            let ghost sbefore = spar;
            proof {
                spar = spar.drop_last();
                assert(before == stack@.push(cur));
                assert(dbefore == dstack@.push(d));
                let t = before.len() - 1;
                assert(before[t] == cur && dbefore[t] == d);
                assert forall|m: usize| #[trigger] stack@.contains(m) implies before.contains(m) && m != cur by {
                    let i = choose|i: int| 0 <= i < stack@.len() && stack@[i] == m;
                    assert(before[i] == m);
                }
                assert forall|m: usize| before.contains(m) implies #[trigger] stack@.contains(m) || m == cur by {
                    let i = choose|i: int| 0 <= i < before.len() && before[i] == m;
                    if i < stack@.len() {
                        assert(stack@[i] == before[i]);
                    }
                }
                assert(!obefore.contains(cur));
                if obefore.len() > 0 {
                    assert(0 <= pcur < obefore.len());
                    assert(d == dpbefore[pcur] + 1);
                    assert(dpbefore[pcur] <= pcur);
                }
            }
            order.push(cur);
            depths.push(d);
            proof {
                par = par.push(pcur);
                assert forall|m: usize| #[trigger] order@.contains(m) <==> (obefore.contains(m) || m == cur) by {
                    if order@.contains(m) {
                        let i = choose|i: int| 0 <= i < order@.len() && order@[i] == m;
                        if i < obefore.len() {
                            assert(obefore[i] == order@[i]);
                        }
                    }
                    if obefore.contains(m) {
                        let i = choose|i: int| 0 <= i < obefore.len() && obefore[i] == m;
                        assert(order@[i] == obefore[i]);
                    }
                    if m == cur {
                        assert(order@[obefore.len() as int] == cur);
                    }
                }
                assert(order@.no_duplicates());
                lemma_distinct_below(order@, n as nat);
                assert forall|i: int| 0 < i < order@.len() implies 0 <= #[trigger] par[i] < i
                    && v.child_link(order@[par[i]], order@[i]) && depths@[i] == depths@[par[i]] + 1 by {
                    if i < obefore.len() {
                        assert(order@[i] == obefore[i]);
                        assert(order@[par[i]] == obefore[par[i]]);
                    } else {
                        assert(order@[i] == cur);
                        assert(order@[pcur] == obefore[pcur]);
                    }
                }
                assert forall|i: int| 0 <= i < stack@.len() implies 0 <= #[trigger] spar[i] < order@.len()
                    && v.child_link(order@[spar[i]], stack@[i]) && dstack@[i] == depths@[spar[i]] + 1 by {
                    assert(stack@[i] == before[i] && dstack@[i] == dbefore[i]);
                    assert(order@[spar[i]] == obefore[spar[i]]);
                }
                let t = obefore.len() as int;
                let top = sbefore.len() - 1;
                assert(forall|k: int| 0 <= k < t ==> #[trigger] depths@[k] == dpbefore[k]);
                assert(depths@[t] == d);
                assert forall|i: int, k: int| #![trigger par[i], depths@[k]] 0 < i < order@.len() && par[i] < k < i implies depths@[k] > depths@[par[i]] by {
                    if i < t {
                        assert(par[i] == par.drop_last()[i]);
                    } else {
                        assert(par[i] == pcur);
                        assert(obefore.len() > 0);
                        assert(sbefore[top] == pcur);
                        assert(dpbefore[k] > dpbefore[pcur]);
                    }
                }
                if obefore.len() > 0 {
                    assert forall|i: int, i2: int| #![trigger spar[i], spar[i2]] 0 <= i < i2 < stack@.len() implies spar[i] <= spar[i2] by {
                        assert(spar[i] == sbefore[i] && spar[i2] == sbefore[i2]);
                    }
                    assert forall|i: int, k: int| #![trigger spar[i], depths@[k]] 0 <= i < stack@.len() && spar[i] < k < order@.len() implies depths@[k] > depths@[spar[i]] by {
                        assert(spar[i] == sbefore[i]);
                        assert(sbefore[i] <= sbefore[top]);
                        if k < t {
                        } else {
                            assert(k == t);
                            if spar[i] < pcur {
                                assert(dpbefore[pcur] > dpbefore[sbefore[i]]);
                            }
                        }
                    }
                }
            }
            let kids = dexter.children_slots(cur);
            proof {
                assert(kids@.no_duplicates());
                assert forall|i: int| 0 <= i < kids@.len() implies (#[trigger] kids@[i]) < seen@.len() by {
                    assert(v.child_link(cur, kids@[i]));
                }
            }
            let ghost s_pre = seen@;
            let ghost st_pre = stack@;
            let ghost ds_pre = dstack@;
            push_unseen(&kids, &mut seen, &mut stack, &mut dstack, d + 1);
            proof {
                let last = order@.len() - 1;
                assert(order@[last] == cur);
                spar = spar + Seq::new((stack@.len() - st_pre.len()) as nat, |k: int| last);
                assert forall|m: usize| #[trigger] stack@.contains(m) <==> (st_pre.contains(m) || (kids@.contains(m) && !s_pre[m as int])) by {
                    if stack@.contains(m) {
                        let i = choose|i: int| 0 <= i < stack@.len() && stack@[i] == m;
                        if i < st_pre.len() {
                            assert(st_pre[i] == m);
                        }
                    }
                    if st_pre.contains(m) {
                        let i = choose|i: int| 0 <= i < st_pre.len() && st_pre[i] == m;
                        assert(stack@[i] == m);
                    }
                }
                assert forall|m: int| 0 <= m < n implies (seen@[m] <==> (order@.contains(m as usize) || stack@.contains(m as usize))) by {
                    let mu = m as usize;
                    assert(mu as int == m);
                    assert(s_pre[m] <==> (obefore.contains(mu) || before.contains(mu)));
                    assert(seen@[mu as int] <==> (s_pre[mu as int] || kids@.contains(mu)));
                    assert(before.contains(mu) <==> (st_pre.contains(mu) || mu == cur));
                    assert(order@.contains(mu) <==> (obefore.contains(mu) || mu == cur));
                    assert(stack@.contains(mu) <==> (st_pre.contains(mu) || (kids@.contains(mu) && !s_pre[m])));
                }
                assert(stack@.no_duplicates()) by {
                    assert forall|i: int, j: int| 0 <= i < stack@.len() && 0 <= j < stack@.len() && i != j implies stack@[i] != stack@[j] by {
                        if i < st_pre.len() && j < st_pre.len() {
                            assert(stack@[i] == st_pre[i] && stack@[j] == st_pre[j]);
                        } else if i < st_pre.len() {
                            assert(!s_pre[stack@[j] as int]);
                            assert(stack@[i] == st_pre[i]);
                            assert(st_pre.contains(stack@[i]));
                        } else if j < st_pre.len() {
                            assert(!s_pre[stack@[i] as int]);
                            assert(stack@[j] == st_pre[j]);
                            assert(st_pre.contains(stack@[j]));
                        }
                    }
                }
                assert forall|i: int| 0 <= i < stack@.len() implies (#[trigger] stack@[i]) < n && v.reaches(root, stack@[i]) by {
                    if i < st_pre.len() {
                        assert(stack@[i] == st_pre[i]);
                    } else {
                        assert(kids@.contains(stack@[i]));
                        assert(v.child_link(cur, stack@[i]));
                        lemma_reaches_child(v, root, cur, stack@[i]);
                    }
                }
                assert forall|i: int| 0 <= i < stack@.len() implies 0 <= #[trigger] spar[i] < order@.len()
                    && v.child_link(order@[spar[i]], stack@[i]) && dstack@[i] == depths@[spar[i]] + 1 by {
                    if i < st_pre.len() {
                        assert(stack@[i] == st_pre[i] && dstack@[i] == ds_pre[i]);
                    } else {
                        assert(kids@.contains(stack@[i]));
                        assert(spar[i] == last);
                        assert(dstack@[i] == d + 1);
                        assert(depths@[last] == d);
                    }
                }
                let old_spar = spar.subrange(0, st_pre.len() as int);
                assert forall|i: int, i2: int| #![trigger spar[i], spar[i2]] 0 <= i < i2 < stack@.len() implies spar[i] <= spar[i2] by {
                    if i2 >= st_pre.len() {
                        assert(spar[i2] == last);
                    }
                }
                assert forall|i: int, k: int| #![trigger spar[i], depths@[k]] 0 <= i < stack@.len() && spar[i] < k < order@.len() implies depths@[k] > depths@[spar[i]] by {
                    if i >= st_pre.len() {
                        assert(spar[i] == last);
                    }
                }
                assert forall|a: usize, b: usize| order@.contains(a) && #[trigger] v.child_link(a, b) implies seen@[b as int] by {
                    assert(v.live(b));
                    if a == cur {
                        assert(kids@.contains(b));
                    } else {
                        assert(obefore.contains(a));
                        assert(s_pre[b as int]);
                    }
                }
            }
        }
        proof {
            assert forall|m: usize| order@.contains(m) <==> v.reaches(root, m) by {
                if v.reaches(root, m) {
                    let s = order@.to_set();
                    assert forall|a: usize, b: usize| s.contains(a) && #[trigger] v.child_link(a, b) implies s.contains(b) by {
                        assert(v.live(b));
                        assert(seen@[b as int]);
                    }
                    lemma_closed_holds_reached(v, s, root, m);
                }
                if order@.contains(m) {
                    let i = choose|i: int| 0 <= i < order@.len() && order@[i] == m;
                }
            }
            assert forall|i: int| 0 < i < order@.len() implies exists|j: int|
                0 <= j < i && v.child_link(order@[j], #[trigger] order@[i]) && depths@[i] == depths@[j] + 1
                && forall|k: int| j < k < i ==> depths@[k] > depths@[j] by {
                assert(0 <= par[i] < i);
                let j = par[i];
                assert forall|k: int| j < k < i implies depths@[k] > depths@[j] by {
                    assert(depths@[k] > depths@[par[i]]);
                }
            }
        }
        (order, depths)
    }
}

/// Appends the indentation of depth `d`.
fn push_indent(out: &mut String, d: usize)
    ensures
        final(out)@ == old(out)@ + indent(d as nat),
{
    let ghost start = out@;
    let mut k: usize = 0;
    while k < d
        invariant
            k <= d,
            out@ == start + indent(k as nat),
        decreases d - k,
    {
        let ghost before = out@;
        out.append("    ");
        proof {
            assert(indent((k + 1) as nat) == indent(k as nat) + "    "@);
            assert(out@ =~= start + indent((k + 1) as nat));
        }
        k = k + 1;
    }
}

impl PointDexter {
    /// Appends point `n` drawn at depth `d`; gives back the entry positions
    /// in the order they were drawn.
    fn draw_block(&self, n: usize, d: usize, out: &mut String) -> (ks: Ghost<Seq<(Seq<char>, u64)>>)
        requires
            self@.has(n),
        ensures
            is_listing(self@.nodes[n as int].entries, ks@),
            final(out)@ == old(out)@ + self@.block(n, d as nat, ks@),
    {
        proof {
            assert(self.nodes@[n as int]@ == self@.nodes[n as int]);
        }
        let ghost start = out@;
        push_indent(out, d);
        out.append(self.nodes[n].name.as_str());
        out.append("\n");
        let ghost head = out@;
        proof {
            assert(head =~= start + (indent(d as nat) + self@.nodes[n as int].name + "\n"@));
        }
        let (pairs, Ghost(ks)) = entry_list(&self.nodes[n].entries);
        let ghost e = self@.nodes[n as int].entries;
        let mut j: usize = 0;
        proof {
            assert(ks.take(0) =~= Seq::<(Seq<char>, u64)>::empty());
            assert(out@ =~= head + self@.entry_lines(n, d as nat, ks.take(0)));
        }
        while j < pairs.len()
            invariant
                self@.has(n),
                e == self@.nodes[n as int].entries,
                j <= pairs@.len(),
                pairs@.len() == ks.len(),
                forall|i: int| 0 <= i < ks.len() ==> (#[trigger] pairs@[i]).0@ == ks[i].0 && pairs@[i].1@ == e[ks[i]],
                out@ == head + self@.entry_lines(n, d as nat, ks.take(j as int)),
            decreases pairs@.len() - j,
        {
            let ghost before = out@;
            push_indent(out, d);
            out.append("├── ");
            out.append(pairs[j].0.as_str());
            out.append(" = ");
            out.append(pairs[j].1.as_str());
            out.append("\n");
            proof {
                let t = ks.take(j + 1);
                assert(t.drop_last() =~= ks.take(j as int));
                assert(t.last() == ks[j as int]);
                assert(out@ =~= head + self@.entry_lines(n, d as nat, t));
            }
            j = j + 1;
        }
        proof {
            assert(ks.take(ks.len() as int) =~= ks);
            assert(out@ =~= start + self@.block(n, d as nat, ks));
        }
        Ghost(ks)
    }
}

impl Point {
    /// The subtree under this point drawn as text: each point's name on a
    /// line of its own, indented four spaces per level below this point, then
    /// one line "├── key = value" per entry in key order, then its subtree.
    pub fn to_string(&self, dexter: &PointDexter) -> (r: String)
        requires
            dexter.wf(),
            dexter.holds(*self),
        ensures
            exists|order: Seq<usize>, depths: Seq<nat>, lists: Seq<Seq<(Seq<char>, u64)>>| {
                &&& dexter@.is_layout(self.slot(), order, depths, lists)
                &&& r@ == dexter@.drawing(order, depths, lists)
            },
    {
        let ghost v = dexter@;
        let (order, depths) = self.preorder(dexter);
        let ghost dn = depths@.map_values(|x: usize| x as nat);
        let mut out = String::new();
        let ghost mut lists: Seq<Seq<(Seq<char>, u64)>> = Seq::empty();
        let mut i: usize = 0;
        proof {
            assert(order@.take(0) =~= Seq::<usize>::empty());
            assert(dn.take(0) =~= Seq::<nat>::empty());
        }
        while i < order.len()
            invariant
                v == dexter@,
                dexter.wf(),
                i <= order@.len(),
                order@.len() == depths@.len(),
                dn.len() == depths@.len(),
                forall|k: int| 0 <= k < depths@.len() ==> #[trigger] dn[k] == depths@[k] as nat,
                forall|k: int| 0 <= k < order@.len() ==> v.has(#[trigger] order@[k]),
                lists.len() == i,
                forall|k: int| 0 <= k < i ==> is_listing(v.nodes[(#[trigger] order@[k]) as int].entries, lists[k]),
                out@ == v.drawing(order@.take(i as int), dn.take(i as int), lists),
            decreases order@.len() - i,
        {
            let ghost before = out@;
            let Ghost(ks) = dexter.draw_block(order[i], depths[i], &mut out);
            proof {
                let l2 = lists.push(ks);
                let o2 = order@.take(i + 1);
                let d2 = dn.take(i + 1);
                assert(o2.drop_last() =~= order@.take(i as int));
                assert(d2.drop_last() =~= dn.take(i as int));
                assert(l2.drop_last() =~= lists);
                assert(o2.last() == order@[i as int]);
                assert(d2.last() == depths@[i as int] as nat);
                lists = l2;
                assert(out@ == v.drawing(o2, d2, lists));
            }
            i = i + 1;
        }
        proof {
            assert(order@.take(order@.len() as int) =~= order@);
            assert(dn.take(dn.len() as int) =~= dn);
            assert(v.is_layout(self.slot(), order@, dn, lists)) by {
                assert forall|k: int| 0 < k < order@.len() implies exists|j: int|
                    0 <= j < k && v.child_link(order@[j], #[trigger] order@[k]) && dn[k] == dn[j] + 1
                    && forall|x: int| j < x < k ==> dn[x] > dn[j] by {
                    let j = choose|j: int| 0 <= j < k && v.child_link(order@[j], #[trigger] order@[k]) && depths@[k] == depths@[j] + 1
                        && forall|x: int| j < x < k ==> depths@[x] > depths@[j];
                    assert(dn[k] == depths@[k] as nat && dn[j] == depths@[j] as nat);
                    assert forall|x: int| j < x < k implies dn[x] > dn[j] by {
                        assert(dn[x] == depths@[x] as nat);
                    }
                }
            }
        }
        out
    }
}

} // verus!
