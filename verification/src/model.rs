//! The mathematical model of the registry: what each point holds, how points
//! are linked, and what each operation makes of them.
use vstd::prelude::*;
use crate::order::{EntryPos, pos_lt};
use crate::point::AttachError;

verus! {

/// A point as the model sees it.
pub struct NodeView {
    /// The name the point was made with.
    pub name: Seq<char>,
    /// Each stored value under its (key, insertion sequence) position.
    pub entries: Map<EntryPos, Seq<char>>,
    /// The sequence the next inserted entry gets.
    pub next_seq: u64,
    /// The names listed as children.
    pub children: Set<Seq<char>>,
    /// The slot of the parent point, if any.
    pub parent: Option<usize>,
}

/// The registry as the model sees it: the names that are registered, and
/// every point ever made, by slot.
pub struct DexterView {
    pub points: Map<Seq<char>, usize>,
    pub nodes: Seq<NodeView>,
}

/// One past the greatest entry sequence.
pub open spec fn seq_span() -> nat {
    0x1_0000_0000_0000_0000
}

/// The entries stored under `key` with a sequence below `n`, as (sequence,
/// value) pairs in sequence order.
pub open spec fn run_below(e: Map<EntryPos, Seq<char>>, key: Seq<char>, n: nat) -> Seq<(u64, Seq<char>)>
    decreases n,
{
    if n == 0 {
        Seq::empty()
    } else {
        let prev = run_below(e, key, (n - 1) as nat);
        let pos = (key, (n - 1) as u64);
        if e.contains_key(pos) {
            prev.push(((n - 1) as u64, e[pos]))
        } else {
            prev
        }
    }
}

/// All entries stored under `key`, in insertion-sequence order.
pub open spec fn run_of(e: Map<EntryPos, Seq<char>>, key: Seq<char>) -> Seq<(u64, Seq<char>)> {
    run_below(e, key, seq_span())
}

/// The values stored under `key`, in insertion-sequence order.
pub open spec fn values_of(e: Map<EntryPos, Seq<char>>, key: Seq<char>) -> Seq<Seq<char>> {
    run_of(e, key).map_values(|x: (u64, Seq<char>)| x.1)
}

/// The entries with every position under `key` taken out.
pub open spec fn without_key(e: Map<EntryPos, Seq<char>>, key: Seq<char>) -> Map<EntryPos, Seq<char>> {
    Map::new(|p: EntryPos| e.contains_key(p) && p.0 != key, |p: EntryPos| e[p])
}

/// `ks` lists every position of `e` once, in ascending order.
pub open spec fn is_listing(e: Map<EntryPos, Seq<char>>, ks: Seq<EntryPos>) -> bool {
    &&& forall|i: int, j: int| 0 <= i < j < ks.len() ==> pos_lt(#[trigger] ks[i], #[trigger] ks[j])
    &&& forall|i: int| 0 <= i < ks.len() ==> e.contains_key(#[trigger] ks[i])
    &&& forall|p: EntryPos| #[trigger] e.contains_key(p) ==> ks.contains(p)
}

/// The wrapping successor of an entry sequence.
pub open spec fn next_after(s: u64) -> u64 {
    if s == u64::MAX {
        0
    } else {
        (s + 1) as u64
    }
}

/// The indentation of a line at depth `d`: four spaces per level.
pub open spec fn indent(d: nat) -> Seq<char>
    decreases d,
{
    if d == 0 {
        Seq::empty()
    } else {
        indent((d - 1) as nat) + "    "@
    }
}

/// A point with nothing in it.
pub open spec fn fresh_node(name: Seq<char>) -> NodeView {
    NodeView { name, entries: Map::empty(), next_seq: 0, children: Set::empty(), parent: None }
}

impl DexterView {
    pub open spec fn has(self, n: usize) -> bool {
        n < self.nodes.len()
    }

    /// The point in slot `n` is the one registered under its name.
    pub open spec fn live(self, n: usize) -> bool {
        &&& self.has(n)
        &&& self.points.contains_key(self.nodes[n as int].name)
        &&& self.points[self.nodes[n as int].name] == n
    }

    /// Every registered name leads to a point of that name.
    pub open spec fn names_ok(self) -> bool {
        forall|x: Seq<char>|
            #[trigger] self.points.contains_key(x) ==> {
                &&& self.points[x] < self.nodes.len()
                &&& self.nodes[self.points[x] as int].name == x
            }
    }

    /// `h` ranks the points so that every parent ranks below its child.
    pub open spec fn ranked(self, h: Seq<nat>) -> bool {
        &&& h.len() == self.nodes.len()
        &&& forall|i: int|
            0 <= i < self.nodes.len() && (#[trigger] self.nodes[i]).parent is Some ==> {
                &&& self.nodes[i].parent.unwrap() < self.nodes.len()
                &&& h[self.nodes[i].parent.unwrap() as int] < h[i]
            }
    }

    /// Following parent links always ends.
    pub open spec fn acyclic(self) -> bool {
        exists|h: Seq<nat>| self.ranked(h)
    }

    /// The registry's invariant.
    pub open spec fn wf(self) -> bool {
        &&& self.nodes.len() <= usize::MAX
        &&& self.names_ok()
        &&& self.acyclic()
    }

    /// The point `k` parent links above `n`, if the chain is that long.
    pub open spec fn up(self, n: usize, k: nat) -> Option<usize>
        decreases k,
    {
        if k == 0 {
            Some(n)
        } else if self.has(n) {
            match self.nodes[n as int].parent {
                Some(p) => self.up(p, (k - 1) as nat),
                None => None,
            }
        } else {
            None
        }
    }

    /// `t` is reached from `n` by following one or more parent links.
    pub open spec fn is_ancestor(self, n: usize, t: usize) -> bool {
        exists|k: nat| k >= 1 && #[trigger] self.up(n, k) == Some(t)
    }

    /// The parent of `n` as a point handle: the point registered under the
    /// name of the point that `n` links to.
    pub open spec fn parent_of(self, n: usize) -> Option<usize> {
        match self.nodes[n as int].parent {
            Some(q) => if self.points.contains_key(self.nodes[q as int].name) {
                Some(self.points[self.nodes[q as int].name])
            } else {
                None
            },
            None => None,
        }
    }

    /// `b` is a child of `a`: a registered point whose name `a` lists.
    pub open spec fn child_link(self, a: usize, b: usize) -> bool {
        &&& self.live(b)
        &&& self.nodes[a as int].children.contains(self.nodes[b as int].name)
    }

    /// The children of `a`, as slots.
    pub open spec fn children_of(self, a: usize) -> Set<usize> {
        Set::new(|b: usize| self.child_link(a, b))
    }

    /// `path` follows child links from its first point to its last.
    pub open spec fn is_path(self, path: Seq<usize>) -> bool {
        &&& path.len() >= 1
        &&& forall|i: int| 0 <= i < path.len() - 1 ==> #[trigger] self.child_link(path[i], path[i + 1])
    }

    /// `m` is `r` or lies below it by child links.
    pub open spec fn reaches(self, r: usize, m: usize) -> bool {
        exists|path: Seq<usize>| #[trigger] self.is_path(path) && path[0] == r && path.last() == m
    }

    /// The points of the subtree under `r`, `r` included.
    pub open spec fn subtree(self, r: usize) -> Set<usize> {
        Set::new(|m: usize| self.reaches(r, m))
    }

    /// The points that are registered.
    pub open spec fn live_set(self) -> Set<usize> {
        Set::new(|m: usize| self.live(m))
    }

    /// The registered points that have no parent link.
    pub open spec fn root_set(self) -> Set<usize> {
        Set::new(|m: usize| self.live(m) && self.nodes[m as int].parent is None)
    }

    /// The (point name, value) pairs that `key` finds in point `n`.
    pub open spec fn hits_in(self, n: usize, key: Seq<char>) -> Seq<(Seq<char>, Seq<char>)> {
        let name = self.nodes[n as int].name;
        values_of(self.nodes[n as int].entries, key).map_values(|v: Seq<char>| (name, v))
    }

    /// The pairs that `key` finds in the points `order`, point after point.
    pub open spec fn hits(self, order: Seq<usize>, key: Seq<char>) -> Seq<(Seq<char>, Seq<char>)>
        decreases order.len(),
    {
        if order.len() == 0 {
            Seq::empty()
        } else {
            self.hits(order.drop_last(), key) + self.hits_in(order.last(), key)
        }
    }

    /// The lines of point `n`'s entries at the positions `ks`, at depth `d`.
    pub open spec fn entry_lines(self, n: usize, d: nat, ks: Seq<EntryPos>) -> Seq<char>
        decreases ks.len(),
    {
        if ks.len() == 0 {
            Seq::empty()
        } else {
            self.entry_lines(n, d, ks.drop_last()) + indent(d) + "├── "@ + ks.last().0 + " = "@
                + self.nodes[n as int].entries[ks.last()] + "\n"@
        }
    }

    /// Point `n` drawn at depth `d`: its name, then one line per entry.
    pub open spec fn block(self, n: usize, d: nat, ks: Seq<EntryPos>) -> Seq<char> {
        indent(d) + self.nodes[n as int].name + "\n"@ + self.entry_lines(n, d, ks)
    }

    /// The points `order` drawn one after the other, each at its depth.
    pub open spec fn drawing(self, order: Seq<usize>, depths: Seq<nat>, lists: Seq<Seq<EntryPos>>) -> Seq<char>
        decreases order.len(),
    {
        if order.len() == 0 || depths.len() == 0 || lists.len() == 0 {
            Seq::empty()
        } else {
            self.drawing(order.drop_last(), depths.drop_last(), lists.drop_last())
                + self.block(order.last(), depths.last(), lists.last())
        }
    }

    /// `order` walks the subtree under `r` depth first, from `r` down: each
    /// point comes once, after a point that lists it as a child and one level
    /// deeper, with only points deeper than that one in between, so that
    /// each subtree comes right after its root.
    pub open spec fn is_walk(self, r: usize, order: Seq<usize>, depths: Seq<nat>) -> bool {
        &&& order.len() == depths.len()
        &&& order.no_duplicates()
        &&& order.len() > 0
        &&& order[0] == r
        &&& depths[0] == 0
        &&& forall|m: usize| order.contains(m) <==> self.reaches(r, m)
        &&& forall|i: int| 0 < i < order.len() ==> exists|j: int|
            0 <= j < i && self.child_link(order[j], #[trigger] order[i]) && depths[i] == depths[j] + 1
            && forall|k: int| j < k < i ==> depths[k] > depths[j]
    }

    /// A depth-first walk of the subtree under `r` with each point's entries
    /// listed in order.
    pub open spec fn is_layout(self, r: usize, order: Seq<usize>, depths: Seq<nat>, lists: Seq<Seq<EntryPos>>) -> bool {
        &&& self.is_walk(r, order, depths)
        &&& order.len() == lists.len()
        &&& forall|i: int| 0 <= i < order.len() ==> is_listing(self.nodes[(#[trigger] order[i]) as int].entries, lists[i])
    }

    /// Parent links and child lists agree among registered points: a
    /// registered point's parent is registered and lists its name, and every
    /// name a registered point lists belongs to a registered point that links
    /// back to it.
    pub open spec fn consistent(self) -> bool {
        &&& forall|n: usize|
            #[trigger] self.live(n) && self.nodes[n as int].parent is Some ==> {
                &&& self.live(self.nodes[n as int].parent.unwrap())
                &&& self.nodes[self.nodes[n as int].parent.unwrap() as int].children.contains(self.nodes[n as int].name)
            }
        &&& forall|a: usize, x: Seq<char>|
            #[trigger] self.live(a) && #[trigger] self.nodes[a as int].children.contains(x) ==> {
                &&& self.points.contains_key(x)
                &&& self.nodes[self.points[x] as int].parent == Some(a)
            }
    }

    // ── what each operation makes of the registry ──────────────────────────

    /// The slot that `point(name)` hands out.
    pub open spec fn point_slot(self, name: Seq<char>) -> usize {
        if self.points.contains_key(name) {
            self.points[name]
        } else {
            self.nodes.len() as usize
        }
    }

    /// The registry after `point(name)`: unchanged where the name is
    /// registered, else with a new empty point under it.
    pub open spec fn after_point(self, name: Seq<char>) -> DexterView {
        if self.points.contains_key(name) {
            self
        } else {
            DexterView {
                points: self.points.insert(name, self.nodes.len() as usize),
                nodes: self.nodes.push(fresh_node(name)),
            }
        }
    }

    /// The registry with point `n` replaced.
    pub open spec fn with_node(self, n: usize, node: NodeView) -> DexterView {
        DexterView { nodes: self.nodes.update(n as int, node), ..self }
    }

    /// The registry after inserting `value` under `key` into point `n`: it is
    /// stored at the point's next sequence, which then moves on by one.
    pub open spec fn after_insert(self, n: usize, key: Seq<char>, value: Seq<char>) -> DexterView {
        let node = self.nodes[n as int];
        self.with_node(
            n,
            NodeView {
                entries: node.entries.insert((key, node.next_seq), value),
                next_seq: next_after(node.next_seq),
                ..node
            },
        )
    }

    /// The registry after every entry under `key` leaves point `n`.
    pub open spec fn after_purge_key(self, n: usize, key: Seq<char>) -> DexterView {
        let node = self.nodes[n as int];
        self.with_node(n, NodeView { entries: without_key(node.entries, key), ..node })
    }

    /// The registry after `c` leaves its parent: its parent link is cleared,
    /// and the point it linked to no longer lists its name.
    pub open spec fn after_detach(self, c: usize) -> DexterView {
        let node = self.nodes[c as int];
        let cleared = self.with_node(c, NodeView { parent: None, ..node });
        match node.parent {
            Some(q) => {
                let pq = cleared.nodes[q as int];
                cleared.with_node(q, NodeView { children: pq.children.remove(node.name), ..pq })
            },
            None => cleared,
        }
    }

    /// What `attach` answers when point `p` takes `c` as its child.
    pub open spec fn attach_outcome(self, p: usize, c: usize) -> Result<(), AttachError> {
        if p == c {
            Err(AttachError::SelfAttach)
        } else if self.is_ancestor(p, c) {
            Err(AttachError::WouldCycle)
        } else {
            Ok(())
        }
    }

    /// The registry after point `p` takes `c` as its child: unchanged where
    /// that is refused, else `c` leaves its old parent, links to `p`, and `p`
    /// lists its name.
    pub open spec fn after_attach(self, p: usize, c: usize) -> DexterView {
        if self.attach_outcome(p, c) is Err {
            self
        } else {
            let d = self.after_detach(c);
            let linked = d.with_node(c, NodeView { parent: Some(p), ..d.nodes[c as int] });
            let pp = linked.nodes[p as int];
            linked.with_node(p, NodeView { children: pp.children.insert(self.nodes[c as int].name), ..pp })
        }
    }

    /// The registry after the point registered under `name` is purged with
    /// its subtree: every point of the subtree loses its registration, its
    /// parent link and its child list, and the parent of the purged point no
    /// longer lists it. Nothing changes where `name` is not registered.
    pub open spec fn after_purge_point(self, name: Seq<char>) -> DexterView {
        if !self.points.contains_key(name) {
            self
        } else {
            let r = self.points[name];
            let gone = self.subtree(r);
            let q = self.nodes[r as int].parent;
            DexterView {
                points: Map::new(
                    |x: Seq<char>| self.points.contains_key(x) && !gone.contains(self.points[x]),
                    |x: Seq<char>| self.points[x],
                ),
                nodes: Seq::new(
                    self.nodes.len(),
                    |i: int|
                        if gone.contains(i as usize) {
                            NodeView { children: Set::empty(), parent: None, ..self.nodes[i] }
                        } else if q == Some(i as usize) {
                            NodeView { children: self.nodes[i].children.remove(name), ..self.nodes[i] }
                        } else {
                            self.nodes[i]
                        },
                ),
            }
        }
    }
}


// ── facts about runs of entries ────────────────────────────────────────────

/// Where `e` holds nothing under `key` between sequences `a` and `b`, the run
/// below `b` is the run below `a`.
pub proof fn lemma_run_gap(e: Map<EntryPos, Seq<char>>, key: Seq<char>, a: nat, b: nat)
    requires
        a <= b <= seq_span(),
        forall|u: u64| a <= u < b ==> !#[trigger] e.contains_key((key, u)),
    ensures
        run_below(e, key, b) == run_below(e, key, a),
    decreases b,
{
    if b > a {
        lemma_run_gap(e, key, a, (b - 1) as nat);
        assert(!e.contains_key((key, (b - 1) as u64)));
    }
}

/// The run below `n` lists, in strictly ascending sequence order, exactly
/// the entries under `key` whose sequence is below `n`.
pub proof fn lemma_run_members(e: Map<EntryPos, Seq<char>>, key: Seq<char>, n: nat)
    requires
        n <= seq_span(),
    ensures
        forall|i: int|
            0 <= i < run_below(e, key, n).len() ==> {
                &&& (#[trigger] run_below(e, key, n)[i]).0 < n
                &&& e.contains_key((key, run_below(e, key, n)[i].0))
                &&& e[(key, run_below(e, key, n)[i].0)] == run_below(e, key, n)[i].1
            },
        forall|i: int, j: int|
            0 <= i < j < run_below(e, key, n).len() ==> (#[trigger] run_below(e, key, n)[i]).0 < (#[trigger] run_below(e, key, n)[j]).0,
        forall|u: u64|
            u < n && #[trigger] e.contains_key((key, u)) ==> exists|i: int|
                0 <= i < run_below(e, key, n).len() && (#[trigger] run_below(e, key, n)[i]).0 == u,
    decreases n,
{
    if n > 0 {
        let m = (n - 1) as nat;
        lemma_run_members(e, key, m);
        let prev = run_below(e, key, m);
        let cur = run_below(e, key, n);
        assert forall|u: u64| u < n && #[trigger] e.contains_key((key, u)) implies exists|i: int|
            0 <= i < cur.len() && (#[trigger] cur[i]).0 == u by {
            if u < m {
                let i = choose|i: int| 0 <= i < prev.len() && (#[trigger] prev[i]).0 == u;
                assert(cur[i] == prev[i]);
            } else {
                assert(u as nat == m);
                assert(cur[cur.len() - 1].0 == u);
            }
        }
    }
}

/// The values of the run, in order.
pub proof fn lemma_values_of_run(e: Map<EntryPos, Seq<char>>, key: Seq<char>)
    ensures
        values_of(e, key).len() == run_of(e, key).len(),
        forall|i: int| 0 <= i < values_of(e, key).len() ==> #[trigger] values_of(e, key)[i] == run_of(e, key)[i].1,
{
}

// ── facts about the registry's shape ───────────────────────────────────────

/// Two registries with the same names, slots and parent links are both well
/// formed or neither is.
pub proof fn lemma_same_shape(a: DexterView, b: DexterView)
    requires
        a.wf(),
        b.points == a.points,
        b.nodes.len() == a.nodes.len(),
        forall|i: int| 0 <= i < a.nodes.len() ==> (#[trigger] b.nodes[i]).name == a.nodes[i].name && b.nodes[i].parent == a.nodes[i].parent,
    ensures
        b.wf(),
{
    let h = choose|h: Seq<nat>| a.ranked(h);
    assert(b.ranked(h)) by {
        assert forall|i: int| 0 <= i < b.nodes.len() && (#[trigger] b.nodes[i]).parent is Some implies {
            &&& b.nodes[i].parent.unwrap() < b.nodes.len()
            &&& h[b.nodes[i].parent.unwrap() as int] < h[i]
        } by {
            assert(a.nodes[i].parent == b.nodes[i].parent);
        }
    }
    assert forall|x: Seq<char>| #[trigger] b.points.contains_key(x) implies {
        &&& b.points[x] < b.nodes.len()
        &&& b.nodes[b.points[x] as int].name == x
    } by {
        assert(a.points.contains_key(x));
        assert(b.nodes[b.points[x] as int].name == a.nodes[a.points[x] as int].name);
    }
}

// ── facts about parent chains ──────────────────────────────────────────────

/// One more step up is one parent link above the point `k` steps up.
pub proof fn lemma_up_succ(v: DexterView, n: usize, k: nat)
    ensures
        v.up(n, k + 1) == (match v.up(n, k) {
            Some(m) => if v.has(m) { v.nodes[m as int].parent } else { None::<usize> },
            None => None::<usize>,
        }),
    decreases k,
{
    if v.has(n) {
        if let Some(p) = v.nodes[n as int].parent {
            if k > 0 {
                lemma_up_succ(v, p, (k - 1) as nat);
                assert(v.up(n, k) == v.up(p, (k - 1) as nat));
                assert((k - 1) as nat + 1 == k);
                assert(v.up(n, k + 1) == v.up(p, k));
            } else {
                assert(v.up(p, 0) == Some(p));
                assert(v.up(n, 1) == v.up(p, 0));
            }
        }
    }
}

/// Once the chain above `n` has ended, it stays ended.
pub proof fn lemma_up_ended(v: DexterView, n: usize, k: nat, j: nat)
    requires
        v.up(n, k) is None,
        k <= j,
    ensures
        v.up(n, j) is None,
    decreases j - k,
{
    if k < j {
        lemma_up_succ(v, n, k);
        lemma_up_ended(v, n, k + 1, j);
    }
}

/// Ranks fall along parent links: an ancestor ranks below its descendant.
pub proof fn lemma_ancestor_ranks_lower(v: DexterView, h: Seq<nat>, n: usize, t: usize, k: nat)
    requires
        v.ranked(h),
        v.has(n),
        k >= 1,
        v.up(n, k) == Some(t),
    ensures
        t < v.nodes.len(),
        h[t as int] < h[n as int],
    decreases k,
{
    assert(v.nodes[n as int].parent is Some);
    let q = v.nodes[n as int].parent.unwrap();
    assert(v.up(n, k) == v.up(q, (k - 1) as nat));
    if k > 1 {
        lemma_ancestor_ranks_lower(v, h, q, t, (k - 1) as nat);
    }
}

/// An ancestor of `n`'s parent is an ancestor of `n`; the parent itself is one.
pub proof fn lemma_ancestor_through_parent(v: DexterView, n: usize, t: usize)
    requires
        v.has(n),
        v.nodes[n as int].parent is Some,
        v.nodes[n as int].parent.unwrap() == t || v.is_ancestor(v.nodes[n as int].parent.unwrap(), t),
    ensures
        v.is_ancestor(n, t),
{
    let q = v.nodes[n as int].parent.unwrap();
    if q == t {
        assert(v.up(q, 0) == Some(t));
        assert(v.up(n, 1) == Some(t));
    } else {
        let k = choose|k: nat| k >= 1 && #[trigger] v.up(q, k) == Some(t);
        assert(v.up(n, k + 1) == v.up(q, k));
    }
}

/// An ancestor of `n` is its parent or an ancestor of its parent.
pub proof fn lemma_ancestor_split(v: DexterView, n: usize, t: usize)
    requires
        v.is_ancestor(n, t),
    ensures
        v.has(n),
        v.nodes[n as int].parent is Some,
        v.nodes[n as int].parent.unwrap() == t || v.is_ancestor(v.nodes[n as int].parent.unwrap(), t),
{
    let k = choose|k: nat| k >= 1 && #[trigger] v.up(n, k) == Some(t);
    let q = v.nodes[n as int].parent.unwrap();
    assert(v.up(n, k) == v.up(q, (k - 1) as nat));
    if k > 1 {
        assert(v.up(q, (k - 1) as nat) == Some(t));
    }
}

/// What `after_detach` changes: `c`'s parent link, and one child list.
pub proof fn lemma_detach_shape(v: DexterView, c: usize)
    requires
        v.wf(),
        v.has(c),
    ensures
        v.after_detach(c).points == v.points,
        v.after_detach(c).nodes.len() == v.nodes.len(),
        forall|i: int|
            0 <= i < v.nodes.len() ==> {
                &&& (#[trigger] v.after_detach(c).nodes[i]).name == v.nodes[i].name
                &&& v.after_detach(c).nodes[i].entries == v.nodes[i].entries
                &&& v.after_detach(c).nodes[i].next_seq == v.nodes[i].next_seq
                &&& v.after_detach(c).nodes[i].parent == (if i == c { None::<usize> } else { v.nodes[i].parent })
            },
{
    let h = choose|h: Seq<nat>| v.ranked(h);
    assert(v.nodes[c as int].parent is Some ==> v.nodes[c as int].parent.unwrap() < v.nodes.len());
}

/// Taking a point out from under its parent keeps the registry well formed.
pub proof fn lemma_detach_keeps_wf(v: DexterView, c: usize)
    requires
        v.wf(),
        v.has(c),
    ensures
        v.after_detach(c).wf(),
{
    lemma_detach_shape(v, c);
    let w = v.after_detach(c);
    let h = choose|h: Seq<nat>| v.ranked(h);
    assert(w.ranked(h)) by {
        assert forall|i: int| 0 <= i < w.nodes.len() && (#[trigger] w.nodes[i]).parent is Some implies {
            &&& w.nodes[i].parent.unwrap() < w.nodes.len()
            &&& h[w.nodes[i].parent.unwrap() as int] < h[i]
        } by {
            assert(v.nodes[i].parent == w.nodes[i].parent);
        }
    }
    assert forall|x: Seq<char>| #[trigger] w.points.contains_key(x) implies {
        &&& w.points[x] < w.nodes.len()
        &&& w.nodes[w.points[x] as int].name == x
    } by {
        assert(v.points.contains_key(x));
    }
}

/// What a successful `after_attach` changes: `c` links to `p`; child lists.
pub proof fn lemma_attach_shape(v: DexterView, p: usize, c: usize)
    requires
        v.wf(),
        v.has(p),
        v.has(c),
        v.attach_outcome(p, c) is Ok,
    ensures
        v.after_attach(p, c).points == v.points,
        v.after_attach(p, c).nodes.len() == v.nodes.len(),
        forall|i: int|
            0 <= i < v.nodes.len() ==> {
                &&& (#[trigger] v.after_attach(p, c).nodes[i]).name == v.nodes[i].name
                &&& v.after_attach(p, c).nodes[i].entries == v.nodes[i].entries
                &&& v.after_attach(p, c).nodes[i].next_seq == v.nodes[i].next_seq
                &&& v.after_attach(p, c).nodes[i].parent == (if i == c { Some(p) } else { v.nodes[i].parent })
            },
{
    lemma_detach_shape(v, c);
    let d = v.after_detach(c);
    let linked = d.with_node(c, NodeView { parent: Some(p), ..d.nodes[c as int] });
    let w = v.after_attach(p, c);
    assert(w == linked.with_node(p, NodeView { children: linked.nodes[p as int].children.insert(v.nodes[c as int].name), ..linked.nodes[p as int] }));
    assert forall|i: int| 0 <= i < v.nodes.len() implies {
        &&& (#[trigger] w.nodes[i]).name == v.nodes[i].name
        &&& w.nodes[i].entries == v.nodes[i].entries
        &&& w.nodes[i].next_seq == v.nodes[i].next_seq
        &&& w.nodes[i].parent == (if i == c { Some(p) } else { v.nodes[i].parent })
    } by {
        assert(d.nodes[i].name == v.nodes[i].name);
    }
}

/// Attaching never makes a point its own ancestor: whatever `attach` does
/// keeps the registry well formed.
pub proof fn lemma_attach_keeps_wf(v: DexterView, p: usize, c: usize)
    requires
        v.wf(),
        v.has(p),
        v.has(c),
    ensures
        v.after_attach(p, c).wf(),
{
    if v.attach_outcome(p, c) is Ok {
        lemma_attach_shape(v, p, c);
        let w = v.after_attach(p, c);
        let h = choose|h: Seq<nat>| v.ranked(h);
        let below = |n: int| n == c || v.is_ancestor(n as usize, c);
        let h2 = Seq::new(v.nodes.len(), |n: int| if below(n) { (h[n] - h[c as int] + h[p as int] + 1) as nat } else { h[n] });
        assert forall|n: int| 0 <= n < v.nodes.len() && below(n) implies h[n] >= h[c as int] by {
            assert((n as usize) as int == n);
            if n != c {
                let k = choose|k: nat| k >= 1 && #[trigger] v.up(n as usize, k) == Some(c);
                lemma_ancestor_ranks_lower(v, h, n as usize, c, k);
            }
        }
        assert(!below(p as int));
        assert(w.ranked(h2)) by {
            assert forall|i: int| 0 <= i < w.nodes.len() && (#[trigger] w.nodes[i]).parent is Some implies {
                &&& w.nodes[i].parent.unwrap() < w.nodes.len()
                &&& h2[w.nodes[i].parent.unwrap() as int] < h2[i]
            } by {
                if i == c {
                    assert(h[c as int] >= h[c as int]);
                } else {
                    let x = v.nodes[i].parent.unwrap();
                    assert(v.nodes[i].parent is Some);
                    assert(x < v.nodes.len() && h[x as int] < h[i]);
                    assert((i as usize) as int == i);
                    if below(i) {
                        lemma_ancestor_split(v, i as usize, c);
                        assert(below(x as int));
                    } else {
                        if below(x as int) {
                            lemma_ancestor_through_parent(v, i as usize, c);
                        }
                    }
                }
            }
        }
        assert forall|x: Seq<char>| #[trigger] w.points.contains_key(x) implies {
            &&& w.points[x] < w.nodes.len()
            &&& w.nodes[w.points[x] as int].name == x
        } by {
            assert(v.points.contains_key(x));
        }
    }
}

// ── facts about reaching points by child links ─────────────────────────────

/// A point reaches itself.
pub proof fn lemma_reaches_self(v: DexterView, r: usize)
    ensures
        v.reaches(r, r),
{
    let path = seq![r];
    assert(v.is_path(path));
}

/// What a point reaches, a child of it reaches too... and the other way: a
/// child of a reached point is reached.
pub proof fn lemma_reaches_child(v: DexterView, r: usize, a: usize, b: usize)
    requires
        v.reaches(r, a),
        v.child_link(a, b),
    ensures
        v.reaches(r, b),
{
    let path = choose|path: Seq<usize>| #[trigger] v.is_path(path) && path[0] == r && path.last() == a;
    let p2 = path.push(b);
    assert forall|i: int| 0 <= i < p2.len() - 1 implies #[trigger] v.child_link(p2[i], p2[i + 1]) by {
        if i < path.len() - 1 {
            assert(v.child_link(path[i], path[i + 1]));
        }
    }
    assert(v.is_path(p2));
}

/// A set that holds `r` and every child of its members holds every point
/// that `r` reaches.
pub proof fn lemma_closed_holds_reached(v: DexterView, s: Set<usize>, r: usize, m: usize)
    requires
        s.contains(r),
        forall|a: usize, b: usize| s.contains(a) && #[trigger] v.child_link(a, b) ==> s.contains(b),
        v.reaches(r, m),
    ensures
        s.contains(m),
{
    let path = choose|path: Seq<usize>| #[trigger] v.is_path(path) && path[0] == r && path.last() == m;
    lemma_closed_holds_path(v, s, path);
}

proof fn lemma_closed_holds_path(v: DexterView, s: Set<usize>, path: Seq<usize>)
    requires
        v.is_path(path),
        s.contains(path[0]),
        forall|a: usize, b: usize| s.contains(a) && #[trigger] v.child_link(a, b) ==> s.contains(b),
    ensures
        s.contains(path.last()),
    decreases path.len(),
{
    if path.len() > 1 {
        let p2 = path.drop_last();
        assert forall|i: int| 0 <= i < p2.len() - 1 implies #[trigger] v.child_link(p2[i], p2[i + 1]) by {
            assert(v.child_link(path[i], path[i + 1]));
        }
        lemma_closed_holds_path(v, s, p2);
        let i = path.len() - 2;
        assert(v.child_link(path[i], path[i + 1]));
    }
}

/// A duplicate-free sequence of numbers below `n` has at most `n` elements.
pub proof fn lemma_distinct_below(s: Seq<usize>, n: nat)
    requires
        s.no_duplicates(),
        forall|i: int| 0 <= i < s.len() ==> (#[trigger] s[i]) < n,
    ensures
        s.len() <= n,
    decreases n,
{
    if s.len() > 0 {
        assert(s[0] < n);
        if exists|idx: int| 0 <= idx < s.len() && s[idx] as int == n - 1 {
            let idx = choose|idx: int| 0 <= idx < s.len() && s[idx] as int == n - 1;
            let s2 = s.remove(idx);
            assert forall|i: int| 0 <= i < s2.len() implies (#[trigger] s2[i]) < (n - 1) as nat by {
                if i < idx {
                    assert(s2[i] == s[i]);
                    assert(s[i] != s[idx]);
                } else {
                    assert(s2[i] == s[i + 1]);
                    assert(s[i + 1] != s[idx]);
                }
            }
            assert(s2.no_duplicates()) by {
                assert forall|i: int, j: int| 0 <= i < s2.len() && 0 <= j < s2.len() && i != j implies s2[i] != s2[j] by {
                    let ii = if i < idx { i } else { i + 1 };
                    let jj = if j < idx { j } else { j + 1 };
                    assert(s2[i] == s[ii] && s2[j] == s[jj]);
                }
            }
            lemma_distinct_below(s2, (n - 1) as nat);
        } else {
            assert forall|i: int| 0 <= i < s.len() implies (#[trigger] s[i]) < (n - 1) as nat by {
                assert(s[i] as int != n - 1);
            }
            lemma_distinct_below(s, (n - 1) as nat);
        }
    }
}

} // verus!
