//! What holds of the registry across operations.
use vstd::prelude::*;
use vstd::multiset::Multiset;
use crate::order::{EntryPos, pos_lt, lemma_pos_lt_asymmetric};
use crate::point::AttachError;
use crate::model::{DexterView, NodeView, indent, lemma_ancestor_split, lemma_ancestor_through_parent, seq_span, run_below, values_of, without_key, is_listing, lemma_run_gap, lemma_ancestor_ranks_lower, lemma_attach_keeps_wf, lemma_attach_shape, lemma_detach_keeps_wf, lemma_detach_shape, lemma_reaches_self, lemma_reaches_child, lemma_up_succ, lemma_up_ended, lemma_run_members, run_of};

verus! {

/// Asking twice for the same name gives the same point, and the second call
/// changes nothing.
pub proof fn law_point_idempotent(v: DexterView, name: Seq<char>)
    requires
        v.wf(),
    ensures
        v.after_point(name).point_slot(name) == v.point_slot(name),
        v.after_point(name).after_point(name) == v.after_point(name),
        v.after_point(name).points.contains_key(name),
        v.after_point(name).live(v.point_slot(name)),
{
}

/// Every point is found under the name it was made with, and nothing else
/// changes its registration when a point is made.
pub proof fn law_point_registers(v: DexterView, name: Seq<char>, other: Seq<char>)
    requires
        v.wf(),
        other != name,
    ensures
        v.after_point(name).points.contains_key(other) == v.points.contains_key(other),
        v.points.contains_key(other) ==> v.after_point(name).points[other] == v.points[other],
        v.after_point(name).nodes[v.point_slot(name) as int].name == name,
{
}

/// Every stored entry of the point sits below its next sequence: the
/// sequences it has handed out are all still below the counter.
pub open spec fn seqs_fresh(node: NodeView) -> bool {
    forall|p: EntryPos| #[trigger] node.entries.contains_key(p) ==> p.1 < node.next_seq
}

/// Two stores that agree under `k` below `m` have the same run below `m`.
proof fn lemma_run_agree(e1: Map<EntryPos, Seq<char>>, e2: Map<EntryPos, Seq<char>>, k: Seq<char>, m: nat)
    requires
        m <= seq_span(),
        forall|t: u64| t < m ==> (#[trigger] e1.contains_key((k, t))) == e2.contains_key((k, t)),
        forall|t: u64| t < m && #[trigger] e1.contains_key((k, t)) ==> e1[(k, t)] == e2[(k, t)],
    ensures
        run_below(e1, k, m) == run_below(e2, k, m),
    decreases m,
{
    if m > 0 {
        lemma_run_agree(e1, e2, k, (m - 1) as nat);
        let t = (m - 1) as u64;
        assert(e1.contains_key((k, t)) == e2.contains_key((k, t)));
    }
}

/// After an insert, a read of the same key gives the values it gave before
/// and then the new value; reads of other keys, and every other point, are
/// unchanged. This holds while every stored sequence is below the point's
/// counter, which stays so until the counter wraps.
pub proof fn law_get_after_insert(v: DexterView, n: usize, key: Seq<char>, value: Seq<char>, other: Seq<char>)
    requires
        v.has(n),
        seqs_fresh(v.nodes[n as int]),
        other != key,
    ensures
        values_of(v.after_insert(n, key, value).nodes[n as int].entries, key)
            == values_of(v.nodes[n as int].entries, key).push(value),
        values_of(v.after_insert(n, key, value).nodes[n as int].entries, other)
            == values_of(v.nodes[n as int].entries, other),
        v.nodes[n as int].next_seq < u64::MAX ==> seqs_fresh(v.after_insert(n, key, value).nodes[n as int]),
        forall|m: int| 0 <= m < v.nodes.len() && m != n ==> #[trigger] v.after_insert(n, key, value).nodes[m] == v.nodes[m],
        v.after_insert(n, key, value).points == v.points,
{
    let e = v.nodes[n as int].entries;
    let s = v.nodes[n as int].next_seq;
    let w = v.after_insert(n, key, value);
    let e2 = w.nodes[n as int].entries;
    assert(e2 == e.insert((key, s), value));
    // other keys
    lemma_run_agree(e2, e, other, seq_span());
    // the same key: below s nothing changed
    lemma_run_agree(e2, e, key, s as nat);
    assert(run_below(e2, key, (s + 1) as nat) == run_below(e, key, s as nat).push((s, value)));
    assert forall|t: u64| (s + 1) as nat <= t < seq_span() implies !#[trigger] e2.contains_key((key, t)) by {
        if e.contains_key((key, t)) {
            assert(t < s);
        }
    }
    lemma_run_gap(e2, key, (s + 1) as nat, seq_span());
    assert forall|t: u64| s as nat <= t < seq_span() implies !#[trigger] e.contains_key((key, t)) by {}
    lemma_run_gap(e, key, s as nat, seq_span());
    assert(values_of(e2, key) =~= values_of(e, key).push(value));
}

/// After purging a key, reading it gives nothing; other keys, and every other
/// point, are unchanged.
pub proof fn law_purge_key_clears(v: DexterView, n: usize, key: Seq<char>, other: Seq<char>)
    requires
        v.has(n),
        other != key,
    ensures
        values_of(v.after_purge_key(n, key).nodes[n as int].entries, key).len() == 0,
        values_of(v.after_purge_key(n, key).nodes[n as int].entries, other)
            == values_of(v.nodes[n as int].entries, other),
        forall|m: int| 0 <= m < v.nodes.len() && m != n ==> #[trigger] v.after_purge_key(n, key).nodes[m] == v.nodes[m],
        v.after_purge_key(n, key).points == v.points,
{
    let e = v.nodes[n as int].entries;
    let e2 = v.after_purge_key(n, key).nodes[n as int].entries;
    assert(e2 == without_key(e, key));
    lemma_run_gap(e2, key, 0, seq_span());
    lemma_run_agree(e2, e, other, seq_span());
}

/// The listing of a point's entries is determined by its entries: two
/// listings of the same entries are equal.
pub proof fn law_listing_unique(e: Map<EntryPos, Seq<char>>, ks1: Seq<EntryPos>, ks2: Seq<EntryPos>)
    requires
        is_listing(e, ks1),
        is_listing(e, ks2),
    ensures
        ks1 == ks2,
{
    let m = if ks1.len() < ks2.len() { ks1.len() } else { ks2.len() };
    assert forall|i: int| 0 <= i < m implies ks1[i] == ks2[i] by {
        lemma_listing_prefix(e, ks1, ks2, i);
    }
    if ks1.len() < ks2.len() {
        let x = ks2[m as int];
        assert(e.contains_key(x));
        let j = choose|j: int| 0 <= j < ks1.len() && ks1[j] == x;
        assert(ks2[j] == ks1[j]);
        assert(pos_lt(ks2[j], ks2[m as int]));
        lemma_pos_lt_asymmetric(x, x);
    } else if ks2.len() < ks1.len() {
        let x = ks1[m as int];
        assert(e.contains_key(x));
        let j = choose|j: int| 0 <= j < ks2.len() && ks2[j] == x;
        assert(ks1[j] == ks2[j]);
        assert(pos_lt(ks1[j], ks1[m as int]));
        lemma_pos_lt_asymmetric(x, x);
    }
    assert(ks1 =~= ks2);
}

proof fn lemma_listing_prefix(e: Map<EntryPos, Seq<char>>, ks1: Seq<EntryPos>, ks2: Seq<EntryPos>, i: int)
    requires
        is_listing(e, ks1),
        is_listing(e, ks2),
        0 <= i < ks1.len(),
        i < ks2.len(),
    ensures
        ks1[i] == ks2[i],
    decreases i,
{
    if i > 0 {
        lemma_listing_prefix(e, ks1, ks2, i - 1);
    }
    assert forall|j: int| 0 <= j < i implies ks1[j] == ks2[j] by {
        lemma_listing_prefix(e, ks1, ks2, j);
    }
    if ks1[i] != ks2[i] {
        let a = ks1[i];
        let b = ks2[i];
        assert(e.contains_key(a) && e.contains_key(b));
        let ja = choose|j: int| 0 <= j < ks2.len() && ks2[j] == a;
        let jb = choose|j: int| 0 <= j < ks1.len() && ks1[j] == b;
        if ja < i {
            assert(ks1[ja] == a);
            assert(pos_lt(ks1[ja], ks1[i]));
            lemma_pos_lt_asymmetric(a, a);
        }
        if jb < i {
            assert(ks2[jb] == b);
            assert(pos_lt(ks2[jb], ks2[i]));
            lemma_pos_lt_asymmetric(b, b);
        }
        assert(pos_lt(b, a)) by {
            assert(pos_lt(ks2[i], ks2[ja]));
        }
        assert(pos_lt(a, b)) by {
            assert(pos_lt(ks1[i], ks1[jb]));
        }
        lemma_pos_lt_asymmetric(a, b);
    }
}

/// No point is its own ancestor.
pub proof fn law_no_self_ancestor(v: DexterView, n: usize)
    requires
        v.wf(),
    ensures
        !v.is_ancestor(n, n),
{
    if v.is_ancestor(n, n) {
        let h = choose|h: Seq<nat>| v.ranked(h);
        let k = choose|k: nat| k >= 1 && #[trigger] v.up(n, k) == Some(n);
        if v.has(n) {
            lemma_ancestor_ranks_lower(v, h, n, n, k);
        } else {
            assert(v.up(n, k) is None);
        }
    }
}

/// Whatever `attach` answers, the registry stays well formed; where it
/// refuses, nothing changes; where it accepts, the child links to the parent,
/// the parent lists the child, the old parent no longer does, and no entry
/// of any point changes.
pub proof fn law_attach(v: DexterView, p: usize, c: usize)
    requires
        v.wf(),
        v.has(p),
        v.has(c),
    ensures
        v.after_attach(p, c).wf(),
        v.attach_outcome(p, c) is Err ==> v.after_attach(p, c) == v,
        v.attach_outcome(p, c) is Ok ==> {
            &&& v.after_attach(p, c).nodes[c as int].parent == Some(p)
            &&& v.after_attach(p, c).nodes[p as int].children.contains(v.nodes[c as int].name)
            &&& forall|q: usize| v.nodes[c as int].parent == Some(q) && q != p
                ==> !v.after_attach(p, c).nodes[q as int].children.contains(v.nodes[c as int].name)
            &&& forall|m: int| 0 <= m < v.nodes.len() ==> (#[trigger] v.after_attach(p, c).nodes[m]).entries == v.nodes[m].entries
        },
{
    lemma_attach_keeps_wf(v, p, c);
    if v.attach_outcome(p, c) is Ok {
        lemma_attach_shape(v, p, c);
        lemma_detach_shape(v, c);
    }
}

/// After `detach`, the point has no parent and its old parent no longer lists it.
pub proof fn law_detach(v: DexterView, c: usize)
    requires
        v.wf(),
        v.has(c),
    ensures
        v.after_detach(c).wf(),
        v.after_detach(c).nodes[c as int].parent is None,
        v.after_detach(c).parent_of(c) is None,
        forall|q: usize| v.nodes[c as int].parent == Some(q)
            ==> !v.after_detach(c).nodes[q as int].children.contains(v.nodes[c as int].name),
{
    lemma_detach_keeps_wf(v, c);
    lemma_detach_shape(v, c);
}

// ── parent links and child lists agree ────────────────────────────────────

/// A registry with no registered names is consistent; so is the one `new` makes.
pub proof fn law_empty_consistent(v: DexterView)
    requires
        v.points.dom().is_empty(),
    ensures
        v.consistent(),
{
    assert forall|n: usize| !v.live(n) by {
        if v.live(n) {
            assert(v.points.dom().contains(v.nodes[n as int].name));
        }
    }
}

/// Making a point keeps parent links and child lists in agreement.
pub proof fn law_point_keeps_consistent(v: DexterView, name: Seq<char>)
    requires
        v.wf(),
        v.consistent(),
    ensures
        v.after_point(name).consistent(),
{
    if !v.points.contains_key(name) {
        let w = v.after_point(name);
        let l = v.nodes.len() as usize;
        assert(v.nodes.len() <= usize::MAX);
        assert forall|n: usize| n < l implies (#[trigger] w.live(n) <==> v.live(n)) by {
            assert(w.nodes[n as int] == v.nodes[n as int]);
            if v.live(n) {
                assert(v.nodes[n as int].name != name);
            }
        }
        assert(w.live(l));
        assert forall|n: usize| #[trigger] w.live(n) && w.nodes[n as int].parent is Some implies {
            &&& w.live(w.nodes[n as int].parent.unwrap())
            &&& w.nodes[w.nodes[n as int].parent.unwrap() as int].children.contains(w.nodes[n as int].name)
        } by {
            if n < l {
                assert(v.live(n));
                let y = v.nodes[n as int].parent.unwrap();
                assert(v.live(y));
                assert(w.live(y));
            }
        }
        assert forall|a: usize, x: Seq<char>| #[trigger] w.live(a) && #[trigger] w.nodes[a as int].children.contains(x) implies {
            &&& w.points.contains_key(x)
            &&& w.nodes[w.points[x] as int].parent == Some(a)
        } by {
            if a < l {
                assert(v.live(a));
                assert(v.nodes[a as int].children.contains(x));
                assert(v.points.contains_key(x));
                assert(x != name);
            }
        }
    }
}

/// Two registries with the same registrations, names, parent links and child
/// lists are consistent alike.
proof fn lemma_same_links(v: DexterView, w: DexterView)
    requires
        v.names_ok(),
        v.consistent(),
        w.points == v.points,
        w.nodes.len() == v.nodes.len(),
        forall|m: int| 0 <= m < v.nodes.len() ==> (#[trigger] w.nodes[m]).name == v.nodes[m].name
            && w.nodes[m].parent == v.nodes[m].parent && w.nodes[m].children == v.nodes[m].children,
    ensures
        w.consistent(),
{
    assert forall|m: usize| #[trigger] w.live(m) == v.live(m) by {
        if m < v.nodes.len() {
            assert(w.nodes[m as int].name == v.nodes[m as int].name);
        }
    }
    assert forall|n: usize| #[trigger] w.live(n) && w.nodes[n as int].parent is Some implies {
        &&& w.live(w.nodes[n as int].parent.unwrap())
        &&& w.nodes[w.nodes[n as int].parent.unwrap() as int].children.contains(w.nodes[n as int].name)
    } by {
        assert(v.live(n));
        let y = v.nodes[n as int].parent.unwrap();
        assert(v.live(y));
        assert(w.nodes[y as int].children == v.nodes[y as int].children);
    }
    assert forall|a: usize, x: Seq<char>| #[trigger] w.live(a) && #[trigger] w.nodes[a as int].children.contains(x) implies {
        &&& w.points.contains_key(x)
        &&& w.nodes[w.points[x] as int].parent == Some(a)
    } by {
        assert(v.live(a));
        assert(v.nodes[a as int].children.contains(x));
        let m = v.points[x];
        assert(v.nodes[m as int].parent == Some(a));
    }
}

/// Storing or purging entries leaves parent links and child lists alone.
pub proof fn law_entries_keep_consistent(v: DexterView, n: usize, key: Seq<char>, value: Seq<char>)
    requires
        v.wf(),
        v.has(n),
        v.consistent(),
    ensures
        v.after_insert(n, key, value).consistent(),
        v.after_purge_key(n, key).consistent(),
{
    let w1 = v.after_insert(n, key, value);
    let w2 = v.after_purge_key(n, key);
    lemma_same_links(v, w1);
    lemma_same_links(v, w2);
}

/// Detaching a registered point keeps parent links and child lists in agreement.
pub proof fn law_detach_keeps_consistent(v: DexterView, c: usize)
    requires
        v.wf(),
        v.consistent(),
        v.live(c),
    ensures
        v.after_detach(c).consistent(),
{
    lemma_detach_shape(v, c);
    let w = v.after_detach(c);
    let nc = v.nodes[c as int].name;
    let q = v.nodes[c as int].parent;
    assert forall|i: int| 0 <= i < v.nodes.len() implies (#[trigger] w.nodes[i]).children
        == (if q == Some(i as usize) { v.nodes[i].children.remove(nc) } else { v.nodes[i].children }) by {
        assert((i as usize) as int == i);
    }
    assert forall|m: usize| #[trigger] w.live(m) == v.live(m) by {}
    assert forall|n: usize| #[trigger] w.live(n) && w.nodes[n as int].parent is Some implies {
        &&& w.live(w.nodes[n as int].parent.unwrap())
        &&& w.nodes[w.nodes[n as int].parent.unwrap() as int].children.contains(w.nodes[n as int].name)
    } by {
        let y = v.nodes[n as int].parent.unwrap();
        assert(n != c);
        assert(v.live(y));
        if q == Some(y) {
            assert(v.nodes[n as int].name != nc);
        }
    }
    assert forall|a: usize, x: Seq<char>| #[trigger] w.live(a) && #[trigger] w.nodes[a as int].children.contains(x) implies {
        &&& w.points.contains_key(x)
        &&& w.nodes[w.points[x] as int].parent == Some(a)
    } by {
        assert(v.nodes[a as int].children.contains(x));
        let m = v.points[x];
        assert(v.nodes[m as int].parent == Some(a));
        if m == c {
            assert(q == Some(a));
            assert(x == nc);
        }
    }
}

/// Attaching one registered point under another keeps parent links and
/// child lists in agreement.
pub proof fn law_attach_keeps_consistent(v: DexterView, p: usize, c: usize)
    requires
        v.wf(),
        v.consistent(),
        v.live(p),
        v.live(c),
    ensures
        v.after_attach(p, c).consistent(),
{
    if v.attach_outcome(p, c) is Ok {
        lemma_attach_shape(v, p, c);
        lemma_detach_shape(v, c);
        let w = v.after_attach(p, c);
        let nc = v.nodes[c as int].name;
        let q = v.nodes[c as int].parent;
        assert forall|i: int| 0 <= i < v.nodes.len() implies (#[trigger] w.nodes[i]).children
            == (if i == p {
                (if q == Some(i as usize) { v.nodes[i].children.remove(nc) } else { v.nodes[i].children }).insert(nc)
            } else if q == Some(i as usize) {
                v.nodes[i].children.remove(nc)
            } else {
                v.nodes[i].children
            }) by {
            assert((i as usize) as int == i);
        }
        assert forall|m: usize| #[trigger] w.live(m) == v.live(m) by {}
        assert forall|n: usize| #[trigger] w.live(n) && w.nodes[n as int].parent is Some implies {
            &&& w.live(w.nodes[n as int].parent.unwrap())
            &&& w.nodes[w.nodes[n as int].parent.unwrap() as int].children.contains(w.nodes[n as int].name)
        } by {
            if n != c {
                let y = v.nodes[n as int].parent.unwrap();
                assert(v.live(y));
                assert(v.nodes[n as int].name != nc);
            }
        }
        assert forall|a: usize, x: Seq<char>| #[trigger] w.live(a) && #[trigger] w.nodes[a as int].children.contains(x) implies {
            &&& w.points.contains_key(x)
            &&& w.nodes[w.points[x] as int].parent == Some(a)
        } by {
            if a == p && x == nc {
                assert(v.points[x] == c);
            } else {
                assert(v.nodes[a as int].children.contains(x));
                let m = v.points[x];
                assert(v.nodes[m as int].parent == Some(a));
                if m == c {
                    assert(q == Some(a));
                    assert(x == nc);
                }
            }
        }
    }
}

/// Every point below a registered point is registered, and lies under one
/// that lists it.
proof fn lemma_reached_step(v: DexterView, r: usize, m: usize)
    requires
        v.reaches(r, m),
        m != r,
    ensures
        v.live(m),
        exists|b: usize| v.reaches(r, b) && #[trigger] v.child_link(b, m),
{
    let path = choose|path: Seq<usize>| #[trigger] v.is_path(path) && path[0] == r && path.last() == m;
    let i = path.len() - 2;
    assert(v.child_link(path[i], path[i + 1]));
    let pre = path.drop_last();
    assert forall|j: int| 0 <= j < pre.len() - 1 implies #[trigger] v.child_link(pre[j], pre[j + 1]) by {
        assert(v.child_link(path[j], path[j + 1]));
    }
    assert(v.is_path(pre));
    assert(v.reaches(r, pre.last()));
}

/// Purging a point keeps parent links and child lists in agreement.
pub proof fn law_purge_point_keeps_consistent(v: DexterView, name: Seq<char>)
    requires
        v.wf(),
        v.consistent(),
    ensures
        v.after_purge_point(name).consistent(),
{
    if v.points.contains_key(name) {
        let r = v.points[name];
        let gone = v.subtree(r);
        let q = v.nodes[r as int].parent;
        let w = v.after_purge_point(name);
        lemma_reaches_self(v, r);
        assert(v.live(r));
        assert(v.nodes[r as int].name == name);
        assert forall|m: usize| #[trigger] w.live(m) <==> (v.live(m) && !gone.contains(m)) by {
            if m < v.nodes.len() {
                assert(w.nodes[m as int].name == v.nodes[m as int].name);
            }
        }
        assert forall|m: usize| #[trigger] gone.contains(m) ==> v.live(m) by {
            if gone.contains(m) && m != r {
                lemma_reached_step(v, r, m);
            }
        }
        assert forall|n: usize| #[trigger] w.live(n) && w.nodes[n as int].parent is Some implies {
            &&& w.live(w.nodes[n as int].parent.unwrap())
            &&& w.nodes[w.nodes[n as int].parent.unwrap() as int].children.contains(w.nodes[n as int].name)
        } by {
            assert(!gone.contains(n));
            assert(w.nodes[n as int].parent == v.nodes[n as int].parent);
            let y = v.nodes[n as int].parent.unwrap();
            assert(v.live(y));
            assert(v.child_link(y, n));
            if gone.contains(y) {
                lemma_reaches_child(v, r, y, n);
            }
            assert(gone.contains(r));
            if v.nodes[n as int].name == name {
                assert(v.points[name] == n);
            }
        }
        assert forall|a: usize, x: Seq<char>| #[trigger] w.live(a) && #[trigger] w.nodes[a as int].children.contains(x) implies {
            &&& w.points.contains_key(x)
            &&& w.nodes[w.points[x] as int].parent == Some(a)
        } by {
            assert(!gone.contains(a));
            assert(v.nodes[a as int].children.contains(x));
            let m = v.points[x];
            assert(v.nodes[m as int].parent == Some(a));
            assert(v.live(m));
            if gone.contains(m) {
                if m == r {
                    assert(q == Some(a));
                    assert(x == name);
                } else {
                    lemma_reached_step(v, r, m);
                    let b = choose|b: usize| v.reaches(r, b) && #[trigger] v.child_link(b, m);
                    assert(gone.contains(b));
                    assert(v.live(b));
                    assert(v.nodes[b as int].children.contains(v.nodes[m as int].name));
                }
            }
            assert(!gone.contains(m));
            assert(w.points.contains_key(x));
        }
    }
}

/// In a consistent registry, a registered point's parent is exactly the
/// registered point that lists it as a child.
pub proof fn law_parent_matches_children(v: DexterView, p: usize, c: usize)
    requires
        v.wf(),
        v.consistent(),
        v.live(p),
        v.live(c),
    ensures
        v.parent_of(c) == Some(p) <==> v.child_link(p, c),
{
    if v.nodes[c as int].parent is Some {
        let y = v.nodes[c as int].parent.unwrap();
        assert(v.live(y));
    }
    if v.child_link(p, c) {
        assert(v.nodes[p as int].children.contains(v.nodes[c as int].name));
        assert(v.points[v.nodes[c as int].name] == c);
    }
}

/// In a consistent registry, the points below a registered point by child
/// links are the point itself and the registered points that have it as an
/// ancestor: a scoped search covers exactly the subtree.
pub proof fn law_subtree_is_descendants(v: DexterView, r: usize, m: usize)
    requires
        v.wf(),
        v.consistent(),
        v.live(r),
    ensures
        v.reaches(r, m) <==> (m == r || (v.live(m) && v.is_ancestor(m, r))),
{
    if m == r {
        lemma_reaches_self(v, r);
    } else {
        if v.reaches(r, m) {
            let path = choose|path: Seq<usize>| #[trigger] v.is_path(path) && path[0] == r && path.last() == m;
            lemma_path_climbs(v, path);
            lemma_reached_step(v, r, m);
            assert(path.len() > 1);
            let k = (path.len() - 1) as nat;
            assert(v.up(m, k) == Some(r));
            assert(v.is_ancestor(m, r));
        }
        if v.live(m) && v.is_ancestor(m, r) {
            let k = choose|k: nat| k >= 1 && #[trigger] v.up(m, k) == Some(r);
            lemma_climb_reaches(v, r, m, k);
        }
    }
}

/// Along a path of child links from a registered point, each point's parent
/// is the one before it, so the last point climbs back to the first.
proof fn lemma_path_climbs(v: DexterView, path: Seq<usize>)
    requires
        v.wf(),
        v.consistent(),
        v.is_path(path),
        v.live(path[0]),
    ensures
        v.up(path.last(), (path.len() - 1) as nat) == Some(path[0]),
    decreases path.len(),
{
    if path.len() == 1 {
        assert(v.up(path[0], 0) == Some(path[0]));
    } else {
        let pre = path.drop_last();
        assert forall|j: int| 0 <= j < pre.len() - 1 implies #[trigger] v.child_link(pre[j], pre[j + 1]) by {
            assert(v.child_link(path[j], path[j + 1]));
        }
        lemma_path_climbs(v, pre);
        let i = path.len() - 2;
        assert(v.child_link(path[i], path[i + 1]));
        let a = path[i];
        let b = path[i + 1];
        assert(v.live(a)) by {
            if i > 0 {
                let j = i - 1;
                assert(v.child_link(path[j], path[j + 1]));
            }
        }
        assert(v.nodes[b as int].parent == Some(a));
        assert(v.up(b, (path.len() - 1) as nat) == v.up(a, (path.len() - 2) as nat));
    }
}

/// A registered point with `r` as its `k`-th ancestor lies below `r`.
proof fn lemma_climb_reaches(v: DexterView, r: usize, m: usize, k: nat)
    requires
        v.wf(),
        v.consistent(),
        v.live(m),
        k >= 1,
        v.up(m, k) == Some(r),
    ensures
        v.reaches(r, m),
    decreases k,
{
    let y = v.nodes[m as int].parent.unwrap();
    assert(v.nodes[m as int].parent is Some);
    assert(v.up(m, k) == v.up(y, (k - 1) as nat));
    assert(v.live(y));
    assert(v.child_link(y, m));
    if k == 1 {
        assert(y == r);
        lemma_reaches_self(v, r);
    } else {
        lemma_climb_reaches(v, r, y, (k - 1) as nat);
    }
    lemma_reaches_child(v, r, y, m);
}

/// Purging a name unregisters it and every point of its subtree, and keeps
/// every other registration; purging it again changes nothing.
pub proof fn law_purge_point(v: DexterView, name: Seq<char>)
    requires
        v.wf(),
        v.points.contains_key(name),
    ensures
        !v.after_purge_point(name).points.contains_key(name),
        forall|m: usize| #[trigger] v.subtree(v.points[name]).contains(m) ==> !v.after_purge_point(name).live(m),
        forall|x: Seq<char>| #[trigger] v.points.contains_key(x) && !v.subtree(v.points[name]).contains(v.points[x])
            ==> v.after_purge_point(name).points.contains_key(x) && v.after_purge_point(name).points[x] == v.points[x],
        v.after_purge_point(name).after_purge_point(name) == v.after_purge_point(name),
{
    let r = v.points[name];
    lemma_reaches_self(v, r);
    let w = v.after_purge_point(name);
    assert forall|m: usize| #[trigger] v.subtree(r).contains(m) implies !w.live(m) by {
        if w.live(m) {
            assert(w.nodes[m as int].name == v.nodes[m as int].name);
        }
    }
}

// ── purging, seen through the handles ─────────────────────────────────────

/// In a consistent registry, purging the point registered under `name`
/// unregisters its whole subtree, whose points keep their entries but lose
/// their parent and their children; every other registered point stays
/// registered with its entries, its parent and its children, except that the
/// purged point is no longer among the children of its parent.
pub proof fn law_purge_point_views(v: DexterView, name: Seq<char>)
    requires
        v.wf(),
        v.consistent(),
        v.points.contains_key(name),
    ensures
        forall|m: usize| #[trigger] v.subtree(v.points[name]).contains(m) ==> {
            &&& !v.after_purge_point(name).live(m)
            &&& v.after_purge_point(name).nodes[m as int].parent is None
            &&& v.after_purge_point(name).nodes[m as int].children.is_empty()
            &&& v.after_purge_point(name).nodes[m as int].entries == v.nodes[m as int].entries
        },
        forall|m: usize| #[trigger] v.live(m) && !v.subtree(v.points[name]).contains(m) ==> {
            &&& v.after_purge_point(name).live(m)
            &&& v.after_purge_point(name).nodes[m as int].entries == v.nodes[m as int].entries
            &&& v.after_purge_point(name).parent_of(m) == v.parent_of(m)
            &&& v.after_purge_point(name).children_of(m) == v.children_of(m).remove(v.points[name])
        },
{
    let r = v.points[name];
    let gone = v.subtree(r);
    let q = v.nodes[r as int].parent;
    let w = v.after_purge_point(name);
    lemma_reaches_self(v, r);
    assert(v.live(r));
    assert forall|m: usize| #[trigger] gone.contains(m) ==> v.live(m) by {
        if gone.contains(m) && m != r {
            lemma_reached_step(v, r, m);
        }
    }
    assert forall|m: usize| #[trigger] w.live(m) <==> (v.live(m) && !gone.contains(m)) by {
        if m < v.nodes.len() {
            assert(w.nodes[m as int].name == v.nodes[m as int].name);
        }
    }
    assert forall|m: usize| #[trigger] gone.contains(m) implies {
        &&& !w.live(m)
        &&& w.nodes[m as int].parent is None
        &&& w.nodes[m as int].children.is_empty()
        &&& w.nodes[m as int].entries == v.nodes[m as int].entries
    } by {
        assert(v.live(m));
    }
    assert forall|m: usize| #[trigger] v.live(m) && !gone.contains(m) implies {
        &&& w.live(m)
        &&& w.nodes[m as int].entries == v.nodes[m as int].entries
        &&& w.parent_of(m) == v.parent_of(m)
        &&& w.children_of(m) == v.children_of(m).remove(r)
    } by {
        assert(w.nodes[m as int].parent == v.nodes[m as int].parent);
        if v.nodes[m as int].parent is Some {
            let y = v.nodes[m as int].parent.unwrap();
            assert(v.live(y));
            assert(v.child_link(y, m));
            if gone.contains(y) {
                lemma_reaches_child(v, r, y, m);
            }
            assert(w.nodes[y as int].name == v.nodes[y as int].name);
            assert(w.live(y));
        }
        assert forall|b: usize| w.children_of(m).contains(b) <==> v.children_of(m).remove(r).contains(b) by {
            if v.child_link(m, b) && b != r {
                if gone.contains(b) {
                    lemma_reached_step(v, r, b);
                    let b2 = choose|b2: usize| v.reaches(r, b2) && #[trigger] v.child_link(b2, b);
                    assert(gone.contains(b2));
                    assert(v.live(b2));
                    assert(v.nodes[b as int].parent == Some(b2));
                    assert(v.nodes[b as int].parent == Some(m));
                }
                if v.nodes[b as int].name == name {
                    assert(v.points[name] == b);
                }
                assert(w.child_link(m, b));
            }
            if w.child_link(m, b) {
                assert(v.child_link(m, b));
                assert(!gone.contains(b));
            }
        }
        assert(w.children_of(m) =~= v.children_of(m).remove(r));
    }
}

/// In a consistent registry, purging a child and making a point under its
/// name again gives a new, empty, parentless point that its old parent does
/// not list, and the parent stays registered.
pub proof fn law_purge_then_recreate(v: DexterView, p: usize, c: usize)
    requires
        v.wf(),
        v.consistent(),
        v.live(p),
        v.live(c),
        v.parent_of(c) == Some(p),
    ensures
        ({
            let purged = v.after_purge_point(v.nodes[c as int].name);
            let w = purged.after_point(v.nodes[c as int].name);
            let c2 = purged.point_slot(v.nodes[c as int].name);
            &&& c2 != c
            &&& w.live(c2)
            &&& w.nodes[c2 as int].parent is None
            &&& w.nodes[c2 as int].entries.dom().is_empty()
            &&& !w.child_link(p, c2)
            &&& w.points.contains_key(v.nodes[p as int].name)
            &&& w.points[v.nodes[p as int].name] == p
        }),
{
    let cname = v.nodes[c as int].name;
    let pname = v.nodes[p as int].name;
    let purged = v.after_purge_point(cname);
    let gone = v.subtree(c);
    let h = choose|h: Seq<nat>| v.ranked(h);
    let y = v.nodes[c as int].parent.unwrap();
    assert(v.nodes[c as int].parent is Some);
    assert(v.live(y));
    assert(y == p);
    assert(h[p as int] < h[c as int]);
    assert(!gone.contains(p)) by {
        if v.reaches(c, p) {
            let path = choose|path: Seq<usize>| #[trigger] v.is_path(path) && path[0] == c && path.last() == p;
            lemma_path_climbs(v, path);
            if p != c {
                assert(path.len() > 1);
                lemma_ancestor_ranks_lower(v, h, p, c, (path.len() - 1) as nat);
            }
        }
    }
    lemma_reaches_self(v, c);
    assert(v.points[cname] == c);
    assert(gone.contains(c));
    assert(!purged.points.contains_key(cname));
    assert(purged.points.contains_key(pname));
    assert(purged.nodes[p as int].children == v.nodes[p as int].children.remove(cname));
    assert(pname != cname);
}

// ── roots ──────────────────────────────────────────────────────────────────

/// In a consistent registry, every registered point lies in the subtree of
/// exactly one root: the roots' subtrees split the registered points, so a
/// global search is the union of the roots' scoped searches.
pub proof fn law_roots_partition(v: DexterView, m: usize)
    requires
        v.wf(),
        v.consistent(),
        v.live(m),
    ensures
        exists|r: usize| #[trigger] v.root_set().contains(r) && v.reaches(r, m),
        forall|r1: usize, r2: usize|
            #[trigger] v.root_set().contains(r1) && #[trigger] v.root_set().contains(r2) && v.reaches(r1, m) && v.reaches(r2, m)
                ==> r1 == r2,
{
    let h = choose|h: Seq<nat>| v.ranked(h);
    lemma_root_above(v, h, m);
    assert forall|r1: usize, r2: usize|
        #[trigger] v.root_set().contains(r1) && #[trigger] v.root_set().contains(r2) && v.reaches(r1, m) && v.reaches(r2, m)
        implies r1 == r2 by {
        law_subtree_is_descendants(v, r1, m);
        law_subtree_is_descendants(v, r2, m);
        let k1: nat = if m == r1 { 0 } else { choose|k: nat| k >= 1 && #[trigger] v.up(m, k) == Some(r1) };
        let k2: nat = if m == r2 { 0 } else { choose|k: nat| k >= 1 && #[trigger] v.up(m, k) == Some(r2) };
        assert(v.up(m, k1) == Some(r1));
        assert(v.up(m, k2) == Some(r2));
        if k1 < k2 {
            lemma_up_succ(v, m, k1);
            lemma_up_ended(v, m, k1 + 1, k2);
        } else if k2 < k1 {
            lemma_up_succ(v, m, k2);
            lemma_up_ended(v, m, k2 + 1, k1);
        }
    }
}

proof fn lemma_root_above(v: DexterView, h: Seq<nat>, m: usize)
    requires
        v.wf(),
        v.consistent(),
        v.ranked(h),
        v.live(m),
    ensures
        exists|r: usize| #[trigger] v.root_set().contains(r) && v.reaches(r, m),
    decreases h[m as int],
{
    if v.nodes[m as int].parent is None {
        lemma_reaches_self(v, m);
        assert(v.root_set().contains(m));
    } else {
        let y = v.nodes[m as int].parent.unwrap();
        assert(v.live(y));
        assert(h[y as int] < h[m as int]);
        lemma_root_above(v, h, y);
        let r = choose|r: usize| #[trigger] v.root_set().contains(r) && v.reaches(r, y);
        assert(v.child_link(y, m));
        lemma_reaches_child(v, r, y, m);
        assert(v.root_set().contains(r));
    }
}

// ── entries and reads agree ────────────────────────────────────────────────

/// The positions of `ks` under `key`, in order.
pub open spec fn keyed(ks: Seq<EntryPos>, key: Seq<char>) -> Seq<EntryPos>
    decreases ks.len(),
{
    if ks.len() == 0 {
        Seq::empty()
    } else if ks.last().0 == key {
        keyed(ks.drop_last(), key).push(ks.last())
    } else {
        keyed(ks.drop_last(), key)
    }
}

/// The values that a listing of `e` shows under `key`, in listing order.
pub open spec fn listed_values(e: Map<EntryPos, Seq<char>>, ks: Seq<EntryPos>, key: Seq<char>) -> Seq<Seq<char>> {
    keyed(ks, key).map_values(|p: EntryPos| e[p])
}

proof fn lemma_keyed(ks: Seq<EntryPos>, key: Seq<char>)
    requires
        forall|i: int, j: int| 0 <= i < j < ks.len() ==> pos_lt(#[trigger] ks[i], #[trigger] ks[j]),
    ensures
        forall|i: int, j: int| 0 <= i < j < keyed(ks, key).len() ==> pos_lt(#[trigger] keyed(ks, key)[i], #[trigger] keyed(ks, key)[j]),
        forall|i: int| 0 <= i < keyed(ks, key).len() ==> ks.contains(#[trigger] keyed(ks, key)[i]) && keyed(ks, key)[i].0 == key,
        forall|i: int| 0 <= i < ks.len() && (#[trigger] ks[i]).0 == key ==> keyed(ks, key).contains(ks[i]),
    decreases ks.len(),
{
    if ks.len() > 0 {
        let pre = ks.drop_last();
        lemma_keyed(pre, key);
        let kp = keyed(pre, key);
        let last = ks.last();
        assert forall|i: int| 0 <= i < kp.len() implies ks.contains(#[trigger] kp[i]) by {
            let j = choose|j: int| 0 <= j < pre.len() && pre[j] == kp[i];
            assert(ks[j] == pre[j]);
        }
        if last.0 == key {
            let k = keyed(ks, key);
            assert(k == kp.push(last));
            assert forall|i: int, j: int| 0 <= i < j < k.len() implies pos_lt(#[trigger] k[i], #[trigger] k[j]) by {
                if j == k.len() - 1 {
                    let a = choose|a: int| 0 <= a < pre.len() && pre[a] == kp[i];
                    assert(ks[a] == pre[a]);
                    assert(pos_lt(ks[a], ks[ks.len() - 1]));
                } else {
                    assert(k[i] == kp[i] && k[j] == kp[j]);
                }
            }
            assert forall|i: int| 0 <= i < k.len() implies ks.contains(#[trigger] k[i]) && k[i].0 == key by {
                if i < kp.len() {
                    assert(k[i] == kp[i]);
                } else {
                    assert(ks[ks.len() - 1] == last);
                }
            }
            assert forall|i: int| 0 <= i < ks.len() && (#[trigger] ks[i]).0 == key implies k.contains(ks[i]) by {
                if i < pre.len() {
                    assert(ks[i] == pre[i]);
                    let x = choose|x: int| 0 <= x < kp.len() && kp[x] == pre[i];
                    assert(k[x] == kp[x]);
                } else {
                    assert(k[kp.len() as int] == last);
                }
            }
        } else {
            assert forall|i: int| 0 <= i < ks.len() && (#[trigger] ks[i]).0 == key implies kp.contains(ks[i]) by {
                assert(i < pre.len());
                assert(ks[i] == pre[i]);
            }
        }
    }
}

/// The listing of a point's entries shows under each key exactly the values
/// that a read of that key gives, in the same order: `entries` agrees with `get`.
pub proof fn law_entries_match_get(e: Map<EntryPos, Seq<char>>, ks: Seq<EntryPos>, key: Seq<char>)
    requires
        is_listing(e, ks),
    ensures
        listed_values(e, ks, key) == values_of(e, key),
{
    let sub = Map::new(|p: EntryPos| e.contains_key(p) && p.0 == key, |p: EntryPos| e[p]);
    lemma_keyed(ks, key);
    let k1 = keyed(ks, key);
    let run = run_of(e, key);
    lemma_run_members(e, key, seq_span());
    let k2 = run.map_values(|x: (u64, Seq<char>)| (key, x.0));
    assert(is_listing(sub, k1)) by {
        assert forall|p: EntryPos| #[trigger] sub.contains_key(p) implies k1.contains(p) by {
            let i = choose|i: int| 0 <= i < ks.len() && ks[i] == p;
            assert(ks[i].0 == key);
        }
        assert forall|i: int| 0 <= i < k1.len() implies sub.contains_key(#[trigger] k1[i]) by {
            let j = choose|j: int| 0 <= j < ks.len() && ks[j] == k1[i];
        }
    }
    assert(is_listing(sub, k2)) by {
        assert forall|i: int, j: int| 0 <= i < j < k2.len() implies pos_lt(#[trigger] k2[i], #[trigger] k2[j]) by {
            assert(run[i].0 < run[j].0);
        }
        assert forall|p: EntryPos| #[trigger] sub.contains_key(p) implies k2.contains(p) by {
            assert(e.contains_key((key, p.1)));
            let i = choose|i: int| 0 <= i < run.len() && (#[trigger] run[i]).0 == p.1;
            assert(k2[i] == p);
        }
        assert forall|i: int| 0 <= i < k2.len() implies sub.contains_key(#[trigger] k2[i]) by {
            assert(e.contains_key((key, run[i].0)));
        }
    }
    law_listing_unique(sub, k1, k2);
    assert(listed_values(e, ks, key) =~= values_of(e, key)) by {
        assert forall|i: int| 0 <= i < k1.len() implies listed_values(e, ks, key)[i] == values_of(e, key)[i] by {
            assert(k1[i] == k2[i]);
            assert(e[(key, run[i].0)] == run[i].1);
        }
    }
}

// ── reads over a history of writes ─────────────────────────────────────────

/// A write to a point's entries.
pub enum EntryOp {
    Insert(Seq<char>, Seq<char>),
    PurgeKey(Seq<char>),
}

/// The registry after the writes `ops` to point `n`, in order.
pub open spec fn after_ops(v: DexterView, n: usize, ops: Seq<EntryOp>) -> DexterView
    decreases ops.len(),
{
    if ops.len() == 0 {
        v
    } else {
        let w = after_ops(v, n, ops.drop_last());
        match ops.last() {
            EntryOp::Insert(k, x) => w.after_insert(n, k, x),
            EntryOp::PurgeKey(k) => w.after_purge_key(n, k),
        }
    }
}

/// What a read of `key` gives after the writes `ops`, starting from `start`:
/// the values inserted under exactly `key` since the last purge of `key`.
pub open spec fn read_after_ops(start: Seq<Seq<char>>, ops: Seq<EntryOp>, key: Seq<char>) -> Seq<Seq<char>>
    decreases ops.len(),
{
    if ops.len() == 0 {
        start
    } else {
        let prev = read_after_ops(start, ops.drop_last(), key);
        match ops.last() {
            EntryOp::Insert(k, x) => if k == key { prev.push(x) } else { prev },
            EntryOp::PurgeKey(k) => if k == key { Seq::empty() } else { prev },
        }
    }
}

/// A read of a key after any history of inserts and key purges gives the
/// values inserted under exactly that key since its last purge, in insertion
/// order, while the point's sequence counter does not wrap.
pub proof fn law_get_over_history(v: DexterView, n: usize, ops: Seq<EntryOp>, key: Seq<char>)
    requires
        v.has(n),
        seqs_fresh(v.nodes[n as int]),
        v.nodes[n as int].next_seq + ops.len() <= u64::MAX,
    ensures
        values_of(after_ops(v, n, ops).nodes[n as int].entries, key)
            == read_after_ops(values_of(v.nodes[n as int].entries, key), ops, key),
        after_ops(v, n, ops).nodes.len() == v.nodes.len(),
        seqs_fresh(after_ops(v, n, ops).nodes[n as int]),
        after_ops(v, n, ops).nodes[n as int].next_seq <= v.nodes[n as int].next_seq + ops.len(),
    decreases ops.len(),
{
    if ops.len() > 0 {
        let pre = ops.drop_last();
        law_get_over_history(v, n, pre, key);
        let w = after_ops(v, n, pre);
        let node = w.nodes[n as int];
        match ops.last() {
            EntryOp::Insert(k, x) => {
                let other = if k == key { seq!['x'] + key } else { key };
                if k != key {
                    law_get_after_insert(w, n, k, x, key);
                } else {
                    assert(other != key) by {
                        assert(other.len() == key.len() + 1);
                    }
                    law_get_after_insert(w, n, k, x, other);
                }
                assert(node.next_seq < u64::MAX);
            },
            EntryOp::PurgeKey(k) => {
                let other = if k == key { seq!['x'] + key } else { key };
                if k != key {
                    law_purge_key_clears(w, n, k, key);
                } else {
                    assert(other != key) by {
                        assert(other.len() == key.len() + 1);
                    }
                    law_purge_key_clears(w, n, k, other);
                }
                let w2 = w.after_purge_key(n, k);
                assert forall|p: EntryPos| #[trigger] w2.nodes[n as int].entries.contains_key(p) implies p.1 < w2.nodes[n as int].next_seq by {
                    assert(node.entries.contains_key(p));
                }
            },
        }
    }
}

/// Whether `ops` purges `key` at some step.
pub open spec fn purges(ops: Seq<EntryOp>, key: Seq<char>) -> bool {
    exists|i: int| 0 <= i < ops.len() && ops[i] == EntryOp::PurgeKey(key)
}

/// The writes of `ops` after its last purge of `key`; all of them where it
/// purges `key` nowhere.
pub open spec fn since_last_purge(ops: Seq<EntryOp>, key: Seq<char>) -> Seq<EntryOp>
    decreases ops.len(),
{
    if ops.len() == 0 {
        ops
    } else if ops.last() == EntryOp::PurgeKey(key) {
        Seq::empty()
    } else {
        since_last_purge(ops.drop_last(), key).push(ops.last())
    }
}

/// The values that the inserts of `ops` put under exactly `key`, in order.
pub open spec fn inserted_under(ops: Seq<EntryOp>, key: Seq<char>) -> Seq<Seq<char>>
    decreases ops.len(),
{
    if ops.len() == 0 {
        Seq::empty()
    } else {
        let prev = inserted_under(ops.drop_last(), key);
        match ops.last() {
            EntryOp::Insert(k, x) => if k == key { prev.push(x) } else { prev },
            EntryOp::PurgeKey(_) => prev,
        }
    }
}

proof fn lemma_read_closed_form(start: Seq<Seq<char>>, ops: Seq<EntryOp>, key: Seq<char>)
    ensures
        read_after_ops(start, ops, key) == if purges(ops, key) {
            inserted_under(since_last_purge(ops, key), key)
        } else {
            start + inserted_under(ops, key)
        },
    decreases ops.len(),
{
    if ops.len() == 0 {
        assert(start + Seq::<Seq<char>>::empty() =~= start);
    } else {
        let pre = ops.drop_last();
        lemma_read_closed_form(start, pre, key);
        assert forall|i: int| 0 <= i < pre.len() implies pre[i] == ops[i] by {}
        if ops.last() == EntryOp::PurgeKey(key) {
            assert(ops[ops.len() - 1] == EntryOp::PurgeKey(key));
            assert(purges(ops, key));
            assert(since_last_purge(ops, key) =~= Seq::<EntryOp>::empty());
        } else {
            assert(purges(ops, key) == purges(pre, key)) by {
                if purges(ops, key) {
                    let i = choose|i: int| 0 <= i < ops.len() && ops[i] == EntryOp::PurgeKey(key);
                    assert(i != ops.len() - 1);
                    assert(pre[i] == ops[i]);
                }
                if purges(pre, key) {
                    let i = choose|i: int| 0 <= i < pre.len() && pre[i] == EntryOp::PurgeKey(key);
                    assert(ops[i] == pre[i]);
                }
            }
            let sl = since_last_purge(ops, key);
            assert(sl == since_last_purge(pre, key).push(ops.last()));
            assert(sl.drop_last() =~= since_last_purge(pre, key));
            assert(sl.last() == ops.last());
            match ops.last() {
                EntryOp::Insert(k, x) => {
                    if k == key && !purges(pre, key) {
                        assert((start + inserted_under(pre, key)).push(x) =~= start + inserted_under(pre, key).push(x));
                    }
                },
                EntryOp::PurgeKey(k) => {},
            }
        }
    }
}

/// The same read, in closed form: a point's values under `key` after the
/// writes `ops` are the values inserted under exactly `key` since the last
/// purge of `key`, in insertion order; where `ops` never purges `key`, they
/// follow the values the point held before. Each call of `Point::insert`
/// makes the step `after_insert` and each call of `Point::purge_key` the step
/// `after_purge_key` (their contracts), so `ops` stands for any sequence of
/// such calls on the point, while its sequence counter does not wrap.
pub proof fn law_get_since_last_purge(v: DexterView, n: usize, ops: Seq<EntryOp>, key: Seq<char>)
    requires
        v.has(n),
        seqs_fresh(v.nodes[n as int]),
        v.nodes[n as int].next_seq + ops.len() <= u64::MAX,
    ensures
        values_of(after_ops(v, n, ops).nodes[n as int].entries, key) == if purges(ops, key) {
            inserted_under(since_last_purge(ops, key), key)
        } else {
            values_of(v.nodes[n as int].entries, key) + inserted_under(ops, key)
        },
{
    law_get_over_history(v, n, ops, key);
    lemma_read_closed_form(values_of(v.nodes[n as int].entries, key), ops, key);
}

// ── the searches, as bags of (point name, value) pairs ────────────────────

/// The pairs found along `order` split at any point of the order.
proof fn lemma_hits_concat(v: DexterView, a: Seq<usize>, b: Seq<usize>, key: Seq<char>)
    ensures
        v.hits(a + b, key) == v.hits(a, key) + v.hits(b, key),
    decreases b.len(),
{
    if b.len() == 0 {
        assert(a + b =~= a);
        assert(v.hits(b, key) =~= Seq::<(Seq<char>, Seq<char>)>::empty());
        assert(v.hits(a, key) + v.hits(b, key) =~= v.hits(a, key));
    } else {
        lemma_hits_concat(v, a, b.drop_last(), key);
        assert((a + b).drop_last() =~= a + b.drop_last());
        assert((a + b).last() == b.last());
        assert(v.hits(a + b, key) =~= v.hits(a, key) + v.hits(b, key));
    }
}

/// Taking one point out of an order takes its pairs out of the bag.
proof fn lemma_hits_remove(v: DexterView, o: Seq<usize>, j: int, key: Seq<char>)
    requires
        0 <= j < o.len(),
    ensures
        v.hits(o, key).to_multiset() == v.hits(o.remove(j), key).to_multiset().add(v.hits_in(o[j], key).to_multiset()),
    decreases o.len(),
{
    broadcast use vstd::multiset::group_multiset_axioms;
    let d = o.drop_last();
    vstd::seq_lib::lemma_multiset_commutative(v.hits(d, key), v.hits_in(o.last(), key));
    if j == o.len() - 1 {
        assert(o.remove(j) =~= d);
    } else {
        lemma_hits_remove(v, d, j, key);
        let dr = d.remove(j);
        assert(o.remove(j) =~= dr.push(o.last()));
        assert(o.remove(j).drop_last() =~= dr);
        assert(o.remove(j).last() == o.last());
        vstd::seq_lib::lemma_multiset_commutative(v.hits(dr, key), v.hits_in(o.last(), key));
        assert(d[j] == o[j]);
        assert(v.hits(o, key).to_multiset() =~= v.hits(o.remove(j), key).to_multiset().add(v.hits_in(o[j], key).to_multiset()));
    }
}

/// Where every point of `o1` is in `o2`, the pairs found along `o1` are among
/// those found along `o2`; where the two hold the same points, they are the
/// same pairs.
proof fn lemma_hits_sub(v: DexterView, o1: Seq<usize>, o2: Seq<usize>, key: Seq<char>)
    requires
        o1.no_duplicates(),
        o2.no_duplicates(),
        forall|x: usize| o1.contains(x) ==> o2.contains(x),
    ensures
        v.hits(o1, key).to_multiset().subset_of(v.hits(o2, key).to_multiset()),
        (forall|x: usize| o2.contains(x) ==> o1.contains(x)) ==> v.hits(o1, key).to_multiset() == v.hits(o2, key).to_multiset(),
    decreases o1.len(),
{
    broadcast use vstd::multiset::group_multiset_axioms;
    broadcast use vstd::seq_lib::group_to_multiset_ensures;
    if o1.len() == 0 {
        assert(v.hits(o1, key) =~= Seq::<(Seq<char>, Seq<char>)>::empty());
        assert(v.hits(o1, key).to_multiset() =~= Multiset::empty());
        if forall|x: usize| o2.contains(x) ==> o1.contains(x) {
            if o2.len() > 0 {
                assert(o2.contains(o2[0]));
            }
            assert(o2 =~= Seq::<usize>::empty());
        }
    } else {
        let x = o1.last();
        let p1 = o1.drop_last();
        assert(o1.contains(x));
        let j = choose|j: int| 0 <= j < o2.len() && o2[j] == x;
        let p2 = o2.remove(j);
        assert(p2.no_duplicates()) by {
            assert forall|a: int, b: int| 0 <= a < p2.len() && 0 <= b < p2.len() && a != b implies p2[a] != p2[b] by {
                let aa = if a < j { a } else { a + 1 };
                let bb = if b < j { b } else { b + 1 };
                assert(p2[a] == o2[aa] && p2[b] == o2[bb]);
            }
        }
        assert forall|y: usize| p1.contains(y) implies p2.contains(y) by {
            let a = choose|a: int| 0 <= a < p1.len() && p1[a] == y;
            assert(o1[a] == y);
            assert(y != x);
            assert(o2.contains(y));
            let b = choose|b: int| 0 <= b < o2.len() && o2[b] == y;
            assert(b != j);
            if b < j {
                assert(p2[b] == y);
            } else {
                assert(p2[b - 1] == y);
            }
        }
        lemma_hits_sub(v, p1, p2, key);
        lemma_hits_remove(v, o2, j, key);
        vstd::seq_lib::lemma_multiset_commutative(v.hits(p1, key), v.hits_in(x, key));
        assert(v.hits(o1, key) == v.hits(p1, key) + v.hits_in(x, key));
        if forall|y: usize| o2.contains(y) ==> o1.contains(y) {
            assert forall|y: usize| p2.contains(y) implies p1.contains(y) by {
                let b = choose|b: int| 0 <= b < p2.len() && p2[b] == y;
                let bb = if b < j { b } else { b + 1 };
                assert(o2[bb] == y);
                assert(bb != j);
                assert(y != x);
                assert(o1.contains(y));
                let a = choose|a: int| 0 <= a < o1.len() && o1[a] == y;
                assert(a != o1.len() - 1);
                assert(p1[a] == y);
            }
            lemma_hits_sub(v, p1, p2, key);
            assert(v.hits(o1, key).to_multiset() =~= v.hits(o2, key).to_multiset());
        }
    }
}

/// The pairs along a walk from a registered point lie within those along an
/// order of all registered points.
proof fn lemma_walk_within_global(
    v: DexterView,
    key: Seq<char>,
    p: usize,
    walk: Seq<usize>,
    depths: Seq<nat>,
    global: Seq<usize>,
)
    requires
        v.live(p),
        v.is_walk(p, walk, depths),
        global.no_duplicates(),
        forall|m: usize| global.contains(m) <==> v.live(m),
    ensures
        v.hits(walk, key).to_multiset().subset_of(v.hits(global, key).to_multiset()),
{
    assert forall|x: usize| walk.contains(x) implies global.contains(x) by {
        assert(v.reaches(p, x));
        if x != p {
            lemma_reached_step(v, p, x);
        }
    }
    lemma_hits_sub(v, walk, global, key);
}

/// The orders `ws` one after the other.
spec fn chained(ws: Seq<Seq<usize>>) -> Seq<usize>
    decreases ws.len(),
{
    if ws.len() == 0 {
        Seq::empty()
    } else {
        chained(ws.drop_last()) + ws.last()
    }
}

/// The pairs found along the orders `ws`, one after the other.
spec fn hits_along(v: DexterView, ws: Seq<Seq<usize>>, key: Seq<char>) -> Seq<(Seq<char>, Seq<char>)>
    decreases ws.len(),
{
    if ws.len() == 0 {
        Seq::empty()
    } else {
        hits_along(v, ws.drop_last(), key) + v.hits(ws.last(), key)
    }
}

proof fn lemma_chained(v: DexterView, ws: Seq<Seq<usize>>, key: Seq<char>)
    requires
        forall|i: int| 0 <= i < ws.len() ==> (#[trigger] ws[i]).no_duplicates(),
        forall|i: int, k: int, x: usize| #![trigger ws[i].contains(x), ws[k].contains(x)] 0 <= i < k < ws.len() && ws[i].contains(x) ==> !ws[k].contains(x),
    ensures
        v.hits(chained(ws), key) == hits_along(v, ws, key),
        chained(ws).no_duplicates(),
        forall|x: usize| chained(ws).contains(x) <==> exists|i: int| 0 <= i < ws.len() && (#[trigger] ws[i]).contains(x),
    decreases ws.len(),
{
    if ws.len() == 0 {
        assert(v.hits(chained(ws), key) =~= Seq::<(Seq<char>, Seq<char>)>::empty());
    } else {
        let pre = ws.drop_last();
        let last = ws.last();
        assert forall|i: int| 0 <= i < pre.len() implies (#[trigger] pre[i]).no_duplicates() by {
            assert(pre[i] == ws[i]);
        }
        assert forall|i: int, k: int, x: usize| #![trigger pre[i].contains(x), pre[k].contains(x)] 0 <= i < k < pre.len() && pre[i].contains(x) implies !pre[k].contains(x) by {
            assert(pre[i] == ws[i] && pre[k] == ws[k]);
        }
        lemma_chained(v, pre, key);
        let c = chained(pre);
        lemma_hits_concat(v, c, last, key);
        assert(ws[ws.len() - 1] == last);
        assert(last.no_duplicates());
        assert forall|a: int, b: int| 0 <= a < c.len() && 0 <= b < last.len() implies c[a] != last[b] by {
            assert(c.contains(c[a]));
            let i = choose|i: int| 0 <= i < pre.len() && (#[trigger] pre[i]).contains(c[a]);
            assert(pre[i] == ws[i]);
            assert(ws[i].contains(c[a]));
            if c[a] == last[b] {
                assert(last.contains(last[b]));
                assert(!ws[ws.len() - 1].contains(c[a]));
            }
        }
        vstd::seq_lib::lemma_no_dup_in_concat(c, last);
        assert forall|x: usize| chained(ws).contains(x) <==> exists|i: int| 0 <= i < ws.len() && (#[trigger] ws[i]).contains(x) by {
            if chained(ws).contains(x) {
                let a = choose|a: int| 0 <= a < (c + last).len() && (c + last)[a] == x;
                if a < c.len() {
                    assert(c[a] == x);
                    assert(c.contains(x));
                    let i = choose|i: int| 0 <= i < pre.len() && (#[trigger] pre[i]).contains(x);
                    assert(pre[i] == ws[i]);
                } else {
                    assert(last[a - c.len()] == x);
                    assert(ws[ws.len() - 1].contains(x));
                }
            }
            if exists|i: int| 0 <= i < ws.len() && (#[trigger] ws[i]).contains(x) {
                let i = choose|i: int| 0 <= i < ws.len() && (#[trigger] ws[i]).contains(x);
                if i < pre.len() {
                    assert(pre[i] == ws[i]);
                    assert(c.contains(x));
                    let a = choose|a: int| 0 <= a < c.len() && c[a] == x;
                    assert((c + last)[a] == x);
                } else {
                    let b = choose|b: int| 0 <= b < last.len() && last[b] == x;
                    assert((c + last)[c.len() + b] == x);
                }
            }
        }
    }
}

/// In a consistent registry, the walks from the roots, one after the other,
/// find the same pairs as an order of all registered points.
proof fn lemma_root_walks_add_up(
    v: DexterView,
    key: Seq<char>,
    global: Seq<usize>,
    roots: Seq<usize>,
    walks: Seq<Seq<usize>>,
    depths: Seq<Seq<nat>>,
)
    requires
        v.wf(),
        v.consistent(),
        global.no_duplicates(),
        forall|m: usize| global.contains(m) <==> v.live(m),
        roots.no_duplicates(),
        forall|m: usize| roots.contains(m) <==> v.root_set().contains(m),
        walks.len() == roots.len(),
        depths.len() == roots.len(),
        forall|i: int| 0 <= i < roots.len() ==> v.is_walk(roots[i], #[trigger] walks[i], depths[i]),
    ensures
        v.hits(global, key).to_multiset() == hits_along(v, walks, key).to_multiset(),
{
    assert forall|i: int| 0 <= i < walks.len() implies (#[trigger] walks[i]).no_duplicates() by {
        assert(v.is_walk(roots[i], walks[i], depths[i]));
    }
    assert forall|i: int, k: int, x: usize| #![trigger walks[i].contains(x), walks[k].contains(x)]
        0 <= i < k < walks.len() && walks[i].contains(x) implies !walks[k].contains(x) by {
        assert(v.is_walk(roots[i], walks[i], depths[i]));
        assert(v.is_walk(roots[k], walks[k], depths[k]));
        if walks[k].contains(x) {
            assert(v.reaches(roots[i], x));
            assert(v.reaches(roots[k], x));
            assert(roots.contains(roots[i]) && roots.contains(roots[k]));
            assert(v.root_set().contains(roots[i]) && v.root_set().contains(roots[k]));
            if x != roots[i] {
                lemma_reached_step(v, roots[i], x);
            }
            assert(v.live(x));
            law_roots_partition(v, x);
        }
    }
    lemma_chained(v, walks, key);
    let c = chained(walks);
    assert forall|x: usize| c.contains(x) implies global.contains(x) by {
        let i = choose|i: int| 0 <= i < walks.len() && (#[trigger] walks[i]).contains(x);
        assert(v.is_walk(roots[i], walks[i], depths[i]));
        assert(v.reaches(roots[i], x));
        assert(roots.contains(roots[i]));
        if x != roots[i] {
            lemma_reached_step(v, roots[i], x);
        }
    }
    assert forall|x: usize| global.contains(x) implies c.contains(x) by {
        law_roots_partition(v, x);
        let r = choose|r: usize| #[trigger] v.root_set().contains(r) && v.reaches(r, x);
        assert(roots.contains(r));
        let i = choose|i: int| 0 <= i < roots.len() && roots[i] == r;
        assert(v.is_walk(roots[i], walks[i], depths[i]));
        assert(walks[i].contains(x));
    }
    lemma_hits_sub(v, c, global, key);
}

/// The pairs found along walks, one after the other, are the walks' own
/// results one after the other.
proof fn lemma_hits_along_flat(
    v: DexterView,
    key: Seq<char>,
    walks: Seq<Seq<usize>>,
    found: Seq<Seq<(Seq<char>, Seq<char>)>>,
)
    requires
        walks.len() == found.len(),
        forall|i: int| 0 <= i < walks.len() ==> #[trigger] found[i] == v.hits(walks[i], key),
    ensures
        hits_along(v, walks, key) == found.flatten_alt(),
    decreases walks.len(),
{
    if walks.len() > 0 {
        let pw = walks.drop_last();
        let pf = found.drop_last();
        assert forall|i: int| 0 <= i < pw.len() implies #[trigger] pf[i] == v.hits(pw[i], key) by {
            assert(pf[i] == found[i] && pw[i] == walks[i]);
        }
        lemma_hits_along_flat(v, key, pw, pf);
        assert(found[found.len() - 1] == v.hits(walks[walks.len() - 1], key));
    }
}

/// A scoped search finds nothing that the global search does not: where
/// `found` is what a registered point's search gives for `key` (a walk of its
/// subtree, as `Point::search` states) and `global_found` is what the global
/// search gives (every registered point once, as `PointDexter::search`
/// states), the pairs of `found` are, as a bag, among those of
/// `global_found`.
pub proof fn law_scoped_within_global(
    v: DexterView,
    key: Seq<char>,
    p: usize,
    found: Seq<(Seq<char>, Seq<char>)>,
    global_found: Seq<(Seq<char>, Seq<char>)>,
)
    requires
        v.live(p),
        exists|walk: Seq<usize>, depths: Seq<nat>| v.is_walk(p, walk, depths) && found == v.hits(walk, key),
        exists|order: Seq<usize>| {
            &&& order.no_duplicates()
            &&& forall|m: usize| order.contains(m) <==> v.live(m)
            &&& global_found == v.hits(order, key)
        },
    ensures
        found.to_multiset().subset_of(global_found.to_multiset()),
{
    let (walk, depths) = choose|walk: Seq<usize>, depths: Seq<nat>| v.is_walk(p, walk, depths) && found == v.hits(walk, key);
    let order = choose|order: Seq<usize>| {
        &&& order.no_duplicates()
        &&& forall|m: usize| order.contains(m) <==> v.live(m)
        &&& global_found == v.hits(order, key)
    };
    lemma_walk_within_global(v, key, p, walk, depths, order);
}

/// In a consistent registry the roots' searches add up to the global search:
/// where `roots` are the root points (as `PointDexter::roots` gives them),
/// `found[i]` is what the search from `roots[i]` gives for `key`, and
/// `global_found` is what the global search gives, the two hold the same
/// (point name, value) pairs, as bags.
pub proof fn law_roots_searches_add_up(
    v: DexterView,
    key: Seq<char>,
    roots: Seq<usize>,
    found: Seq<Seq<(Seq<char>, Seq<char>)>>,
    global_found: Seq<(Seq<char>, Seq<char>)>,
)
    requires
        v.wf(),
        v.consistent(),
        roots.no_duplicates(),
        forall|m: usize| roots.contains(m) <==> v.root_set().contains(m),
        found.len() == roots.len(),
        forall|i: int| #![trigger found[i]] 0 <= i < roots.len() ==> exists|walk: Seq<usize>, depths: Seq<nat>|
            v.is_walk(roots[i], walk, depths) && found[i] == v.hits(walk, key),
        exists|order: Seq<usize>| {
            &&& order.no_duplicates()
            &&& forall|m: usize| order.contains(m) <==> v.live(m)
            &&& global_found == v.hits(order, key)
        },
    ensures
        global_found.to_multiset() == found.flatten().to_multiset(),
{
    let order = choose|order: Seq<usize>| {
        &&& order.no_duplicates()
        &&& forall|m: usize| order.contains(m) <==> v.live(m)
        &&& global_found == v.hits(order, key)
    };
    let wd = Seq::new(roots.len(), |i: int| choose|walk: Seq<usize>, depths: Seq<nat>|
        v.is_walk(roots[i], walk, depths) && found[i] == v.hits(walk, key));
    let walks = Seq::new(roots.len(), |i: int| wd[i].0);
    let depths = Seq::new(roots.len(), |i: int| wd[i].1);
    assert forall|i: int| 0 <= i < roots.len() implies
        v.is_walk(roots[i], #[trigger] walks[i], depths[i]) && found[i] == v.hits(walks[i], key) by {
        let f = found[i];
        assert(exists|walk: Seq<usize>, depths: Seq<nat>| v.is_walk(roots[i], walk, depths) && f == v.hits(walk, key));
        assert(wd[i] == choose|walk: Seq<usize>, depths: Seq<nat>| v.is_walk(roots[i], walk, depths) && found[i] == v.hits(walk, key));
    }
    lemma_root_walks_add_up(v, key, order, roots, walks, depths);
    lemma_hits_along_flat(v, key, walks, found);
    found.lemma_flatten_and_flatten_alt_are_equivalent();
}

// ── what each operation answers, stated over the model's own fields ───────

/// `t` is an ancestor of `n` exactly when `n` links to a parent that is `t`
/// or has `t` as an ancestor; a point without a parent link has none.
pub proof fn law_ancestor_by_parent_links(v: DexterView, n: usize, t: usize)
    requires
        v.has(n),
    ensures
        v.is_ancestor(n, t) <==> match v.nodes[n as int].parent {
            Some(q) => q == t || v.is_ancestor(q, t),
            None => false,
        },
{
    if v.is_ancestor(n, t) {
        lemma_ancestor_split(v, n, t);
    }
    if let Some(q) = v.nodes[n as int].parent {
        if q == t || v.is_ancestor(q, t) {
            lemma_ancestor_through_parent(v, n, t);
        }
    }
}

/// `attach` refuses only a point taken as its own child, and a child that is
/// already an ancestor of the parent; every other pair is accepted, whatever
/// either point already holds or links to (a built subtree can be attached
/// whole).
pub proof fn law_attach_refuses_only_cycles(v: DexterView, p: usize, c: usize)
    ensures
        (v.attach_outcome(p, c) is Ok) <==> (p != c && !v.is_ancestor(p, c)),
        (v.attach_outcome(p, c) == Err::<(), AttachError>(AttachError::SelfAttach)) <==> p == c,
        (v.attach_outcome(p, c) == Err::<(), AttachError>(AttachError::WouldCycle)) <==> (p != c && v.is_ancestor(p, c)),
{
}

/// Asking for a registered name changes nothing at all: every point keeps
/// its name, entries, counter, child list and parent link, and every name
/// keeps its point. Asking for a new name adds one empty point, with no
/// parent and no children, at the next slot, registered under that name;
/// every other point and name is left as it was.
pub proof fn law_point_leaves_others_alone(v: DexterView, name: Seq<char>)
    ensures
        v.points.contains_key(name) ==> v.after_point(name) == v,
        !v.points.contains_key(name) ==> {
            let w = v.after_point(name);
            &&& w.points == v.points.insert(name, v.nodes.len() as usize)
            &&& w.nodes.len() == v.nodes.len() + 1
            &&& forall|i: int| 0 <= i < v.nodes.len() ==> #[trigger] w.nodes[i] == v.nodes[i]
            &&& w.nodes[v.nodes.len() as int].name == name
            &&& w.nodes[v.nodes.len() as int].entries == Map::<EntryPos, Seq<char>>::empty()
            &&& w.nodes[v.nodes.len() as int].next_seq == 0
            &&& w.nodes[v.nodes.len() as int].children == Set::<Seq<char>>::empty()
            &&& w.nodes[v.nodes.len() as int].parent is None
        },
{
}

/// What a search reports for one point is exactly what a read of that point
/// gives under the key, value for value and in the same order, each paired
/// with the point's name: no value is dropped, added or reordered.
pub proof fn law_search_reports_every_value(v: DexterView, n: usize, key: Seq<char>)
    ensures
        v.hits_in(n, key).len() == values_of(v.nodes[n as int].entries, key).len(),
        forall|i: int| 0 <= i < v.hits_in(n, key).len() ==> #[trigger] v.hits_in(n, key)[i]
            == (v.nodes[n as int].name, values_of(v.nodes[n as int].entries, key)[i]),
{
}

/// What a search reports along an order of points is, point after point,
/// what each of those points reports: the reports joined together.
pub proof fn law_search_joins_points(v: DexterView, order: Seq<usize>, key: Seq<char>)
    ensures
        v.hits(order, key) == Seq::new(order.len(), |i: int| v.hits_in(order[i], key)).flatten(),
    decreases order.len(),
{
    let parts = Seq::new(order.len(), |i: int| v.hits_in(order[i], key));
    parts.lemma_flatten_and_flatten_alt_are_equivalent();
    if order.len() > 0 {
        let pre = order.drop_last();
        law_search_joins_points(v, pre, key);
        let pp = Seq::new(pre.len(), |i: int| v.hits_in(pre[i], key));
        assert(parts.drop_last() =~= pp);
        pp.lemma_flatten_and_flatten_alt_are_equivalent();
    }
}

/// A point's drawing has one line per listed entry, in the listed order:
/// the line for entry `ks[i]` is the indentation, `├── `, its key, ` = `,
/// its value and a line break, and the lines follow one another with nothing
/// left out or added.
pub proof fn law_drawing_one_line_per_entry(v: DexterView, n: usize, d: nat, ks: Seq<EntryPos>)
    ensures
        v.entry_lines(n, d, ks) == Seq::new(ks.len(), |i: int|
            indent(d) + "├── "@ + ks[i].0 + " = "@ + v.nodes[n as int].entries[ks[i]] + "\n"@).flatten(),
    decreases ks.len(),
{
    let lines = Seq::new(ks.len(), |i: int|
        indent(d) + "├── "@ + ks[i].0 + " = "@ + v.nodes[n as int].entries[ks[i]] + "\n"@);
    lines.lemma_flatten_and_flatten_alt_are_equivalent();
    if ks.len() > 0 {
        let pre = ks.drop_last();
        law_drawing_one_line_per_entry(v, n, d, pre);
        let pl = Seq::new(pre.len(), |i: int|
            indent(d) + "├── "@ + pre[i].0 + " = "@ + v.nodes[n as int].entries[pre[i]] + "\n"@);
        assert(lines.drop_last() =~= pl);
        pl.lemma_flatten_and_flatten_alt_are_equivalent();
    }
}

/// A line at depth `d` is indented by four spaces per level and nothing else.
pub proof fn law_indent_four_spaces_per_level(d: nat)
    ensures
        indent(d).len() == 4 * d,
        forall|i: int| 0 <= i < indent(d).len() ==> #[trigger] indent(d)[i] == ' ',
    decreases d,
{
    if d > 0 {
        law_indent_four_spaces_per_level((d - 1) as nat);
        let prev = indent((d - 1) as nat);
        assert(indent(d) == prev + "    "@);
        reveal_strlit("    ");
        assert forall|i: int| 0 <= i < indent(d).len() implies #[trigger] indent(d)[i] == ' ' by {
            if i >= prev.len() {
                assert(indent(d)[i] == "    "@[i - prev.len()]);
            }
        }
    }
}

} // verus!
