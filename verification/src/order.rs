//! The order of the nodes of a document, and the walk through a document
//! that goes into depth first.

use vstd::prelude::*;
use crate::node::{tree_wf, NodeView};

verus! {

/// Whether node `x` is node `a` or lies below it.
pub open spec fn in_subtree(t: Seq<NodeView>, a: int, x: int) -> bool
    decreases x,
{
    x == a || (0 < x < t.len() && (t[x].parent matches Some(p) && p < x && in_subtree(
        t,
        a,
        p as int,
    )))
}

/// Whether the nodes are numbered in document order: the node numbered
/// just before a node is its parent or lies below its parent.
pub open spec fn in_document_order(t: Seq<NodeView>) -> bool {
    forall|j: int|
        0 < j < t.len() ==> ((#[trigger] t[j]).parent matches Some(p) && in_subtree(
            t,
            p as int,
            j - 1,
        ))
}

/// The nodes that the walk from `node` meets: the node, then what the walk
/// meets from each of its children, in the order of the list of children.
pub open spec fn walk(t: Seq<NodeView>, node: int) -> Seq<int>
    decreases t.len() - node, 1nat, 0nat,
{
    seq![node] + walk_children(t, node, t[node].children.len() as int)
}

/// The nodes that the walk meets from the first `k` children of `node`.
pub open spec fn walk_children(t: Seq<NodeView>, node: int, k: int) -> Seq<int>
    decreases t.len() - node, 0nat, k,
{
    if 0 < k <= t[node].children.len() {
        let child = t[node].children[k - 1] as int;
        if node < child < t.len() {
            walk_children(t, node, k - 1) + walk(t, child)
        } else {
            walk_children(t, node, k - 1)
        }
    } else {
        Seq::empty()
    }
}

/// The numbers from `a` up to `b`, without `b`.
pub open spec fn range(a: int, b: int) -> Seq<int> {
    Seq::new((b - a) as nat, |j: int| a + j)
}

/// The first node behind `j` that does not lie below `i`, or the number
/// of nodes where all do.
pub open spec fn extent_from(t: Seq<NodeView>, i: int, j: int) -> int
    decreases t.len() - j,
{
    if 0 <= j < t.len() && in_subtree(t, i, j) {
        extent_from(t, i, j + 1)
    } else {
        j
    }
}

/// The first node behind `i` that does not lie below it.
pub open spec fn extent(t: Seq<NodeView>, i: int) -> int {
    extent_from(t, i, i + 1)
}

/// A node does not come before a node that it lies below.
pub proof fn lemma_subtree_bounds(t: Seq<NodeView>, a: int, x: int)
    requires
        in_subtree(t, a, x),
    ensures
        a <= x,
    decreases x,
{
    if x != a {
        lemma_subtree_bounds(t, a, t[x].parent->0 as int);
    }
}

/// What lies below a node lies below all that the node lies below.
pub proof fn lemma_subtree_trans(t: Seq<NodeView>, a: int, b: int, c: int)
    requires
        in_subtree(t, a, b),
        in_subtree(t, b, c),
    ensures
        in_subtree(t, a, c),
    decreases c,
{
    if c != b && c != a {
        lemma_subtree_trans(t, a, b, t[c].parent->0 as int);
    }
}

/// Of two nodes that a node lies below, one lies below the other.
pub proof fn lemma_subtree_chain(t: Seq<NodeView>, a: int, b: int, x: int)
    requires
        in_subtree(t, a, x),
        in_subtree(t, b, x),
    ensures
        in_subtree(t, a, b) || in_subtree(t, b, a),
    decreases x,
{
    if x != a && x != b {
        lemma_subtree_chain(t, a, b, t[x].parent->0 as int);
    }
}

/// In document order the nodes below a node follow it without a gap:
/// behind a node that does not lie below `i`, none does.
pub proof fn lemma_contiguous(t: Seq<NodeView>, i: int, j: int, k: int)
    requires
        tree_wf(t),
        in_document_order(t),
        0 <= i < j <= k < t.len(),
        !in_subtree(t, i, j),
    ensures
        !in_subtree(t, i, k),
    decreases k,
{
    if k > j {
        lemma_contiguous(t, i, j, k - 1);
        if in_subtree(t, i, k) {
            let q = t[k].parent->0 as int;
            lemma_subtree_trans(t, i, q, k - 1);
        }
    }
}

/// Up to the extent all nodes lie below `i`, and the node at the extent
/// does not.
pub proof fn lemma_extent_from(t: Seq<NodeView>, i: int, j: int)
    requires
        0 <= j <= t.len(),
    ensures
        j <= extent_from(t, i, j) <= t.len(),
        forall|k: int| j <= k < extent_from(t, i, j) ==> in_subtree(t, i, k),
        extent_from(t, i, j) < t.len() ==> !in_subtree(t, i, extent_from(t, i, j)),
    decreases t.len() - j,
{
    if j < t.len() && in_subtree(t, i, j) {
        lemma_extent_from(t, i, j + 1);
    }
}

/// The nodes below `i` are those from `i` up to its extent.
pub proof fn lemma_extent(t: Seq<NodeView>, i: int)
    requires
        tree_wf(t),
        in_document_order(t),
        0 <= i < t.len(),
    ensures
        i < extent(t, i) <= t.len(),
        forall|k: int| 0 <= k < t.len() ==> (in_subtree(t, i, k) <==> i <= k < extent(t, i)),
{
    lemma_extent_from(t, i, i + 1);
    let e = extent(t, i);
    assert forall|k: int| 0 <= k < t.len() implies (in_subtree(t, i, k) <==> i <= k < e) by {
        if in_subtree(t, i, k) {
            lemma_subtree_bounds(t, i, k);
            if k >= e {
                lemma_contiguous(t, i, e, k);
            }
        }
    }
}

/// The node at which the children of `i` that come behind its first `k`
/// start: behind `i` itself, or behind all that lies below child `k - 1`.
pub open spec fn reach(t: Seq<NodeView>, i: int, k: int) -> int {
    if k <= 0 {
        i + 1
    } else {
        extent(t, t[i].children[k - 1] as int)
    }
}

/// A tree whose nodes are numbered in document order.
#[verifier::opaque]
pub open spec fn ordered_tree(t: Seq<NodeView>) -> bool {
    tree_wf(t) && in_document_order(t)
}

/// What a child is to its parent.
proof fn lemma_child_facts(t: Seq<NodeView>, i: int, k: int)
    requires
        ordered_tree(t),
        0 <= i < t.len(),
        0 <= k < t[i].children.len(),
    ensures
        i < t[i].children[k] < t.len(),
        t[t[i].children[k] as int].parent == Some(i as usize),
        in_subtree(t, i, t[i].children[k] as int),
        forall|m: int| 0 <= m < k ==> t[i].children[m] < t[i].children[k],
        forall|m: int| k < m < t[i].children.len() ==> t[i].children[k] < t[i].children[m],
{
    reveal(ordered_tree);
    assert(in_subtree(t, i, i));
}

/// The extent of a node of an ordered tree.
proof fn lemma_ordered_extent(t: Seq<NodeView>, i: int)
    requires
        ordered_tree(t),
        0 <= i < t.len(),
    ensures
        i < extent(t, i) <= t.len(),
        forall|k: int| 0 <= k < t.len() ==> (in_subtree(t, i, k) <==> i <= k < extent(t, i)),
{
    reveal(ordered_tree);
    lemma_extent(t, i);
}

/// A node `f` below `i`, whose parent does not come behind `i`, is a
/// child of `i`.
proof fn lemma_child(t: Seq<NodeView>, i: int, f: int) -> (m: int)
    requires
        ordered_tree(t),
        0 <= i < f < t.len(),
        in_subtree(t, i, f),
        t[f].parent is Some ==> t[f].parent->0 <= i,
    ensures
        0 <= m < t[i].children.len(),
        t[i].children[m] == f,
{
    reveal(ordered_tree);
    lemma_subtree_bounds(t, i, t[f].parent->0 as int);
    choose|m: int| 0 <= m < t[i].children.len() && t[i].children[m] == f as usize
}

/// The node that follows all that lies below the child `c` of `i` is a
/// child of `i` where it lies below `i`.
proof fn lemma_after_child(t: Seq<NodeView>, i: int, c: int) -> (m: int)
    requires
        ordered_tree(t),
        0 <= i < c < t.len(),
        t[c].parent == Some(i as usize),
        extent(t, c) < t.len(),
        in_subtree(t, i, extent(t, c)),
    ensures
        0 <= m < t[i].children.len(),
        t[i].children[m] == extent(t, c),
{
    let f = extent(t, c);
    lemma_ordered_extent(t, c);
    let p = t[f].parent->0 as int;
    assert(t[f].parent is Some && p < f && in_subtree(t, p, f - 1)) by {
        reveal(ordered_tree);
    }
    assert(!in_subtree(t, c, f));
    lemma_subtree_chain(t, p, c, f - 1);
    assert(t.len() <= usize::MAX) by {
        reveal(ordered_tree);
    }
    lemma_subtree_bounds(t, p, i);
    lemma_child(t, i, f)
}

/// All that lies below a child of `i` lies below `i`.
proof fn lemma_child_extent(t: Seq<NodeView>, i: int, k: int)
    requires
        ordered_tree(t),
        0 <= i < t.len(),
        0 <= k < t[i].children.len(),
    ensures
        t[i].children[k] < extent(t, t[i].children[k] as int) <= extent(t, i),
{
    let c = t[i].children[k] as int;
    lemma_child_facts(t, i, k);
    lemma_ordered_extent(t, c);
    lemma_ordered_extent(t, i);
    let f = extent(t, c);
    lemma_subtree_trans(t, i, c, f - 1);
}

/// A child of `i` comes behind all that lies below the child before it.
proof fn lemma_siblings_apart(t: Seq<NodeView>, i: int, k: int)
    requires
        ordered_tree(t),
        0 <= i < t.len(),
        0 < k < t[i].children.len(),
    ensures
        extent(t, t[i].children[k - 1] as int) <= t[i].children[k],
{
    let c = t[i].children[k - 1] as int;
    let next = t[i].children[k] as int;
    lemma_child_facts(t, i, k);
    lemma_child_facts(t, i, k - 1);
    lemma_ordered_extent(t, c);
    if next < extent(t, c) {
        assert(in_subtree(t, c, next));
        lemma_subtree_bounds(t, c, i);
    }
}

/// Where the first `k` children of `i` end, the next child starts; and
/// where there is no next child, nothing more lies below `i`.
proof fn lemma_reach(t: Seq<NodeView>, i: int, k: int)
    requires
        ordered_tree(t),
        0 <= i < t.len(),
        0 <= k <= t[i].children.len(),
    ensures
        i + 1 <= reach(t, i, k) <= extent(t, i),
        k < t[i].children.len() ==> t[i].children[k] == reach(t, i, k),
        k == t[i].children.len() ==> reach(t, i, k) == extent(t, i),
{
    let len = t[i].children.len() as int;
    let f = reach(t, i, k);
    lemma_ordered_extent(t, i);
    if k > 0 {
        lemma_child_extent(t, i, k - 1);
        lemma_child_facts(t, i, k - 1);
    }
    if k < len {
        lemma_child_facts(t, i, k);
        if k > 0 {
            lemma_siblings_apart(t, i, k);
        }
    }
    // where `f` lies below `i` it is the child `m` of `i`, and `m` is `k`
    if f < t.len() && in_subtree(t, i, f) {
        let m = if k == 0 {
            lemma_child(t, i, f)
        } else {
            lemma_after_child(t, i, t[i].children[k - 1] as int)
        };
        lemma_child_facts(t, i, m);
    }
}

proof fn lemma_range_join(a: int, b: int, c: int)
    requires
        a <= b <= c,
    ensures
        range(a, b) + range(b, c) == range(a, c),
        a < c ==> seq![a] + range(a + 1, c) == range(a, c),
        range(a, a) == Seq::<int>::empty(),
{
}

proof fn lemma_walk_ordered(t: Seq<NodeView>, i: int)
    requires
        ordered_tree(t),
        0 <= i < t.len(),
    ensures
        walk(t, i) == range(i, extent(t, i)),
    decreases t.len() - i, 1nat, 0nat,
{
    let n = t[i].children.len() as int;
    lemma_walk_children_ordered(t, i, n);
    lemma_reach(t, i, n);
    lemma_range_join(i, i + 1, extent(t, i));
}

proof fn lemma_walk_children_ordered(t: Seq<NodeView>, i: int, k: int)
    requires
        ordered_tree(t),
        0 <= i < t.len(),
        0 <= k <= t[i].children.len(),
    ensures
        walk_children(t, i, k) == range(i + 1, reach(t, i, k)),
    decreases t.len() - i, 0nat, k,
{
    if k == 0 {
        lemma_range_join(i + 1, i + 1, i + 1);
    } else {
        let c = t[i].children[k - 1] as int;
        lemma_child_facts(t, i, k - 1);
        lemma_walk_children_ordered(t, i, k - 1);
        lemma_walk_ordered(t, c);
        lemma_reach(t, i, k - 1);
        lemma_reach(t, i, k);
        lemma_child_extent(t, i, k - 1);
        lemma_range_join(i + 1, c, extent(t, c));
    }
}

/// In document order the walk from a node meets the nodes below it in the
/// order of their numbers.
pub proof fn lemma_walk(t: Seq<NodeView>, i: int)
    requires
        tree_wf(t),
        in_document_order(t),
        0 <= i < t.len(),
    ensures
        walk(t, i) == range(i, extent(t, i)),
{
    reveal(ordered_tree);
    lemma_walk_ordered(t, i);
}

/// Every node lies below the root.
pub proof fn lemma_root_above(t: Seq<NodeView>, x: int)
    requires
        tree_wf(t),
        0 <= x < t.len(),
    ensures
        in_subtree(t, 0, x),
    decreases x,
{
    if x > 0 {
        lemma_root_above(t, t[x].parent->0 as int);
    }
}

/// In document order the walk from the root meets the nodes in the order
/// of their numbers.
pub proof fn lemma_in_document_order_walk(t: Seq<NodeView>)
    requires
        tree_wf(t),
        in_document_order(t),
    ensures
        walk(t, 0) == Seq::new(t.len(), |i: int| i),
{
    lemma_walk(t, 0);
    lemma_extent(t, 0);
    let e = extent(t, 0);
    if e < t.len() {
        lemma_root_above(t, e);
    }
}

} // verus!
