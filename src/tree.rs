use vstd::prelude::*;
use crate::geometry::{GNode, GRange};

verus! {

/// A node of a parsed syntax tree, as the parser reports it: its id, its
/// kind tag, its span and its children in order.
#[derive(Debug)]
pub struct SyntaxNode {
    pub id: usize,
    pub kind_id: u16,
    pub range: GRange,
    pub children: Vec<SyntaxNode>,
}

/// The vertex that stands for a tree node.
pub open spec fn vertex_of(t: SyntaxNode) -> GNode {
    GNode { id: t.id, kind_id: t.kind_id, range: t.range }
}

/// The vertices of a tree in depth-first, left-to-right (pre-)order.
pub open spec fn preorder(t: SyntaxNode) -> Seq<GNode>
    decreases t, t.children@.len() + 1,
{
    seq![vertex_of(t)] + children_preorder(t, t.children@.len() as int)
}

/// The pre-order vertices of the first `k` subtrees of `t`, one after another.
pub open spec fn children_preorder(t: SyntaxNode, k: int) -> Seq<GNode>
    decreases t, k,
{
    if k <= 0 || k > t.children@.len() {
        Seq::empty()
    } else {
        children_preorder(t, k - 1) + preorder(t.children@[k - 1])
    }
}

/// The parent-to-child edges of a tree whose vertices are numbered in
/// pre-order from `base`, listed in the order a depth-first build adds them.
pub open spec fn tree_edges(t: SyntaxNode, base: int) -> Seq<(int, int)>
    decreases t, t.children@.len() + 1,
{
    children_edges(t, base, t.children@.len() as int)
}

/// The edges that the first `k` subtrees of `t` contribute, the edge from `t`
/// to each subtree's root first.
pub open spec fn children_edges(t: SyntaxNode, base: int, k: int) -> Seq<(int, int)>
    decreases t, k,
{
    if k <= 0 || k > t.children@.len() {
        Seq::empty()
    } else {
        let at = base + 1 + children_preorder(t, k - 1).len();
        children_edges(t, base, k - 1).push((base, at)) + tree_edges(t.children@[k - 1], at)
    }
}

/// A tree has one edge fewer than it has nodes.
pub proof fn lemma_tree_edge_count(t: SyntaxNode, base: int)
    ensures
        tree_edges(t, base).len() + 1 == preorder(t).len(),
    decreases t, t.children@.len() + 1,
{
    lemma_children_edge_count(t, base, t.children@.len() as int);
}

proof fn lemma_children_edge_count(t: SyntaxNode, base: int, k: int)
    ensures
        children_edges(t, base, k).len() == children_preorder(t, k).len(),
    decreases t, k,
{
    if 0 < k <= t.children@.len() {
        lemma_children_edge_count(t, base, k - 1);
        let at = base + 1 + children_preorder(t, k - 1).len();
        lemma_tree_edge_count(t.children@[k - 1], at);
    }
}

/// In the edges of a tree numbered from `base`, the `e`-th edge leads to
/// vertex `base + 1 + e`, from a vertex no lower than `base` and lower than
/// its target.
pub proof fn lemma_tree_edges_shape(t: SyntaxNode, base: int)
    ensures
        forall|e: int| 0 <= e < tree_edges(t, base).len() ==> (#[trigger] tree_edges(t, base)[e]).1 == base + 1 + e
            && base <= tree_edges(t, base)[e].0 < tree_edges(t, base)[e].1,
    decreases t, t.children@.len() + 1,
{
    lemma_children_edges_shape(t, base, t.children@.len() as int);
    assert(tree_edges(t, base) == children_edges(t, base, t.children@.len() as int));
}

proof fn lemma_children_edges_shape(t: SyntaxNode, base: int, k: int)
    ensures
        forall|e: int| 0 <= e < children_edges(t, base, k).len() ==> (#[trigger] children_edges(t, base, k)[e]).1 == base + 1 + e
            && base <= children_edges(t, base, k)[e].0 < children_edges(t, base, k)[e].1,
    decreases t, k,
{
    if 0 < k <= t.children@.len() {
        lemma_children_edges_shape(t, base, k - 1);
        lemma_children_edge_count(t, base, k - 1);
        let prev = children_edges(t, base, k - 1);
        let at = base + 1 + children_preorder(t, k - 1).len();
        let child = tree_edges(t.children@[k - 1], at);
        lemma_tree_edges_shape(t.children@[k - 1], at);
        let cur = children_edges(t, base, k);
        assert(cur == prev.push((base, at)) + child);
        assert forall|e: int| 0 <= e < cur.len() implies (#[trigger] cur[e]).1 == base + 1 + e && base <= cur[e].0 < cur[e].1 by {
            if e < prev.len() {
                assert(cur[e] == prev[e]);
            } else if e == prev.len() {
                assert(cur[e] == (base, at));
            } else {
                assert(cur[e] == child[e - prev.len() - 1]);
            }
        }
    }
}

} // verus!
