use vstd::prelude::*;
use crate::ast_graph::{split_points, ASTGraph, SerializableGraph};
use crate::geometry::GNode;
use crate::paths::{forward_tree, is_shortest_path, is_walk, lemma_walk_unique, reach_set};
use crate::pgraph::ints;
use vstd::set_lib::{lemma_int_range, lemma_len_subset, lemma_set_disjoint_lens, set_int_range};
use crate::tree::{lemma_tree_edge_count, lemma_tree_edges_shape, preorder, tree_edges, SyntaxNode};

verus! {

/// Building an empty graph from a tree of N nodes gives N vertices and N - 1
/// edges.
pub proof fn law_built_graph_counts(tree: SyntaxNode, empty: ASTGraph, built: ASTGraph)
    requires
        empty.nodes().len() == 0,
        empty.edges().len() == 0,
        built.nodes() == empty.nodes() + preorder(tree),
        built.edges() == empty.edges() + tree_edges(tree, empty.nodes().len() as int),
    ensures
        built.nodes().len() == preorder(tree).len(),
        built.edges().len() + 1 == preorder(tree).len(),
{
    lemma_tree_edge_count(tree, 0);
}

/// Where no vertex has a kind in `kinds`, extraction yields no subgraph.
pub proof fn law_no_match_no_subgraphs(g: ASTGraph, kinds: Set<u16>)
    requires
        forall|i: int| 0 <= i < g.nodes().len() ==> !kinds.contains(#[trigger] g.nodes()[i].kind_id),
    ensures
        split_points(g.nodes(), kinds, g.nodes().len() as int).len() == 0,
{
    lemma_no_split_points(g, kinds, g.nodes().len() as int);
}

proof fn lemma_no_split_points(g: ASTGraph, kinds: Set<u16>, k: int)
    requires
        k <= g.nodes().len(),
        forall|i: int| 0 <= i < g.nodes().len() ==> !kinds.contains(#[trigger] g.nodes()[i].kind_id),
    ensures
        split_points(g.nodes(), kinds, k).len() == 0,
    decreases k,
{
    if k > 0 {
        lemma_no_split_points(g, kinds, k - 1);
        assert(!kinds.contains(g.nodes()[k - 1].kind_id));
    }
}

/// Flattening a graph and rebuilding it from the record gives the same
/// vertices (id, kind and range, at the same indices), the same parser ids
/// and the same edges.
pub proof fn law_round_trip(g: ASTGraph, rec: SerializableGraph, rebuilt: ASTGraph)
    requires
        g.wf(),
        g.flattens_to(rec),
        rebuilt.wf(),
        rebuilt.flattens_to(rec),
    ensures
        rebuilt.nodes() == g.nodes(),
        rebuilt.edges() == g.edges(),
        rebuilt.ids() == g.ids(),
{
    assert(rebuilt.ids() =~= g.ids());
}

/// A breadth-first and a depth-first walk from the same vertex visit the
/// same vertices, as many of them.
pub proof fn law_bfs_dfs_same_vertices(g: ASTGraph, start: int, bfs: Seq<usize>, dfs: Seq<usize>)
    requires
        ints(bfs).no_duplicates(),
        ints(bfs).to_set() == reach_set(g.edges(), start, false),
        ints(dfs).no_duplicates(),
        ints(dfs).to_set() == reach_set(g.edges(), start, false),
    ensures
        ints(bfs).to_set() == ints(dfs).to_set(),
        bfs.len() == dfs.len(),
{
    ints(bfs).unique_seq_to_set();
    ints(dfs).unique_seq_to_set();
}

/// The vertices reachable from the first `k` of the points `pts`.
pub open spec fn covered(edges: Seq<(int, int)>, pts: Seq<int>, k: int) -> Set<int>
    decreases k,
{
    if k <= 0 {
        Set::empty()
    } else {
        covered(edges, pts, k - 1) + reach_set(edges, pts[k - 1], false)
    }
}

/// The number of vertices in the first `k` graphs of `subs`, together.
pub open spec fn total_size(subs: Seq<ASTGraph>, k: int) -> int
    decreases k,
{
    if k <= 0 {
        0
    } else {
        total_size(subs, k - 1) + subs[k - 1].nodes().len()
    }
}

/// When no split point lies below another, so that the extracted subgraphs
/// share no vertex, their sizes plus the number of vertices outside all of
/// them add up to the vertex count; so the sizes plus the number of
/// subgraphs make the vertex count exactly when as many vertices lie
/// outside all subgraphs as there are subgraphs.
pub proof fn law_non_nested_split_sizes(g: ASTGraph, kinds: Set<u16>, subs: Seq<ASTGraph>)
    requires
        g.wf(),
        subs.len() == split_points(g.nodes(), kinds, g.nodes().len() as int).len(),
        forall|j: int| 0 <= j < subs.len() ==> g.is_subgraph_at(
            #[trigger] split_points(g.nodes(), kinds, g.nodes().len() as int)[j],
            subs[j],
        ),
        forall|j: int, k: int| 0 <= j < k < subs.len() ==> reach_set(
            g.edges(),
            #[trigger] split_points(g.nodes(), kinds, g.nodes().len() as int)[j],
            false,
        ).disjoint(reach_set(g.edges(), #[trigger] split_points(g.nodes(), kinds, g.nodes().len() as int)[k], false)),
    ensures
        total_size(subs, subs.len() as int) + set_int_range(0, g.nodes().len() as int).difference(
            covered(g.edges(), split_points(g.nodes(), kinds, g.nodes().len() as int), subs.len() as int),
        ).len() == g.nodes().len(),
        set_int_range(0, g.nodes().len() as int).difference(
            covered(g.edges(), split_points(g.nodes(), kinds, g.nodes().len() as int), subs.len() as int),
        ).len() == subs.len() ==> total_size(subs, subs.len() as int) + subs.len() == g.nodes().len(),
{
    let n = g.nodes().len();
    let pts = split_points(g.nodes(), kinds, n as int);
    let range = set_int_range(0, n as int);
    lemma_split_points_below(g.nodes(), kinds, n as int);
    lemma_covered_size(g, pts, subs, subs.len() as int);
    let u = covered(g.edges(), pts, subs.len() as int);
    lemma_int_range(0, n as int);
    lemma_len_subset(range.difference(u), range);
    lemma_set_disjoint_lens(u, range.difference(u));
    assert(u + range.difference(u) =~= range);
}

proof fn lemma_split_points_below(nodes: Seq<GNode>, kinds: Set<u16>, k: int)
    requires
        0 <= k <= nodes.len(),
    ensures
        forall|j: int| 0 <= j < split_points(nodes, kinds, k).len() ==> 0 <= #[trigger] split_points(nodes, kinds, k)[j] < k,
    decreases k,
{
    if k > 0 {
        lemma_split_points_below(nodes, kinds, k - 1);
        let prev = split_points(nodes, kinds, k - 1);
        assert forall|j: int| 0 <= j < split_points(nodes, kinds, k).len() implies 0 <= #[trigger] split_points(nodes, kinds, k)[j] < k by {
            if j < prev.len() {
                assert(split_points(nodes, kinds, k)[j] == prev[j]);
            }
        }
    }
}

proof fn lemma_covered_member(edges: Seq<(int, int)>, pts: Seq<int>, k: int, x: int)
    requires
        covered(edges, pts, k).contains(x),
    ensures
        exists|j: int| 0 <= j < k && #[trigger] reach_set(edges, pts[j], false).contains(x),
    decreases k,
{
    if k > 0 && !reach_set(edges, pts[k - 1], false).contains(x) {
        lemma_covered_member(edges, pts, k - 1, x);
    }
}

proof fn lemma_covered_size(g: ASTGraph, pts: Seq<int>, subs: Seq<ASTGraph>, k: int)
    requires
        g.wf(),
        0 <= k <= subs.len() <= pts.len(),
        forall|j: int| 0 <= j < pts.len() ==> 0 <= #[trigger] pts[j] < g.nodes().len(),
        forall|j: int| 0 <= j < subs.len() ==> g.is_subgraph_at(#[trigger] pts[j], subs[j]),
        forall|j: int, i: int| 0 <= j < i < subs.len() ==> reach_set(g.edges(), #[trigger] pts[j], false).disjoint(
            reach_set(g.edges(), #[trigger] pts[i], false),
        ),
    ensures
        covered(g.edges(), pts, k).finite(),
        covered(g.edges(), pts, k).subset_of(set_int_range(0, g.nodes().len() as int)),
        covered(g.edges(), pts, k).len() == total_size(subs, k),
    decreases k,
{
    if k > 0 {
        lemma_covered_size(g, pts, subs, k - 1);
        let prev = covered(g.edges(), pts, k - 1);
        let r = reach_set(g.edges(), pts[k - 1], false);
        crate::paths::lemma_reach_below(g.edges(), pts[k - 1], g.nodes().len(), false);
        assert(g.is_subgraph_at(pts[k - 1], subs[k - 1]));
        let m = choose|m: Seq<int>| #[trigger] g.subgraph_by(pts[k - 1], m, subs[k - 1]);
        m.unique_seq_to_set();
        assert(subs[k - 1].nodes().len() == m.len());
        assert(prev.disjoint(r)) by {
            assert forall|x: int| prev.contains(x) implies !r.contains(x) by {
                lemma_covered_member(g.edges(), pts, k - 1, x);
                let j = choose|j: int| 0 <= j < k - 1 && #[trigger] reach_set(g.edges(), pts[j], false).contains(x);
                assert(reach_set(g.edges(), pts[j], false).disjoint(reach_set(g.edges(), pts[k - 1], false)));
            }
        }
        lemma_set_disjoint_lens(prev, r);
    }
}

/// The vertices among the first `k` whose kind is in `kinds`.
pub open spec fn boundary_vertices(nodes: Seq<GNode>, kinds: Set<u16>, k: int) -> Set<int> {
    Set::new(|i: int| 0 <= i < k && kinds.contains(nodes[i].kind_id))
}

/// Extraction yields exactly as many subgraphs as there are vertices whose
/// kind is one of the boundary kinds, one for each.
pub proof fn law_one_subgraph_per_boundary_vertex(g: ASTGraph, kinds: Set<u16>)
    ensures
        split_points(g.nodes(), kinds, g.nodes().len() as int).len()
            == boundary_vertices(g.nodes(), kinds, g.nodes().len() as int).len(),
        split_points(g.nodes(), kinds, g.nodes().len() as int).to_set()
            == boundary_vertices(g.nodes(), kinds, g.nodes().len() as int),
{
    let k = g.nodes().len() as int;
    lemma_split_points_set(g.nodes(), kinds, k);
    split_points(g.nodes(), kinds, k).unique_seq_to_set();
}

proof fn lemma_split_points_set(nodes: Seq<GNode>, kinds: Set<u16>, k: int)
    requires
        0 <= k <= nodes.len(),
    ensures
        split_points(nodes, kinds, k).no_duplicates(),
        split_points(nodes, kinds, k).to_set() == boundary_vertices(nodes, kinds, k),
    decreases k,
{
    lemma_split_points_below(nodes, kinds, k);
    if k > 0 {
        lemma_split_points_set(nodes, kinds, k - 1);
        lemma_split_points_below(nodes, kinds, k - 1);
        let prev = split_points(nodes, kinds, k - 1);
        let cur = split_points(nodes, kinds, k);
        if kinds.contains(nodes[k - 1].kind_id) {
            assert(cur == prev.push(k - 1));
            assert forall|i: int, j: int| 0 <= i < j < cur.len() implies cur[i] != cur[j] by {
                if j == cur.len() - 1 {
                    assert(prev[i] < k - 1);
                }
            }
            assert forall|x: int| cur.to_set().contains(x) <==> boundary_vertices(nodes, kinds, k).contains(x) by {
                if x == k - 1 {
                    assert(cur[cur.len() - 1] == x);
                } else {
                    assert(boundary_vertices(nodes, kinds, k).contains(x) == boundary_vertices(nodes, kinds, k - 1).contains(x));
                    assert(prev.to_set().contains(x) == prev.contains(x));
                    if cur.contains(x) {
                        let m = choose|m: int| 0 <= m < cur.len() && cur[m] == x;
                        assert(prev[m] == x);
                    }
                    if prev.contains(x) {
                        let m = choose|m: int| 0 <= m < prev.len() && prev[m] == x;
                        assert(cur[m] == x);
                    }
                }
            }
            assert(cur.to_set() =~= boundary_vertices(nodes, kinds, k));
        } else {
            assert(cur.to_set() =~= boundary_vertices(nodes, kinds, k));
        }
    } else {
        assert(split_points(nodes, kinds, k).to_set() =~= boundary_vertices(nodes, kinds, k));
    }
}

/// The byte positions that vertex `v` spans.
pub open spec fn span_of(g: ASTGraph, v: int) -> Set<int> {
    set_int_range(g.nodes()[v].range.start_byte as int, g.nodes()[v].range.end_byte as int)
}

/// The byte positions spanned by the first `k` of the points `pts`.
pub open spec fn spanned(g: ASTGraph, pts: Seq<int>, k: int) -> Set<int>
    decreases k,
{
    if k <= 0 {
        Set::empty()
    } else {
        spanned(g, pts, k - 1) + span_of(g, pts[k - 1])
    }
}

/// The length of the texts of the first `k` graphs of `subs`, together.
pub open spec fn excerpt_total(subs: Seq<ASTGraph>, k: int) -> int
    decreases k,
{
    if k <= 0 {
        0
    } else {
        excerpt_total(subs, k - 1) + subs[k - 1].text().len()
    }
}

/// When the boundary vertices' spans lie inside the text and do not
/// overlap, and some byte of the text (`outside`) lies in none of them, the
/// excerpts of the extracted subgraphs are together shorter than the text.
pub proof fn law_excerpts_shorter_than_text(g: ASTGraph, kinds: Set<u16>, subs: Seq<ASTGraph>, outside: int)
    requires
        g.wf(),
        subs.len() == split_points(g.nodes(), kinds, g.nodes().len() as int).len(),
        forall|j: int| 0 <= j < subs.len() ==> g.is_subgraph_at(
            #[trigger] split_points(g.nodes(), kinds, g.nodes().len() as int)[j],
            subs[j],
        ),
        forall|i: int| 0 <= i < g.nodes().len() && kinds.contains(#[trigger] g.nodes()[i].kind_id)
            ==> g.nodes()[i].range.fits(g.text().len()),
        forall|j: int, k: int| 0 <= j < k < subs.len() ==> span_of(g, #[trigger] split_points(g.nodes(), kinds, g.nodes().len() as int)[j])
            .disjoint(span_of(g, #[trigger] split_points(g.nodes(), kinds, g.nodes().len() as int)[k])),
        0 <= outside < g.text().len(),
        forall|j: int| 0 <= j < subs.len() ==> !span_of(g, #[trigger] split_points(g.nodes(), kinds, g.nodes().len() as int)[j]).contains(outside),
    ensures
        excerpt_total(subs, subs.len() as int) < g.text().len(),
{
    let n = g.nodes().len() as int;
    let pts = split_points(g.nodes(), kinds, n);
    lemma_split_points_below(g.nodes(), kinds, n);
    lemma_split_points_set(g.nodes(), kinds, n);
    assert forall|j: int| 0 <= j < pts.len() implies kinds.contains(g.nodes()[#[trigger] pts[j]].kind_id) by {
        assert(pts.to_set().contains(pts[j]));
        assert(boundary_vertices(g.nodes(), kinds, n).contains(pts[j]));
    }
    lemma_spanned_size(g, kinds, pts, subs, subs.len() as int, outside);
    let text = set_int_range(0, g.text().len() as int);
    let u = spanned(g, pts, subs.len() as int);
    lemma_int_range(0, g.text().len() as int);
    assert(u.subset_of(text.remove(outside)));
    lemma_len_subset(u, text.remove(outside));
}

proof fn lemma_spanned_size(g: ASTGraph, kinds: Set<u16>, pts: Seq<int>, subs: Seq<ASTGraph>, k: int, outside: int)
    requires
        0 <= k <= subs.len() <= pts.len(),
        forall|j: int| 0 <= j < pts.len() ==> 0 <= #[trigger] pts[j] < g.nodes().len(),
        forall|j: int| 0 <= j < pts.len() ==> kinds.contains(g.nodes()[#[trigger] pts[j]].kind_id),
        forall|j: int| 0 <= j < subs.len() ==> g.is_subgraph_at(#[trigger] pts[j], subs[j]),
        forall|i: int| 0 <= i < g.nodes().len() && kinds.contains(#[trigger] g.nodes()[i].kind_id)
            ==> g.nodes()[i].range.fits(g.text().len()),
        forall|j: int, i: int| 0 <= j < i < subs.len() ==> span_of(g, #[trigger] pts[j]).disjoint(span_of(g, #[trigger] pts[i])),
        forall|j: int| 0 <= j < subs.len() ==> !span_of(g, #[trigger] pts[j]).contains(outside),
    ensures
        spanned(g, pts, k).finite(),
        spanned(g, pts, k).subset_of(set_int_range(0, g.text().len() as int)),
        !spanned(g, pts, k).contains(outside),
        spanned(g, pts, k).len() == excerpt_total(subs, k),
    decreases k,
{
    if k > 0 {
        lemma_spanned_size(g, kinds, pts, subs, k - 1, outside);
        let prev = spanned(g, pts, k - 1);
        let v = pts[k - 1];
        let r = span_of(g, v);
        let range = g.nodes()[v].range;
        assert(range.fits(g.text().len()));
        lemma_int_range(range.start_byte as int, range.end_byte as int);
        assert(g.is_subgraph_at(v, subs[k - 1]));
        let m = choose|m: Seq<int>| #[trigger] g.subgraph_by(v, m, subs[k - 1]);
        assert(subs[k - 1].text().len() == range.end_byte - range.start_byte);
        assert(prev.disjoint(r)) by {
            assert forall|x: int| prev.contains(x) implies !r.contains(x) by {
                let j = lemma_spanned_member(g, pts, k - 1, x);
                assert(span_of(g, pts[j]).disjoint(span_of(g, pts[k - 1])));
            }
        }
        lemma_set_disjoint_lens(prev, r);
    }
}

proof fn lemma_spanned_member(g: ASTGraph, pts: Seq<int>, k: int, x: int) -> (j: int)
    requires
        spanned(g, pts, k).contains(x),
    ensures
        0 <= j < k,
        span_of(g, pts[j]).contains(x),
    decreases k,
{
    if span_of(g, pts[k - 1]).contains(x) {
        k - 1
    } else {
        lemma_spanned_member(g, pts, k - 1, x)
    }
}

/// In a graph built from a tree, the walk between two vertices is unique:
/// a shortest path that `path_from_to` returns is the tree path itself, so
/// its length is the number of edges on that path.
pub proof fn law_tree_path_is_unique(tree: SyntaxNode, empty: ASTGraph, built: ASTGraph, start: int, goal: int, path: Seq<usize>)
    requires
        empty.nodes().len() == 0,
        empty.edges().len() == 0,
        built.nodes() == empty.nodes() + preorder(tree),
        built.edges() == empty.edges() + tree_edges(tree, empty.nodes().len() as int),
        is_shortest_path(built.edges(), ints(path), start, goal),
    ensures
        forall|q: Seq<int>| #[trigger] is_walk(built.edges(), q, start, goal, false) ==> q == ints(path),
{
    let edges = built.edges();
    assert(edges =~= tree_edges(tree, 0));
    lemma_tree_edges_shape(tree, 0);
    assert(forward_tree(edges)) by {
        assert forall|e1: int, e2: int| 0 <= e1 < edges.len() && 0 <= e2 < edges.len() && (#[trigger] edges[e1]).1 == (#[trigger] edges[e2]).1 implies e1 == e2 by {
            assert(edges[e1].1 == 1 + e1);
            assert(edges[e2].1 == 1 + e2);
        }
    }
    assert forall|q: Seq<int>| #[trigger] is_walk(edges, q, start, goal, false) implies q == ints(path) by {
        lemma_walk_unique(edges, q, ints(path), start, goal);
    }
}

} // verus!
