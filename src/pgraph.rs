use vstd::prelude::*;
use crate::geometry::GNode;
use crate::paths::{adjacent, edges_in_range, is_shortest_path, reaches};
use fixedbitset::FixedBitSet;
use petgraph::graph::{EdgeIndex, Graph, NodeIndex};
use petgraph::visit::{Bfs, Dfs, Reversed};
use petgraph::Directed;

verus! {

#[verifier::external_type_specification]
#[verifier::external_body]
#[verifier::reject_recursive_types(N)]
#[verifier::reject_recursive_types(E)]
#[verifier::reject_recursive_types(Ty)]
#[verifier::reject_recursive_types(Ix)]
pub struct ExGraph<N, E, Ty, Ix>(Graph<N, E, Ty, Ix>);

#[verifier::external_type_specification]
#[verifier::external_body]
pub struct ExDirected(Directed);

#[verifier::external_type_specification]
#[verifier::external_body]
#[verifier::reject_recursive_types(Ix)]
pub struct ExNodeIndex<Ix>(NodeIndex<Ix>);

#[verifier::external_type_specification]
#[verifier::external_body]
pub struct ExFixedBitSet(FixedBitSet);

#[verifier::external_type_specification]
#[verifier::external_body]
#[verifier::reject_recursive_types(N)]
#[verifier::reject_recursive_types(VM)]
pub struct ExBfs<N, VM>(Bfs<N, VM>);

#[verifier::external_type_specification]
#[verifier::external_body]
#[verifier::reject_recursive_types(N)]
#[verifier::reject_recursive_types(VM)]
pub struct ExDfs<N, VM>(Dfs<N, VM>);

/// The directed graph that holds the vertices, indexed by `usize`.
pub type PetGraph = Graph<GNode, (), Directed, usize>;

/// A breadth-first walk over a `PetGraph`.
pub type BfsWalk = Bfs<NodeIndex<usize>, FixedBitSet>;

/// A depth-first walk over a `PetGraph`.
pub type DfsWalk = Dfs<NodeIndex<usize>, FixedBitSet>;

/// The vertex weights of the graph, by index.
pub uninterp spec fn graph_nodes(g: PetGraph) -> Seq<GNode>;

/// The edges of the graph as (source, target) pairs, in insertion order.
pub uninterp spec fn graph_edges(g: PetGraph) -> Seq<(int, int)>;

/// The queue of a breadth-first walk.
pub uninterp spec fn bfs_queue(b: BfsWalk) -> Seq<int>;

/// The vertices a breadth-first walk has discovered.
pub uninterp spec fn bfs_seen(b: BfsWalk) -> Set<int>;

/// The size of the visit map of a breadth-first walk.
pub uninterp spec fn bfs_map_len(b: BfsWalk) -> nat;

/// The stack of a depth-first walk.
pub uninterp spec fn dfs_stack(d: DfsWalk) -> Seq<int>;

/// The vertices a depth-first walk has visited.
pub uninterp spec fn dfs_seen(d: DfsWalk) -> Set<int>;

/// The size of the visit map of a depth-first walk.
pub uninterp spec fn dfs_map_len(d: DfsWalk) -> nat;

/// A sequence of indices seen as integers.
pub open spec fn ints(s: Seq<usize>) -> Seq<int> {
    s.map_values(|x: usize| x as int)
}

/// Relies on `Graph::with_capacity`: a graph with no vertices and no edges.
#[verifier::external_body]
pub(crate) fn graph_new() -> (g: PetGraph)
    ensures
        graph_nodes(g) == Seq::<GNode>::empty(),
        graph_edges(g) == Seq::<(int, int)>::empty(),
{
    Graph::with_capacity(0, 0)
}

/// Relies on `Graph::add_node`: appends the weight; its index is the old count.
#[verifier::external_body]
pub(crate) fn graph_add_node(g: &mut PetGraph, w: GNode) -> (r: usize)
    ensures
        graph_nodes(*final(g)) == graph_nodes(*old(g)).push(w),
        graph_edges(*final(g)) == graph_edges(*old(g)),
        r == graph_nodes(*old(g)).len(),
{
    g.add_node(w).index()
}

/// Relies on `Graph::add_edge`: appends the edge `a -> b`; panics on an index
/// that is not a vertex.
#[verifier::external_body]
pub(crate) fn graph_add_edge(g: &mut PetGraph, a: usize, b: usize)
    requires
        a < graph_nodes(*old(g)).len(),
        b < graph_nodes(*old(g)).len(),
    ensures
        graph_nodes(*final(g)) == graph_nodes(*old(g)),
        graph_edges(*final(g)) == graph_edges(*old(g)).push((a as int, b as int)),
{
    g.add_edge(NodeIndex::new(a), NodeIndex::new(b), ());
}

/// Relies on indexing a `Graph` by `NodeIndex`: the weight of vertex `i`.
#[verifier::external_body]
pub(crate) fn graph_node(g: &PetGraph, i: usize) -> (r: GNode)
    requires
        i < graph_nodes(*g).len(),
    ensures
        r == graph_nodes(*g)[i as int],
{
    g[NodeIndex::new(i)]
}

/// Relies on `Graph::edge_count`.
#[verifier::external_body]
pub(crate) fn graph_edge_count(g: &PetGraph) -> (r: usize)
    ensures
        r == graph_edges(*g).len(),
{
    g.edge_count()
}

/// Relies on `Graph::edge_endpoints`: the endpoints of edge `e`, if it exists.
#[verifier::external_body]
pub(crate) fn graph_edge(g: &PetGraph, e: usize) -> (r: Option<(usize, usize)>)
    ensures
        match r {
            Some(p) => e < graph_edges(*g).len() && (p.0 as int, p.1 as int) == graph_edges(*g)[e as int],
            None => e >= graph_edges(*g).len(),
        },
{
    g.edge_endpoints(EdgeIndex::new(e)).map(|(a, b)| (a.index(), b.index()))
}

/// Relies on `Bfs::new`: marks `start` discovered and queues it; the visit map
/// has one bit per vertex and panics on an index beyond it.
#[verifier::external_body]
pub(crate) fn bfs_new(g: &PetGraph, start: usize) -> (b: BfsWalk)
    requires
        start < graph_nodes(*g).len(),
    ensures
        bfs_queue(b) == seq![start as int],
        bfs_seen(b) == set![start as int],
        bfs_map_len(b) == graph_nodes(*g).len(),
{
    Bfs::new(g, NodeIndex::new(start))
}

/// Relies on `Bfs::next`: pops the front of the queue, discovers its
/// successors and queues, once each, those that were not discovered yet.
#[verifier::external_body]
pub(crate) fn bfs_next(b: &mut BfsWalk, g: &PetGraph) -> (r: Option<usize>)
    requires
        bfs_map_len(*old(b)) == graph_nodes(*g).len(),
        edges_in_range(graph_edges(*g), graph_nodes(*g).len()),
    ensures
        bfs_map_len(*final(b)) == bfs_map_len(*old(b)),
        r is None <==> bfs_queue(*old(b)).len() == 0,
        r is None ==> bfs_queue(*final(b)) == bfs_queue(*old(b)) && bfs_seen(*final(b)) == bfs_seen(*old(b)),
        r matches Some(v) ==> {
            let q = bfs_queue(*old(b));
            let q2 = bfs_queue(*final(b));
            let succ = adjacent(graph_edges(*g), v as int, false);
            &&& q.len() > 0
            &&& v as int == q[0]
            &&& bfs_seen(*final(b)) == bfs_seen(*old(b)).union(succ)
            &&& q.len() - 1 <= q2.len()
            &&& q2.subrange(0, q.len() - 1) == q.drop_first()
            &&& q2.subrange(q.len() - 1, q2.len() as int).no_duplicates()
            &&& q2.subrange(q.len() - 1, q2.len() as int).to_set() == succ.difference(bfs_seen(*old(b)))
        },
{
    b.next(g).map(|n| n.index())
}

/// Relies on `Dfs::new`: an empty visit map with one bit per vertex, and
/// `start` on the stack.
#[verifier::external_body]
pub(crate) fn dfs_new(g: &PetGraph, start: usize) -> (d: DfsWalk)
    ensures
        dfs_stack(d) == seq![start as int],
        dfs_seen(d) == Set::<int>::empty(),
        dfs_map_len(d) == graph_nodes(*g).len(),
{
    Dfs::new(g, NodeIndex::new(start))
}

/// The promise of `Dfs::next`, walking edges forwards or, when `reversed`,
/// backwards: it pops the stack until it finds a vertex not yet visited,
/// marks that vertex and pushes its unvisited neighbours, so that one of
/// them, if there is any, ends on top.
pub open spec fn dfs_step(before: DfsWalk, after: DfsWalk, edges: Seq<(int, int)>, reversed: bool, r: Option<usize>) -> bool {
    let s = dfs_stack(before);
    let s2 = dfs_stack(after);
    &&& dfs_map_len(after) == dfs_map_len(before)
    &&& s.len() > 0 && !dfs_seen(before).contains(s.last()) ==> (r matches Some(v) && v as int == s.last())
    &&& r is None ==> {
        &&& s2.len() == 0
        &&& dfs_seen(after) == dfs_seen(before)
        &&& forall|i: int| 0 <= i < s.len() ==> dfs_seen(before).contains(#[trigger] s[i])
    }
    &&& r matches Some(v) ==> {
        let succ = adjacent(edges, v as int, reversed);
        &&& s.contains(v as int)
        &&& !dfs_seen(before).contains(v as int)
        &&& dfs_seen(after) == dfs_seen(before).insert(v as int)
        &&& forall|i: int| 0 <= i < s2.len() ==> s.contains(#[trigger] s2[i]) || succ.contains(s2[i])
        &&& forall|i: int| 0 <= i < s.len() ==> dfs_seen(after).contains(#[trigger] s[i]) || s2.contains(s[i])
        &&& forall|w: int| #[trigger] succ.contains(w) ==> dfs_seen(after).contains(w) || s2.contains(w)
        &&& (exists|w: int| #[trigger] succ.contains(w) && !dfs_seen(after).contains(w))
            ==> s2.len() > 0 && succ.contains(s2.last()) && !dfs_seen(after).contains(s2.last())
    }
}

/// Relies on `Dfs::next` over the graph's outgoing edges.
#[verifier::external_body]
pub(crate) fn dfs_next(d: &mut DfsWalk, g: &PetGraph) -> (r: Option<usize>)
    requires
        dfs_map_len(*old(d)) == graph_nodes(*g).len(),
        edges_in_range(graph_edges(*g), graph_nodes(*g).len()),
        forall|i: int| 0 <= i < dfs_stack(*old(d)).len() ==> 0 <= #[trigger] dfs_stack(*old(d))[i] < graph_nodes(*g).len(),
    ensures
        dfs_step(*old(d), *final(d), graph_edges(*g), false, r),
{
    d.next(g).map(|n| n.index())
}

/// Relies on `Dfs::next` over the reversed graph: it follows incoming edges.
#[verifier::external_body]
pub(crate) fn dfs_next_reversed(d: &mut DfsWalk, g: &PetGraph) -> (r: Option<usize>)
    requires
        dfs_map_len(*old(d)) == graph_nodes(*g).len(),
        edges_in_range(graph_edges(*g), graph_nodes(*g).len()),
        forall|i: int| 0 <= i < dfs_stack(*old(d)).len() ==> 0 <= #[trigger] dfs_stack(*old(d))[i] < graph_nodes(*g).len(),
    ensures
        dfs_step(*old(d), *final(d), graph_edges(*g), true, r),
{
    d.next(Reversed(g)).map(|n| n.index())
}

/// The search stops at `goal`.
fn is_goal(v: usize, goal: usize) -> (r: bool)
    ensures
        r == (v == goal),
{
    v == goal
}

/// Every edge costs one step.
fn step_cost() -> (r: usize)
    ensures
        r == 1,
{
    1
}

/// No estimate of the remaining distance: the search is uniform-cost.
fn no_estimate() -> (r: usize)
    ensures
        r == 0,
{
    0
}

/// Relies on `petgraph::algo::astar` with unit edge costs and a zero estimate,
/// which makes it a shortest-path search: a path with the fewest edges, or
/// `None` where `goal` cannot be reached.
#[verifier::external_body]
pub(crate) fn graph_shortest_path(g: &PetGraph, start: usize, goal: usize) -> (r: Option<Vec<usize>>)
    ensures
        r matches Some(p) ==> is_shortest_path(graph_edges(*g), ints(p@), start as int, goal as int),
        r is None <==> !reaches(graph_edges(*g), start as int, goal as int, false),
{
    let found = petgraph::algo::astar(g, NodeIndex::new(start), |n| is_goal(n.index(), goal), |_| step_cost(), |_| no_estimate());
    found.map(|(_, p)| p.into_iter().map(|n| n.index()).collect())
}

} // verus!
