use vstd::prelude::*;
use vstd::string::StringExecFns;
use crate::geometry::{Edge, GNode};
use crate::paths::{adjacent, bfs_levels, dfs_deepens, edges_in_range, has_fresh, is_shortest_path, no_farther, reach_set, reaches};
use crate::pgraph::{
    bfs_map_len, bfs_new, bfs_next, bfs_queue, bfs_seen, dfs_map_len, dfs_new, dfs_next,
    dfs_next_reversed, dfs_seen, dfs_stack, graph_add_edge, graph_add_node,
    graph_edge, graph_edge_count, graph_edges, graph_new, graph_node, graph_nodes,
    graph_shortest_path, ints, PetGraph,
};
use crate::tree::{children_edges, children_preorder, preorder, tree_edges, vertex_of, SyntaxNode};

verus! {


/// The flat form of a graph: the vertices in index order, and the edges as
/// positions in that list.
pub struct SerializableGraph {
    pub nodes: Vec<GNode>,
    pub edges: Vec<Edge>,
}

/// The edge list of a flat record, as (source, target) pairs.
pub open spec fn edge_pairs(edges: Seq<Edge>) -> Seq<(int, int)> {
    edges.map_values(|e: Edge| (e.source as int, e.target as int))
}

/// The decimal digit `d` (below ten) as a character.
pub open spec fn digit_char(d: nat) -> char {
    seq!['0', '1', '2', '3', '4', '5', '6', '7', '8', '9'][d as int]
}

/// The decimal writing of `n`: its digits, most significant first, with no
/// leading zero.
pub open spec fn decimal_of(n: nat) -> Seq<char>
    decreases n,
{
    if n < 10 {
        seq![digit_char(n)]
    } else {
        decimal_of(n / 10).push(digit_char(n % 10))
    }
}

/// Relies on `usize`'s `Display` (through `to_string`): the number in
/// decimal.
#[verifier::external_body]
fn decimal_string(n: usize) -> (r: String)
    ensures
        r@ == decimal_of(n as nat),
{
    n.to_string()
}

/// A syntax tree held as an explicit directed graph: parent-to-child edges
/// over vertices numbered in insertion order, the parser id of each vertex,
/// the source text the spans refer to, and a display title.
pub struct ASTGraph {
    graph: PetGraph,
    node_map: Vec<usize>,
    source: Vec<u8>,
    title: String,
}


/// The edges among the vertices listed in `m`, renumbered by position in
/// `m`: of the first `k` edges, those whose two ends are both in `m`, in
/// the order they were added.
pub open spec fn induced_edges(edges: Seq<(int, int)>, m: Seq<int>, k: int) -> Seq<(int, int)>
    decreases k,
{
    if k <= 0 {
        Seq::empty()
    } else {
        let prev = induced_edges(edges, m, k - 1);
        let a = edges[k - 1].0;
        let b = edges[k - 1].1;
        if m.contains(a) && m.contains(b) {
            prev.push((m.index_of(a), m.index_of(b)))
        } else {
            prev
        }
    }
}

/// The indices, in increasing order, of the first `k` vertices whose kind is
/// in `kinds`.
pub open spec fn split_points(nodes: Seq<GNode>, kinds: Set<u16>, k: int) -> Seq<int>
    decreases k,
{
    if k <= 0 {
        Seq::empty()
    } else if kinds.contains(nodes[k - 1].kind_id) {
        split_points(nodes, kinds, k - 1).push(k - 1)
    } else {
        split_points(nodes, kinds, k - 1)
    }
}

/// The vertices listed in `m`, in that order.
pub open spec fn nodes_at(nodes: Seq<GNode>, m: Seq<int>) -> Seq<GNode> {
    m.map_values(|i: int| nodes[i])
}

/// In `m`, each index is listed once, and `i` is at position `j`.
proof fn lemma_index_of_distinct(m: Seq<int>, i: int, j: int)
    requires
        m.no_duplicates(),
        0 <= j < m.len(),
        m[j] == i,
    ensures
        m.contains(i),
        m.index_of(i) == j,
{
    assert(m.contains(i));
}

impl ASTGraph {
    /// The vertices, by index.
    pub closed spec fn nodes(self) -> Seq<GNode> {
        graph_nodes(self.graph)
    }

    /// The edges as (source, target) index pairs, in insertion order.
    pub closed spec fn edges(self) -> Seq<(int, int)> {
        graph_edges(self.graph)
    }

    /// The parser id recorded for each index.
    pub closed spec fn ids(self) -> Seq<usize> {
        self.node_map@
    }

    /// The bytes of the owned source text.
    pub closed spec fn text(self) -> Seq<u8> {
        self.source@
    }

    /// The display title.
    pub closed spec fn title_view(self) -> Seq<char> {
        self.title@
    }

    /// Every index has its parser id recorded, and every edge joins two
    /// vertices.
    pub open spec fn wf(self) -> bool {
        &&& self.ids().len() == self.nodes().len()
        &&& forall|i: int| 0 <= i < self.nodes().len() ==> #[trigger] self.ids()[i] == self.nodes()[i].id
        &&& edges_in_range(self.edges(), self.nodes().len())
    }

    /// An empty graph over the given source text.
    pub fn new(source_code: String) -> (r: ASTGraph)
        ensures
            r.wf(),
            r.nodes() == Seq::<GNode>::empty(),
            r.edges() == Seq::<(int, int)>::empty(),
            r.text() == vstd::utf8::encode_utf8(source_code@),
            r.title_view() == Seq::<char>::empty(),
    {
        let bytes = source_code.as_str().as_bytes();
        let mut source: Vec<u8> = Vec::new();
        let mut i: usize = 0;
        while i < bytes.len()
            invariant
                i <= bytes@.len(),
                source@ == bytes@.subrange(0, i as int),
            decreases bytes@.len() - i,
        {
            source.push(bytes[i]);
            i = i + 1;
        }
        assert(source@ =~= bytes@);
        ASTGraph { graph: graph_new(), node_map: Vec::new(), source, title: String::new() }
    }

    pub fn title(&self) -> (r: String)
        ensures
            r@ == self.title_view(),
    {
        self.title.clone()
    }

    pub fn set_title(&mut self, new_title: String)
        ensures
            final(self).title_view() == new_title@,
            final(self).nodes() == old(self).nodes(),
            final(self).edges() == old(self).edges(),
            final(self).ids() == old(self).ids(),
            final(self).text() == old(self).text(),
    {
        self.title = new_title;
    }

    /// The source text, as bytes.
    pub fn source(&self) -> (r: &[u8])
        ensures
            r@ == self.text(),
    {
        self.source.as_slice()
    }

    /// The number of vertices.
    pub fn node_count(&self) -> (r: usize)
        requires
            self.wf(),
        ensures
            r == self.nodes().len(),
    {
        self.node_map.len()
    }

    /// The number of edges.
    pub fn edge_count(&self) -> (r: usize)
        ensures
            r == self.edges().len(),
    {
        graph_edge_count(&self.graph)
    }

    /// Appends a vertex and returns its index.
    pub fn add_node(&mut self, node: GNode) -> (r: usize)
        requires
            old(self).wf(),
        ensures
            final(self).wf(),
            r == old(self).nodes().len(),
            final(self).nodes() == old(self).nodes().push(node),
            final(self).edges() == old(self).edges(),
            final(self).text() == old(self).text(),
            final(self).title_view() == old(self).title_view(),
    {
        let r = graph_add_node(&mut self.graph, node);
        self.node_map.push(node.id);
        r
    }

    /// The parser id of the vertex at `index`, or `None` if there is none.
    pub fn get_node(&self, index: usize) -> (r: Option<usize>)
        requires
            self.wf(),
        ensures
            index < self.nodes().len() ==> r == Some(self.nodes()[index as int].id),
            index >= self.nodes().len() ==> r is None,
    {
        if index < self.node_map.len() {
            Some(self.node_map[index])
        } else {
            None
        }
    }

    /// The vertex at `index`.
    pub fn node(&self, index: usize) -> (r: GNode)
        requires
            index < self.nodes().len(),
        ensures
            r == self.nodes()[index as int],
    {
        graph_node(&self.graph, index)
    }

    /// The bytes of the source text that the vertex at `index` spans.
    pub fn get_node_source(&self, index: usize) -> (r: &[u8])
        requires
            index < self.nodes().len(),
            self.nodes()[index as int].range.fits(self.text().len()),
        ensures
            r@ == self.text().subrange(
                self.nodes()[index as int].range.start_byte as int,
                self.nodes()[index as int].range.end_byte as int,
            ),
    {
        let node = graph_node(&self.graph, index);
        vstd::slice::slice_subrange(self.source.as_slice(), node.range.start_byte, node.range.end_byte)
    }

    /// Appends the edge `parent -> child`.
    pub fn add_edge(&mut self, parent: usize, child: usize)
        requires
            old(self).wf(),
            parent < old(self).nodes().len(),
            child < old(self).nodes().len(),
        ensures
            final(self).wf(),
            final(self).nodes() == old(self).nodes(),
            final(self).edges() == old(self).edges().push((parent as int, child as int)),
            final(self).ids() == old(self).ids(),
            final(self).text() == old(self).text(),
            final(self).title_view() == old(self).title_view(),
    {
        graph_add_edge(&mut self.graph, parent, child);
    }

    /// Adds the whole tree: its vertices in depth-first, left-to-right order
    /// and an edge from each node to each of its children.
    pub fn build_from_tree(&mut self, tree: &SyntaxNode)
        requires
            old(self).wf(),
        ensures
            final(self).wf(),
            final(self).nodes() == old(self).nodes() + preorder(*tree),
            final(self).edges() == old(self).edges() + tree_edges(*tree, old(self).nodes().len() as int),
            final(self).text() == old(self).text(),
            final(self).title_view() == old(self).title_view(),
    {
        self.traverse_and_build(tree, None);
    }

    /// Adds the subtree at `tree_node`, linked below `parent` if there is one.
    pub fn traverse_and_build(&mut self, tree_node: &SyntaxNode, parent: Option<usize>)
        requires
            old(self).wf(),
            parent matches Some(p) ==> p < old(self).nodes().len(),
        ensures
            final(self).wf(),
            final(self).nodes() == old(self).nodes() + preorder(*tree_node),
            final(self).edges() == old(self).edges() + match parent {
                Some(p) => seq![(p as int, old(self).nodes().len() as int)],
                None => Seq::<(int, int)>::empty(),
            } + tree_edges(*tree_node, old(self).nodes().len() as int),
            final(self).text() == old(self).text(),
            final(self).title_view() == old(self).title_view(),
        decreases tree_node,
    {
        let ghost nodes0 = self.nodes();
        let ghost edges0 = self.edges();
        let vertex = GNode { id: tree_node.id, kind_id: tree_node.kind_id, range: tree_node.range };
        let graph_node = self.add_node(vertex);
        if let Some(p) = parent {
            self.add_edge(p, graph_node);
        }
        let ghost edges1 = self.edges();
        let mut idx: usize = 0;
        while idx < tree_node.children.len()
            invariant
                self.wf(),
                graph_node == nodes0.len(),
                idx <= tree_node.children@.len(),
                self.nodes() == nodes0 + seq![vertex_of(*tree_node)] + children_preorder(*tree_node, idx as int),
                self.edges() == edges1 + children_edges(*tree_node, graph_node as int, idx as int),
                self.text() == old(self).text(),
                self.title_view() == old(self).title_view(),
            decreases tree_node.children@.len() - idx,
        {
            let child = &tree_node.children[idx];
            self.traverse_and_build(child, Some(graph_node));
            assert(children_preorder(*tree_node, idx + 1) == children_preorder(*tree_node, idx as int) + preorder(*child));
            assert(self.nodes() =~= nodes0 + seq![vertex_of(*tree_node)] + children_preorder(*tree_node, idx + 1));
            assert(self.edges() =~= edges1 + children_edges(*tree_node, graph_node as int, idx + 1));
            idx = idx + 1;
        }
        assert(self.nodes() =~= nodes0 + preorder(*tree_node));
        assert(self.edges() =~= edges0 + match parent {
            Some(p) => seq![(p as int, nodes0.len() as int)],
            None => Seq::<(int, int)>::empty(),
        } + tree_edges(*tree_node, nodes0.len() as int));
    }

    /// The vertices reachable from `start` along edges, `start` included, in
    /// breadth-first order; each appears once.
    pub fn bfs_iterator(&self, start: usize) -> (r: Vec<usize>)
        requires
            self.wf(),
            start < self.nodes().len(),
        ensures
            ints(r@).no_duplicates(),
            ints(r@).to_set() == reach_set(self.edges(), start as int, false),
            r@.len() > 0 && r@[0] == start,
            forall|i: int, j: int| 0 <= i < j < r@.len() ==> no_farther(self.edges(), start as int, #[trigger] ints(r@)[i], #[trigger] ints(r@)[j]),
    {
        let ghost edges = self.edges();
        let ghost n = self.nodes().len();
        let mut walk = bfs_new(&self.graph, start);
        let mut order: Vec<usize> = Vec::new();
        proof {
            crate::paths::lemma_reach_self(edges, start as int, false);
            assert(ints(order@) =~= Seq::<int>::empty());
            assert(bfs_queue(walk)[0] == start as int);
            crate::paths::lemma_bfs_levels_start(edges, start as int);
            assert(ints(order@) =~= Seq::<int>::empty());
        }
        let ghost mut lvl: Map<int, int> = map![start as int => 0int];
        loop
            invariant
                self.wf(),
                edges == self.edges(),
                n == self.nodes().len(),
                start < n,
                bfs_map_len(walk) == n,
                order@.len() <= n,
                ints(order@).no_duplicates(),
                bfs_queue(walk).no_duplicates(),
                forall|i: int, j: int| 0 <= i < order@.len() && 0 <= j < bfs_queue(walk).len() ==> order@[i] as int != bfs_queue(walk)[j],
                forall|x: int| bfs_seen(walk).contains(x) <==> (ints(order@).contains(x) || bfs_queue(walk).contains(x)),
                forall|x: int| #[trigger] ints(order@).contains(x) ==> adjacent(edges, x, false).subset_of(bfs_seen(walk)),
                forall|x: int| #[trigger] bfs_seen(walk).contains(x) ==> 0 <= x < n && reaches(edges, start as int, x, false),
                bfs_seen(walk).contains(start as int),
                order@.len() > 0 ==> order@[0] == start,
                order@.len() == 0 ==> bfs_queue(walk) == seq![start as int],
                bfs_levels(edges, start as int, ints(order@), bfs_queue(walk), bfs_seen(walk), lvl),
            decreases n - order@.len(),
        {
            let ghost q = bfs_queue(walk);
            let ghost seen = bfs_seen(walk);
            match bfs_next(&mut walk, &self.graph) {
                None => {
                    proof {
                        assert forall|x: int| #[trigger] seen.contains(x) implies adjacent(edges, x, false).subset_of(seen) by {
                            assert(ints(order@).contains(x));
                        }
                        crate::paths::lemma_closed_set_holds_reach(edges, start as int, seen, false);
                        assert(bfs_queue(walk) =~= Seq::<int>::empty());
                        assert forall|i: int| 0 <= i < ints(order@).len() implies seen.contains(#[trigger] ints(order@)[i]) by {
                            assert(ints(order@).contains(ints(order@)[i]));
                        }
                        crate::paths::lemma_bfs_levels_done(edges, start as int, ints(order@), seen, lvl);
                        assert(ints(order@).to_set() =~= reach_set(edges, start as int, false)) by {
                            assert forall|x: int| ints(order@).to_set().contains(x) implies reach_set(edges, start as int, false).contains(x) by {
                                assert(seen.contains(x));
                            }
                        }
                    }
                    return order;
                },
                Some(v) => {
                    let ghost succ = adjacent(edges, v as int, false);
                    let ghost q2 = bfs_queue(walk);
                    let ghost tail = q2.subrange(q.len() - 1, q2.len() as int);
                    let ghost old_order = ints(order@);
                    assert(q2 =~= q.drop_first() + tail);
                    assert(seen.contains(v as int));
                    order.push(v);
                    proof {
                        assert(ints(order@) =~= old_order.push(v as int));
                        lvl = crate::paths::lemma_bfs_levels_step(edges, start as int, old_order, q, seen, lvl, tail, bfs_seen(walk));
                        assert forall|x: int| #[trigger] bfs_seen(walk).contains(x) implies 0 <= x < n && reaches(edges, start as int, x, false) by {
                            if !seen.contains(x) {
                                assert(succ.contains(x));
                                crate::paths::lemma_reach_step(edges, start as int, v as int, x, false);
                                let e = choose|e: int| 0 <= e < edges.len() && #[trigger] edges[e] == (v as int, x);
                                assert(edges_in_range(edges, n));
                                assert(0 <= edges[e].1 < n);
                            }
                        }
                        assert forall|x: int| #[trigger] ints(order@).contains(x) implies adjacent(edges, x, false).subset_of(bfs_seen(walk)) by {
                            if x != v as int {
                                assert(old_order.contains(x));
                            }
                        }
                        assert(ints(order@)[order@.len() - 1] == v as int);
                        assert forall|x: int| bfs_seen(walk).contains(x) implies (ints(order@).contains(x) || bfs_queue(walk).contains(x)) by {
                            if !seen.contains(x) {
                                assert(tail.to_set().contains(x));
                                assert(tail.contains(x));
                                let k = choose|k: int| 0 <= k < tail.len() && tail[k] == x;
                                assert(q2[q.len() - 1 + k] == x);
                            } else if x == v as int {
                            } else if old_order.contains(x) {
                                let k = choose|k: int| 0 <= k < old_order.len() && old_order[k] == x;
                                assert(ints(order@)[k] == x);
                            } else {
                                assert(q.contains(x));
                                let k = choose|k: int| 0 <= k < q.len() && q[k] == x;
                                assert(k != 0);
                                assert(q2[k - 1] == x);
                            }
                        }
                        assert forall|x: int| ints(order@).contains(x) || bfs_queue(walk).contains(x) implies bfs_seen(walk).contains(x) by {
                            if ints(order@).contains(x) {
                                let k = choose|k: int| 0 <= k < ints(order@).len() && ints(order@)[k] == x;
                                if k < old_order.len() {
                                    assert(old_order[k] == x);
                                }
                            } else {
                                let k = choose|k: int| 0 <= k < q2.len() && q2[k] == x;
                                if k >= q.len() - 1 {
                                    assert(tail[k - (q.len() - 1)] == x);
                                    assert(tail.to_set().contains(x));
                                } else {
                                    assert(q[k + 1] == x);
                                }
                            }
                        }
                        assert forall|i: int, j: int| 0 <= i < order@.len() && 0 <= j < q2.len() implies order@[i] as int != q2[j] by {
                            if j >= q.len() - 1 {
                                assert(tail[j - (q.len() - 1)] == q2[j]);
                                assert(tail.to_set().contains(q2[j]));
                                if i < order@.len() - 1 {
                                    assert(old_order[i] == order@[i] as int);
                                    assert(seen.contains(old_order[i]));
                                }
                            } else {
                                assert(q[j + 1] == q2[j]);
                                if i == order@.len() - 1 {
                                    assert(q[0] != q[j + 1]);
                                }
                            }
                        }
                        assert(q2.no_duplicates()) by {
                            assert forall|i: int, j: int| 0 <= i < j < q2.len() implies q2[i] != q2[j] by {
                                if j >= q.len() - 1 && i < q.len() - 1 {
                                    assert(q[i + 1] == q2[i]);
                                    assert(tail[j - (q.len() - 1)] == q2[j]);
                                    assert(tail.to_set().contains(q2[j]));
                                    assert(q.contains(q2[i]));
                                } else if j >= q.len() - 1 {
                                    assert(tail[j - (q.len() - 1)] == q2[j]);
                                    assert(tail[i - (q.len() - 1)] == q2[i]);
                                } else {
                                    assert(q[i + 1] == q2[i]);
                                    assert(q[j + 1] == q2[j]);
                                }
                            }
                        }
                        assert(ints(order@).no_duplicates()) by {
                            assert forall|i: int, j: int| 0 <= i < j < ints(order@).len() implies ints(order@)[i] != ints(order@)[j] by {
                                if j == ints(order@).len() - 1 {
                                    assert(order@[i] as int != q[0]);
                                }
                            }
                        }
                        assert forall|i: int| 0 <= i < ints(order@).len() implies 0 <= #[trigger] ints(order@)[i] < n by {
                            assert(ints(order@).contains(ints(order@)[i]));
                            assert(bfs_seen(walk).contains(ints(order@)[i]));
                        }
                        lemma_distinct_below(ints(order@), n);
                    }
                },
            }
        }
    }

    /// The vertices reachable from `start` along edges, `start` included, in
    /// depth-first order; each appears once.
    pub fn dfs_iterator(&self, start: usize) -> (r: Vec<usize>)
        requires
            self.wf(),
            start < self.nodes().len(),
        ensures
            ints(r@).no_duplicates(),
            ints(r@).to_set() == reach_set(self.edges(), start as int, false),
            r@.len() > 0 && r@[0] == start,
            dfs_deepens(self.edges(), ints(r@), false),
    {
        self.depth_first(start, false)
    }

    /// The vertices from which `start` can be reached (its ancestors in a
    /// tree), `start` included, in depth-first order over reversed edges;
    /// each appears once.
    pub fn reversed_dfs_iterator(&self, start: usize) -> (r: Vec<usize>)
        requires
            self.wf(),
            start < self.nodes().len(),
        ensures
            ints(r@).no_duplicates(),
            ints(r@).to_set() == reach_set(self.edges(), start as int, true),
            r@.len() > 0 && r@[0] == start,
            dfs_deepens(self.edges(), ints(r@), true),
    {
        self.depth_first(start, true)
    }

    fn depth_first(&self, start: usize, reversed: bool) -> (r: Vec<usize>)
        requires
            self.wf(),
            start < self.nodes().len(),
        ensures
            ints(r@).no_duplicates(),
            ints(r@).to_set() == reach_set(self.edges(), start as int, reversed),
            r@.len() > 0 && r@[0] == start,
            dfs_deepens(self.edges(), ints(r@), reversed),
    {
        let ghost edges = self.edges();
        let ghost n = self.nodes().len();
        let mut walk = dfs_new(&self.graph, start);
        let mut order: Vec<usize> = Vec::new();
        proof {
            crate::paths::lemma_reach_self(edges, start as int, reversed);
            assert(ints(order@) =~= Seq::<int>::empty());
            assert(dfs_stack(walk)[0] == start as int);
        }
        loop
            invariant
                self.wf(),
                edges == self.edges(),
                n == self.nodes().len(),
                start < n,
                dfs_map_len(walk) == n,
                order@.len() <= n,
                ints(order@).no_duplicates(),
                forall|x: int| dfs_seen(walk).contains(x) <==> ints(order@).contains(x),
                forall|i: int| 0 <= i < dfs_stack(walk).len() ==> 0 <= #[trigger] dfs_stack(walk)[i] < n && reaches(edges, start as int, dfs_stack(walk)[i], reversed),
                forall|x: int| #[trigger] dfs_seen(walk).contains(x) ==> 0 <= x < n && reaches(edges, start as int, x, reversed),
                forall|x: int, w: int| #[trigger] dfs_seen(walk).contains(x) && #[trigger] adjacent(edges, x, reversed).contains(w) ==> dfs_seen(walk).contains(w) || dfs_stack(walk).contains(w),
                dfs_seen(walk).contains(start as int) || dfs_stack(walk).contains(start as int),
                order@.len() > 0 ==> order@[0] == start,
                order@.len() == 0 ==> dfs_stack(walk) == seq![start as int],
                dfs_deepens(edges, ints(order@), reversed),
                order@.len() > 0 && (exists|w: int| #[trigger] adjacent(edges, order@.last() as int, reversed).contains(w) && !dfs_seen(walk).contains(w))
                    ==> dfs_stack(walk).len() > 0 && adjacent(edges, order@.last() as int, reversed).contains(dfs_stack(walk).last())
                        && !dfs_seen(walk).contains(dfs_stack(walk).last()),
            decreases n - order@.len(),
        {
            let ghost st = dfs_stack(walk);
            let ghost seen = dfs_seen(walk);
            let next = if reversed {
                dfs_next_reversed(&mut walk, &self.graph)
            } else {
                dfs_next(&mut walk, &self.graph)
            };
            match next {
                None => {
                    proof {
                        assert forall|x: int| seen.contains(x) implies #[trigger] adjacent(edges, x, reversed).subset_of(seen) by {
                            assert forall|w: int| adjacent(edges, x, reversed).contains(w) implies seen.contains(w) by {
                                if st.contains(w) {
                                    let k = choose|k: int| 0 <= k < st.len() && st[k] == w;
                                    assert(seen.contains(st[k]));
                                }
                            }
                        }
                        if st.contains(start as int) {
                            let k = choose|k: int| 0 <= k < st.len() && st[k] == start as int;
                            assert(seen.contains(st[k]));
                        }
                        crate::paths::lemma_closed_set_holds_reach(edges, start as int, seen, reversed);
                        assert(ints(order@).to_set() =~= reach_set(edges, start as int, reversed)) by {
                            assert forall|x: int| ints(order@).to_set().contains(x) implies reach_set(edges, start as int, reversed).contains(x) by {
                                assert(seen.contains(x));
                            }
                        }
                    }
                    return order;
                },
                Some(v) => {
                    let ghost succ = adjacent(edges, v as int, reversed);
                    let ghost s2 = dfs_stack(walk);
                    let ghost old_order = ints(order@);
                    proof {
                        let k = choose|k: int| 0 <= k < st.len() && st[k] == v as int;
                        assert(0 <= st[k] < n && reaches(edges, start as int, st[k], reversed));
                        if order@.len() == 0 {
                            assert(v == start);
                        }
                    }
                    proof {
                        if order@.len() > 0 && has_fresh(edges, old_order, old_order.len() - 1, reversed) {
                            let w = choose|w: int| #[trigger] adjacent(edges, old_order[old_order.len() - 1], reversed).contains(w)
                                && !old_order.subrange(0, old_order.len() as int).contains(w);
                            assert(old_order.subrange(0, old_order.len() as int) =~= old_order);
                            assert(old_order[old_order.len() - 1] == order@.last() as int);
                            assert(!seen.contains(w));
                        }
                    }
                    order.push(v);
                    proof {
                        assert(dfs_deepens(edges, ints(order@), reversed)) by {
                            let o2 = ints(order@);
                            assert forall|i: int| 0 <= i < o2.len() - 1 && #[trigger] has_fresh(edges, o2, i, reversed)
                                implies adjacent(edges, o2[i], reversed).contains(o2[i + 1]) by {
                                let w = choose|w: int| #[trigger] adjacent(edges, o2[i], reversed).contains(w) && !o2.subrange(0, i + 1).contains(w);
                                if i < o2.len() - 2 {
                                    assert(o2.subrange(0, i + 1) =~= old_order.subrange(0, i + 1));
                                    assert(o2[i] == old_order[i]);
                                    assert(o2[i + 1] == old_order[i + 1]);
                                    assert(has_fresh(edges, old_order, i, reversed));
                                } else {
                                    assert(o2.subrange(0, i + 1) =~= old_order);
                                    assert(has_fresh(edges, old_order, old_order.len() - 1, reversed));
                                }
                            }
                        }
                        assert(ints(order@) =~= old_order.push(v as int));
                        assert(ints(order@)[order@.len() - 1] == v as int);
                        assert forall|x: int| dfs_seen(walk).contains(x) <==> ints(order@).contains(x) by {
                            if ints(order@).contains(x) {
                                let k = choose|k: int| 0 <= k < ints(order@).len() && ints(order@)[k] == x;
                                if k < old_order.len() {
                                    assert(old_order[k] == x);
                                }
                            }
                            if dfs_seen(walk).contains(x) && x != v as int {
                                assert(old_order.contains(x));
                                let k = choose|k: int| 0 <= k < old_order.len() && old_order[k] == x;
                                assert(ints(order@)[k] == x);
                            }
                        }
                        assert forall|i: int| 0 <= i < s2.len() implies 0 <= #[trigger] s2[i] < n && reaches(edges, start as int, s2[i], reversed) by {
                            if st.contains(s2[i]) {
                                let k = choose|k: int| 0 <= k < st.len() && st[k] == s2[i];
                                assert(0 <= st[k] < n);
                            } else {
                                assert(succ.contains(s2[i]));
                                crate::paths::lemma_reach_step(edges, start as int, v as int, s2[i], reversed);
                                let e = if reversed {
                                    choose|e: int| 0 <= e < edges.len() && #[trigger] edges[e] == (s2[i], v as int)
                                } else {
                                    choose|e: int| 0 <= e < edges.len() && #[trigger] edges[e] == (v as int, s2[i])
                                };
                                assert(edges_in_range(edges, n));
                                assert(0 <= edges[e].0 < n && 0 <= edges[e].1 < n);
                            }
                        }
                        assert forall|x: int, w: int| #[trigger] dfs_seen(walk).contains(x) && #[trigger] adjacent(edges, x, reversed).contains(w) implies dfs_seen(walk).contains(w) || s2.contains(w) by {
                            if x != v as int {
                                assert(seen.contains(x));
                                if st.contains(w) && !seen.contains(w) {
                                    let k = choose|k: int| 0 <= k < st.len() && st[k] == w;
                                    assert(dfs_seen(walk).contains(st[k]) || s2.contains(st[k]));
                                }
                            }
                        }
                        if st.contains(start as int) && !seen.contains(start as int) {
                            let k = choose|k: int| 0 <= k < st.len() && st[k] == start as int;
                            assert(dfs_seen(walk).contains(st[k]) || s2.contains(st[k]));
                        }
                        assert(ints(order@).no_duplicates()) by {
                            assert forall|i: int, j: int| 0 <= i < j < ints(order@).len() implies ints(order@)[i] != ints(order@)[j] by {
                                if j == ints(order@).len() - 1 {
                                    assert(old_order.contains(ints(order@)[i]));
                                }
                            }
                        }
                        assert forall|i: int| 0 <= i < ints(order@).len() implies 0 <= #[trigger] ints(order@)[i] < n by {
                            assert(ints(order@).contains(ints(order@)[i]));
                            assert(dfs_seen(walk).contains(ints(order@)[i]));
                        }
                        lemma_distinct_below(ints(order@), n);
                    }
                },
            }
        }
    }

    /// A path from `start` to `goal` with the fewest edges, or `None` when
    /// `goal` cannot be reached from `start`.
    pub fn path_from_to(&self, start: usize, goal: usize) -> (r: Option<Vec<usize>>)
        ensures
            r matches Some(p) ==> is_shortest_path(self.edges(), ints(p@), start as int, goal as int),
            r is None <==> !reaches(self.edges(), start as int, goal as int, false),
    {
        graph_shortest_path(&self.graph, start, goal)
    }

    /// `sub` is the subgraph that extraction makes at vertex `v`: the vertices
    /// reachable from `v` (each once, in the order `m`), the edges among them,
    /// and as its text the part of this graph's text that `v` spans.
    pub open spec fn subgraph_by(self, v: int, m: Seq<int>, sub: ASTGraph) -> bool {
        &&& m.no_duplicates()
        &&& m.to_set() == reach_set(self.edges(), v, false)
        &&& sub.wf()
        &&& sub.nodes() == nodes_at(self.nodes(), m)
        &&& sub.edges() == induced_edges(self.edges(), m, self.edges().len() as int)
        &&& sub.text() == self.text().subrange(
            self.nodes()[v].range.start_byte as int,
            self.nodes()[v].range.end_byte as int,
        )
        &&& sub.title_view() == Seq::<char>::empty()
    }

    /// `sub` is the subgraph extracted at vertex `v`, for some order of its
    /// vertices.
    pub open spec fn is_subgraph_at(self, v: int, sub: ASTGraph) -> bool {
        exists|m: Seq<int>| #[trigger] self.subgraph_by(v, m, sub)
    }

    /// One subgraph per vertex whose kind is in `kinds_to_split_on`, in
    /// vertex order: the vertices reachable from it, the edges among them,
    /// and the excerpt of the source text that it spans.
    ///
    /// Matches may nest: a matching vertex below another matching vertex
    /// gets a subgraph of its own, and is also kept whole, with everything
    /// below it, inside the outer match's subgraph.
    pub fn extract_subgraphs(&self, kinds_to_split_on: std::collections::HashSet<u16>) -> (r: Vec<ASTGraph>)
        requires
            self.wf(),
            forall|i: int| 0 <= i < self.nodes().len() && kinds_to_split_on@.contains(#[trigger] self.nodes()[i].kind_id)
                ==> self.nodes()[i].range.fits(self.text().len()),
        ensures
            r@.len() == split_points(self.nodes(), kinds_to_split_on@, self.nodes().len() as int).len(),
            forall|j: int| 0 <= j < r@.len() ==> self.is_subgraph_at(
                #[trigger] split_points(self.nodes(), kinds_to_split_on@, self.nodes().len() as int)[j],
                r@[j],
            ),
    {
        broadcast use vstd::std_specs::hash::group_hash_axioms;
        let ghost kinds = kinds_to_split_on@;
        let n = self.node_map.len();
        let mut subgraphs: Vec<ASTGraph> = Vec::new();
        let mut i: usize = 0;
        while i < n
            invariant
                self.wf(),
                n == self.nodes().len(),
                i <= n,
                kinds == kinds_to_split_on@,
                forall|k: int| 0 <= k < self.nodes().len() && kinds.contains(#[trigger] self.nodes()[k].kind_id)
                    ==> self.nodes()[k].range.fits(self.text().len()),
                subgraphs@.len() == split_points(self.nodes(), kinds, i as int).len(),
                forall|j: int| 0 <= j < subgraphs@.len() ==> self.is_subgraph_at(
                    #[trigger] split_points(self.nodes(), kinds, i as int)[j],
                    subgraphs@[j],
                ),
            decreases n - i,
        {
            let node = graph_node(&self.graph, i);
            if kinds_to_split_on.contains(&node.kind_id) {
                let members = self.collect_subgraph_nodes(i);
                let mut subgraph = self.create_subgraph(&members);
                subgraph.source = copy_range(&self.source, node.range.start_byte, node.range.end_byte);
                proof {
                    assert(self.subgraph_by(i as int, ints(members@), subgraph));
                }
                subgraphs.push(subgraph);
                proof {
                    assert forall|j: int| 0 <= j < subgraphs@.len() implies self.is_subgraph_at(
                        #[trigger] split_points(self.nodes(), kinds, i + 1)[j],
                        subgraphs@[j],
                    ) by {
                        if j < subgraphs@.len() - 1 {
                            assert(split_points(self.nodes(), kinds, i + 1)[j] == split_points(self.nodes(), kinds, i as int)[j]);
                        }
                    }
                }
            }
            i = i + 1;
        }
        subgraphs
    }

    /// The vertices reachable from `start`, each once.
    fn collect_subgraph_nodes(&self, start: usize) -> (r: Vec<usize>)
        requires
            self.wf(),
            start < self.nodes().len(),
        ensures
            ints(r@).no_duplicates(),
            ints(r@).to_set() == reach_set(self.edges(), start as int, false),
            forall|i: int| 0 <= i < r@.len() ==> #[trigger] r@[i] < self.nodes().len(),
    {
        let r = self.bfs_iterator(start);
        proof {
            assert forall|i: int| 0 <= i < r@.len() implies #[trigger] r@[i] < self.nodes().len() by {
                assert(ints(r@)[i] == r@[i] as int);
                assert(ints(r@).to_set().contains(ints(r@)[i]));
                crate::paths::lemma_reach_below(self.edges(), start as int, self.nodes().len(), false);
            }
        }
        r
    }

    /// A new graph on the listed vertices, numbered by their position in
    /// `members`, with the edges among them; its text and title are empty.
    fn create_subgraph(&self, members: &Vec<usize>) -> (r: ASTGraph)
        requires
            self.wf(),
            ints(members@).no_duplicates(),
            forall|i: int| 0 <= i < members@.len() ==> #[trigger] members@[i] < self.nodes().len(),
        ensures
            r.wf(),
            r.nodes() == nodes_at(self.nodes(), ints(members@)),
            r.edges() == induced_edges(self.edges(), ints(members@), self.edges().len() as int),
            r.text() == Seq::<u8>::empty(),
            r.title_view() == Seq::<char>::empty(),
    {
        let ghost m = ints(members@);
        let n = self.node_map.len();
        let mut pos: Vec<Option<usize>> = Vec::new();
        while pos.len() < n
            invariant
                pos@.len() <= n,
                forall|x: int| 0 <= x < pos@.len() ==> #[trigger] pos@[x] is None,
            decreases n - pos@.len(),
        {
            pos.push(None);
        }
        let mut sub = ASTGraph { graph: graph_new(), node_map: Vec::new(), source: Vec::new(), title: String::new() };
        let mut i: usize = 0;
        while i < members.len()
            invariant
                self.wf(),
                n == self.nodes().len(),
                m == ints(members@),
                m.no_duplicates(),
                forall|k: int| 0 <= k < members@.len() ==> #[trigger] members@[k] < n,
                i <= members@.len(),
                pos@.len() == n,
                forall|x: int| 0 <= x < n ==> match #[trigger] pos@[x] {
                    Some(j) => j < i && m[j as int] == x,
                    None => true,
                },
                forall|j: int| 0 <= j < i ==> pos@[#[trigger] members@[j] as int] == Some(j as usize),
                sub.wf(),
                sub.nodes() == nodes_at(self.nodes(), m.subrange(0, i as int)),
                sub.edges() == Seq::<(int, int)>::empty(),
                sub.text() == Seq::<u8>::empty(),
                sub.title_view() == Seq::<char>::empty(),
            decreases members@.len() - i,
        {
            let v = members[i];
            let node = graph_node(&self.graph, v);
            sub.add_node(node);
            pos[v] = Some(i);
            proof {
                assert(nodes_at(self.nodes(), m.subrange(0, i + 1)) =~= nodes_at(self.nodes(), m.subrange(0, i as int)).push(node));
                assert forall|j: int| 0 <= j < i + 1 implies pos@[#[trigger] members@[j] as int] == Some(j as usize) by {
                    if j < i {
                        assert(m[j] != m[i as int]);
                    }
                }
            }
            i = i + 1;
        }
        assert(m.subrange(0, i as int) =~= m);
        let e_count = graph_edge_count(&self.graph);
        let mut e: usize = 0;
        while e < e_count
            invariant
                self.wf(),
                n == self.nodes().len(),
                e_count == self.edges().len(),
                m == ints(members@),
                m.no_duplicates(),
                pos@.len() == n,
                forall|x: int| 0 <= x < n ==> match #[trigger] pos@[x] {
                    Some(j) => j < m.len() && m[j as int] == x,
                    None => true,
                },
                forall|j: int| 0 <= j < m.len() ==> pos@[#[trigger] members@[j] as int] == Some(j as usize),
                e <= e_count,
                sub.wf(),
                sub.nodes() == nodes_at(self.nodes(), m),
                sub.edges() == induced_edges(self.edges(), m, e as int),
                sub.text() == Seq::<u8>::empty(),
                sub.title_view() == Seq::<char>::empty(),
            decreases e_count - e,
        {
            let ghost edges = self.edges();
            if let Some((a, b)) = graph_edge(&self.graph, e) {
                assert(0 <= edges[e as int].0 < n && 0 <= edges[e as int].1 < n);
                proof {
                    if m.contains(a as int) {
                        let k = choose|k: int| 0 <= k < m.len() && m[k] == a as int;
                        assert(members@[k] == a);
                    }
                    if m.contains(b as int) {
                        let k = choose|k: int| 0 <= k < m.len() && m[k] == b as int;
                        assert(members@[k] == b);
                    }
                }
                match (pos[a], pos[b]) {
                    (Some(x), Some(y)) => {
                        proof {
                            lemma_index_of_distinct(m, a as int, x as int);
                            lemma_index_of_distinct(m, b as int, y as int);
                        }
                        sub.add_edge(x, y);
                    },
                    _ => {
                        assert(!(m.contains(a as int) && m.contains(b as int)));
                    },
                }
            }
            e = e + 1;
        }
        sub
    }

    /// A name for files holding this graph, made from the parser id of the
    /// vertex at index 1 (the first vertex below the root).
    pub fn name(&self) -> (r: String)
        requires
            self.wf(),
            self.nodes().len() > 1,
        ensures
            r@ == "node_"@ + decimal_of(self.nodes()[1].id as nat) + "_graph"@,
    {
        let mut r = String::from_str("node_");
        let digits = decimal_string(self.node_map[1]);
        r.append(digits.as_str());
        r.append("_graph");
        proof {
            reveal_strlit("node_");
            reveal_strlit("_graph");
        }
        r
    }

    /// `rec` lists this graph's vertices in index order and its edges in
    /// insertion order.
    pub open spec fn flattens_to(self, rec: SerializableGraph) -> bool {
        &&& rec.nodes@ == self.nodes()
        &&& edge_pairs(rec.edges@) == self.edges()
    }

    /// The flat record of this graph.
    pub fn to_serializable(&self) -> (r: SerializableGraph)
        requires
            self.wf(),
        ensures
            self.flattens_to(r),
    {
        let n = self.node_map.len();
        let mut nodes: Vec<GNode> = Vec::new();
        let mut i: usize = 0;
        while i < n
            invariant
                self.wf(),
                n == self.nodes().len(),
                i <= n,
                nodes@ == self.nodes().subrange(0, i as int),
            decreases n - i,
        {
            nodes.push(graph_node(&self.graph, i));
            i = i + 1;
        }
        let e_count = graph_edge_count(&self.graph);
        let mut edges: Vec<Edge> = Vec::new();
        let mut e: usize = 0;
        while e < e_count
            invariant
                e_count == self.edges().len(),
                e <= e_count,
                edge_pairs(edges@) == self.edges().subrange(0, e as int),
            decreases e_count - e,
        {
            if let Some((a, b)) = graph_edge(&self.graph, e) {
                let ghost before = edges@;
                edges.push(Edge { source: a, target: b });
                assert(edge_pairs(edges@) =~= edge_pairs(before).push((a as int, b as int)));
                assert(self.edges().subrange(0, e + 1) =~= self.edges().subrange(0, e as int).push(self.edges()[e as int]));
                assert(edge_pairs(edges@) =~= self.edges().subrange(0, e + 1));
            }
            e = e + 1;
        }
        assert(nodes@ =~= self.nodes());
        assert(edge_pairs(edges@) =~= self.edges());
        SerializableGraph { nodes, edges }
    }

    /// A graph with the record's vertices, each at its list position, and its
    /// edges; the source text and the title are empty.
    pub fn from_serializable(serializable_graph: SerializableGraph) -> (r: ASTGraph)
        requires
            forall|k: int| 0 <= k < serializable_graph.edges@.len() ==>
                (#[trigger] serializable_graph.edges@[k]).source < serializable_graph.nodes@.len()
                && serializable_graph.edges@[k].target < serializable_graph.nodes@.len(),
        ensures
            r.wf(),
            r.flattens_to(serializable_graph),
            r.text() == Seq::<u8>::empty(),
            r.title_view() == Seq::<char>::empty(),
    {
        let ghost rec = serializable_graph;
        let mut g = ASTGraph { graph: graph_new(), node_map: Vec::new(), source: Vec::new(), title: String::new() };
        let mut i: usize = 0;
        while i < serializable_graph.nodes.len()
            invariant
                rec == serializable_graph,
                i <= rec.nodes@.len(),
                g.wf(),
                g.nodes() == rec.nodes@.subrange(0, i as int),
                g.edges() == Seq::<(int, int)>::empty(),
                g.text() == Seq::<u8>::empty(),
                g.title_view() == Seq::<char>::empty(),
            decreases rec.nodes@.len() - i,
        {
            g.add_node(serializable_graph.nodes[i]);
            assert(g.nodes() =~= rec.nodes@.subrange(0, i + 1));
            i = i + 1;
        }
        assert(g.nodes() =~= rec.nodes@);
        let mut e: usize = 0;
        while e < serializable_graph.edges.len()
            invariant
                rec == serializable_graph,
                forall|k: int| 0 <= k < rec.edges@.len() ==>
                    (#[trigger] rec.edges@[k]).source < rec.nodes@.len() && rec.edges@[k].target < rec.nodes@.len(),
                e <= rec.edges@.len(),
                g.wf(),
                g.nodes() == rec.nodes@,
                g.edges() == edge_pairs(rec.edges@).subrange(0, e as int),
                g.text() == Seq::<u8>::empty(),
                g.title_view() == Seq::<char>::empty(),
            decreases rec.edges@.len() - e,
        {
            let edge = serializable_graph.edges[e];
            g.add_edge(edge.source, edge.target);
            assert(g.edges() =~= edge_pairs(rec.edges@).subrange(0, e + 1));
            e = e + 1;
        }
        assert(g.edges() =~= edge_pairs(rec.edges@));
        g
    }
}

/// The bytes of `src` from `start` up to `end`.
fn copy_range(src: &Vec<u8>, start: usize, end: usize) -> (r: Vec<u8>)
    requires
        start <= end <= src@.len(),
    ensures
        r@ == src@.subrange(start as int, end as int),
{
    let mut r: Vec<u8> = Vec::new();
    let mut k: usize = start;
    while k < end
        invariant
            start <= k <= end <= src@.len(),
            r@ == src@.subrange(start as int, k as int),
        decreases end - k,
    {
        r.push(src[k]);
        k = k + 1;
    }
    r
}

/// A sequence of distinct indices below `n` has at most `n` elements.
proof fn lemma_distinct_below(s: Seq<int>, n: nat)
    requires
        s.no_duplicates(),
        forall|i: int| 0 <= i < s.len() ==> 0 <= #[trigger] s[i] < n,
    ensures
        s.len() <= n,
{
    s.unique_seq_to_set();
    vstd::set_lib::lemma_int_range(0, n as int);
    assert(s.to_set().subset_of(vstd::set_lib::set_int_range(0, n as int)));
    vstd::set_lib::lemma_len_subset(s.to_set(), vstd::set_lib::set_int_range(0, n as int));
}

} // verus!
