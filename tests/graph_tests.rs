use ast_graph::geometry::{Edge, GNode, GPoint, GRange};
use ast_graph::tree::SyntaxNode;
use ast_graph::{ASTGraph, SerializableGraph};
use std::collections::HashSet;

fn node(id: usize, kind_id: u16, start_byte: usize, end_byte: usize, row: usize, end_column: usize) -> GNode {
    GNode {
        id,
        kind_id,
        range: GRange {
            start_byte,
            end_byte,
            start_point: GPoint { row, column: 1 },
            end_point: GPoint { row, column: end_column },
        },
    }
}

fn leaf(id: usize, kind_id: u16, start: usize, end: usize) -> SyntaxNode {
    SyntaxNode {
        id,
        kind_id,
        range: GRange {
            start_byte: start,
            end_byte: end,
            start_point: GPoint { row: 0, column: start },
            end_point: GPoint { row: 0, column: end },
        },
        children: Vec::new(),
    }
}

fn branch(id: usize, kind_id: u16, start: usize, end: usize, children: Vec<SyntaxNode>) -> SyntaxNode {
    let mut n = leaf(id, kind_id, start, end);
    n.children = children;
    n
}

const SOURCE: &str = "! header\nsubroutine a()\n  x\nend\n! note\nprogram p\n  y\nend program\n";

// root(1) -> [comment(2), sub(5) -> [ident(3)], comment(2), prog(6) -> [ident(3)]]
fn sample_tree() -> SyntaxNode {
    branch(
        100,
        1,
        0,
        SOURCE.len(),
        vec![
            leaf(101, 2, 0, 8),
            branch(102, 5, 9, 31, vec![leaf(103, 3, 26, 27)]),
            leaf(104, 2, 32, 38),
            branch(105, 6, 39, 64, vec![leaf(106, 3, 51, 52)]),
        ],
    )
}

fn three_vertex_graph() -> (ASTGraph, usize, usize, usize) {
    let mut ast_graph = ASTGraph::new("testing".to_string());
    let a = ast_graph.add_node(node(1, 1, 0, 5, 1, 5));
    let b = ast_graph.add_node(node(2, 3, 6, 10, 2, 5));
    let c = ast_graph.add_node(node(4, 7, 11, 15, 3, 5));
    ast_graph.add_edge(a, b);
    ast_graph.add_edge(a, c);
    (ast_graph, a, b, c)
}

#[test]
fn simple_deserialization_test() {
    let mut ast_graph = ASTGraph::new("testing".to_string());
    let a = ast_graph.add_node(GNode { id: 1, kind_id: 1, range: GRange { start_byte: 0, end_byte: 5, start_point: GPoint { row: 1, column: 1 }, end_point: GPoint { row: 2, column: 5 } } });
    let b = ast_graph.add_node(GNode { id: 2, kind_id: 3, range: GRange { start_byte: 6, end_byte: 10, start_point: GPoint { row: 2, column: 1 }, end_point: GPoint { row: 3, column: 5 } } });
    ast_graph.add_edge(a, b);

    let serializable_graph = ast_graph.to_serializable();
    let reconstructed_graph = ASTGraph::from_serializable(serializable_graph);
    assert_eq!(reconstructed_graph.node_count(), 2);
    assert_eq!(reconstructed_graph.get_node(a), Some(1));
}

#[test]
fn simple_deserialization_test2() {
    let (ast_graph, a, _b, c) = three_vertex_graph();
    let serializable_graph = ast_graph.to_serializable();
    let reconstructed_graph = ASTGraph::from_serializable(serializable_graph);
    assert_eq!(reconstructed_graph.node_count(), 3);
    assert_eq!(reconstructed_graph.get_node(a), Some(1));
    assert_eq!(reconstructed_graph.edge_count(), 2);
    assert_eq!(reconstructed_graph.get_node(c), Some(4));
}

#[test]
fn test_bfs_iterator() {
    let (ast_graph, a, _b, _c) = three_vertex_graph();
    let mut nodes_touched = 0;
    for _node_index in ast_graph.bfs_iterator(a) {
        nodes_touched += 1;
    }
    assert_eq!(nodes_touched, 3);
}

#[test]
fn test_dfs_iterator() {
    let (ast_graph, a, _b, _c) = three_vertex_graph();
    let mut nodes_touched = 0;
    for _node_index in ast_graph.dfs_iterator(a) {
        nodes_touched += 1;
    }
    assert_eq!(nodes_touched, 3);
}

#[test]
fn test_simple_path() {
    let mut ast_graph = ASTGraph::new("testing".to_string());
    let a = ast_graph.add_node(node(1, 1, 0, 5, 1, 5));
    let b = ast_graph.add_node(node(2, 3, 6, 10, 2, 5));
    let c = ast_graph.add_node(node(4, 72, 11, 15, 3, 5));
    let d = ast_graph.add_node(node(5, 37, 16, 20, 4, 5));
    let e = ast_graph.add_node(node(7, 4, 21, 25, 5, 5));
    let f = ast_graph.add_node(node(10, 7, 26, 30, 6, 5));
    ast_graph.add_edge(a, b);
    ast_graph.add_edge(a, c);
    ast_graph.add_edge(c, d);
    ast_graph.add_edge(c, e);
    ast_graph.add_edge(d, f);

    let optional_path = ast_graph.path_from_to(a, f);
    let true_path = vec![a, c, d, f];
    match optional_path {
        Some(path) => {
            assert_eq!(path.len(), true_path.len());
            for (i, j) in path.iter().zip(true_path.iter()) {
                assert_eq!(i, j);
            }
        }
        None => panic!("no path found"),
    }
}

#[test]
fn three_vertices_bfs_and_path() {
    let (ast_graph, a, _b, c) = three_vertex_graph();
    assert_eq!(ast_graph.bfs_iterator(a).len(), 3);
    assert_eq!(ast_graph.path_from_to(a, c), Some(vec![a, c]));
}

#[test]
fn path_absent_when_unreachable() {
    let (ast_graph, a, b, c) = three_vertex_graph();
    assert_eq!(ast_graph.path_from_to(b, c), None);
    assert_eq!(ast_graph.path_from_to(b, a), None);
    assert_eq!(ast_graph.path_from_to(a, a), Some(vec![a]));
}

#[test]
fn bfs_and_dfs_visit_same_set() {
    let mut g = ASTGraph::new(SOURCE.to_string());
    g.build_from_tree(&sample_tree());
    for start in 0..g.node_count() {
        let mut b = g.bfs_iterator(start);
        let mut d = g.dfs_iterator(start);
        assert_eq!(b[0], start);
        assert_eq!(d[0], start);
        b.sort();
        d.sort();
        assert_eq!(b, d);
    }
    let mut all = g.bfs_iterator(0);
    all.sort();
    assert_eq!(all, vec![0, 1, 2, 3, 4, 5, 6]);
    let mut under_sub = g.dfs_iterator(2);
    under_sub.sort();
    assert_eq!(under_sub, vec![2, 3]);
}

#[test]
fn reversed_dfs_walks_to_ancestors() {
    let mut g = ASTGraph::new(SOURCE.to_string());
    g.build_from_tree(&sample_tree());
    let mut up = g.reversed_dfs_iterator(6);
    assert_eq!(up[0], 6);
    up.sort();
    assert_eq!(up, vec![0, 5, 6]);
    assert_eq!(g.reversed_dfs_iterator(0), vec![0]);
}

#[test]
fn built_graph_counts_match_tree() {
    let mut g = ASTGraph::new(SOURCE.to_string());
    g.build_from_tree(&sample_tree());
    assert_eq!(g.node_count(), 7);
    assert_eq!(g.edge_count(), 6);
    let flat = g.to_serializable();
    let ids: Vec<usize> = flat.nodes.iter().map(|n| n.id).collect();
    assert_eq!(ids, vec![100, 101, 102, 103, 104, 105, 106]);
    let pairs: Vec<(usize, usize)> = flat.edges.iter().map(|e| (e.source, e.target)).collect();
    assert_eq!(pairs, vec![(0, 1), (0, 2), (2, 3), (0, 4), (0, 5), (5, 6)]);
}

#[test]
fn single_node_tree_has_no_edges() {
    let mut g = ASTGraph::new("x".to_string());
    g.build_from_tree(&leaf(9, 4, 0, 1));
    assert_eq!(g.node_count(), 1);
    assert_eq!(g.edge_count(), 0);
    assert_eq!(g.get_node(0), Some(9));
    assert_eq!(g.get_node(1), None);
}

#[test]
fn no_matching_kind_gives_no_subgraphs() {
    let mut g = ASTGraph::new(SOURCE.to_string());
    g.build_from_tree(&sample_tree());
    let mut kinds = HashSet::new();
    kinds.insert(999u16);
    assert_eq!(g.extract_subgraphs(kinds).len(), 0);
    assert_eq!(g.extract_subgraphs(HashSet::new()).len(), 0);
}

#[test]
fn split_on_two_boundary_kinds() {
    let mut g = ASTGraph::new(SOURCE.to_string());
    g.build_from_tree(&sample_tree());
    let mut kinds = HashSet::new();
    kinds.insert(5u16);
    kinds.insert(6u16);
    let subgraphs = g.extract_subgraphs(kinds);
    assert_eq!(subgraphs.len(), 2);
    let excerpt_total: usize = subgraphs.iter().map(|s| s.source().len()).sum();
    assert!(excerpt_total < g.source().len());
    assert_eq!(subgraphs[0].source(), &SOURCE.as_bytes()[9..31]);
    assert_eq!(subgraphs[1].source(), &SOURCE.as_bytes()[39..64]);
    let sizes: usize = subgraphs.iter().map(|s| s.node_count()).sum();
    // the root and the two comments lie outside both subgraphs
    assert_eq!(sizes + 3, g.node_count());
    for s in subgraphs.iter() {
        assert_eq!(s.node_count(), 2);
        assert_eq!(s.edge_count(), 1);
        let flat = s.to_serializable();
        assert_eq!(flat.edges[0].source, 0);
        assert_eq!(flat.edges[0].target, 1);
        assert_eq!(s.title(), "");
    }
    assert_eq!(subgraphs[0].get_node(0), Some(102));
    assert_eq!(subgraphs[0].get_node(1), Some(103));
    assert_eq!(subgraphs[1].get_node(0), Some(105));
    assert_eq!(subgraphs[1].name(), "node_106_graph");
}

#[test]
fn nested_matches_each_get_a_subgraph() {
    let mut g = ASTGraph::new(SOURCE.to_string());
    g.build_from_tree(&sample_tree());
    let mut kinds = HashSet::new();
    kinds.insert(1u16);
    kinds.insert(5u16);
    let subgraphs = g.extract_subgraphs(kinds);
    assert_eq!(subgraphs.len(), 2);
    assert_eq!(subgraphs[0].node_count(), 7);
    assert_eq!(subgraphs[0].edge_count(), 6);
    assert_eq!(subgraphs[0].source().len(), SOURCE.len());
    assert_eq!(subgraphs[1].node_count(), 2);
}

#[test]
fn round_trip_keeps_vertices_and_edges() {
    let mut g = ASTGraph::new(SOURCE.to_string());
    g.build_from_tree(&sample_tree());
    g.set_title("whole".to_string());
    let flat = g.to_serializable();
    let rebuilt = ASTGraph::from_serializable(flat);
    assert_eq!(rebuilt.node_count(), g.node_count());
    assert_eq!(rebuilt.edge_count(), g.edge_count());
    for i in 0..g.node_count() {
        assert_eq!(rebuilt.node(i), g.node(i));
        assert_eq!(rebuilt.get_node(i), g.get_node(i));
    }
    let a = g.to_serializable();
    let b = rebuilt.to_serializable();
    assert_eq!(a.edges, b.edges);
    assert_eq!(rebuilt.source().len(), 0);
    assert_eq!(rebuilt.title(), "");
    assert_eq!(g.title(), "whole");
}

#[test]
fn record_with_explicit_edges() {
    let rec = SerializableGraph {
        nodes: vec![node(7, 1, 0, 3, 0, 3), node(8, 2, 1, 2, 0, 2)],
        edges: vec![Edge { source: 0, target: 1 }],
    };
    let g = ASTGraph::from_serializable(rec);
    assert_eq!(g.node_count(), 2);
    assert_eq!(g.edge_count(), 1);
    assert_eq!(g.get_node(1), Some(8));
    assert_eq!(g.bfs_iterator(0), vec![0, 1]);
    assert_eq!(g.name(), "node_8_graph");
}

#[test]
fn node_source_is_the_spanned_bytes() {
    let mut g = ASTGraph::new(SOURCE.to_string());
    g.build_from_tree(&sample_tree());
    assert_eq!(g.get_node_source(1), b"! header");
    assert_eq!(g.get_node_source(3), b"x");
    assert_eq!(g.source().len(), SOURCE.len());
}

#[test]
fn point_order_and_range_shape() {
    let a = GPoint::new(1, 5);
    let b = GPoint::new(2, 0);
    assert!(a.le(&b));
    assert!(!b.le(&a));
    assert!(a.le(&a));
    let r = GRange { start_byte: 3, end_byte: 9, start_point: a, end_point: b };
    assert!(r.is_well_formed());
    let bad = GRange { start_byte: 9, end_byte: 3, start_point: a, end_point: b };
    assert!(!bad.is_well_formed());
}

#[test]
fn non_nested_sizes_plus_count_is_total() {
    // root -> [comment, sub -> [x], prog -> [y]]: the root and the comment
    // lie outside the two subgraphs
    let tree = branch(
        100,
        1,
        0,
        SOURCE.len(),
        vec![
            leaf(101, 2, 0, 8),
            branch(102, 5, 9, 31, vec![leaf(103, 3, 26, 27)]),
            branch(105, 6, 39, 64, vec![leaf(106, 3, 51, 52)]),
        ],
    );
    let mut g = ASTGraph::new(SOURCE.to_string());
    g.build_from_tree(&tree);
    let mut kinds = HashSet::new();
    kinds.insert(5u16);
    kinds.insert(6u16);
    let total_nodes = g.node_count();
    let subgraphs = g.extract_subgraphs(kinds);
    let subgraph_totals: usize = subgraphs.iter().map(|s| s.node_count()).sum();
    assert_eq!(subgraph_totals + subgraphs.len(), total_nodes);
}

#[test]
fn bfs_visits_nearer_vertices_first() {
    let mut g = ASTGraph::new(SOURCE.to_string());
    g.build_from_tree(&sample_tree());
    let order = g.bfs_iterator(0);
    assert_eq!(order.len(), 7);
    assert_eq!(order[0], 0);
    let mut first_level = order[1..5].to_vec();
    first_level.sort();
    assert_eq!(first_level, vec![1, 2, 4, 5]);
    let mut second_level = order[5..7].to_vec();
    second_level.sort();
    assert_eq!(second_level, vec![3, 6]);
}

#[test]
fn name_writes_id_in_decimal() {
    let rec = SerializableGraph {
        nodes: vec![node(7, 1, 0, 3, 0, 3), node(1203, 2, 1, 2, 0, 2)],
        edges: vec![],
    };
    let g = ASTGraph::from_serializable(rec);
    assert_eq!(g.name(), "node_1203_graph");
    let zero = ASTGraph::from_serializable(SerializableGraph {
        nodes: vec![node(7, 1, 0, 3, 0, 3), node(0, 2, 1, 2, 0, 2)],
        edges: vec![],
    });
    assert_eq!(zero.name(), "node_0_graph");
}

#[test]
fn dfs_goes_deeper_before_siblings() {
    let mut g = ASTGraph::new(SOURCE.to_string());
    g.build_from_tree(&sample_tree());
    let order = g.dfs_iterator(0);
    assert_eq!(order.len(), 7);
    let at = |v: usize| order.iter().position(|&x| x == v).unwrap();
    assert_eq!(at(3), at(2) + 1);
    assert_eq!(at(6), at(5) + 1);
    let up = g.reversed_dfs_iterator(3);
    assert_eq!(up, vec![3, 2, 0]);
}
