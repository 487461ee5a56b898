//! Tests of the topology layer: the signed incidence matrix, breadth-first
//! traversal, the spanning forest and the derived loop matrix.

use circuit::{bfs_nodes_as_undirected, CircuitGraph, MatrixGraph, NodeIndex, SpanningForest};

#[test]
fn incidence_entries_are_signed_and_cleared() {
    let mut g = MatrixGraph::new(3);
    assert_eq!(g.nodes_count(), 3);
    g.add_edge([NodeIndex(0), NodeIndex(1)]);
    assert!(g.has_edge([NodeIndex(0), NodeIndex(1)]));
    assert!(g.has_edge([NodeIndex(1), NodeIndex(0)]));
    assert!(!g.has_edge([NodeIndex(0), NodeIndex(2)]));
    g.remove_edge([NodeIndex(0), NodeIndex(1)]);
    assert!(!g.has_edge([NodeIndex(0), NodeIndex(1)]));
}

#[test]
fn edges_lists_each_directed_edge_once() {
    let mut g = MatrixGraph::new(3);
    g.add_edge([NodeIndex(0), NodeIndex(1)]);
    g.add_edge([NodeIndex(2), NodeIndex(1)]);
    let edges = g.edges();
    assert_eq!(edges.len(), 2);
    assert!(edges.contains(&[NodeIndex(0), NodeIndex(1)]));
    assert!(edges.contains(&[NodeIndex(2), NodeIndex(1)]));
}

#[test]
fn neighbours_follow_edges_in_both_directions() {
    let mut g = MatrixGraph::new(4);
    g.add_edge([NodeIndex(1), NodeIndex(0)]);
    g.add_edge([NodeIndex(1), NodeIndex(3)]);
    let n = g.neighbour_nodes(NodeIndex(1));
    assert_eq!(n, vec![NodeIndex(0), NodeIndex(3)]);
    let n0 = g.neighbour_nodes(NodeIndex(0));
    assert_eq!(n0, vec![NodeIndex(1)]);
}

#[test]
fn removing_a_node_shifts_later_indices() {
    let mut g = MatrixGraph::new(0);
    for _ in 0..4 {
        g.next_node();
    }
    g.add_edge([NodeIndex(2), NodeIndex(3)]);
    g.remove_node(NodeIndex(0));
    assert_eq!(g.nodes_count(), 3);
    // The edge between old nodes 2 and 3 now joins nodes 1 and 2.
    assert!(g.has_edge([NodeIndex(1), NodeIndex(2)]));
}

#[test]
fn bfs_reaches_exactly_the_component() {
    let mut g = MatrixGraph::new(5);
    g.add_edge([NodeIndex(0), NodeIndex(1)]);
    g.add_edge([NodeIndex(1), NodeIndex(2)]);
    g.add_edge([NodeIndex(3), NodeIndex(4)]);
    let order = bfs_nodes_as_undirected(&g, NodeIndex(0));
    assert_eq!(order[0], NodeIndex(0));
    let mut reached: Vec<usize> = order.iter().map(|n| n.index()).collect();
    reached.sort();
    assert_eq!(reached, vec![0, 1, 2]);
}

#[test]
fn forest_accepts_tree_edges_and_rejects_chords() {
    let mut g = MatrixGraph::new(3);
    g.add_edge([NodeIndex(0), NodeIndex(1)]);
    g.add_edge([NodeIndex(1), NodeIndex(2)]);
    g.add_edge([NodeIndex(2), NodeIndex(0)]);
    let mut forest = SpanningForest::build(&g);
    // The triangle's spanning tree has two of the three edges.
    let tree_edges = [
        [NodeIndex(0), NodeIndex(1)],
        [NodeIndex(1), NodeIndex(2)],
        [NodeIndex(2), NodeIndex(0)],
    ]
    .iter()
    .filter(|e| forest.has_edge(**e))
    .count();
    assert_eq!(tree_edges, 2);
    // Any further edge between the connected nodes is a chord.
    assert!(!forest.add_edge([NodeIndex(0), NodeIndex(2)]));
}

#[test]
fn forest_merges_two_trees() {
    let mut g = MatrixGraph::new(4);
    g.add_edge([NodeIndex(0), NodeIndex(1)]);
    g.add_edge([NodeIndex(2), NodeIndex(3)]);
    let mut forest = SpanningForest::build(&g);
    assert!(!forest.has_edge([NodeIndex(1), NodeIndex(2)]));
    // Joining the two components extends the forest.
    assert!(forest.add_edge([NodeIndex(1), NodeIndex(2)]));
    assert!(forest.has_edge([NodeIndex(1), NodeIndex(2)]));
}

#[test]
fn forest_path_connects_endpoints() {
    let mut g = MatrixGraph::new(4);
    g.add_edge([NodeIndex(0), NodeIndex(1)]);
    g.add_edge([NodeIndex(1), NodeIndex(2)]);
    g.add_edge([NodeIndex(2), NodeIndex(3)]);
    let forest = SpanningForest::build(&g);
    let path = forest.find_path([NodeIndex(0), NodeIndex(3)]).unwrap();
    // The walk leads from the second endpoint back to the first.
    assert_eq!(path.first().unwrap()[0], NodeIndex(3));
    assert_eq!(path.last().unwrap()[1], NodeIndex(0));
    for window in path.windows(2) {
        assert_eq!(window[0][1], window[1][0]);
    }
    // Across components there is no walk.
    let mut g2 = MatrixGraph::new(2);
    let _ = g2.next_node();
    let forest2 = SpanningForest::build(&g2);
    assert!(forest2.find_path([NodeIndex(0), NodeIndex(1)]).is_none());
}

#[test]
fn triangle_topology_has_one_loop_row() {
    let mut t = CircuitGraph::new();
    let a = t.next_node();
    let b = t.next_node();
    let c = t.next_node();
    t.add_edge([a, b]);
    t.add_edge([b, c]);
    t.add_edge([c, a]);
    let (rows, transposed) = t.loops();
    assert_eq!(rows.len(), 1);
    assert_eq!(rows[0].len(), 3);
    assert_eq!(transposed.len(), 3);
    // Every edge of the triangle sits in the one cycle, oriented with it.
    for entry in &rows[0] {
        assert_eq!(entry.abs(), 1);
    }
}

#[test]
fn removing_an_edge_rebuilds_the_loop_matrix() {
    let mut t = CircuitGraph::new();
    let a = t.next_node();
    let b = t.next_node();
    let c = t.next_node();
    t.add_edge([a, b]);
    t.add_edge([b, c]);
    t.add_edge([c, a]);
    assert_eq!(t.loops().0.len(), 1);
    // Cutting any edge of the cycle leaves a tree: no loops.
    t.remove_edge(1);
    assert_eq!(t.loops().0.len(), 0);
    assert_eq!(t.edges().len(), 2);
}
