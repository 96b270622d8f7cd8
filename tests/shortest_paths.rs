use weighted_graph::{Edge, Graph, Node};

fn node(id: i32) -> Node {
    Node { id, x: id * 10, y: -id }
}

fn edge(a: i32, b: i32, w: i32) -> Edge {
    Edge { node_a_id: a, node_b_id: b, weight: w }
}

fn build(ids: &[i32], edges: &[(i32, i32, i32)]) -> Graph {
    let mut g = Graph::new();
    for &id in ids {
        g.add_node(node(id));
    }
    for &(a, b, w) in edges {
        g.add_edge(edge(a, b, w));
    }
    g
}

fn sample() -> Graph {
    build(
        &[1, 2, 3, 4, 5, 6],
        &[(1, 2, 7), (1, 3, 9), (1, 6, 14), (2, 3, 10), (2, 4, 15), (3, 4, 11), (3, 6, 2), (4, 5, 6), (5, 6, 9)],
    )
}

#[test]
fn chain_of_two_edges_adds_weights() {
    let g = build(&[1, 2, 3], &[(1, 2, 4), (2, 3, 5)]);
    assert_eq!(g.shortest_path(1, 3), 9);
}

#[test]
fn isolated_target_is_unreachable() {
    let g = build(&[1, 2, 3], &[(1, 2, 4)]);
    assert_eq!(g.shortest_path(1, 3), i32::MAX);
}

#[test]
fn cheaper_parallel_edge_wins() {
    let g = build(&[1, 2], &[(1, 2, 2), (1, 2, 7)]);
    assert_eq!(g.shortest_path(1, 2), 2);
    assert_eq!(g.shortest_path(2, 1), 2);
}

#[test]
fn single_node_distance_to_itself_is_zero() {
    let g = build(&[1], &[]);
    assert_eq!(g.shortest_path(1, 1), 0);
}

#[test]
fn missing_source_is_unreachable_and_graph_unchanged() {
    let g = build(&[1, 2], &[(1, 2, 3)]);
    assert_eq!(g.shortest_path(42, 2), i32::MAX);
    assert_eq!(g.nodes.len(), 2);
    assert_eq!(g.edges.len(), 2);
    assert_eq!(g.edges[&1].len(), 1);
    assert_eq!(g.edges[&2].len(), 1);
    assert_eq!(g.shortest_path(1, 2), 3);
}

#[test]
fn every_node_is_at_distance_zero_from_itself() {
    let g = sample();
    for id in 1..=6 {
        assert_eq!(g.shortest_path(id, id), 0);
    }
}

#[test]
fn absent_endpoints_are_unreachable() {
    let g = sample();
    assert_eq!(g.shortest_path(100, 200), i32::MAX);
    assert_eq!(g.shortest_path(1, 200), i32::MAX);
    assert_eq!(g.shortest_path(100, 1), i32::MAX);
    assert_eq!(g.shortest_path(100, 100), i32::MAX);
}

#[test]
fn each_edge_bounds_both_directions() {
    let list = [(1, 2, 7), (1, 3, 9), (1, 6, 14), (2, 3, 10), (2, 4, 15), (3, 4, 11), (3, 6, 2), (4, 5, 6), (5, 6, 9)];
    let g = sample();
    for &(a, b, w) in list.iter() {
        assert!(g.shortest_path(a, b) <= w);
        assert!(g.shortest_path(b, a) <= w);
    }
}

#[test]
fn triangle_inequality_holds_on_sample() {
    let g = build(
        &[1, 2, 3, 4, 5, 6, 7],
        &[(1, 2, 7), (1, 3, 9), (1, 6, 14), (2, 3, 10), (2, 4, 15), (3, 4, 11), (3, 6, 2), (4, 5, 6), (5, 6, 9)],
    );
    for a in 1..=7 {
        for b in 1..=7 {
            for c in 1..=7 {
                let ab = g.shortest_path(a, b);
                let bc = g.shortest_path(b, c);
                let ac = g.shortest_path(a, c);
                assert!(ac <= ab.saturating_add(bc));
            }
        }
    }
}

#[test]
fn repeated_query_gives_same_answer() {
    let g = sample();
    let first = g.shortest_path(1, 5);
    let second = g.shortest_path(1, 5);
    assert_eq!(first, second);
    assert_eq!(first, 20);
}

#[test]
fn sample_distances_are_exact() {
    let g = sample();
    assert_eq!(g.shortest_path(1, 2), 7);
    assert_eq!(g.shortest_path(1, 3), 9);
    assert_eq!(g.shortest_path(1, 4), 20);
    assert_eq!(g.shortest_path(1, 6), 11);
    assert_eq!(g.shortest_path(5, 1), 20);
    assert_eq!(g.shortest_path(2, 6), 12);
}

#[test]
fn detour_beats_direct_heavy_edge() {
    let g = build(&[1, 2, 3], &[(1, 3, 5), (1, 2, 1), (2, 3, 1)]);
    assert_eq!(g.shortest_path(1, 3), 2);
    assert_eq!(g.shortest_path(3, 1), 2);
}

#[test]
fn sums_saturate_at_the_sentinel() {
    let g = build(&[1, 2, 3], &[(1, 2, i32::MAX), (2, 3, 5)]);
    assert_eq!(g.shortest_path(1, 3), i32::MAX);
    assert_eq!(g.shortest_path(2, 3), 5);
    let h = build(&[1, 2, 3], &[(1, 2, i32::MAX - 10), (2, 3, 10)]);
    assert_eq!(h.shortest_path(1, 3), i32::MAX);
    let k = build(&[1, 2, 3], &[(1, 2, i32::MAX - 11), (2, 3, 10)]);
    assert_eq!(k.shortest_path(1, 3), i32::MAX - 1);
}

#[test]
fn self_loop_is_never_preferred() {
    let g = build(&[1, 2], &[(1, 1, 3), (1, 2, 4)]);
    assert_eq!(g.shortest_path(1, 1), 0);
    assert_eq!(g.shortest_path(1, 2), 4);
    assert_eq!(g.edges[&1].len(), 3);
}

#[test]
fn arcs_to_unknown_ids_are_tolerated() {
    let g = build(&[1, 2], &[(1, 99, 1), (99, 2, 1), (1, 2, 8)]);
    assert_eq!(g.shortest_path(1, 2), 8);
    assert_eq!(g.shortest_path(1, 99), i32::MAX);
}

#[test]
fn nodes_added_after_edges_take_part() {
    let mut g = Graph::new();
    g.add_edge(edge(1, 2, 3));
    g.add_edge(edge(2, 3, 4));
    assert_eq!(g.shortest_path(1, 3), i32::MAX);
    g.add_node(node(1));
    g.add_node(node(2));
    g.add_node(node(3));
    assert_eq!(g.shortest_path(1, 3), 7);
}

#[test]
fn add_edge_stores_both_arcs() {
    let mut g = Graph::new();
    g.add_edge(edge(4, 9, 6));
    let fwd = &g.edges[&4];
    assert_eq!(fwd.len(), 1);
    assert_eq!((fwd[0].node_a_id, fwd[0].node_b_id, fwd[0].weight), (4, 9, 6));
    let back = &g.edges[&9];
    assert_eq!(back.len(), 1);
    assert_eq!((back[0].node_a_id, back[0].node_b_id, back[0].weight), (9, 4, 6));
}

#[test]
fn add_node_replaces_same_id() {
    let mut g = Graph::new();
    g.add_node(Node { id: 5, x: 1, y: 2 });
    g.add_node(Node { id: 5, x: 3, y: 4 });
    assert_eq!(g.nodes.len(), 1);
    assert_eq!((g.nodes[&5].x, g.nodes[&5].y), (3, 4));
}

#[test]
fn new_graph_is_empty() {
    let g = Graph::new();
    assert!(g.nodes.is_empty());
    assert!(g.edges.is_empty());
}

#[test]
fn zero_weight_edges_give_zero_distance() {
    let g = build(&[1, 2, 3], &[(1, 2, 0), (2, 3, 0)]);
    assert_eq!(g.shortest_path(3, 1), 0);
}
