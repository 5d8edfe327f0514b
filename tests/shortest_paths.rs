use roads::network::{Link, Node, OrientedGraph};
use roads::shortest_paths::{prepare_matrix, MatrixResult, INF};

fn node(id: i64) -> Node {
    Node::new(id, 491_800_000 + id * 10_000, -3_600_000)
}

fn link(graph: &mut OrientedGraph, from: i64, to: i64, distance: u64) {
    let l = Link::with_fixed_distance(&node(from), &node(to), 0, Vec::new(), distance);
    graph.add_link(l);
}

/// The seven-node road fixture.
fn fixture() -> OrientedGraph {
    let mut graph = OrientedGraph::new();
    for id in 0..7 {
        graph.add_node(node(id));
    }
    let connections: Vec<(i64, i64, u64)> = vec![
        (0, 1, 1),
        (1, 0, 1),
        (1, 2, 2),
        (2, 1, 2),
        (2, 4, 4),
        (2, 3, 3),
        (3, 2, 3),
        (3, 4, 2),
        (3, 5, 5),
        (5, 3, 8),
        (5, 6, 10),
        (5, 0, 12),
        (6, 5, 10),
        (6, 0, 7),
        (0, 6, 7),
        (0, 5, 12),
    ];
    for (from, to, d) in connections {
        link(&mut graph, from, to, d);
    }
    graph
}

fn check_fixture(result: &MatrixResult) {
    assert_eq!(result.size, 7);
    assert_eq!(result.get_distance(0, 1), Some(1));
    assert_eq!(result.get_distance(0, 4), Some(7));
    assert_eq!(result.get_distance(3, 0), Some(6));
    assert_eq!(result.get_distance(4, 0), Some(INF));
}

#[test]
fn fixture_distances_sequential() {
    check_fixture(&fixture().floyd_warshall_seq());
}

#[test]
fn fixture_distances_parallel() {
    check_fixture(&fixture().floyd_warshall_par());
}

#[test]
fn parallel_relaxation_changes_the_matrix() {
    let graph = fixture();
    let (direct, _, _) = prepare_matrix(&graph);
    let solved = graph.floyd_warshall_par();
    assert_ne!(direct, solved.dists);
    // 0 -> 4 has no direct link; only relaxation finds it.
    let i = solved.id_map[&0];
    let j = solved.id_map[&4];
    assert_eq!(direct[i * 7 + j], INF);
    assert_eq!(solved.dists[i * 7 + j], 7);
}

#[test]
fn sequential_and_parallel_agree() {
    let graph = fixture();
    let a = graph.floyd_warshall_seq();
    let b = graph.floyd_warshall_par();
    assert_eq!(a.size, b.size);
    assert_eq!(a.dists, b.dists);
    assert_eq!(a.id_map, b.id_map);

    let mut other = OrientedGraph::new();
    for id in 10..16 {
        other.add_node(node(id));
    }
    link(&mut other, 10, 11, 4);
    link(&mut other, 11, 12, 4);
    link(&mut other, 10, 12, 9);
    link(&mut other, 12, 13, 1);
    link(&mut other, 13, 10, 2);
    link(&mut other, 14, 15, 3);
    let a = other.floyd_warshall_seq();
    let b = other.floyd_warshall_par();
    assert_eq!(a.dists, b.dists);
    assert_eq!(a.get_distance(10, 12), Some(8));
    assert_eq!(a.get_distance(12, 11), Some(7));
    assert_eq!(a.get_distance(15, 14), Some(INF));
}

#[test]
fn diagonal_is_zero() {
    let result = fixture().floyd_warshall_seq();
    for id in 0..7 {
        assert_eq!(result.get_distance(id, id), Some(0));
    }
}

#[test]
fn triangle_inequality_holds() {
    let result = fixture().floyd_warshall_par();
    for i in 0..7 {
        for j in 0..7 {
            for k in 0..7 {
                let ij = result.get_distance(i, j).unwrap() as u128;
                let ik = result.get_distance(i, k).unwrap() as u128;
                let kj = result.get_distance(k, j).unwrap() as u128;
                assert!(ij <= ik + kj);
            }
        }
    }
}

#[test]
fn unknown_id_has_no_distance() {
    let result = fixture().floyd_warshall_seq();
    assert_eq!(result.get_distance(0, 99), None);
    assert_eq!(result.get_distance(99, 0), None);
}

#[test]
fn prepared_matrix_keeps_cheapest_link_and_ignores_dangling_ones() {
    let mut graph = OrientedGraph::new();
    graph.add_node(node(1));
    graph.add_node(node(2));
    link(&mut graph, 1, 2, 9);
    link(&mut graph, 1, 2, 4);
    link(&mut graph, 1, 2, 6);
    link(&mut graph, 1, 1, 3);
    link(&mut graph, 2, 77, 1);
    let (dists, id_map, n) = prepare_matrix(&graph);
    assert_eq!(n, 2);
    assert_eq!(id_map.len(), 2);
    let a = id_map[&1];
    let b = id_map[&2];
    assert_eq!(dists.len(), 4);
    assert_eq!(dists[a * 2 + b], 4);
    assert_eq!(dists[a * 2 + a], 0);
    assert_eq!(dists[b * 2 + a], INF);
    assert_eq!(dists[b * 2 + b], 0);
}

#[test]
fn empty_graph_gives_empty_matrix() {
    let graph = OrientedGraph::new();
    let a = graph.floyd_warshall_seq();
    let b = graph.floyd_warshall_par();
    assert_eq!(a.size, 0);
    assert!(a.dists.is_empty());
    assert!(b.dists.is_empty());
}

#[test]
fn paths_within_the_length_limit_are_finite() {
    let mut graph = OrientedGraph::new();
    for id in 0..3 {
        graph.add_node(node(id));
    }
    let big = 1u64 << 61;
    link(&mut graph, 0, 1, big);
    link(&mut graph, 1, 2, big);
    let result = graph.floyd_warshall_seq();
    assert_eq!(result.get_distance(0, 2), Some(2 * big));
    assert_eq!(result.get_distance(2, 0), Some(INF));
}
