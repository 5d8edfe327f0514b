use roads::network::{Link, Node, OrientedGraph};

fn node(id: i64) -> Node {
    Node::new(id, 0, 0)
}

fn graph_with(ids: &[i64], edges: &[(i64, i64)]) -> OrientedGraph {
    let mut graph = OrientedGraph::new();
    for &id in ids {
        graph.add_node(node(id));
    }
    for &(a, b) in edges {
        graph.add_link(Link::with_fixed_distance(&node(a), &node(b), 0, Vec::new(), 1));
    }
    graph
}

fn sorted(mut components: Vec<Vec<i64>>) -> Vec<Vec<i64>> {
    for c in components.iter_mut() {
        c.sort();
    }
    components.sort();
    components
}

#[test]
fn components_partition_the_nodes() {
    let graph = graph_with(
        &[0, 1, 2, 3, 4, 5, 6],
        &[(0, 1), (1, 0), (1, 2), (2, 1), (2, 4), (2, 3), (3, 2), (3, 4), (3, 5), (5, 3), (5, 6), (5, 0), (6, 5), (6, 0), (0, 6), (0, 5)],
    );
    let components = graph.tarjan_seq();
    let mut all: Vec<i64> = components.iter().flatten().copied().collect();
    all.sort();
    assert_eq!(all, vec![0, 1, 2, 3, 4, 5, 6]);
    assert_eq!(sorted(components), vec![vec![0, 1, 2, 3, 5, 6], vec![4]]);
}

#[test]
fn single_cycle_is_one_component() {
    for n in 1..8i64 {
        let ids: Vec<i64> = (0..n).collect();
        let edges: Vec<(i64, i64)> = (0..n).map(|i| (i, (i + 1) % n)).collect();
        let components = graph_with(&ids, &edges).tarjan_seq();
        assert_eq!(components.len(), 1);
        assert_eq!(sorted(components), vec![ids.clone()]);
    }
}

#[test]
fn acyclic_graph_gives_singletons() {
    let ids: Vec<i64> = (0..6).collect();
    let edges = vec![(0, 1), (0, 2), (1, 3), (2, 3), (3, 4), (1, 5), (0, 5)];
    let components = graph_with(&ids, &edges).tarjan_seq();
    assert_eq!(components.len(), 6);
    assert_eq!(sorted(components), vec![vec![0], vec![1], vec![2], vec![3], vec![4], vec![5]]);
}

#[test]
fn isolated_nodes_are_singletons() {
    let components = graph_with(&[7, 8, 9], &[]).tarjan_seq();
    assert_eq!(sorted(components), vec![vec![7], vec![8], vec![9]]);
}

#[test]
fn empty_graph_has_no_components() {
    assert!(OrientedGraph::new().tarjan_seq().is_empty());
}

#[test]
fn walks_may_pass_through_ids_that_are_not_nodes() {
    let components = graph_with(&[1, 2, 3], &[(1, 2), (2, 50), (50, 1), (3, 60)]).tarjan_seq();
    assert_eq!(sorted(components), vec![vec![1, 2], vec![3]]);
}

#[test]
fn deep_chain_does_not_exhaust_the_stack() {
    let n = 3_000i64;
    let ids: Vec<i64> = (0..n).collect();
    let edges: Vec<(i64, i64)> = (0..n - 1).map(|i| (i, i + 1)).collect();
    let components = graph_with(&ids, &edges).tarjan_seq();
    assert_eq!(components.len(), n as usize);
}

#[test]
fn components_are_never_empty() {
    let graph = graph_with(&[0, 1, 2, 3], &[(0, 1), (1, 0), (2, 3)]);
    let components = graph.tarjan_seq();
    assert!(components.iter().all(|c| !c.is_empty()));
    assert_eq!(sorted(components), vec![vec![0, 1], vec![2], vec![3]]);
}
