use roads::network::{Link, Node, OrientedGraph};

fn node(id: i64) -> Node {
    Node::new(id, id * 1_000, id * 2_000)
}

#[test]
fn re_adding_a_node_overwrites_it() {
    let mut graph = OrientedGraph::new();
    graph.add_node(Node::new(5, 10, 20));
    graph.add_node(Node::new(6, 11, 21));
    graph.add_node(Node::new(5, 30, 40));
    assert_eq!(graph.node_count(), 2);
    assert_eq!(graph.get_node(5), Some(&Node::new(5, 30, 40)));
    assert_eq!(graph.node_id_list(), &vec![5, 6]);
    assert_eq!(graph.get_node(7), None);
}

#[test]
fn outgoing_links_in_insertion_order() {
    let mut graph = OrientedGraph::new();
    for id in 1..5 {
        graph.add_node(node(id));
    }
    graph.add_link(Link::with_fixed_distance(&node(3), &node(1), 7, Vec::new(), 10));
    graph.add_link(Link::with_fixed_distance(&node(2), &node(1), 7, Vec::new(), 11));
    graph.add_link(Link::with_fixed_distance(&node(3), &node(3), 8, Vec::new(), 12));
    graph.add_link(Link::with_fixed_distance(&node(3), &node(5), 9, Vec::new(), 13));
    let out = graph.get_outgoing_links(3);
    assert_eq!(out.len(), 3);
    assert_eq!((out[0].dest_id, out[0].distance), (1, 10));
    assert_eq!((out[1].dest_id, out[1].distance), (3, 12));
    assert_eq!((out[2].dest_id, out[2].way_id), (5, 9));
    assert!(graph.get_outgoing_links(4).is_empty());
    assert!(graph.get_outgoing_links(42).is_empty());
    assert_eq!(graph.link_count(), 4);
}

#[test]
fn links_may_name_unknown_nodes() {
    let mut graph = OrientedGraph::new();
    graph.add_link(Link::with_fixed_distance(&node(100), &node(200), 1, Vec::new(), 5));
    assert_eq!(graph.node_count(), 0);
    assert_eq!(graph.get_outgoing_links(100).len(), 1);
}

#[test]
fn fixed_distance_link_keeps_its_fields() {
    let tags = vec![("highway".to_string(), "residential".to_string())];
    let l = Link::with_fixed_distance(&node(1), &node(2), 77, tags.clone(), 23);
    assert_eq!(l.origin_id, 1);
    assert_eq!(l.dest_id, 2);
    assert_eq!(l.way_id, 77);
    assert_eq!(l.distance, 23);
    assert_eq!(l.tags, tags);
}
