use roads::network::{Node, OrientedGraph};
use roads::overpass::{OverpassElement, OverpassResponse};
use roads::roads::{drivable_highways, find_tag, is_drivable, is_oneway, roads_to_graph, roads_to_graph_with};

fn point(id: i64, lat: Option<i64>, lon: Option<i64>) -> OverpassElement {
    OverpassElement { element_type: "node".to_string(), id, tags: None, nodes: None, lat, lon }
}

fn way(id: i64, tags: &[(&str, &str)], nodes: Option<Vec<i64>>) -> OverpassElement {
    let tags: Vec<(String, String)> = tags.iter().map(|(k, v)| (k.to_string(), v.to_string())).collect();
    OverpassElement { element_type: "way".to_string(), id, tags: Some(tags), nodes, lat: None, lon: None }
}

fn manhattan(a: Node, b: Node) -> u64 {
    ((a.lat - b.lat).unsigned_abs() + (a.lon - b.lon).unsigned_abs()) as u64
}

fn pairs(graph: &OrientedGraph) -> Vec<(i64, i64)> {
    graph.link_list().iter().map(|l| (l.origin_id, l.dest_id)).collect()
}

fn three_points() -> Vec<OverpassElement> {
    vec![point(1, Some(0), Some(0)), point(2, Some(10), Some(0)), point(3, Some(10), Some(5))]
}

fn build(tags: &[(&str, &str)]) -> OrientedGraph {
    let mut elements = three_points();
    elements.push(way(100, tags, Some(vec![1, 2, 3])));
    roads_to_graph(&OverpassResponse { elements }, &manhattan)
}

#[test]
fn one_way_yes_gives_forward_links_only() {
    let graph = build(&[("highway", "residential"), ("oneway", "yes")]);
    assert_eq!(pairs(&graph), vec![(1, 2), (2, 3)]);
}

#[test]
fn one_way_truthy_values() {
    assert_eq!(pairs(&build(&[("highway", "primary"), ("oneway", "1")])), vec![(1, 2), (2, 3)]);
    assert_eq!(pairs(&build(&[("highway", "primary"), ("oneway", "true")])), vec![(1, 2), (2, 3)]);
}

#[test]
fn missing_or_other_one_way_gives_both_directions() {
    let both = vec![(1, 2), (2, 1), (2, 3), (3, 2)];
    assert_eq!(pairs(&build(&[("highway", "residential")])), both);
    assert_eq!(pairs(&build(&[("highway", "residential"), ("oneway", "no")])), both);
    assert_eq!(pairs(&build(&[("highway", "residential"), ("oneway", "-1")])), both);
    assert_eq!(pairs(&build(&[("highway", "residential"), ("oneway", "YES")])), both);
}

#[test]
fn links_carry_way_weight_and_tags() {
    let graph = build(&[("highway", "service"), ("oneway", "yes")]);
    let links = graph.link_list();
    assert_eq!(links[0].way_id, 100);
    assert_eq!(links[0].distance, 10);
    assert_eq!(links[1].distance, 5);
    assert_eq!(links[0].tags.len(), 2);
    assert_eq!(graph.node_count(), 3);
    assert_eq!(graph.get_node(3), Some(&Node::new(3, 10, 5)));
}

#[test]
fn non_drivable_and_untagged_ways_add_nothing() {
    let mut elements = three_points();
    elements.push(way(100, &[("highway", "footway")], Some(vec![1, 2, 3])));
    elements.push(way(101, &[("name", "Rue")], Some(vec![1, 2])));
    elements.push(OverpassElement { element_type: "way".to_string(), id: 102, tags: None, nodes: Some(vec![2, 3]), lat: None, lon: None });
    elements.push(way(103, &[("highway", "primary")], None));
    elements.push(way(104, &[("highway", "primary")], Some(vec![])));
    let graph = roads_to_graph(&OverpassResponse { elements }, &manhattan);
    assert_eq!(graph.node_count(), 0);
    assert_eq!(graph.link_count(), 0);
}

#[test]
fn points_without_coordinates_are_skipped() {
    let elements = vec![
        point(1, Some(0), Some(0)),
        point(2, Some(3), None),
        point(3, Some(10), Some(5)),
        point(4, Some(10), Some(9)),
        way(100, &[("highway", "tertiary"), ("oneway", "yes")], Some(vec![1, 2, 3, 4, 99])),
    ];
    let graph = roads_to_graph(&OverpassResponse { elements }, &manhattan);
    assert_eq!(graph.node_count(), 3);
    assert_eq!(graph.get_node(2), None);
    assert_eq!(pairs(&graph), vec![(3, 4)]);
}

#[test]
fn later_point_element_wins() {
    let elements = vec![
        point(1, Some(0), Some(0)),
        point(2, Some(1), Some(1)),
        point(2, Some(50), Some(0)),
        way(7, &[("highway", "road"), ("oneway", "yes")], Some(vec![1, 2])),
    ];
    let graph = roads_to_graph(&OverpassResponse { elements }, &manhattan);
    assert_eq!(graph.link_list()[0].distance, 50);
}

#[test]
fn custom_class_list() {
    let mut elements = three_points();
    elements.push(way(5, &[("highway", "cycleway"), ("oneway", "yes")], Some(vec![1, 2])));
    elements.push(way(6, &[("highway", "primary"), ("oneway", "yes")], Some(vec![2, 3])));
    let response = OverpassResponse { elements };
    let classes = vec!["cycleway".to_string()];
    let graph = roads_to_graph_with(&response, &classes, &manhattan);
    assert_eq!(pairs(&graph), vec![(1, 2)]);
    let graph = roads_to_graph(&response, &manhattan);
    assert_eq!(pairs(&graph), vec![(2, 3)]);
}

#[test]
fn drivable_classes() {
    for class in ["motorway", "trunk_link", "residential", "living_street", "service", "road", "unclassified"] {
        assert!(is_drivable(class));
    }
    for class in ["footway", "cycleway", "path", "", "Motorway", "steps"] {
        assert!(!is_drivable(class));
    }
    assert_eq!(drivable_highways().len(), 15);
}

#[test]
fn tag_lookup_and_one_way_flag() {
    let tags = vec![("name".to_string(), "A".to_string()), ("oneway".to_string(), "true".to_string())];
    assert_eq!(find_tag(&tags, &"oneway".to_string()), Some(&"true".to_string()));
    assert_eq!(find_tag(&tags, &"highway".to_string()), None);
    assert!(is_oneway(&tags));
    assert!(!is_oneway(&vec![("oneway".to_string(), "no".to_string())]));
    assert!(!is_oneway(&Vec::new()));
}

#[test]
fn built_graph_components_cover_its_nodes() {
    let graph = build(&[("highway", "residential"), ("oneway", "yes")]);
    let mut components = graph.tarjan_seq();
    components.sort();
    assert_eq!(components, vec![vec![1], vec![2], vec![3]]);
    let result = graph.floyd_warshall_seq();
    assert_eq!(result.get_distance(1, 3), Some(15));
}

fn northward_only(a: Node, b: Node) -> u64 {
    if b.lat >= a.lat {
        ((b.lat - a.lat) as u64) + 1000
    } else {
        1
    }
}

#[test]
fn reverse_link_copies_weight_and_tags_of_forward_link() {
    let mut elements = three_points();
    elements.push(way(100, &[("highway", "residential"), ("name", "Rue")], Some(vec![1, 2, 3])));
    let graph = roads_to_graph(&OverpassResponse { elements }, &northward_only);
    let links = graph.link_list();
    assert_eq!(links.len(), 4);
    assert_eq!((links[0].origin_id, links[0].dest_id, links[0].distance), (1, 2, 1010));
    assert_eq!((links[1].origin_id, links[1].dest_id, links[1].distance), (2, 1, 1010));
    assert_eq!((links[2].origin_id, links[2].dest_id, links[2].distance), (2, 3, 1000));
    assert_eq!((links[3].origin_id, links[3].dest_id, links[3].distance), (3, 2, 1000));
    let expected = vec![("highway".to_string(), "residential".to_string()), ("name".to_string(), "Rue".to_string())];
    for l in links {
        assert_eq!(l.tags, expected);
        assert_eq!(l.way_id, 100);
    }
}

#[test]
fn copied_tags_are_equal() {
    let tags = vec![("a".to_string(), "1".to_string()), ("b".to_string(), "2".to_string())];
    assert_eq!(roads::roads::copy_tags(&tags), tags);
    assert!(roads::roads::copy_tags(&Vec::new()).is_empty());
}
