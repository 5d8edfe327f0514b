use roads::manual::{CoordinateType, Edge, EdgeFactory, OrientedGraph, Vertex, VertexFactory};

#[test]
fn edge_test_factory_increments_id() {
    let mut factory: EdgeFactory = EdgeFactory::new();

    let e1: Edge = factory.create_edge(None, 0, 1, 1, None);
    let e2: Edge = factory.create_edge(
        Some(222309),
        0,
        1,
        1,
        Some(vec![("highway".to_string(), "footway".to_string())]),
    );

    assert_eq!(e1.id, 0);
    assert_eq!(e2.id, 1);
}

#[test]
fn edge_test_factory_sets_base_id() {
    let mut factory: EdgeFactory = EdgeFactory::new();

    let e1: Edge = factory.create_edge(None, 0, 1, 1, None);
    let e2: Edge = factory.create_edge(
        Some(222309),
        0,
        1,
        1,
        Some(vec![("highway".to_string(), "footway".to_string())]),
    );

    assert_eq!(e1.base_id, None);
    assert_eq!(e2.base_id, Some(222309));
}

#[test]
fn edge_test_factory_starts_at_zero() {
    let factory = EdgeFactory::new();
    assert_eq!(factory.next_id(), 0);
}

#[test]
fn vertex_test_factory_increments_id() {
    let mut factory = VertexFactory::new();

    let v1 = factory.create_vertex(None, (0, 0), CoordinateType::XY);
    let v2 = factory.create_vertex(Some(2346237), (323_000_000, 489_000_000), CoordinateType::GEO);

    assert_eq!(v1.id, 0);
    assert_eq!(v2.id, 1);
}

#[test]
fn vertex_test_factory_sets_base_id() {
    let mut factory = VertexFactory::new();

    let v1 = factory.create_vertex(None, (0, 0), CoordinateType::XY);
    let v2 = factory.create_vertex(Some(2346237), (323_000_000, 489_000_000), CoordinateType::GEO);

    assert_eq!(v1.base_id, None);
    assert_eq!(v2.base_id, Some(2346237));
}

#[test]
fn vertex_test_factory_starts_at_zero() {
    let factory = VertexFactory::new();
    assert_eq!(factory.next_id(), 0);
}

#[test]
fn factory_counts_after_creation() {
    let mut factory = VertexFactory::new();
    let v: Vertex = factory.create_vertex(None, (1, 2), CoordinateType::XY);
    assert_eq!(factory.next_id(), 1);
    assert_eq!(v.coordinates, (1, 2));
    assert_eq!(v.coordinate_type, CoordinateType::XY);
    assert!(v.successors.is_empty());
}

#[test]
fn manual_graph_keeps_last_vertex_and_edge_per_number() {
    let mut vertices = VertexFactory::new();
    let mut edges = EdgeFactory::new();
    let mut graph = OrientedGraph::new();
    let a = vertices.create_vertex(None, (0, 0), CoordinateType::XY);
    let b = vertices.create_vertex(None, (0, 10_000_000), CoordinateType::XY);
    graph.add_vertex(a);
    graph.add_vertex(b);
    graph.add_edge(edges.create_edge(None, 0, 1, 5, None));
    graph.add_edge(edges.create_edge(Some(9), 1, 0, 7, None));
    assert_eq!(graph.vertices.len(), 2);
    assert_eq!(graph.edges.len(), 2);
    assert_eq!(graph.edges[&0].origin, 0);
    assert_eq!(graph.edges[&0].destination, 1);
    assert_eq!(graph.edges[&1].weight, 7);
    let again = Vertex { id: 0, base_id: Some(3), coordinates: (5, 5), coordinate_type: CoordinateType::GEO, successors: Vec::new() };
    graph.add_vertex(again);
    assert_eq!(graph.vertices.len(), 2);
    assert_eq!(graph.vertices[&0].base_id, Some(3));
}
