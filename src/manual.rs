//! A graph of numbered vertices and edges, each numbered by a factory in
//! order of creation.
use std::collections::HashMap;
use vstd::prelude::*;

verus! {

broadcast use vstd::std_specs::hash::group_hash_axioms;

/// How a vertex's coordinates are read: as latitude and longitude, or as
/// plane x and y.
#[derive(Debug, Clone, Copy, PartialEq, Eq, Structural)]
pub enum CoordinateType {
    GEO,
    XY,
}

/// A numbered vertex. Coordinates are fixed-point, the value multiplied
/// by ten million.
#[derive(Debug)]
pub struct Vertex {
    pub id: usize,
    pub base_id: Option<i64>,
    pub coordinates: (i64, i64),
    pub coordinate_type: CoordinateType,
    pub successors: Vec<usize>,
}

/// Hands out vertices numbered 0, 1, 2, ...
pub struct VertexFactory {
    next_id: usize,
}

impl VertexFactory {
    pub closed spec fn next(&self) -> nat {
        self.next_id as nat
    }

    pub fn new() -> (r: VertexFactory)
        ensures
            r.next() == 0,
    {
        VertexFactory { next_id: 0 }
    }

    /// The number the next vertex will get.
    pub fn next_id(&self) -> (r: usize)
        ensures
            r == self.next(),
    {
        self.next_id
    }

    pub fn create_vertex(
        &mut self,
        base_id: Option<i64>,
        coordinates: (i64, i64),
        coordinate_type: CoordinateType,
    ) -> (r: Vertex)
        requires
            old(self).next() < usize::MAX,
        ensures
            r.id == old(self).next(),
            final(self).next() == old(self).next() + 1,
            r.base_id == base_id,
            r.coordinates == coordinates,
            r.coordinate_type == coordinate_type,
            r.successors@.len() == 0,
    {
        let id = self.next_id;
        self.next_id = id + 1;
        Vertex { id, base_id, coordinates, coordinate_type, successors: Vec::new() }
    }
}

/// A numbered, weighted edge between two vertex numbers.
#[derive(Debug)]
pub struct Edge {
    pub id: usize,
    pub base_id: Option<i64>,
    pub origin: usize,
    pub destination: usize,
    pub weight: u64,
    pub tags: Option<Vec<(String, String)>>,
}

/// Hands out edges numbered 0, 1, 2, ...
pub struct EdgeFactory {
    next_id: usize,
}

impl EdgeFactory {
    pub closed spec fn next(&self) -> nat {
        self.next_id as nat
    }

    pub fn new() -> (r: EdgeFactory)
        ensures
            r.next() == 0,
    {
        EdgeFactory { next_id: 0 }
    }

    /// The number the next edge will get.
    pub fn next_id(&self) -> (r: usize)
        ensures
            r == self.next(),
    {
        self.next_id
    }

    pub fn create_edge(
        &mut self,
        base_id: Option<i64>,
        origin: usize,
        destination: usize,
        weight: u64,
        tags: Option<Vec<(String, String)>>,
    ) -> (r: Edge)
        requires
            old(self).next() < usize::MAX,
        ensures
            r.id == old(self).next(),
            final(self).next() == old(self).next() + 1,
            r.base_id == base_id,
            r.origin == origin,
            r.destination == destination,
            r.weight == weight,
            r.tags == tags,
    {
        let id = self.next_id;
        self.next_id = id + 1;
        Edge { id, base_id, origin, destination, weight, tags }
    }
}

/// Vertices and edges keyed by their numbers.
#[derive(Debug)]
pub struct OrientedGraph {
    pub vertices: HashMap<usize, Vertex>,
    pub edges: HashMap<usize, Edge>,
}

impl OrientedGraph {
    pub fn new() -> (r: OrientedGraph)
        ensures
            r.vertices@ == Map::<usize, Vertex>::empty(),
            r.edges@ == Map::<usize, Edge>::empty(),
    {
        OrientedGraph { vertices: HashMap::new(), edges: HashMap::new() }
    }

    /// Stores `vertex` under its number, replacing any vertex with that number.
    pub fn add_vertex(&mut self, vertex: Vertex)
        ensures
            final(self).vertices@ == old(self).vertices@.insert(vertex.id, vertex),
            final(self).edges@ == old(self).edges@,
    {
        let id = vertex.id;
        self.vertices.insert(id, vertex);
    }

    /// Stores `edge` under its number, replacing any edge with that number.
    pub fn add_edge(&mut self, edge: Edge)
        ensures
            final(self).edges@ == old(self).edges@.insert(edge.id, edge),
            final(self).vertices@ == old(self).vertices@,
    {
        let id = edge.id;
        self.edges.insert(id, edge);
    }
}

} // verus!
