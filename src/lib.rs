//! Road-network analysis: a graph store built from routing-data elements,
//! all-pairs shortest distances and strongly connected components.
pub mod network;
pub mod shortest_paths;
pub mod components;
pub mod overpass;
pub mod roads;
pub mod manual;
pub mod stats;
pub mod nominatim;
