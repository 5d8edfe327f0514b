//! Raw routing-data elements as the fetch layer hands them over.
use vstd::prelude::*;

verus! {

/// One element: a point (`element_type` "node", with coordinates) or a way
/// (with tags and the ordered ids of its points). Coordinates are
/// fixed-point degrees, the angle multiplied by ten million.
#[derive(Debug)]
pub struct OverpassElement {
    pub element_type: String,
    pub id: i64,
    pub tags: Option<Vec<(String, String)>>,
    pub nodes: Option<Vec<i64>>,
    pub lat: Option<i64>,
    pub lon: Option<i64>,
}

/// A response: the list of elements.
#[derive(Debug)]
pub struct OverpassResponse {
    pub elements: Vec<OverpassElement>,
}

} // verus!
