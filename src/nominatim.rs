//! A place-search result as the geocoding service returns it.
use vstd::prelude::*;

verus! {

/// One match of a place search: the place's ids, coordinates as the
/// service writes them, names and classification.
#[derive(Debug)]
pub struct NominatimResult {
    pub place_id: u64,
    pub lat: String,
    pub lon: String,
    pub display_name: String,
    pub name: Option<String>,
    pub result_type: String,
    pub class: String,
    pub osm_id: i64,
    pub osm_type: String,
}

} // verus!
