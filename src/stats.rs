//! Counters gathered while looking over fetched road data.
use std::collections::HashMap;
use vstd::prelude::*;

verus! {

broadcast use vstd::std_specs::hash::group_hash_axioms;

/// Road statistics: element count, elements per highway class, distinct
/// names, and points per road.
#[derive(Debug)]
pub struct RoadStats {
    pub total_roads: usize,
    pub highway_types: HashMap<String, usize>,
    pub unique_names: usize,
    pub points_per_road: HashMap<i64, usize>,
}

impl RoadStats {
    /// Empty statistics.
    pub fn new() -> (r: RoadStats)
        ensures
            r.total_roads == 0,
            r.highway_types@ == Map::<String, usize>::empty(),
            r.unique_names == 0,
            r.points_per_road@ == Map::<i64, usize>::empty(),
    {
        RoadStats {
            total_roads: 0,
            highway_types: HashMap::new(),
            unique_names: 0,
            points_per_road: HashMap::new(),
        }
    }
}

} // verus!
