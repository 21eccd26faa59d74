//! Identifiers of the objects of a road network.
//!
//! Intersections, roads and lanes are numbered densely: the identifier is the
//! position of the object in the network's tables. A turn is identified by
//! the two lanes it connects.

use vstd::prelude::*;

verus! {

/// Identifies an intersection.
#[derive(Clone, Copy, Debug, PartialEq, Eq, Structural, PartialOrd, Ord, Hash)]
pub struct IntersectionID(pub usize);

/// Identifies a road.
#[derive(Clone, Copy, Debug, PartialEq, Eq, Structural, PartialOrd, Ord, Hash)]
pub struct RoadID(pub usize);

/// Identifies a lane.
#[derive(Clone, Copy, Debug, PartialEq, Eq, Structural, PartialOrd, Ord, Hash)]
pub struct LaneID(pub usize);

/// Identifies a turn: the movement from the end of lane `src` onto the start
/// of lane `dst`.
#[derive(Clone, Copy, Debug, PartialEq, Eq, Structural, PartialOrd, Ord, Hash)]
pub struct TurnID {
    pub src: LaneID,
    pub dst: LaneID,
}

/// Order on lane pairs: by the first lane, then by the second.
pub open spec fn lane_pair_lt(a: (LaneID, LaneID), b: (LaneID, LaneID)) -> bool {
    a.0.0 < b.0.0 || (a.0.0 == b.0.0 && a.1.0 < b.1.0)
}

} // verus!
