//! Intersection clusters and uber-turns over a static road network.
//!
//! Some turn restrictions span more than one intersection: "coming from road
//! A, through road B, you may not continue onto road C". Intersections joined
//! by such a via-road have to be routed through as one unit. This crate finds
//! those clusters of intersections and, per cluster, every movement that
//! crosses it from an outside lane to an outside lane.
//!
//! The pieces, from the bottom up: [`network`] holds the road network that
//! is analysed; [`restrictions`] flattens its turn restrictions;
//! [`components`] and [`cluster`] find the clusters; [`boundary`] tells the
//! entrances and exits of a cluster; [`search`] walks from an entrance to the
//! exits; [`groups`] and [`geometry`] prepare the result for drawing; and
//! [`reach`] answers which lanes can be reached from which.

pub mod ids;
pub mod network;
pub mod collections;
pub mod uber_turn;
pub mod search;
pub mod restrictions;
pub mod components;
pub mod boundary;
pub mod members;
pub mod cluster;
pub mod groups;
pub mod geometry;
pub mod reach;

pub use cluster::IntersectionCluster;
pub use geometry::{group_geom, EntryBand, GeomPiece, GroupGeom};
pub use groups::UberTurnGroup;
pub use ids::{IntersectionID, LaneID, RoadID, TurnID};
pub use network::{Intersection, Lane, LaneType, Road, RoadNetwork, Turn, TurnType};
pub use reach::{find_reachable_from, LaneSet};
pub use search::{flood, trace_back};
pub use uber_turn::UberTurn;
