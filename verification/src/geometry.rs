//! What the lines drawn for uber-turns and their groups are made of.
//!
//! Coordinates and widths are measured by whoever holds the network's
//! shapes. This module decides what is to be measured: which pieces make up
//! the line of an uber-turn, which points of a group's lines are averaged
//! with which, and which lanes of a road feed a group.

use vstd::prelude::*;
use crate::groups::UberTurnGroup;
use crate::ids::{LaneID, RoadID, TurnID};
use crate::network::RoadNetwork;
use crate::uber_turn::UberTurn;

verus! {

/// One piece of the line of an uber-turn: the line of a turn, or the centre
/// line of a lane.
#[derive(Clone, Copy, Debug, PartialEq, Eq, Structural)]
pub enum GeomPiece {
    Turn(TurnID),
    Lane(LaneID),
}

impl UberTurn {
    /// The pieces of this uber-turn's line, in the order in which they are
    /// joined end to end: the first turn, and then for each further turn the
    /// lane that leads to it and the turn itself.
    pub fn geom(&self) -> (r: Vec<GeomPiece>)
        requires
            self@.len() > 0,
        ensures
            r@.len() == 2 * self@.len() - 1,
            forall|j: int| 0 <= j < self@.len() ==> r@[2 * j] == GeomPiece::Turn(#[trigger] self@[j]),
            forall|j: int|
                0 <= j < self@.len() - 1 ==> r@[2 * j + 1] == GeomPiece::Lane(
                    (#[trigger] self@[j]).dst,
                ),
    {
        let mut out: Vec<GeomPiece> = Vec::new();
        out.push(GeomPiece::Turn(self.path[0]));
        let mut i: usize = 1;
        while i < self.path.len()
            invariant
                1 <= i <= self@.len(),
                out@.len() == 2 * i - 1,
                forall|j: int| 0 <= j < i ==> out@[2 * j] == GeomPiece::Turn(#[trigger] self@[j]),
                forall|j: int|
                    0 <= j < i - 1 ==> out@[2 * j + 1] == GeomPiece::Lane((#[trigger] self@[j]).dst),
            decreases self@.len() - i,
        {
            out.push(GeomPiece::Lane(self.path[i - 1].dst));
            out.push(GeomPiece::Turn(self.path[i]));
            i += 1;
        }
        out
    }
}

/// How the line of a group is made from the lines of its members.
#[derive(Clone, Debug, PartialEq, Eq)]
pub enum GroupGeom<P> {
    /// The members' lines differ in their number of points: the line of the
    /// first member stands for the group.
    Representative(Vec<P>),
    /// The members' lines have the same number of points. For each position
    /// along the line, the points that the members have there, member by
    /// member; the group's point at that position is their centre.
    Columns(Vec<Vec<P>>),
}

/// All the lines have as many points as the first.
pub open spec fn same_point_count<P>(lines: Seq<Vec<P>>) -> bool {
    forall|j: int| 0 <= j < lines.len() ==> (#[trigger] lines[j])@.len() == lines[0]@.len()
}

/// Decides how the line of a group is made from `polylines`, the lines of
/// its members. Where all have the same number of points, the points are
/// handed back position by position; otherwise the first line is.
pub fn group_geom<P: Copy>(polylines: Vec<Vec<P>>) -> (r: GroupGeom<P>)
    requires
        polylines@.len() > 0,
    ensures
        match r {
            GroupGeom::Representative(line) => !same_point_count(polylines@) && line@
                == polylines@[0]@,
            GroupGeom::Columns(columns) => {
                &&& same_point_count(polylines@)
                &&& columns@.len() == polylines@[0]@.len()
                &&& forall|i: int|
                    0 <= i < columns@.len() ==> (#[trigger] columns@[i])@.len() == polylines@.len()
                &&& forall|i: int, j: int|
                    0 <= i < columns@.len() && 0 <= j < polylines@.len() ==> (
                    #[trigger] columns@[i])@[j] == (#[trigger] polylines@[j])@[i]
            },
        },
{
    let mut lines = polylines;
    let ghost given = lines@;
    let num_pts = lines[0].len();
    let mut j: usize = 0;
    while j < lines.len()
        invariant
            lines@ == given,
            given == polylines@,
            given.len() > 0,
            num_pts == given[0]@.len(),
            j <= given.len(),
            forall|m: int| 0 <= m < j ==> (#[trigger] given[m])@.len() == num_pts,
        decreases given.len() - j,
    {
        if lines[j].len() != num_pts {
            proof {
                assert(given[j as int]@.len() != given[0]@.len());
            }
            let first = lines.remove(0);
            return GroupGeom::Representative(first);
        }
        j += 1;
    }
    let mut columns: Vec<Vec<P>> = Vec::new();
    let mut i: usize = 0;
    while i < num_pts
        invariant
            lines@ == given,
            same_point_count(given),
            given.len() > 0,
            num_pts == given[0]@.len(),
            i <= num_pts,
            columns@.len() == i,
            forall|a: int| 0 <= a < i ==> (#[trigger] columns@[a])@.len() == given.len(),
            forall|a: int, b: int|
                0 <= a < i && 0 <= b < given.len() ==> (#[trigger] columns@[a])@[b] == (
                #[trigger] given[b])@[a],
        decreases num_pts - i,
    {
        let mut column: Vec<P> = Vec::new();
        let mut m: usize = 0;
        while m < lines.len()
            invariant
                lines@ == given,
                same_point_count(given),
                num_pts == given[0]@.len(),
                i < num_pts,
                m <= given.len(),
                column@.len() == m,
                forall|b: int| 0 <= b < m ==> column@[b] == (#[trigger] given[b])@[i as int],
            decreases given.len() - m,
        {
            column.push(lines[m][i]);
            m += 1;
        }
        columns.push(column);
        i += 1;
    }
    GroupGeom::Columns(columns)
}

/// Some member of the group starts on lane `l`.
pub open spec fn feeds(group: Seq<Seq<TurnID>>, l: LaneID) -> bool {
    exists|m: int| 0 <= m < group.len() && (#[trigger] group[m])[0].src == l
}

/// The part of a road's cross-section that feeds a group.
#[derive(Clone, Debug, PartialEq, Eq)]
pub struct EntryBand {
    /// The road on which the group's entry lanes lie.
    pub road: RoadID,
    /// Whether those lanes run in the road's own direction. Where they do
    /// not, the road's centre line is to be reversed so that it points
    /// towards the intersection.
    pub forwards: bool,
    /// The lanes on that side of the road, in cross-section order, each with
    /// whether some member of the group starts on it.
    pub lanes: Vec<(LaneID, bool)>,
}

impl UberTurnGroup {
    fn starts_on(&self, l: LaneID) -> (r: bool)
        requires
            forall|m: int| 0 <= m < self@.len() ==> (#[trigger] self@[m]).len() > 0,
        ensures
            r == feeds(self@, l),
    {
        let mut m: usize = 0;
        while m < self.members.len()
            invariant
                forall|a: int| 0 <= a < self@.len() ==> (#[trigger] self@[a]).len() > 0,
                m <= self@.len(),
                forall|a: int| 0 <= a < m ==> (#[trigger] self@[a])[0].src != l,
            decreases self@.len() - m,
        {
            proof {
                assert(self@[m as int] == self.members@[m as int]@);
            }
            if self.members[m].entry() == l {
                return true;
            }
            m += 1;
        }
        false
    }

    /// Finds the band of the entry road that feeds this group: the road of
    /// the first member's entry lane, the side of it on which that lane
    /// lies, and for each lane on that side whether a member starts on it.
    ///
    /// The centre of the band and its width follow by adding up lane widths
    /// across the side: the band reaches from the left edge of the first
    /// marked lane to the right edge of the last.
    pub fn src_center_and_width(&self, map: &RoadNetwork) -> (r: EntryBand)
        requires
            map.wf(),
            self@.len() > 0,
            forall|m: int| 0 <= m < self@.len() ==> (#[trigger] self@[m]).len() > 0,
            map.has_lane(self@[0][0].src),
        ensures
            r.road == map.lane(self@[0][0].src).parent,
            r.forwards == map.road(r.road).spec_is_forwards(self@[0][0].src),
            r.lanes@.len() == map.road(r.road).side_lanes(r.forwards).len(),
            forall|k: int|
                0 <= k < r.lanes@.len() ==> (#[trigger] r.lanes@[k]) == (
                    map.road(r.road).side_lanes(r.forwards)[k],
                    feeds(self@, map.road(r.road).side_lanes(r.forwards)[k]),
                ),
    {
        proof {
            assert(self@[0] == self.members@[0]@);
        }
        let sample_entry = self.members[0].entry();
        let road = map.get_parent(sample_entry);
        let forwards = road.is_forwards(sample_entry);
        let side = road.lanes_on_side(forwards);
        let mut lanes: Vec<(LaneID, bool)> = Vec::new();
        let mut k: usize = 0;
        while k < side.len()
            invariant
                forall|m: int| 0 <= m < self@.len() ==> (#[trigger] self@[m]).len() > 0,
                k <= side@.len(),
                lanes@.len() == k,
                forall|a: int|
                    0 <= a < k ==> (#[trigger] lanes@[a]) == (side@[a], feeds(self@, side@[a])),
            decreases side@.len() - k,
        {
            let l = side[k];
            lanes.push((l, self.starts_on(l)));
            k += 1;
        }
        proof {
            assert(map.lane_ok(sample_entry.0 as int));
            assert(map.road_ok(map.lane(sample_entry).parent.0 as int));
        }
        EntryBand { road: road.id, forwards, lanes }
    }
}

} // verus!
