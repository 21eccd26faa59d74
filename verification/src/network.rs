//! The road network that the analysis reads.
//!
//! A network is three dense tables: roads, lanes and intersections. Each
//! intersection lists the turns that take place at it. The analysis never
//! changes a network; it only asks the questions gathered here.

use vstd::prelude::*;
use crate::ids::{IntersectionID, LaneID, RoadID, TurnID};

verus! {

/// What a lane is for.
#[derive(Clone, Copy, Debug, PartialEq, Eq, Structural)]
pub enum LaneType {
    Driving,
    Parking,
    Sidewalk,
    Biking,
    Bus,
    SharedLeftTurn,
}

/// The shape of a turn. The two sidewalk kinds are walked, all others are
/// driven.
#[derive(Clone, Copy, Debug, PartialEq, Eq, Structural)]
pub enum TurnType {
    Crosswalk,
    SharedSidewalkCorner,
    Straight,
    LaneChangeLeft,
    LaneChangeRight,
    Right,
    Left,
}

/// One lane of a road. It runs from `src_i` to `dst_i`.
#[derive(Clone, Copy, Debug)]
pub struct Lane {
    pub id: LaneID,
    pub parent: RoadID,
    pub lane_type: LaneType,
    pub src_i: IntersectionID,
    pub dst_i: IntersectionID,
}

/// A road between two intersections.
///
/// A pair `(via, to)` in `complicated_turn_restrictions` forbids the movement
/// from this road, through road `via`, onto road `to`.
#[derive(Clone, Debug)]
pub struct Road {
    pub id: RoadID,
    pub src_i: IntersectionID,
    pub dst_i: IntersectionID,
    pub complicated_turn_restrictions: Vec<(RoadID, RoadID)>,
    /// Lanes running from `src_i` to `dst_i`, in cross-section order.
    pub children_forwards: Vec<LaneID>,
    /// Lanes running from `dst_i` to `src_i`, in cross-section order.
    pub children_backwards: Vec<LaneID>,
}

/// A turn with its intersection-local properties.
#[derive(Clone, Copy, Debug)]
pub struct Turn {
    pub id: TurnID,
    pub turn_type: TurnType,
    /// Whether the intersection's own rules permit the turn.
    pub allowed: bool,
}

/// An intersection and the turns that take place at it.
#[derive(Clone, Debug)]
pub struct Intersection {
    pub id: IntersectionID,
    pub turns: Vec<Turn>,
}

/// A static road network.
#[derive(Clone, Debug)]
pub struct RoadNetwork {
    pub roads: Vec<Road>,
    pub lanes: Vec<Lane>,
    pub intersections: Vec<Intersection>,
}

impl Lane {
    pub open spec fn spec_is_sidewalk(&self) -> bool {
        self.lane_type == LaneType::Sidewalk
    }

    pub open spec fn spec_is_parking(&self) -> bool {
        self.lane_type == LaneType::Parking
    }

    #[verifier::when_used_as_spec(spec_is_sidewalk)]
    pub fn is_sidewalk(&self) -> (r: bool)
        ensures
            r == (self.lane_type == LaneType::Sidewalk),
    {
        self.lane_type == LaneType::Sidewalk
    }

    #[verifier::when_used_as_spec(spec_is_parking)]
    pub fn is_parking(&self) -> (r: bool)
        ensures
            r == (self.lane_type == LaneType::Parking),
    {
        self.lane_type == LaneType::Parking
    }
}

impl Turn {
    pub open spec fn spec_between_sidewalks(&self) -> bool {
        self.turn_type == TurnType::SharedSidewalkCorner || self.turn_type == TurnType::Crosswalk
    }

    /// Whether the turn is walked rather than driven.
    #[verifier::when_used_as_spec(spec_between_sidewalks)]
    pub fn between_sidewalks(&self) -> (r: bool)
        ensures
            r == self.spec_between_sidewalks(),
    {
        self.turn_type == TurnType::SharedSidewalkCorner || self.turn_type == TurnType::Crosswalk
    }
}

impl Road {
    /// The lanes on one side of the road, in cross-section order.
    pub open spec fn side_lanes(&self, forwards: bool) -> Seq<LaneID> {
        if forwards {
            self.children_forwards@
        } else {
            self.children_backwards@
        }
    }

    /// Whether lane `l` runs in the road's own direction.
    pub open spec fn spec_is_forwards(&self, l: LaneID) -> bool {
        self.children_forwards@.contains(l)
    }

    pub fn lanes_on_side(&self, forwards: bool) -> (r: &Vec<LaneID>)
        ensures
            r@ == self.side_lanes(forwards),
    {
        if forwards {
            &self.children_forwards
        } else {
            &self.children_backwards
        }
    }

    pub fn is_forwards(&self, l: LaneID) -> (r: bool)
        ensures
            r == self.spec_is_forwards(l),
    {
        let mut k: usize = 0;
        while k < self.children_forwards.len()
            invariant
                k <= self.children_forwards@.len(),
                forall|j: int| 0 <= j < k ==> self.children_forwards@[j] != l,
            decreases self.children_forwards@.len() - k,
        {
            if self.children_forwards[k] == l {
                return true;
            }
            k += 1;
        }
        false
    }
}

impl RoadNetwork {
    pub open spec fn has_road(&self, r: RoadID) -> bool {
        r.0 < self.roads@.len()
    }

    pub open spec fn has_lane(&self, l: LaneID) -> bool {
        l.0 < self.lanes@.len()
    }

    pub open spec fn has_intersection(&self, i: IntersectionID) -> bool {
        i.0 < self.intersections@.len()
    }

    pub open spec fn road(&self, r: RoadID) -> Road {
        self.roads@[r.0 as int]
    }

    pub open spec fn lane(&self, l: LaneID) -> Lane {
        self.lanes@[l.0 as int]
    }

    /// The turns that take place at intersection `i`.
    pub open spec fn turns_in(&self, i: IntersectionID) -> Seq<Turn> {
        self.intersections@[i.0 as int].turns@
    }

    /// The turns that leave lane `l`, in the order in which the intersection
    /// at the lane's end lists them.
    pub open spec fn turns_from_lane(&self, l: LaneID) -> Seq<TurnID> {
        self.turns_in(self.lane(l).dst_i).filter(|t: Turn| t.id.src == l).map_values(
            |t: Turn| t.id,
        )
    }

    /// Whether `t` is a turn of this network.
    pub open spec fn has_turn(&self, t: TurnID) -> bool {
        &&& self.has_lane(t.src)
        &&& self.has_lane(t.dst)
        &&& exists|j: int|
            0 <= j < self.turns_in(self.lane(t.src).dst_i).len() && (#[trigger] self.turns_in(
                self.lane(t.src).dst_i,
            )[j]).id == t
    }

    /// Road `k` carries its own position as identifier and names only
    /// intersections, roads and lanes that exist.
    pub open spec fn road_ok(&self, k: int) -> bool {
        let r = self.roads@[k];
        &&& r.id.0 == k
        &&& self.has_intersection(r.src_i)
        &&& self.has_intersection(r.dst_i)
        &&& forall|j: int|
            0 <= j < r.complicated_turn_restrictions@.len() ==> self.has_road(
                (#[trigger] r.complicated_turn_restrictions@[j]).0,
            ) && self.has_road(r.complicated_turn_restrictions@[j].1)
        &&& forall|j: int|
            0 <= j < r.children_forwards@.len() ==> self.has_lane(#[trigger] r.children_forwards@[j])
        &&& forall|j: int|
            0 <= j < r.children_backwards@.len() ==> self.has_lane(
                #[trigger] r.children_backwards@[j],
            )
    }

    /// Lane `k` carries its own position as identifier and names only a road
    /// and intersections that exist.
    pub open spec fn lane_ok(&self, k: int) -> bool {
        let l = self.lanes@[k];
        &&& l.id.0 == k
        &&& self.has_road(l.parent)
        &&& self.has_intersection(l.src_i)
        &&& self.has_intersection(l.dst_i)
    }

    /// Turn `t`, listed at intersection `i`, connects two existing lanes:
    /// one that ends at `i` and one that starts there.
    pub open spec fn turn_ok(&self, i: int, t: Turn) -> bool {
        &&& self.has_lane(t.id.src)
        &&& self.has_lane(t.id.dst)
        &&& self.lane(t.id.src).dst_i.0 == i
        &&& self.lane(t.id.dst).src_i.0 == i
    }

    /// Intersection `k` carries its own position as identifier, and each of
    /// its turns is well connected.
    pub open spec fn intersection_ok(&self, k: int) -> bool {
        let i = self.intersections@[k];
        &&& i.id.0 == k
        &&& forall|j: int| 0 <= j < i.turns@.len() ==> self.turn_ok(k, #[trigger] i.turns@[j])
    }

    /// A turn that follows a driven turn is driven too: no walked turn
    /// leaves a lane on which a driven turn ends.
    pub open spec fn driving_continues(&self) -> bool {
        forall|i: IntersectionID, a: int, j: IntersectionID, b: int|
            #![trigger self.turns_in(i)[a], self.turns_in(j)[b]]
            self.has_intersection(i) && 0 <= a < self.turns_in(i).len() && self.has_intersection(j)
                && 0 <= b < self.turns_in(j).len() && self.turns_in(j)[b].id.src == self.turns_in(
                i,
            )[a].id.dst && !self.turns_in(i)[a].between_sidewalks() ==> !self.turns_in(
                j,
            )[b].between_sidewalks()
    }

    /// The network is consistent: no identifier dangles.
    pub open spec fn wf(&self) -> bool {
        &&& forall|k: int| 0 <= k < self.roads@.len() ==> #[trigger] self.road_ok(k)
        &&& forall|k: int| 0 <= k < self.lanes@.len() ==> #[trigger] self.lane_ok(k)
        &&& forall|k: int| 0 <= k < self.intersections@.len() ==> #[trigger] self.intersection_ok(k)
    }

    pub fn get_r(&self, id: RoadID) -> (r: &Road)
        requires
            self.has_road(id),
        ensures
            *r == self.road(id),
    {
        &self.roads[id.0]
    }

    pub fn get_l(&self, id: LaneID) -> (l: &Lane)
        requires
            self.has_lane(id),
        ensures
            *l == self.lane(id),
    {
        &self.lanes[id.0]
    }

    /// The road that lane `id` belongs to.
    pub fn get_parent(&self, id: LaneID) -> (r: &Road)
        requires
            self.wf(),
            self.has_lane(id),
        ensures
            *r == self.road(self.lane(id).parent),
    {
        assert(self.lane_ok(id.0 as int));
        &self.roads[self.lanes[id.0].parent.0]
    }

    pub fn get_turns_in_intersection(&self, id: IntersectionID) -> (r: &Vec<Turn>)
        requires
            self.has_intersection(id),
        ensures
            r@ == self.turns_in(id),
    {
        &self.intersections[id.0].turns
    }

    pub fn get_turns_from_lane(&self, l: LaneID) -> (r: Vec<TurnID>)
        requires
            self.wf(),
            self.has_lane(l),
        ensures
            r@ == self.turns_from_lane(l),
    {
        assert(self.lane_ok(l.0 as int));
        let turns = self.get_turns_in_intersection(self.lanes[l.0].dst_i);
        let ghost keep = |t: Turn| t.id.src == l;
        let ghost id_of = |t: Turn| t.id;
        let mut out: Vec<TurnID> = Vec::new();
        let mut k: usize = 0;
        proof {
            reveal(Seq::filter);
            assert(turns@.take(0).filter(keep) =~= Seq::<Turn>::empty());
        }
        while k < turns.len()
            invariant
                k <= turns@.len(),
                keep == (|t: Turn| t.id.src == l),
                id_of == (|t: Turn| t.id),
                out@ == turns@.take(k as int).filter(keep).map_values(id_of),
            decreases turns@.len() - k,
        {
            proof {
                reveal(Seq::filter);
                assert(turns@.take(k + 1).drop_last() =~= turns@.take(k as int));
            }
            if turns[k].id.src == l {
                out.push(turns[k].id);
            }
            k += 1;
        }
        proof {
            assert(turns@.take(k as int) =~= turns@);
        }
        out
    }

    /// Looks the turn `id` up at the intersection where its source lane ends.
    pub fn get_t(&self, id: TurnID) -> (r: Option<Turn>)
        requires
            self.wf(),
            self.has_lane(id.src),
        ensures
            match r {
                Some(t) => t.id == id && self.turns_in(self.lane(id.src).dst_i).contains(t),
                None => forall|j: int|
                    0 <= j < self.turns_in(self.lane(id.src).dst_i).len() ==> (
                    #[trigger] self.turns_in(self.lane(id.src).dst_i)[j]).id != id,
            },
    {
        assert(self.lane_ok(id.src.0 as int));
        let turns = self.get_turns_in_intersection(self.lanes[id.src.0].dst_i);
        let mut k: usize = 0;
        while k < turns.len()
            invariant
                k <= turns@.len(),
                turns@ == self.turns_in(self.lane(id.src).dst_i),
                forall|j: int| 0 <= j < k ==> (#[trigger] turns@[j]).id != id,
            decreases turns@.len() - k,
        {
            if turns[k].id == id {
                return Some(turns[k]);
            }
            k += 1;
        }
        None
    }

    fn road_is_ok(&self, k: usize) -> (r: bool)
        requires
            k < self.roads@.len(),
        ensures
            r == self.road_ok(k as int),
    {
        let road = &self.roads[k];
        if road.id.0 != k || road.src_i.0 >= self.intersections.len() || road.dst_i.0
            >= self.intersections.len() {
            return false;
        }
        let mut j: usize = 0;
        while j < road.complicated_turn_restrictions.len()
            invariant
                k < self.roads@.len(),
                *road == self.roads@[k as int],
                j <= road.complicated_turn_restrictions@.len(),
                forall|m: int|
                    0 <= m < j ==> self.has_road(
                        (#[trigger] road.complicated_turn_restrictions@[m]).0,
                    ) && self.has_road(road.complicated_turn_restrictions@[m].1),
            decreases road.complicated_turn_restrictions@.len() - j,
        {
            let pair = road.complicated_turn_restrictions[j];
            if pair.0.0 >= self.roads.len() || pair.1.0 >= self.roads.len() {
                return false;
            }
            j += 1;
        }
        let mut j: usize = 0;
        while j < road.children_forwards.len()
            invariant
                k < self.roads@.len(),
                *road == self.roads@[k as int],
                j <= road.children_forwards@.len(),
                forall|m: int| 0 <= m < j ==> self.has_lane(#[trigger] road.children_forwards@[m]),
            decreases road.children_forwards@.len() - j,
        {
            if road.children_forwards[j].0 >= self.lanes.len() {
                return false;
            }
            j += 1;
        }
        let mut j: usize = 0;
        while j < road.children_backwards.len()
            invariant
                k < self.roads@.len(),
                *road == self.roads@[k as int],
                j <= road.children_backwards@.len(),
                forall|m: int| 0 <= m < j ==> self.has_lane(#[trigger] road.children_backwards@[m]),
            decreases road.children_backwards@.len() - j,
        {
            if road.children_backwards[j].0 >= self.lanes.len() {
                return false;
            }
            j += 1;
        }
        true
    }

    fn lane_is_ok(&self, k: usize) -> (r: bool)
        requires
            k < self.lanes@.len(),
        ensures
            r == self.lane_ok(k as int),
    {
        let lane = &self.lanes[k];
        lane.id.0 == k && lane.parent.0 < self.roads.len() && lane.src_i.0
            < self.intersections.len() && lane.dst_i.0 < self.intersections.len()
    }

    fn intersection_is_ok(&self, k: usize) -> (r: bool)
        requires
            k < self.intersections@.len(),
        ensures
            r == self.intersection_ok(k as int),
    {
        let i = &self.intersections[k];
        if i.id.0 != k {
            return false;
        }
        let mut j: usize = 0;
        while j < i.turns.len()
            invariant
                k < self.intersections@.len(),
                *i == self.intersections@[k as int],
                j <= i.turns@.len(),
                forall|m: int| 0 <= m < j ==> self.turn_ok(k as int, #[trigger] i.turns@[m]),
            decreases i.turns@.len() - j,
        {
            let t = &i.turns[j];
            if t.id.src.0 >= self.lanes.len() || t.id.dst.0 >= self.lanes.len() {
                return false;
            }
            if self.lanes[t.id.src.0].dst_i.0 != k || self.lanes[t.id.dst.0].src_i.0 != k {
                return false;
            }
            j += 1;
        }
        true
    }

    /// Decides whether the network is consistent. Every other question asked
    /// of a network supposes that it is.
    pub fn is_valid(&self) -> (r: bool)
        ensures
            r == self.wf(),
    {
        let mut k: usize = 0;
        while k < self.roads.len()
            invariant
                k <= self.roads@.len(),
                forall|m: int| 0 <= m < k ==> #[trigger] self.road_ok(m),
            decreases self.roads@.len() - k,
        {
            if !self.road_is_ok(k) {
                return false;
            }
            k += 1;
        }
        let mut k: usize = 0;
        while k < self.lanes.len()
            invariant
                k <= self.lanes@.len(),
                forall|m: int| 0 <= m < self.roads@.len() ==> #[trigger] self.road_ok(m),
                forall|m: int| 0 <= m < k ==> #[trigger] self.lane_ok(m),
            decreases self.lanes@.len() - k,
        {
            if !self.lane_is_ok(k) {
                return false;
            }
            k += 1;
        }
        let mut k: usize = 0;
        while k < self.intersections.len()
            invariant
                k <= self.intersections@.len(),
                forall|m: int| 0 <= m < self.roads@.len() ==> #[trigger] self.road_ok(m),
                forall|m: int| 0 <= m < self.lanes@.len() ==> #[trigger] self.lane_ok(m),
                forall|m: int| 0 <= m < k ==> #[trigger] self.intersection_ok(m),
            decreases self.intersections@.len() - k,
        {
            if !self.intersection_is_ok(k) {
                return false;
            }
            k += 1;
        }
        true
    }
}

/// Every turn that leaves a lane of a consistent network is a turn of that
/// network, and starts at that lane.
pub proof fn lemma_turns_from_lane(map: RoadNetwork, l: LaneID, j: int)
    requires
        map.wf(),
        map.has_lane(l),
        0 <= j < map.turns_from_lane(l).len(),
    ensures
        map.turns_from_lane(l)[j].src == l,
        map.has_turn(map.turns_from_lane(l)[j]),
        map.has_lane(map.turns_from_lane(l)[j].dst),
{
    let i = map.lane(l).dst_i;
    let keep = |t: Turn| t.id.src == l;
    let kept = map.turns_in(i).filter(keep);
    assert(map.lane_ok(l.0 as int));
    assert(map.intersection_ok(i.0 as int));
    map.turns_in(i).lemma_filter_pred(keep, j);
    map.turns_in(i).lemma_filter_contains_rev(keep, kept[j]);
    let m = choose|m: int| 0 <= m < map.turns_in(i).len() && map.turns_in(i)[m] == kept[j];
    assert(map.turn_ok(i.0 as int, map.turns_in(i)[m]));
}

} // verus!
