//! Turn restrictions that span more than one intersection.
//!
//! Each road lists pairs `(via, to)`: coming from that road, one may not go
//! through road `via` onto road `to`. Flattened over all roads these are the
//! restriction triples `(from, via, to)`. A path of turns breaks a
//! restriction where two consecutive turns lead over such three roads.

use vstd::prelude::*;
use crate::ids::{RoadID, TurnID};
use crate::network::{Road, RoadNetwork};

verus! {

/// A forbidden movement: from the first road, through the second, onto the
/// third.
pub type RestrictionTriple = (RoadID, RoadID, RoadID);

/// The triples that one road contributes, in the order of its own list.
pub open spec fn triples_of_road(r: Road) -> Seq<RestrictionTriple> {
    r.complicated_turn_restrictions@.map_values(|p: (RoadID, RoadID)| (r.id, p.0, p.1))
}

/// The triples of the first `n` roads.
pub open spec fn triples_upto(map: RoadNetwork, n: nat) -> Seq<RestrictionTriple>
    decreases n,
{
    if n == 0 {
        Seq::empty()
    } else {
        triples_upto(map, (n - 1) as nat) + triples_of_road(map.roads@[n - 1])
    }
}

/// Every restriction triple of the network, road by road.
pub open spec fn restriction_triples(map: RoadNetwork) -> Seq<RestrictionTriple> {
    triples_upto(map, map.roads@.len())
}

/// The two intersections that the via-road of each restriction joins, road
/// by road, as plain numbers.
pub open spec fn edges_of_road(map: RoadNetwork, r: Road) -> Seq<(usize, usize)> {
    r.complicated_turn_restrictions@.map_values(
        |p: (RoadID, RoadID)| (map.road(p.0).src_i.0, map.road(p.0).dst_i.0),
    )
}

/// The edges that the restrictions of the first `n` roads contribute.
pub open spec fn edges_upto(map: RoadNetwork, n: nat) -> Seq<(usize, usize)>
    decreases n,
{
    if n == 0 {
        Seq::empty()
    } else {
        edges_upto(map, (n - 1) as nat) + edges_of_road(map, map.roads@[n - 1])
    }
}

/// The edges of the restriction graph: one for each restriction, between the
/// two ends of its via-road.
pub open spec fn restriction_edges(map: RoadNetwork) -> Seq<(usize, usize)> {
    edges_upto(map, map.roads@.len())
}

/// The three roads that two consecutive turns lead over.
pub open spec fn roads_of_pair(map: RoadNetwork, t0: TurnID, t1: TurnID) -> RestrictionTriple {
    (map.lane(t0.src).parent, map.lane(t0.dst).parent, map.lane(t1.dst).parent)
}

/// Some two consecutive turns of `path` lead over the three roads of one of
/// `triples`.
pub open spec fn breaks_one_of(
    map: RoadNetwork,
    triples: Seq<RestrictionTriple>,
    path: Seq<TurnID>,
) -> bool {
    exists|i: int|
        0 < i < path.len() && triples.contains(roads_of_pair(map, path[i - 1], #[trigger] path[i]))
}

/// The path breaks a restriction of the network.
pub open spec fn violates(map: RoadNetwork, path: Seq<TurnID>) -> bool {
    breaks_one_of(map, restriction_triples(map), path)
}

proof fn lemma_triples_upto(map: RoadNetwork, n: nat, t: RestrictionTriple)
    requires
        map.wf(),
        n <= map.roads@.len(),
    ensures
        triples_upto(map, n).contains(t) <==> t.0.0 < n && map.road(
            t.0,
        ).complicated_turn_restrictions@.contains((t.1, t.2)),
    decreases n,
{
    if n > 0 {
        lemma_triples_upto(map, (n - 1) as nat, t);
        let head = triples_upto(map, (n - 1) as nat);
        let road = map.roads@[n - 1];
        let tail = triples_of_road(road);
        let list = road.complicated_turn_restrictions@;
        assert(map.road_ok(n - 1));
        if head.contains(t) {
            let k = choose|k: int| 0 <= k < head.len() && head[k] == t;
            assert((head + tail)[k] == t);
        }
        if t.0.0 == n - 1 && list.contains((t.1, t.2)) {
            let k = choose|k: int| 0 <= k < list.len() && list[k] == (t.1, t.2);
            assert(tail[k] == t);
            assert((head + tail)[head.len() + k] == t);
        }
        if (head + tail).contains(t) {
            let k = choose|k: int| 0 <= k < (head + tail).len() && (head + tail)[k] == t;
            if k < head.len() {
                assert(head[k] == t);
            } else {
                let m = k - head.len();
                assert(tail[m] == t);
                assert(list[m] == (t.1, t.2));
            }
        }
    }
}

/// A triple is a restriction of the network exactly when its first road
/// exists and lists the other two.
pub proof fn lemma_restriction_triples(map: RoadNetwork, t: RestrictionTriple)
    requires
        map.wf(),
    ensures
        restriction_triples(map).contains(t) <==> map.has_road(t.0) && map.road(
            t.0,
        ).complicated_turn_restrictions@.contains((t.1, t.2)),
{
    lemma_triples_upto(map, map.roads@.len(), t);
}

/// Collects the restriction triples of every road.
pub fn all_restrictions(map: &RoadNetwork) -> (r: Vec<RestrictionTriple>)
    ensures
        r@ == restriction_triples(*map),
{
    let mut out: Vec<RestrictionTriple> = Vec::new();
    let mut k: usize = 0;
    while k < map.roads.len()
        invariant
            k <= map.roads@.len(),
            out@ == triples_upto(*map, k as nat),
        decreases map.roads@.len() - k,
    {
        let road = &map.roads[k];
        let ghost head = out@;
        let mut j: usize = 0;
        while j < road.complicated_turn_restrictions.len()
            invariant
                j <= road.complicated_turn_restrictions@.len(),
                out@ == head + triples_of_road(*road).take(j as int),
            decreases road.complicated_turn_restrictions@.len() - j,
        {
            let pair = road.complicated_turn_restrictions[j];
            out.push((road.id, pair.0, pair.1));
            proof {
                let tail = triples_of_road(*road);
                assert(tail.take(j + 1) =~= tail.take(j as int).push(tail[j as int]));
                assert(head + tail.take(j + 1) =~= (head + tail.take(j as int)).push(tail[j as int]));
            }
            j += 1;
        }
        proof {
            let tail = triples_of_road(*road);
            assert(tail.take(j as int) =~= tail);
        }
        k += 1;
    }
    out
}

/// Collects the edges of the restriction graph.
pub fn restriction_graph_edges(map: &RoadNetwork) -> (r: Vec<(usize, usize)>)
    requires
        map.wf(),
    ensures
        r@ == restriction_edges(*map),
{
    let mut out: Vec<(usize, usize)> = Vec::new();
    let mut k: usize = 0;
    while k < map.roads.len()
        invariant
            map.wf(),
            k <= map.roads@.len(),
            out@ == edges_upto(*map, k as nat),
        decreases map.roads@.len() - k,
    {
        let road = &map.roads[k];
        let ghost head = out@;
        let mut j: usize = 0;
        proof {
            assert(map.road_ok(k as int));
        }
        while j < road.complicated_turn_restrictions.len()
            invariant
                map.wf(),
                k < map.roads@.len(),
                *road == map.roads@[k as int],
                map.road_ok(k as int),
                j <= road.complicated_turn_restrictions@.len(),
                out@ == head + edges_of_road(*map, *road).take(j as int),
            decreases road.complicated_turn_restrictions@.len() - j,
        {
            let pair = road.complicated_turn_restrictions[j];
            let via = map.get_r(pair.0);
            out.push((via.src_i.0, via.dst_i.0));
            proof {
                let tail = edges_of_road(*map, *road);
                assert(tail.take(j + 1) =~= tail.take(j as int).push(tail[j as int]));
                assert(head + tail.take(j + 1) =~= (head + tail.take(j as int)).push(tail[j as int]));
            }
            j += 1;
        }
        proof {
            let tail = edges_of_road(*map, *road);
            assert(tail.take(j as int) =~= tail);
        }
        k += 1;
    }
    out
}

fn contains_triple(triples: &Vec<RestrictionTriple>, t: RestrictionTriple) -> (r: bool)
    ensures
        r == triples@.contains(t),
{
    let mut k: usize = 0;
    while k < triples.len()
        invariant
            k <= triples@.len(),
            forall|j: int| 0 <= j < k ==> triples@[j] != t,
        decreases triples@.len() - k,
    {
        let c = triples[k];
        if c.0 == t.0 && c.1 == t.1 && c.2 == t.2 {
            return true;
        }
        k += 1;
    }
    false
}

/// Decides whether two consecutive turns of `path` lead over the roads of
/// one of `triples`.
pub fn breaks_restriction(
    map: &RoadNetwork,
    triples: &Vec<RestrictionTriple>,
    path: &Vec<TurnID>,
) -> (r: bool)
    requires
        forall|i: int|
            0 <= i < path@.len() ==> map.has_lane((#[trigger] path@[i]).src) && map.has_lane(
                path@[i].dst,
            ),
    ensures
        r == breaks_one_of(*map, triples@, path@),
{
    let mut i: usize = 1;
    while i < path.len()
        invariant
            1 <= i,
            forall|m: int|
                0 <= m < path@.len() ==> map.has_lane((#[trigger] path@[m]).src) && map.has_lane(
                    path@[m].dst,
                ),
            forall|m: int|
                0 < m < i && m < path@.len() ==> !triples@.contains(
                    roads_of_pair(*map, path@[m - 1], #[trigger] path@[m]),
                ),
        decreases path@.len() - i,
    {
        let t0 = path[i - 1];
        let t1 = path[i];
        let r1 = map.get_l(t0.src).parent;
        let r2 = map.get_l(t0.dst).parent;
        let r3 = map.get_l(t1.dst).parent;
        if contains_triple(triples, (r1, r2, r3)) {
            return true;
        }
        i += 1;
    }
    false
}

} // verus!
