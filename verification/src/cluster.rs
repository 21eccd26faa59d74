//! Clusters of intersections and the movements across them.
//!
//! A cluster is built in four steps: its boundary is classified, every
//! entrance is searched from, the paths found are split by whether they break
//! a restriction, and the two halves become the legal and the illegal
//! cluster. The clusters of a whole network are the connected components of
//! its restriction graph.

use vstd::prelude::*;
use crate::boundary::{
    classify_boundary, driven_at_member, entrances, exit_before, exits, is_exit, lemma_entrances,
    lemma_exits,
};
use crate::collections::TurnSet;
use crate::components::{connected_components, graph_components, is_endpoint};
use crate::ids::{IntersectionID, TurnID};
use crate::members::{sort_members, sorted_members, strictly_increasing};
use crate::network::{RoadNetwork, Turn};
use crate::restrictions::{
    all_restrictions, breaks_restriction, edges_of_road, edges_upto, restriction_edges,
    restriction_graph_edges, violates,
};
use crate::search::{flood, flood_paths, is_crossing, is_walk, lemma_walk_is_chain};
use crate::uber_turn::{is_chain, paths_of, UberTurn};

verus! {

/// A set of intersections that has to be crossed as one unit, with the
/// movements across it.
#[derive(Clone, Debug, PartialEq, Eq)]
pub struct IntersectionCluster {
    /// In strictly increasing order.
    pub members: Vec<IntersectionID>,
    pub uber_turns: Vec<UberTurn>,
}

/// What a cluster is, apart from how it is stored.
pub struct ClusterView {
    pub members: Seq<IntersectionID>,
    pub uber_turns: Seq<Seq<TurnID>>,
}

impl View for IntersectionCluster {
    type V = ClusterView;

    open spec fn view(&self) -> ClusterView {
        ClusterView { members: self.members@, uber_turns: paths_of(self.uber_turns@) }
    }
}

/// The paths found from the first `n` of `starts`, entrance by entrance.
pub open spec fn paths_from(
    map: RoadNetwork,
    exits: Set<TurnID>,
    starts: Seq<TurnID>,
    n: nat,
) -> Seq<Seq<TurnID>>
    decreases n,
{
    if n == 0 {
        Seq::empty()
    } else {
        paths_from(map, exits, starts, (n - 1) as nat) + flood_paths(map, exits, starts[n - 1])
    }
}

/// Every path across the cluster `members` that the search finds.
pub open spec fn all_paths(map: RoadNetwork, members: Seq<IntersectionID>) -> Seq<Seq<TurnID>> {
    paths_from(
        map,
        exits(map, members),
        entrances(map, members),
        entrances(map, members).len(),
    )
}

/// The paths across the cluster that break no restriction.
pub open spec fn legal_paths(map: RoadNetwork, members: Seq<IntersectionID>) -> Seq<Seq<TurnID>> {
    all_paths(map, members).filter(|p: Seq<TurnID>| !violates(map, p))
}

/// The paths across the cluster that break a restriction.
pub open spec fn illegal_paths(map: RoadNetwork, members: Seq<IntersectionID>) -> Seq<Seq<TurnID>> {
    all_paths(map, members).filter(|p: Seq<TurnID>| violates(map, p))
}

/// `p` crosses the cluster: it is a walk through the network whose turns
/// follow one another lane by lane, which starts on a lane that comes from
/// outside `members` and ends on a lane that leads outside.
pub open spec fn crosses(map: RoadNetwork, members: Seq<IntersectionID>, p: Seq<TurnID>) -> bool {
    &&& is_walk(map, p)
    &&& is_chain(p)
    &&& forall|i: int|
        0 <= i < p.len() ==> map.has_lane((#[trigger] p[i]).src) && map.has_lane(p[i].dst)
    &&& !members.contains(map.lane(p[0].src).src_i)
    &&& !members.contains(map.lane(p.last().dst).dst_i)
}

/// A path that the search found from an entrance of the cluster crosses the
/// cluster.
pub proof fn lemma_crossing_crosses(
    map: RoadNetwork,
    members: Seq<IntersectionID>,
    e: int,
    p: Seq<TurnID>,
)
    requires
        map.wf(),
        forall|k: int| 0 <= k < members.len() ==> map.has_intersection(#[trigger] members[k]),
        0 <= e < entrances(map, members).len(),
        is_crossing(map, exits(map, members), entrances(map, members)[e], p),
    ensures
        crosses(map, members, p),
{
    lemma_entrances(map, members, members.len(), e);
    lemma_walk_is_chain(map, p);
    lemma_exits(map, members, p.last());
    assert forall|i: int| 0 <= i < p.len() implies map.has_lane((#[trigger] p[i]).src)
        && map.has_lane(p[i].dst) by {
        if i > 0 {
            assert(map.has_turn(p[i]));
        }
    }
}

/// Every turn of `p` takes place at one of `members`.
pub open spec fn stays_inside(map: RoadNetwork, members: Seq<IntersectionID>, p: Seq<TurnID>) -> bool {
    forall|i: int| 0 <= i < p.len() ==> members.contains(map.lane((#[trigger] p[i]).src).dst_i)
}

/// Where driving continues, every turn of a path that the search found
/// from an entrance of the cluster is a driven turn at a member.
pub proof fn lemma_crossing_stays_inside(
    map: RoadNetwork,
    members: Seq<IntersectionID>,
    e: int,
    p: Seq<TurnID>,
    i: int,
)
    requires
        map.wf(),
        map.driving_continues(),
        forall|k: int| 0 <= k < members.len() ==> map.has_intersection(#[trigger] members[k]),
        0 <= e < entrances(map, members).len(),
        is_crossing(map, exits(map, members), entrances(map, members)[e], p),
        0 <= i < p.len(),
    ensures
        driven_at_member(map, members, p[i]),
        members.contains(map.lane(p[i].src).dst_i),
        map.has_lane(p[i].dst),
    decreases i,
{
    if i == 0 {
        lemma_entrances(map, members, members.len(), e);
    } else {
        lemma_crossing_stays_inside(map, members, e, p, i - 1);
        let before = p[i - 1];
        let (m, n) = choose|m: int, n: int|
            0 <= m < members.len() && 0 <= n < map.turns_in(members[m]).len() && (
            #[trigger] map.turns_in(members[m])[n]).id == before && !map.turns_in(
                members[m],
            )[n].between_sidewalks();
        let a = map.turns_in(members[m])[n];
        assert(!exits(map, members).contains(before));
        // A driven turn at a member that is no exit leads to a member.
        let inner = map.lane(before.dst).dst_i;
        if !members.contains(inner) {
            assert(is_exit(map, members, a));
            assert(exit_before(map, members, before, members.len() as int, 0));
        }
        let at = choose|at: int| 0 <= at < members.len() && members[at] == inner;
        // The next turn is listed there, and leaves the lane just reached.
        let keep = |t: Turn| t.id.src == before.dst;
        let turns = map.turns_in(inner);
        let kept = turns.filter(keep);
        let succs = map.turns_from_lane(before.dst);
        assert(succs.contains(p[i]));
        let s = choose|s: int| 0 <= s < succs.len() && succs[s] == p[i];
        assert(kept[s].id == p[i]);
        turns.lemma_filter_pred(keep, s);
        assert(kept.contains(kept[s]));
        turns.lemma_filter_contains_rev(keep, kept[s]);
        let b = choose|b: int| 0 <= b < turns.len() && turns[b] == kept[s];
        assert(map.turns_in(members[at])[b].id == p[i]);
        assert(map.turns_in(members[at])[b].id.src == map.turns_in(members[m])[n].id.dst);
        assert(!map.turns_in(members[at])[b].between_sidewalks());
        assert(map.intersection_ok(inner.0 as int));
        assert(map.turn_ok(inner.0 as int, turns[b]));
    }
}

/// One of `paths` leads from the turn `from` to the turn `to`.
pub open spec fn joins(paths: Seq<Seq<TurnID>>, from: TurnID, to: TurnID) -> bool {
    exists|k: int| 0 <= k < paths.len() && (#[trigger] paths[k])[0] == from && paths[k].last() == to
}

/// Searches from each of `starts` in turn and gathers the paths: one for
/// each exit that can be reached from each entrance.
pub fn search_from_entrances(starts: &Vec<TurnID>, map: &RoadNetwork, exits: &TurnSet) -> (r: Vec<
    UberTurn,
>)
    requires
        map.wf(),
        forall|e: int| 0 <= e < starts@.len() ==> map.has_lane((#[trigger] starts@[e]).dst),
    ensures
        paths_of(r@) == paths_from(*map, exits@, starts@, starts@.len()),
        forall|k: int|
            0 <= k < r@.len() ==> exists|e: int|
                0 <= e < starts@.len() && is_crossing(
                    *map,
                    exits@,
                    #[trigger] starts@[e],
                    (#[trigger] r@[k])@,
                ),
        forall|e: int, p: Seq<TurnID>|
            0 <= e < starts@.len() && #[trigger] is_crossing(*map, exits@, starts@[e], p) ==> joins(
                paths_of(r@),
                starts@[e],
                p.last(),
            ),
{
    let mut found: Vec<UberTurn> = Vec::new();
    let mut e: usize = 0;
    proof {
        assert(paths_of(found@) =~= paths_from(*map, exits@, starts@, 0));
    }
    while e < starts.len()
        invariant
            map.wf(),
            forall|m: int| 0 <= m < starts@.len() ==> map.has_lane((#[trigger] starts@[m]).dst),
            e <= starts@.len(),
            paths_of(found@) == paths_from(*map, exits@, starts@, e as nat),
            forall|k: int|
                0 <= k < found@.len() ==> exists|m: int|
                    0 <= m < starts@.len() && is_crossing(
                        *map,
                        exits@,
                        #[trigger] starts@[m],
                        (#[trigger] found@[k])@,
                    ),
            forall|m: int, p: Seq<TurnID>|
                0 <= m < e && #[trigger] is_crossing(*map, exits@, starts@[m], p) ==> joins(
                    paths_of(found@),
                    starts@[m],
                    p.last(),
                ),
        decreases starts@.len() - e,
    {
        let ghost before = found@;
        let mut more = flood(starts[e], map, exits);
        let ghost added = more@;
        found.append(&mut more);
        proof {
            assert(found@ =~= before + added);
            assert(paths_of(found@) =~= paths_of(before) + paths_of(added));
            assert forall|k: int| 0 <= k < found@.len() implies exists|m: int|
                0 <= m < starts@.len() && is_crossing(
                    *map,
                    exits@,
                    #[trigger] starts@[m],
                    (#[trigger] found@[k])@,
                ) by {
                if k < before.len() {
                    assert(found@[k] == before[k]);
                    let m = choose|m: int|
                        0 <= m < starts@.len() && is_crossing(
                            *map,
                            exits@,
                            #[trigger] starts@[m],
                            before[k]@,
                        );
                    assert(is_crossing(*map, exits@, starts@[m], found@[k]@));
                } else {
                    assert(found@[k] == added[k - before.len()]);
                    assert(is_crossing(*map, exits@, starts@[e as int], found@[k]@));
                }
            }
            assert forall|m: int, p: Seq<TurnID>|
                0 <= m < e + 1 && #[trigger] is_crossing(
                    *map,
                    exits@,
                    starts@[m],
                    p,
                ) implies joins(paths_of(found@), starts@[m], p.last()) by {
                if m < e {
                    assert(joins(paths_of(before), starts@[m], p.last()));
                    let k = choose|k: int|
                        0 <= k < paths_of(before).len() && (#[trigger] paths_of(before)[k])[0]
                            == starts@[m] && paths_of(before)[k].last() == p.last();
                    assert(paths_of(found@)[k] == paths_of(before)[k]);
                } else {
                    let k = choose|k: int|
                        0 <= k < added.len() && (#[trigger] added[k])@.last() == p.last();
                    assert(is_crossing(*map, exits@, starts@[e as int], added[k]@));
                    assert(paths_of(found@)[before.len() + k] == added[k]@);
                }
            }
        }
        e += 1;
    }
    found
}

/// Splits `paths` into those that break none of the network's restrictions
/// and those that break one, keeping the order in each half.
pub fn split_by_restrictions(paths: &Vec<UberTurn>, map: &RoadNetwork) -> (r: (
    Vec<UberTurn>,
    Vec<UberTurn>,
))
    requires
        forall|k: int, i: int|
            0 <= k < paths@.len() && 0 <= i < paths@[k]@.len() ==> map.has_lane(
                (#[trigger] paths@[k]@[i]).src,
            ) && map.has_lane(paths@[k]@[i].dst),
    ensures
        paths_of(r.0@) == paths_of(paths@).filter(|p: Seq<TurnID>| !violates(*map, p)),
        paths_of(r.1@) == paths_of(paths@).filter(|p: Seq<TurnID>| violates(*map, p)),
{
    let triples = all_restrictions(map);
    let mut legal: Vec<UberTurn> = Vec::new();
    let mut illegal: Vec<UberTurn> = Vec::new();
    let ghost ok = |p: Seq<TurnID>| !violates(*map, p);
    let ghost bad = |p: Seq<TurnID>| violates(*map, p);
    let ghost all = paths_of(paths@);
    let mut k: usize = 0;
    proof {
        reveal(Seq::filter);
        assert(paths_of(legal@) =~= all.take(0).filter(ok));
        assert(paths_of(illegal@) =~= all.take(0).filter(bad));
    }
    while k < paths.len()
        invariant
            forall|m: int, i: int|
                0 <= m < paths@.len() && 0 <= i < paths@[m]@.len() ==> map.has_lane(
                    (#[trigger] paths@[m]@[i]).src,
                ) && map.has_lane(paths@[m]@[i].dst),
            triples@ == crate::restrictions::restriction_triples(*map),
            ok == (|p: Seq<TurnID>| !violates(*map, p)),
            bad == (|p: Seq<TurnID>| violates(*map, p)),
            all == paths_of(paths@),
            k <= paths@.len(),
            paths_of(legal@) == all.take(k as int).filter(ok),
            paths_of(illegal@) == all.take(k as int).filter(bad),
        decreases paths@.len() - k,
    {
        let ut = &paths[k];
        proof {
            reveal(Seq::filter);
            assert(all.take(k + 1).drop_last() =~= all.take(k as int));
            assert(all.take(k + 1).last() == ut@);
            assert forall|i: int| 0 <= i < ut.path@.len() implies map.has_lane(
                (#[trigger] ut.path@[i]).src,
            ) && map.has_lane(ut.path@[i].dst) by {
                assert(ut.path@[i] == paths@[k as int]@[i]);
            }
        }
        if breaks_restriction(map, &triples, &ut.path) {
            illegal.push(ut.duplicate());
            proof {
                assert(paths_of(illegal@) =~= all.take(k + 1).filter(bad));
            }
        } else {
            legal.push(ut.duplicate());
            proof {
                assert(paths_of(legal@) =~= all.take(k + 1).filter(ok));
            }
        }
        k += 1;
    }
    proof {
        assert(all.take(k as int) =~= all);
    }
    (legal, illegal)
}

fn copy_members(members: &Vec<IntersectionID>) -> (r: Vec<IntersectionID>)
    ensures
        r@ == members@,
{
    let mut out: Vec<IntersectionID> = Vec::new();
    let mut k: usize = 0;
    while k < members.len()
        invariant
            k <= members@.len(),
            out@ == members@.take(k as int),
        decreases members@.len() - k,
    {
        out.push(members[k]);
        proof {
            assert(members@.take(k + 1) =~= members@.take(k as int).push(members@[k as int]));
        }
        k += 1;
    }
    proof {
        assert(members@.take(k as int) =~= members@);
    }
    out
}

impl IntersectionCluster {
    /// Builds the cluster of the intersections `members`, given in any order
    /// and possibly with repetitions. Returns the legal cluster and the
    /// illegal one: the first holds the paths across the cluster that break
    /// no restriction, the second those that break one.
    ///
    /// Both clusters list the members in increasing order. Their paths are
    /// what the search from each entrance finds, split in two with the order
    /// kept. Every path is a chain of turns that starts on a lane coming
    /// from outside the cluster and ends on a lane leading outside. In a
    /// network where driving continues, every turn of every path takes place
    /// at a member. And for every exit that can be reached from an entrance
    /// without passing another exit, one of the two clusters holds a path
    /// between them.
    pub fn new(members: Vec<IntersectionID>, map: &RoadNetwork) -> (r: (
        IntersectionCluster,
        IntersectionCluster,
    ))
        requires
            map.wf(),
            forall|k: int| 0 <= k < members@.len() ==> map.has_intersection(#[trigger] members@[k]),
        ensures
            r.0@.members == sorted_members(members@),
            r.1@.members == sorted_members(members@),
            r.0@.uber_turns == legal_paths(*map, sorted_members(members@)),
            r.1@.uber_turns == illegal_paths(*map, sorted_members(members@)),
            strictly_increasing(r.0@.members),
            forall|i: IntersectionID| #[trigger] r.0@.members.contains(i) <==> members@.contains(i),
            forall|k: int|
                0 <= k < r.0@.uber_turns.len() ==> crosses(
                    *map,
                    r.0@.members,
                    #[trigger] r.0@.uber_turns[k],
                ) && !violates(*map, r.0@.uber_turns[k]),
            forall|k: int|
                0 <= k < r.1@.uber_turns.len() ==> crosses(
                    *map,
                    r.1@.members,
                    #[trigger] r.1@.uber_turns[k],
                ) && violates(*map, r.1@.uber_turns[k]),
            map.driving_continues() ==> forall|k: int|
                0 <= k < r.0@.uber_turns.len() ==> stays_inside(
                    *map,
                    r.0@.members,
                    #[trigger] r.0@.uber_turns[k],
                ),
            map.driving_continues() ==> forall|k: int|
                0 <= k < r.1@.uber_turns.len() ==> stays_inside(
                    *map,
                    r.1@.members,
                    #[trigger] r.1@.uber_turns[k],
                ),
            forall|e: int, p: Seq<TurnID>|
                0 <= e < entrances(*map, r.0@.members).len() && #[trigger] is_crossing(
                    *map,
                    exits(*map, r.0@.members),
                    entrances(*map, r.0@.members)[e],
                    p,
                ) ==> joins(r.0@.uber_turns, entrances(*map, r.0@.members)[e], p.last()) || joins(
                    r.1@.uber_turns,
                    entrances(*map, r.0@.members)[e],
                    p.last(),
                ),
    {
        let sorted = sort_members(&members);
        proof {
            assert forall|k: int| 0 <= k < sorted@.len() implies map.has_intersection(
                #[trigger] sorted@[k],
            ) by {
                assert(sorted@.contains(sorted@[k]));
                let m = choose|m: int| 0 <= m < members@.len() && members@[m] == sorted@[k];
                assert(map.has_intersection(members@[m]));
            }
        }
        let (starts, ends) = classify_boundary(&sorted, map);
        proof {
            assert forall|e: int| 0 <= e < starts@.len() implies map.has_lane(
                (#[trigger] starts@[e]).dst,
            ) by {
                lemma_entrances(*map, sorted@, sorted@.len(), e);
            }
        }
        let found = search_from_entrances(&starts, map, &ends);
        proof {
            assert forall|k: int| 0 <= k < found@.len() implies crosses(
                *map,
                sorted@,
                (#[trigger] found@[k])@,
            ) by {
                let e = choose|e: int|
                    0 <= e < starts@.len() && is_crossing(
                        *map,
                        ends@,
                        #[trigger] starts@[e],
                        found@[k]@,
                    );
                lemma_crossing_crosses(*map, sorted@, e, found@[k]@);
            }
            if map.driving_continues() {
                assert forall|k: int| 0 <= k < found@.len() implies stays_inside(
                    *map,
                    sorted@,
                    (#[trigger] found@[k])@,
                ) by {
                    let e = choose|e: int|
                        0 <= e < starts@.len() && is_crossing(
                            *map,
                            ends@,
                            #[trigger] starts@[e],
                            found@[k]@,
                        );
                    let p = found@[k]@;
                    assert forall|i: int| 0 <= i < p.len() implies sorted@.contains(
                        map.lane((#[trigger] p[i]).src).dst_i,
                    ) by {
                        lemma_crossing_stays_inside(*map, sorted@, e, p, i);
                    }
                }
            }
            assert forall|k: int, i: int|
                0 <= k < found@.len() && 0 <= i < found@[k]@.len() implies map.has_lane(
                (#[trigger] found@[k]@[i]).src,
            ) && map.has_lane(found@[k]@[i].dst) by {
                assert(crosses(*map, sorted@, found@[k]@));
            }
        }
        let (legal, illegal) = split_by_restrictions(&found, map);
        let ghost ok = |p: Seq<TurnID>| !violates(*map, p);
        let ghost bad = |p: Seq<TurnID>| violates(*map, p);
        proof {
            let all = paths_of(found@);
            assert forall|k: int| 0 <= k < paths_of(legal@).len() implies crosses(
                *map,
                sorted@,
                #[trigger] paths_of(legal@)[k],
            ) && !violates(*map, paths_of(legal@)[k]) && (map.driving_continues() ==> stays_inside(
                *map,
                sorted@,
                paths_of(legal@)[k],
            )) by {
                all.lemma_filter_pred(ok, k);
                let p = all.filter(ok)[k];
                assert(all.filter(ok).contains(p));
                all.lemma_filter_contains_rev(ok, p);
                let m = choose|m: int| 0 <= m < all.len() && all[m] == p;
                assert(crosses(*map, sorted@, found@[m]@));
                assert(map.driving_continues() ==> stays_inside(*map, sorted@, found@[m]@));
            }
            assert forall|k: int| 0 <= k < paths_of(illegal@).len() implies crosses(
                *map,
                sorted@,
                #[trigger] paths_of(illegal@)[k],
            ) && violates(*map, paths_of(illegal@)[k]) && (map.driving_continues() ==> stays_inside(
                *map,
                sorted@,
                paths_of(illegal@)[k],
            )) by {
                all.lemma_filter_pred(bad, k);
                let p = all.filter(bad)[k];
                assert(all.filter(bad).contains(p));
                all.lemma_filter_contains_rev(bad, p);
                let m = choose|m: int| 0 <= m < all.len() && all[m] == p;
                assert(crosses(*map, sorted@, found@[m]@));
                assert(map.driving_continues() ==> stays_inside(*map, sorted@, found@[m]@));
            }
        }
        proof {
            let all = paths_of(found@);
            assert forall|e: int, p: Seq<TurnID>|
                0 <= e < starts@.len() && #[trigger] is_crossing(
                    *map,
                    ends@,
                    starts@[e],
                    p,
                ) implies joins(paths_of(legal@), starts@[e], p.last()) || joins(
                paths_of(illegal@),
                starts@[e],
                p.last(),
            ) by {
                assert(joins(all, starts@[e], p.last()));
                let k = choose|k: int|
                    0 <= k < all.len() && (#[trigger] all[k])[0] == starts@[e] && all[k].last()
                        == p.last();
                if violates(*map, all[k]) {
                    all.lemma_filter_contains(bad, k);
                    let part = all.filter(bad);
                    let j = choose|j: int| 0 <= j < part.len() && part[j] == all[k];
                    assert(paths_of(illegal@)[j] == all[k]);
                } else {
                    all.lemma_filter_contains(ok, k);
                    let part = all.filter(ok);
                    let j = choose|j: int| 0 <= j < part.len() && part[j] == all[k];
                    assert(paths_of(legal@)[j] == all[k]);
                }
            }
        }
        let again = copy_members(&sorted);
        (
            IntersectionCluster { members: again, uber_turns: legal },
            IntersectionCluster { members: sorted, uber_turns: illegal },
        )
    }
}

/// The intersections that the node numbers of a component stand for.
pub open spec fn ids_of(nodes: Seq<usize>) -> Seq<IntersectionID> {
    nodes.map_values(|n: usize| IntersectionID(n))
}

/// The legal cluster of the intersections `members`.
pub open spec fn legal_cluster(map: RoadNetwork, members: Seq<IntersectionID>) -> ClusterView {
    ClusterView {
        members: sorted_members(members),
        uber_turns: legal_paths(map, sorted_members(members)),
    }
}

/// The clusters of the network: the legal cluster of each component of its
/// restriction graph, in the order of the components.
pub open spec fn clusters_of(map: RoadNetwork) -> Seq<ClusterView> {
    graph_components(restriction_edges(map)).map_values(
        |c: Seq<usize>| legal_cluster(map, ids_of(c)),
    )
}

/// Every member is one of the two ends of the via-road of some restriction.
pub open spec fn on_via_roads(map: RoadNetwork, members: Seq<IntersectionID>) -> bool {
    forall|k: int|
        0 <= k < members.len() ==> is_endpoint(restriction_edges(map), (#[trigger] members[k]).0)
}

/// What a list of clusters is, apart from how it is stored.
pub open spec fn cluster_views(clusters: Seq<IntersectionCluster>) -> Seq<ClusterView> {
    clusters.map_values(|c: IntersectionCluster| c@)
}

/// Both ends of every edge of the restriction graph are intersections of
/// the network.
proof fn lemma_edge_ends_exist(map: RoadNetwork, n: nat, node: usize)
    requires
        map.wf(),
        n <= map.roads@.len(),
        is_endpoint(edges_upto(map, n), node),
    ensures
        map.has_intersection(IntersectionID(node)),
    decreases n,
{
    let all = edges_upto(map, n);
    let e = choose|e: int| 0 <= e < all.len() && ((#[trigger] all[e]).0 == node || all[e].1 == node);
    let head = edges_upto(map, (n - 1) as nat);
    if e < head.len() {
        assert(head[e] == all[e]);
        lemma_edge_ends_exist(map, (n - 1) as nat, node);
    } else {
        let road = map.roads@[n - 1];
        let m = e - head.len();
        assert(all[e] == edges_of_road(map, road)[m]);
        assert(map.road_ok(n - 1));
        let via = road.complicated_turn_restrictions@[m].0;
        assert(map.has_road(via));
        assert(map.road_ok(via.0 as int));
    }
}

fn to_ids(nodes: &Vec<usize>) -> (r: Vec<IntersectionID>)
    ensures
        r@ == ids_of(nodes@),
{
    let mut out: Vec<IntersectionID> = Vec::new();
    let mut k: usize = 0;
    while k < nodes.len()
        invariant
            k <= nodes@.len(),
            out@ == ids_of(nodes@.take(k as int)),
        decreases nodes@.len() - k,
    {
        out.push(IntersectionID(nodes[k]));
        proof {
            assert(ids_of(nodes@.take(k + 1)) =~= ids_of(nodes@.take(k as int)).push(
                IntersectionID(nodes@[k as int]),
            ));
        }
        k += 1;
    }
    proof {
        assert(nodes@.take(k as int) =~= nodes@);
    }
    out
}

impl IntersectionCluster {
    /// Finds the clusters of the network: one for each connected component
    /// of the graph that joins the two ends of every via-road. Only the
    /// legal cluster of each component is returned.
    ///
    /// The clusters are those of [`clusters_of`], in its order. Each has at
    /// least one member, all of them ends of via-roads, and each of its paths
    /// crosses it and breaks no restriction.
    pub fn find_all(map: &RoadNetwork) -> (r: Vec<IntersectionCluster>)
        requires
            map.wf(),
        ensures
            cluster_views(r@) == clusters_of(*map),
            forall|c: int|
                0 <= c < r@.len() ==> (#[trigger] r@[c])@.members.len() > 0 && strictly_increasing(
                    r@[c]@.members,
                ) && on_via_roads(*map, r@[c]@.members),
            forall|c: int, k: int|
                0 <= c < r@.len() && 0 <= k < r@[c]@.uber_turns.len() ==> crosses(
                    *map,
                    r@[c]@.members,
                    #[trigger] r@[c]@.uber_turns[k],
                ) && !violates(*map, r@[c]@.uber_turns[k]) && (map.driving_continues()
                    ==> stays_inside(*map, r@[c]@.members, r@[c]@.uber_turns[k])),
    {
        let edges = restriction_graph_edges(map);
        let components = connected_components(&edges);
        let ghost named = graph_components(restriction_edges(*map));
        let ghost build = |c: Seq<usize>| legal_cluster(*map, ids_of(c));
        let mut clusters: Vec<IntersectionCluster> = Vec::new();
        let mut c: usize = 0;
        proof {
            assert(cluster_views(clusters@) =~= named.take(0).map_values(build));
        }
        while c < components.len()
            invariant
                map.wf(),
                edges@ == restriction_edges(*map),
                components.deep_view() == named,
                build == (|c: Seq<usize>| legal_cluster(*map, ids_of(c))),
                forall|m: int| 0 <= m < components@.len() ==> (#[trigger] components@[m])@.len() > 0,
                forall|m: int, k: int|
                    0 <= m < components@.len() && 0 <= k < components@[m]@.len() ==> is_endpoint(
                        edges@,
                        #[trigger] components@[m]@[k],
                    ),
                c <= components@.len(),
                cluster_views(clusters@) == named.take(c as int).map_values(build),
                forall|m: int|
                    0 <= m < clusters@.len() ==> (#[trigger] clusters@[m])@.members.len() > 0
                        && strictly_increasing(clusters@[m]@.members) && on_via_roads(
                        *map,
                        clusters@[m]@.members,
                    ),
                forall|m: int, k: int|
                    0 <= m < clusters@.len() && 0 <= k < clusters@[m]@.uber_turns.len() ==> crosses(
                        *map,
                        clusters@[m]@.members,
                        #[trigger] clusters@[m]@.uber_turns[k],
                    ) && !violates(*map, clusters@[m]@.uber_turns[k]) && (
                    map.driving_continues() ==> stays_inside(
                        *map,
                        clusters@[m]@.members,
                        clusters@[m]@.uber_turns[k],
                    )),
            decreases components@.len() - c,
        {
            let members = to_ids(&components[c]);
            proof {
                assert(named[c as int] =~= components@[c as int]@);
                assert forall|k: int| 0 <= k < members@.len() implies map.has_intersection(
                    #[trigger] members@[k],
                ) by {
                    assert(is_endpoint(edges@, components@[c as int]@[k]));
                    lemma_edge_ends_exist(*map, map.roads@.len(), components@[c as int]@[k]);
                }
            }
            let ghost first = members@[0];
            let ghost given = members@;
            let (legal, _) = IntersectionCluster::new(members, map);
            proof {
                assert(given.contains(first));
                assert(legal@.members.contains(first));
                assert forall|k: int| 0 <= k < legal@.members.len() implies is_endpoint(
                    restriction_edges(*map),
                    (#[trigger] legal@.members[k]).0,
                ) by {
                    assert(legal@.members.contains(legal@.members[k]));
                    let j = choose|j: int| 0 <= j < given.len() && given[j] == legal@.members[k];
                    assert(is_endpoint(edges@, components@[c as int]@[j]));
                }
            }
            let ghost before = clusters@;
            clusters.push(legal);
            proof {
                assert(named.take(c + 1).map_values(build) =~= named.take(c as int).map_values(
                    build,
                ).push(build(named[c as int])));
                assert(cluster_views(clusters@) =~= cluster_views(before).push(legal@));
                assert forall|m: int| 0 <= m < clusters@.len() implies (
                #[trigger] clusters@[m])@.members.len() > 0 && strictly_increasing(
                    clusters@[m]@.members,
                ) && on_via_roads(*map, clusters@[m]@.members) by {
                    if m < before.len() {
                        assert(clusters@[m] == before[m]);
                    }
                }
                assert forall|m: int, k: int|
                    0 <= m < clusters@.len() && 0 <= k < clusters@[m]@.uber_turns.len() implies crosses(
                    *map,
                    clusters@[m]@.members,
                    #[trigger] clusters@[m]@.uber_turns[k],
                ) && !violates(*map, clusters@[m]@.uber_turns[k]) && (map.driving_continues()
                    ==> stays_inside(*map, clusters@[m]@.members, clusters@[m]@.uber_turns[k])) by {
                    if m < before.len() {
                        assert(clusters@[m] == before[m]);
                    }
                }
            }
            c += 1;
        }
        proof {
            assert(named.take(c as int) =~= named);
        }
        clusters
    }
}

/// Two runs of the discovery on one network give the same clusters: the
/// same members and the same paths, in the same order.
pub proof fn lemma_discovery_is_repeatable(
    map: RoadNetwork,
    first: Seq<IntersectionCluster>,
    second: Seq<IntersectionCluster>,
)
    requires
        cluster_views(first) == clusters_of(map),
        cluster_views(second) == clusters_of(map),
    ensures
        first.len() == second.len(),
        forall|c: int|
            0 <= c < first.len() ==> (#[trigger] first[c])@.members == second[c]@.members
                && first[c]@.uber_turns == second[c]@.uber_turns,
{
    assert(cluster_views(first).len() == first.len());
    assert(cluster_views(second).len() == second.len());
    assert forall|c: int| 0 <= c < first.len() implies (#[trigger] first[c])@.members
        == second[c]@.members && first[c]@.uber_turns == second[c]@.uber_turns by {
        assert(cluster_views(first)[c] == first[c]@);
        assert(cluster_views(second)[c] == second[c]@);
    }
}

} // verus!
