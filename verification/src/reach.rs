//! Which lanes can be reached from which.
//!
//! A lane leads to another where a turn that the intersection permits
//! connects them. From one lane, the lanes that can be reached are found by
//! following such turns for as long as new lanes turn up.

use vstd::prelude::*;
use crate::components::{digraph_components, is_endpoint, strongly_connected_components};
use crate::ids::LaneID;
use crate::network::{Lane, LaneType, RoadNetwork, Turn};

verus! {

/// A set of lanes of one network, kept as one flag per lane.
pub struct LaneSet {
    flags: Vec<bool>,
}

impl View for LaneSet {
    type V = Set<LaneID>;

    closed spec fn view(&self) -> Set<LaneID> {
        Set::new(|l: LaneID| l.0 < self.flags@.len() && self.flags@[l.0 as int])
    }
}

impl LaneSet {
    pub fn contains(&self, l: LaneID) -> (r: bool)
        ensures
            r == self@.contains(l),
    {
        l.0 < self.flags.len() && self.flags[l.0]
    }
}

/// A permitted turn leads from lane `a` to lane `b`.
pub open spec fn lane_step(map: RoadNetwork, a: LaneID, b: LaneID) -> bool {
    &&& map.has_lane(a)
    &&& exists|j: int|
        0 <= j < map.turns_in(map.lane(a).dst_i).len() && #[trigger] turn_leads(map, a, b, j)
}

/// The `j`-th turn at the end of lane `a` is permitted and leads from `a`
/// to `b`.
pub open spec fn turn_leads(map: RoadNetwork, a: LaneID, b: LaneID, j: int) -> bool {
    let t = map.turns_in(map.lane(a).dst_i)[j];
    t.id.src == a && t.id.dst == b && t.allowed
}

/// Each lane of `w` after the first is led to from the one before it.
pub open spec fn is_lane_walk(map: RoadNetwork, w: Seq<LaneID>) -> bool {
    &&& w.len() >= 1
    &&& forall|i: int| 0 < i < w.len() ==> lane_step(map, w[i - 1], #[trigger] w[i])
}

/// `w` is a walk along permitted turns from `start` to `l`.
pub open spec fn walks_to(map: RoadNetwork, start: LaneID, l: LaneID, w: Seq<LaneID>) -> bool {
    is_lane_walk(map, w) && w[0] == start && w.last() == l
}

/// Lane `l` can be reached from `start` along permitted turns.
pub open spec fn lane_reachable(map: RoadNetwork, start: LaneID, l: LaneID) -> bool {
    exists|w: Seq<LaneID>| #[trigger] walks_to(map, start, l, w)
}

/// How many flags are not set.
pub open spec fn count_unset(flags: Seq<bool>) -> nat
    decreases flags.len(),
{
    if flags.len() == 0 {
        0
    } else {
        count_unset(flags.drop_last()) + if flags.last() {
            0nat
        } else {
            1nat
        }
    }
}

proof fn lemma_count_unset_set(flags: Seq<bool>, k: int)
    requires
        0 <= k < flags.len(),
        !flags[k],
    ensures
        count_unset(flags.update(k, true)) == count_unset(flags) - 1,
    decreases flags.len(),
{
    let after = flags.update(k, true);
    if k == flags.len() - 1 {
        assert(after.drop_last() =~= flags.drop_last());
    } else {
        lemma_count_unset_set(flags.drop_last(), k);
        assert(after.drop_last() =~= flags.drop_last().update(k, true));
    }
}

/// One more step extends a walk.
proof fn lemma_reach_step(map: RoadNetwork, start: LaneID, a: LaneID, b: LaneID)
    requires
        lane_reachable(map, start, a),
        lane_step(map, a, b),
    ensures
        lane_reachable(map, start, b),
{
    let w = choose|w: Seq<LaneID>| #[trigger] walks_to(map, start, a, w);
    let longer = w.push(b);
    assert forall|i: int| 0 < i < longer.len() implies lane_step(
        map,
        longer[i - 1],
        #[trigger] longer[i],
    ) by {
        if i < w.len() {
            assert(longer[i] == w[i]);
            assert(lane_step(map, w[i - 1], w[i]));
        }
    }
    assert(walks_to(map, start, b, longer));
}

/// The flags say for every lane that they mark where permitted turns lead
/// from it: to a lane that is marked or that waits in `queue`. For the lane
/// `busy` this holds of its first `upto` turns only.
pub open spec fn closed_under_steps(
    map: RoadNetwork,
    flags: Seq<bool>,
    queue: Seq<LaneID>,
    busy: Option<LaneID>,
    upto: int,
) -> bool {
    forall|a: LaneID, b: LaneID, j: int|
        #![trigger turn_leads(map, a, b, j)]
        a.0 < flags.len() && flags[a.0 as int] && 0 <= j < map.turns_in(map.lane(a).dst_i).len()
            && turn_leads(map, a, b, j) && (busy == Some(a) ==> j < upto) ==> (b.0 < flags.len()
            && flags[b.0 as int]) || queue.contains(b)
}

/// Marked lanes that are closed under steps hold every lane of a walk that
/// starts at a marked lane.
proof fn lemma_closed_holds_walk(map: RoadNetwork, flags: Seq<bool>, w: Seq<LaneID>, i: int)
    requires
        closed_under_steps(map, flags, Seq::empty(), None, 0),
        is_lane_walk(map, w),
        w[0].0 < flags.len() && flags[w[0].0 as int],
        0 <= i < w.len(),
    ensures
        w[i].0 < flags.len() && flags[w[i].0 as int],
    decreases i,
{
    if i > 0 {
        lemma_closed_holds_walk(map, flags, w, i - 1);
        let a = w[i - 1];
        let b = w[i];
        assert(lane_step(map, a, b));
        let j = choose|j: int|
            0 <= j < map.turns_in(map.lane(a).dst_i).len() && #[trigger] turn_leads(map, a, b, j);
        assert(turn_leads(map, a, b, j));
    }
}

/// Finds the lanes that can be reached from `start` along permitted turns;
/// `start` itself is among them.
pub fn find_reachable_from(start: LaneID, map: &RoadNetwork) -> (r: LaneSet)
    requires
        map.wf(),
        map.has_lane(start),
    ensures
        forall|l: LaneID| #[trigger] r@.contains(l) <==> lane_reachable(*map, start, l),
{
    let mut flags: Vec<bool> = Vec::new();
    let mut n: usize = 0;
    while n < map.lanes.len()
        invariant
            n <= map.lanes@.len(),
            flags@.len() == n,
            forall|k: int| 0 <= k < n ==> !flags@[k],
        decreases map.lanes@.len() - n,
    {
        flags.push(false);
        n += 1;
    }
    let mut queue: Vec<LaneID> = Vec::new();
    queue.push(start);
    proof {
        assert(walks_to(*map, start, start, seq![start]));
        assert(queue@[0] == start);
    }
    while queue.len() > 0
        invariant
            map.wf(),
            map.has_lane(start),
            flags@.len() == map.lanes@.len(),
            forall|q: int|
                0 <= q < queue@.len() ==> map.has_lane(#[trigger] queue@[q]) && lane_reachable(
                    *map,
                    start,
                    queue@[q],
                ),
            forall|k: int|
                0 <= k < flags@.len() && #[trigger] flags@[k] ==> lane_reachable(
                    *map,
                    start,
                    LaneID(k as usize),
                ),
            flags@[start.0 as int] || queue@.contains(start),
            closed_under_steps(*map, flags@, queue@, None, 0),
        decreases count_unset(flags@), queue@.len(),
    {
        let ghost waiting = queue@;
        let current = queue.pop().unwrap();
        proof {
            assert(current == waiting[waiting.len() - 1]);
            assert forall|b: LaneID| waiting.contains(b) implies queue@.contains(b) || b
                == current by {
                let q = choose|q: int| 0 <= q < waiting.len() && waiting[q] == b;
                if q < queue@.len() {
                    assert(queue@[q] == b);
                }
            }
        }
        if flags[current.0] {
            continue;
        }
        proof {
            lemma_count_unset_set(flags@, current.0 as int);
        }
        flags.set(current.0, true);
        proof {
            assert(map.lane_ok(current.0 as int));
        }
        let turns = map.get_turns_in_intersection(map.lanes[current.0].dst_i);
        let mut j: usize = 0;
        while j < turns.len()
            invariant
                map.wf(),
                map.has_lane(start),
                map.has_lane(current),
                lane_reachable(*map, start, current),
                flags@.len() == map.lanes@.len(),
                flags@[current.0 as int],
                turns@ == map.turns_in(map.lane(current).dst_i),
                map.has_intersection(map.lane(current).dst_i),
                j <= turns@.len(),
                forall|q: int|
                    0 <= q < queue@.len() ==> map.has_lane(#[trigger] queue@[q]) && lane_reachable(
                        *map,
                        start,
                        queue@[q],
                    ),
                forall|k: int|
                    0 <= k < flags@.len() && #[trigger] flags@[k] ==> lane_reachable(
                        *map,
                        start,
                        LaneID(k as usize),
                    ),
                flags@[start.0 as int] || queue@.contains(start),
                closed_under_steps(*map, flags@, queue@, Some(current), j as int),
            decreases turns@.len() - j,
        {
            let turn = &turns[j];
            let ghost before = queue@;
            proof {
                assert(map.intersection_ok(map.lane(current).dst_i.0 as int));
                assert(map.turn_ok(map.lane(current).dst_i.0 as int, turns@[j as int]));
            }
            if turn.id.src == current && turn.allowed && !flags[turn.id.dst.0] {
                proof {
                    assert(turn_leads(*map, current, turn.id.dst, j as int));
                    lemma_reach_step(*map, start, current, turn.id.dst);
                }
                queue.push(turn.id.dst);
            }
            proof {
                assert forall|b: LaneID| before.contains(b) implies queue@.contains(b) by {
                    let q = choose|q: int| 0 <= q < before.len() && before[q] == b;
                    assert(queue@[q] == b);
                }
                assert forall|a: LaneID, b: LaneID, m: int|
                    #![trigger turn_leads(*map, a, b, m)]
                    a.0 < flags@.len() && flags@[a.0 as int] && 0 <= m < map.turns_in(
                        map.lane(a).dst_i,
                    ).len() && turn_leads(*map, a, b, m) && (Some(current) == Some(a) ==> m < j
                        + 1) implies (b.0 < flags@.len() && flags@[b.0 as int])
                    || queue@.contains(b) by {
                    if a == current && m == j {
                        if !flags@[b.0 as int] {
                            assert(queue@[queue@.len() - 1] == b);
                        }
                    } else {
                        assert((b.0 < flags@.len() && flags@[b.0 as int]) || before.contains(b));
                    }
                }
            }
            j += 1;
        }
    }
    let r = LaneSet { flags };
    proof {
        assert(!queue@.contains(start));
        assert forall|l: LaneID| #[trigger] r@.contains(l) <==> lane_reachable(
            *map,
            start,
            l,
        ) by {
            if r@.contains(l) {
                assert(r.flags@[l.0 as int]);
                assert(LaneID(l.0 as int as usize) == l);
            }
            if lane_reachable(*map, start, l) {
                let w = choose|w: Seq<LaneID>| #[trigger] walks_to(*map, start, l, w);
                assert forall|a: LaneID, b: LaneID, m: int|
                    #![trigger turn_leads(*map, a, b, m)]
                    a.0 < r.flags@.len() && r.flags@[a.0 as int] && 0 <= m < map.turns_in(
                        map.lane(a).dst_i,
                    ).len() && turn_leads(*map, a, b, m) implies (b.0 < r.flags@.len()
                    && r.flags@[b.0 as int]) || Seq::<LaneID>::empty().contains(b) by {
                    assert((b.0 < r.flags@.len() && r.flags@[b.0 as int]) || queue@.contains(b));
                }
                lemma_closed_holds_walk(*map, r.flags@, w, w.len() - 1);
            }
        }
    }
    r
}

/// Whether a flood fill can start from the lane: not from a parking lane
/// and not from a shared left-turn lane.
pub fn can_flood_from(lane: &Lane) -> (r: bool)
    ensures
        r == (lane.lane_type != LaneType::Parking && lane.lane_type != LaneType::SharedLeftTurn),
{
    !lane.is_parking() && !(lane.lane_type == LaneType::SharedLeftTurn)
}

/// Whether the lane takes part in a connectivity report for sidewalks
/// (`sidewalks` set) or for the other lanes: never a parking or shared
/// left-turn lane, and a sidewalk exactly in a report for sidewalks.
pub open spec fn is_reported(lane: Lane, sidewalks: bool) -> bool {
    lane.lane_type != LaneType::Parking && lane.lane_type != LaneType::SharedLeftTurn && (
    lane.lane_type == LaneType::Sidewalk) == sidewalks
}

/// The lanes of a connectivity report, in the order of the network's lanes,
/// each with whether it is in `reachable`.
pub open spec fn report_of(lanes: Seq<Lane>, reachable: Set<LaneID>, sidewalks: bool) -> Seq<
    (LaneID, bool),
> {
    lanes.filter(|l: Lane| is_reported(l, sidewalks)).map_values(
        |l: Lane| (l.id, reachable.contains(l.id)),
    )
}

/// The entries of a report that are marked unreachable.
pub open spec fn unreachable_of(report: Seq<(LaneID, bool)>) -> Seq<(LaneID, bool)> {
    report.filter(|e: (LaneID, bool)| !e.1)
}

/// Reports the connectivity of the network's lanes: each lane that takes
/// part, with whether it is in `reachable`, and how many are not.
pub fn lane_connectivity(map: &RoadNetwork, reachable: &LaneSet, sidewalks: bool) -> (r: (
    Vec<(LaneID, bool)>,
    usize,
))
    ensures
        r.0@ == report_of(map.lanes@, reachable@, sidewalks),
        r.1 == unreachable_of(r.0@).len(),
{
    let mut report: Vec<(LaneID, bool)> = Vec::new();
    let mut num_unreachable: usize = 0;
    let ghost shown = |l: Lane| is_reported(l, sidewalks);
    let ghost entry = |l: Lane| (l.id, reachable@.contains(l.id));
    let ghost missing = |e: (LaneID, bool)| !e.1;
    let mut k: usize = 0;
    proof {
        reveal(Seq::filter);
        assert(map.lanes@.take(0).filter(shown) =~= Seq::<Lane>::empty());
    }
    while k < map.lanes.len()
        invariant
            k <= map.lanes@.len(),
            shown == (|l: Lane| is_reported(l, sidewalks)),
            entry == (|l: Lane| (l.id, reachable@.contains(l.id))),
            missing == (|e: (LaneID, bool)| !e.1),
            report@ == map.lanes@.take(k as int).filter(shown).map_values(entry),
            report@.len() <= k,
            num_unreachable == report@.filter(missing).len(),
            num_unreachable <= report@.len(),
        decreases map.lanes@.len() - k,
    {
        let lane = &map.lanes[k];
        let ghost before = report@;
        proof {
            reveal(Seq::filter);
            assert(map.lanes@.take(k + 1).drop_last() =~= map.lanes@.take(k as int));
        }
        if !lane.is_parking() && !(lane.lane_type == LaneType::SharedLeftTurn) && sidewalks
            == lane.is_sidewalk() {
            let found = reachable.contains(lane.id);
            report.push((lane.id, found));
            proof {
                assert(report@.drop_last() =~= before);
                assert(report@ =~= map.lanes@.take(k + 1).filter(shown).map_values(entry));
            }
            if !found {
                num_unreachable += 1;
            }
        }
        k += 1;
    }
    proof {
        assert(map.lanes@.take(k as int) =~= map.lanes@);
    }
    (report, num_unreachable)
}

/// The turn can be driven and is permitted.
pub open spec fn is_drivable(t: Turn) -> bool {
    t.allowed && !t.between_sidewalks()
}

/// The lane pairs, as plain numbers, of the drivable turns at the first `n`
/// intersections.
pub open spec fn drivable_edges_upto(map: RoadNetwork, n: nat) -> Seq<(usize, usize)>
    decreases n,
{
    if n == 0 {
        Seq::empty()
    } else {
        drivable_edges_upto(map, (n - 1) as nat) + map.intersections@[n - 1].turns@.filter(
            |t: Turn| is_drivable(t),
        ).map_values(|t: Turn| (t.id.src.0, t.id.dst.0))
    }
}

/// The edges of the lane graph: one from source to destination lane for
/// each drivable turn, intersection by intersection.
pub open spec fn drivable_edges(map: RoadNetwork) -> Seq<(usize, usize)> {
    drivable_edges_upto(map, map.intersections@.len())
}

/// Collects the edges of the lane graph.
pub fn lane_graph_edges(map: &RoadNetwork) -> (r: Vec<(usize, usize)>)
    ensures
        r@ == drivable_edges(*map),
{
    let mut out: Vec<(usize, usize)> = Vec::new();
    let ghost keep = |t: Turn| is_drivable(t);
    let ghost edge = |t: Turn| (t.id.src.0, t.id.dst.0);
    let mut k: usize = 0;
    while k < map.intersections.len()
        invariant
            k <= map.intersections@.len(),
            keep == (|t: Turn| is_drivable(t)),
            edge == (|t: Turn| (t.id.src.0, t.id.dst.0)),
            out@ == drivable_edges_upto(*map, k as nat),
        decreases map.intersections@.len() - k,
    {
        let turns = &map.intersections[k].turns;
        let ghost head = out@;
        let mut j: usize = 0;
        proof {
            reveal(Seq::filter);
            assert(turns@.take(0).filter(keep) =~= Seq::<Turn>::empty());
            assert(out@ =~= head + turns@.take(0).filter(keep).map_values(edge));
        }
        while j < turns.len()
            invariant
                j <= turns@.len(),
                keep == (|t: Turn| is_drivable(t)),
                edge == (|t: Turn| (t.id.src.0, t.id.dst.0)),
                out@ == head + turns@.take(j as int).filter(keep).map_values(edge),
            decreases turns@.len() - j,
        {
            let turn = &turns[j];
            proof {
                reveal(Seq::filter);
                assert(turns@.take(j + 1).drop_last() =~= turns@.take(j as int));
            }
            if turn.allowed && !turn.between_sidewalks() {
                out.push((turn.id.src.0, turn.id.dst.0));
                proof {
                    let prev = turns@.take(j as int).filter(keep).map_values(edge);
                    let next = turns@.take(j + 1).filter(keep).map_values(edge);
                    assert(next =~= prev.push(edge(turns@[j as int])));
                    assert(out@ =~= head + next);
                }
            }
            j += 1;
        }
        proof {
            assert(turns@.take(j as int) =~= turns@);
        }
        k += 1;
    }
    out
}

/// `k` is the place of the largest of `components`; among several of the
/// largest size, of the last.
pub open spec fn is_largest(components: Seq<Seq<usize>>, k: int) -> bool {
    &&& 0 <= k < components.len()
    &&& forall|j: int| 0 <= j < k ==> (#[trigger] components[j]).len() <= components[k].len()
    &&& forall|j: int| k < j < components.len() ==> (#[trigger] components[j]).len() < components[k].len()
}

/// Finds the largest component; among several of the largest size, the
/// last.
pub fn largest_component(components: &Vec<Vec<usize>>) -> (k: usize)
    requires
        components@.len() > 0,
    ensures
        is_largest(components.deep_view(), k as int),
{
    let mut best: usize = 0;
    let mut j: usize = 1;
    while j < components.len()
        invariant
            1 <= j <= components@.len(),
            best < j,
            forall|m: int| 0 <= m < best ==> (#[trigger] components@[m])@.len() <= components@[best as int]@.len(),
            forall|m: int| best < m < j ==> (#[trigger] components@[m])@.len() < components@[best as int]@.len(),
        decreases components@.len() - j,
    {
        if components[j].len() >= components[best].len() {
            best = j;
        }
        j += 1;
    }
    proof {
        let views = components.deep_view();
        assert forall|m: int| 0 <= m < views.len() implies (#[trigger] views[m]).len() == components@[m]@.len() by {
            assert(views[m] =~= components@[m]@);
        }
    }
    best
}

/// Every end of an edge of the lane graph is a lane of the network.
proof fn lemma_drivable_ends_exist(map: RoadNetwork, n: nat, node: usize)
    requires
        map.wf(),
        n <= map.intersections@.len(),
        is_endpoint(drivable_edges_upto(map, n), node),
    ensures
        map.has_lane(LaneID(node)),
    decreases n,
{
    let all = drivable_edges_upto(map, n);
    let e = choose|e: int| 0 <= e < all.len() && ((#[trigger] all[e]).0 == node || all[e].1 == node);
    let head = drivable_edges_upto(map, (n - 1) as nat);
    if e < head.len() {
        assert(head[e] == all[e]);
        lemma_drivable_ends_exist(map, (n - 1) as nat, node);
    } else {
        let turns = map.intersections@[n - 1].turns@;
        let keep = |t: Turn| is_drivable(t);
        let kept = turns.filter(keep);
        let m = e - head.len();
        assert(all[e] == (kept[m].id.src.0, kept[m].id.dst.0));
        assert(kept.contains(kept[m]));
        turns.lemma_filter_contains_rev(keep, kept[m]);
        let j = choose|j: int| 0 <= j < turns.len() && turns[j] == kept[m];
        assert(map.intersection_ok(n - 1));
        assert(map.turn_ok(n - 1, turns[j]));
    }
}

/// The flags mark exactly the lanes whose numbers are among `nodes`.
pub open spec fn marks(flags: Seq<bool>, nodes: Seq<usize>) -> bool {
    forall|v: usize| #[trigger] nodes.contains(v) <==> (v < flags.len() && flags[v as int])
}

/// The lanes that the node numbers of `component` stand for.
pub open spec fn lanes_of(component: Seq<usize>) -> Set<LaneID> {
    Set::new(|l: LaneID| component.contains(l.0))
}

/// Finds the largest set of lanes in which every lane can be reached from
/// every other along drivable turns. Gives `None` where the network has no
/// such set, that is, where the lane graph has no component at all.
pub fn strongly_connected_lanes(map: &RoadNetwork) -> (r: Option<LaneSet>)
    requires
        map.wf(),
    ensures
        match r {
            None => digraph_components(drivable_edges(*map)).len() == 0,
            Some(set) => exists|k: int|
                #[trigger] is_largest(digraph_components(drivable_edges(*map)), k) && set@
                    == lanes_of(digraph_components(drivable_edges(*map))[k]),
        },
{
    let edges = lane_graph_edges(map);
    let components = strongly_connected_components(&edges);
    if components.len() == 0 {
        return None;
    }
    let k = largest_component(&components);
    let chosen = &components[k];
    let mut flags: Vec<bool> = Vec::new();
    let mut n: usize = 0;
    while n < map.lanes.len()
        invariant
            n <= map.lanes@.len(),
            flags@.len() == n,
            forall|m: int| 0 <= m < n ==> !flags@[m],
        decreases map.lanes@.len() - n,
    {
        flags.push(false);
        n += 1;
    }
    let mut j: usize = 0;
    proof {
        assert forall|v: usize| #[trigger] chosen@.take(0).contains(v) <==> (v < flags@.len()
            && flags@[v as int]) by {}
    }
    while j < chosen.len()
        invariant
            map.wf(),
            edges@ == drivable_edges(*map),
            forall|m: int| 0 <= m < chosen@.len() ==> is_endpoint(edges@, #[trigger] chosen@[m]),
            j <= chosen@.len(),
            flags@.len() == map.lanes@.len(),
            marks(flags@, chosen@.take(j as int)),
        decreases chosen@.len() - j,
    {
        let node = chosen[j];
        proof {
            assert(is_endpoint(edges@, chosen@[j as int]));
            lemma_drivable_ends_exist(*map, map.intersections@.len(), node);
        }
        let ghost before = flags@;
        flags.set(node, true);
        proof {
            let old_part = chosen@.take(j as int);
            let new_part = chosen@.take(j + 1);
            assert forall|v: usize| #[trigger] new_part.contains(v) <==> (v < flags@.len()
                && flags@[v as int]) by {
                if old_part.contains(v) {
                    let q = choose|q: int| 0 <= q < old_part.len() && old_part[q] == v;
                    assert(new_part[q] == v);
                }
                if v == node {
                    assert(new_part[j as int] == v);
                }
                if new_part.contains(v) {
                    let q = choose|q: int| 0 <= q < new_part.len() && new_part[q] == v;
                    if q < j {
                        assert(old_part[q] == v);
                    }
                }
            }
        }
        j += 1;
    }
    let set = LaneSet { flags };
    proof {
        let named = digraph_components(drivable_edges(*map));
        assert(chosen@.take(j as int) =~= chosen@);
        assert(named[k as int] =~= chosen@);
        assert(set@ =~= lanes_of(named[k as int]));
        assert(is_largest(named, k as int));
    }
    Some(set)
}

} // verus!
