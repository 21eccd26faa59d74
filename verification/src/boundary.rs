//! The boundary of a cluster of intersections.
//!
//! Among the driven turns at the intersections of a cluster, an entrance is
//! one whose source lane comes from outside the cluster, and an exit is one
//! whose destination lane leads outside. A turn may be both. Turns between
//! sidewalks are never either.

use vstd::prelude::*;
use crate::collections::TurnSet;
use crate::ids::{IntersectionID, TurnID};
use crate::network::{RoadNetwork, Turn};

verus! {

/// `t` is driven, and the lane it starts on comes from an intersection that
/// is not among `members`.
pub open spec fn is_entrance(map: RoadNetwork, members: Seq<IntersectionID>, t: Turn) -> bool {
    !t.between_sidewalks() && !members.contains(map.lane(t.id.src).src_i)
}

/// `t` is driven, and the lane it ends on leads to an intersection that is
/// not among `members`.
pub open spec fn is_exit(map: RoadNetwork, members: Seq<IntersectionID>, t: Turn) -> bool {
    !t.between_sidewalks() && !members.contains(map.lane(t.id.dst).dst_i)
}

/// The entrances at intersection `i`, in the order in which it lists its
/// turns.
pub open spec fn entrances_at(
    map: RoadNetwork,
    members: Seq<IntersectionID>,
    i: IntersectionID,
) -> Seq<TurnID> {
    map.turns_in(i).filter(|t: Turn| is_entrance(map, members, t)).map_values(|t: Turn| t.id)
}

/// The entrances at the first `n` members.
pub open spec fn entrances_upto(map: RoadNetwork, members: Seq<IntersectionID>, n: nat) -> Seq<
    TurnID,
>
    decreases n,
{
    if n == 0 {
        Seq::empty()
    } else {
        entrances_upto(map, members, (n - 1) as nat) + entrances_at(map, members, members[n - 1])
    }
}

/// The entrances of the cluster: member by member, and turn by turn. A turn
/// listed twice is an entrance twice.
pub open spec fn entrances(map: RoadNetwork, members: Seq<IntersectionID>) -> Seq<TurnID> {
    entrances_upto(map, members, members.len())
}

/// `id` names an exit among the first `j` turns of the `k`-th member, or
/// among the turns of an earlier member.
pub open spec fn exit_before(
    map: RoadNetwork,
    members: Seq<IntersectionID>,
    id: TurnID,
    k: int,
    j: int,
) -> bool {
    exists|m: int, n: int|
        0 <= m < members.len() && 0 <= n < map.turns_in(members[m]).len() && (m < k || (m == k && n
            < j)) && (#[trigger] map.turns_in(members[m])[n]).id == id && is_exit(
            map,
            members,
            map.turns_in(members[m])[n],
        )
}

/// `id` names a driven turn that takes place at a member.
pub open spec fn driven_at_member(
    map: RoadNetwork,
    members: Seq<IntersectionID>,
    id: TurnID,
) -> bool {
    exists|m: int, n: int|
        0 <= m < members.len() && 0 <= n < map.turns_in(members[m]).len() && (
        #[trigger] map.turns_in(members[m])[n]).id == id && !map.turns_in(
            members[m],
        )[n].between_sidewalks()
}

/// The exits of the cluster.
pub open spec fn exits(map: RoadNetwork, members: Seq<IntersectionID>) -> Set<TurnID> {
    Set::new(|id: TurnID| exit_before(map, members, id, members.len() as int, 0))
}

/// Decides whether `i` is among `members`.
pub fn contains_member(members: &Vec<IntersectionID>, i: IntersectionID) -> (r: bool)
    ensures
        r == members@.contains(i),
{
    let mut k: usize = 0;
    while k < members.len()
        invariant
            k <= members@.len(),
            forall|j: int| 0 <= j < k ==> members@[j] != i,
        decreases members@.len() - k,
    {
        if members[k] == i {
            return true;
        }
        k += 1;
    }
    false
}

/// Every entrance is a driven turn at a member, it starts on a lane that
/// comes from outside, and its lanes exist.
pub proof fn lemma_entrances(map: RoadNetwork, members: Seq<IntersectionID>, n: nat, e: int)
    requires
        map.wf(),
        n <= members.len(),
        forall|k: int| 0 <= k < members.len() ==> map.has_intersection(#[trigger] members[k]),
        0 <= e < entrances_upto(map, members, n).len(),
    ensures
        ({
            let id = entrances_upto(map, members, n)[e];
            &&& map.has_lane(id.src)
            &&& map.has_lane(id.dst)
            &&& !members.contains(map.lane(id.src).src_i)
            &&& members.contains(map.lane(id.src).dst_i)
            &&& exits(map, members).contains(id) || members.contains(map.lane(id.dst).dst_i)
            &&& driven_at_member(map, members, id)
        }),
    decreases n,
{
    let head = entrances_upto(map, members, (n - 1) as nat);
    if e < head.len() {
        lemma_entrances(map, members, (n - 1) as nat, e);
    } else {
        let i = members[n - 1];
        let keep = |t: Turn| is_entrance(map, members, t);
        let kept = map.turns_in(i).filter(keep);
        let m = e - head.len();
        assert(entrances_upto(map, members, n)[e] == kept[m].id);
        map.turns_in(i).lemma_filter_pred(keep, m);
        map.turns_in(i).lemma_filter_contains_rev(keep, kept[m]);
        let j = choose|j: int| 0 <= j < map.turns_in(i).len() && map.turns_in(i)[j] == kept[m];
        assert(map.intersection_ok(i.0 as int));
        assert(map.turn_ok(i.0 as int, map.turns_in(i)[j]));
        assert(map.lane(kept[m].id.src).dst_i == i);
        assert(map.turns_in(members[n - 1])[j].id == kept[m].id);
        if !members.contains(map.lane(kept[m].id.dst).dst_i) {
            assert(is_exit(map, members, map.turns_in(members[n - 1])[j]));
            assert(exit_before(map, members, kept[m].id, members.len() as int, 0));
        }
    }
}

/// Every exit ends on a lane that exists and leads outside.
pub proof fn lemma_exits(map: RoadNetwork, members: Seq<IntersectionID>, id: TurnID)
    requires
        map.wf(),
        forall|k: int| 0 <= k < members.len() ==> map.has_intersection(#[trigger] members[k]),
        exits(map, members).contains(id),
    ensures
        map.has_lane(id.src),
        map.has_lane(id.dst),
        !members.contains(map.lane(id.dst).dst_i),
{
    let (m, n) = choose|m: int, n: int|
        0 <= m < members.len() && 0 <= n < map.turns_in(members[m]).len() && (m < members.len() || (
        m == members.len() && n < 0)) && (#[trigger] map.turns_in(members[m])[n]).id == id
            && is_exit(map, members, map.turns_in(members[m])[n]);
    assert(map.intersection_ok(members[m].0 as int));
    assert(map.turn_ok(members[m].0 as int, map.turns_in(members[m])[n]));
}

/// Lists the entrances of the cluster `members` and collects its exits.
pub fn classify_boundary(members: &Vec<IntersectionID>, map: &RoadNetwork) -> (r: (
    Vec<TurnID>,
    TurnSet,
))
    requires
        map.wf(),
        forall|k: int| 0 <= k < members@.len() ==> map.has_intersection(#[trigger] members@[k]),
    ensures
        r.0@ == entrances(*map, members@),
        r.1@ == exits(*map, members@),
{
    let mut ins: Vec<TurnID> = Vec::new();
    let mut outs = TurnSet::new();
    let mut k: usize = 0;
    proof {
        assert(outs@ =~= Set::new(|id: TurnID| exit_before(*map, members@, id, 0, 0)));
    }
    while k < members.len()
        invariant
            map.wf(),
            forall|m: int| 0 <= m < members@.len() ==> map.has_intersection(#[trigger] members@[m]),
            k <= members@.len(),
            ins@ == entrances_upto(*map, members@, k as nat),
            outs@ == Set::new(|id: TurnID| exit_before(*map, members@, id, k as int, 0)),
        decreases members@.len() - k,
    {
        let i = members[k];
        let turns = map.get_turns_in_intersection(i);
        let ghost head = ins@;
        let ghost keep = |t: Turn| is_entrance(*map, members@, t);
        let ghost id_of = |t: Turn| t.id;
        let mut j: usize = 0;
        proof {
            reveal(Seq::filter);
            assert(turns@.take(0).filter(keep) =~= Seq::<Turn>::empty());
            assert(ins@ =~= head + turns@.take(0).filter(keep).map_values(id_of));
            assert(map.intersection_ok(i.0 as int));
        }
        while j < turns.len()
            invariant
                map.wf(),
                k < members@.len(),
                i == members@[k as int],
                map.has_intersection(i),
                map.intersection_ok(i.0 as int),
                turns@ == map.turns_in(i),
                j <= turns@.len(),
                keep == (|t: Turn| is_entrance(*map, members@, t)),
                id_of == (|t: Turn| t.id),
                ins@ == head + turns@.take(j as int).filter(keep).map_values(id_of),
                outs@ == Set::new(|id: TurnID| exit_before(*map, members@, id, k as int, j as int)),
            decreases turns@.len() - j,
        {
            let turn = &turns[j];
            let ghost ins_before = ins@;
            let ghost outs_before = outs@;
            proof {
                reveal(Seq::filter);
                assert(turns@.take(j + 1).drop_last() =~= turns@.take(j as int));
                assert(map.turn_ok(i.0 as int, turns@[j as int]));
            }
            if !turn.between_sidewalks() {
                if !contains_member(members, map.get_l(turn.id.src).src_i) {
                    ins.push(turn.id);
                }
                if !contains_member(members, map.get_l(turn.id.dst).dst_i) {
                    outs.insert(turn.id);
                }
            }
            proof {
                let prev = turns@.take(j as int).filter(keep).map_values(id_of);
                let next = turns@.take(j + 1).filter(keep).map_values(id_of);
                if keep(turns@[j as int]) {
                    assert(next =~= prev.push(turns@[j as int].id));
                    assert(ins@ =~= head + next);
                } else {
                    assert(next =~= prev);
                }
                assert(outs@ =~= Set::new(
                    |id: TurnID| exit_before(*map, members@, id, k as int, j + 1),
                )) by {
                    assert forall|id: TurnID|
                        outs@.contains(id) == exit_before(*map, members@, id, k as int, j + 1) by {
                        if exit_before(*map, members@, id, k as int, j as int) {
                            let (m, n) = choose|m: int, n: int|
                                0 <= m < members@.len() && 0 <= n < map.turns_in(members@[m]).len()
                                    && (m < k || (m == k && n < j)) && (#[trigger] map.turns_in(
                                    members@[m],
                                )[n]).id == id && is_exit(
                                    *map,
                                    members@,
                                    map.turns_in(members@[m])[n],
                                );
                            assert(map.turns_in(members@[m])[n].id == id);
                        }
                        if is_exit(*map, members@, turns@[j as int]) && id == turns@[j as int].id {
                            assert(map.turns_in(members@[k as int])[j as int].id == id);
                        }
                        if exit_before(*map, members@, id, k as int, j + 1) {
                            let (m, n) = choose|m: int, n: int|
                                0 <= m < members@.len() && 0 <= n < map.turns_in(members@[m]).len()
                                    && (m < k || (m == k && n < j + 1)) && (#[trigger] map.turns_in(
                                    members@[m],
                                )[n]).id == id && is_exit(
                                    *map,
                                    members@,
                                    map.turns_in(members@[m])[n],
                                );
                            if !(m == k && n == j) {
                                assert(map.turns_in(members@[m])[n].id == id);
                                assert(exit_before(*map, members@, id, k as int, j as int));
                            }
                        }
                    }
                }
            }
            j += 1;
        }
        proof {
            assert(turns@.take(j as int) =~= turns@);
            assert(outs@ =~= Set::new(|id: TurnID| exit_before(*map, members@, id, k + 1, 0))) by {
                assert forall|id: TurnID|
                    exit_before(*map, members@, id, k as int, j as int) == exit_before(
                        *map,
                        members@,
                        id,
                        k + 1,
                        0,
                    ) by {
                    if exit_before(*map, members@, id, k as int, j as int) {
                        let (m, n) = choose|m: int, n: int|
                            0 <= m < members@.len() && 0 <= n < map.turns_in(members@[m]).len() && (
                            m < k || (m == k && n < j)) && (#[trigger] map.turns_in(
                                members@[m],
                            )[n]).id == id && is_exit(*map, members@, map.turns_in(members@[m])[n]);
                        assert(map.turns_in(members@[m])[n].id == id);
                    }
                    if exit_before(*map, members@, id, k + 1, 0) {
                        let (m, n) = choose|m: int, n: int|
                            0 <= m < members@.len() && 0 <= n < map.turns_in(members@[m]).len() && (
                            m < k + 1 || (m == k + 1 && n < 0)) && (#[trigger] map.turns_in(
                                members@[m],
                            )[n]).id == id && is_exit(*map, members@, map.turns_in(members@[m])[n]);
                        assert(map.turns_in(members@[m])[n].id == id);
                    }
                }
            }
        }
        k += 1;
    }
    proof {
        assert(outs@ =~= exits(*map, members@));
    }
    (ins, outs)
}

} // verus!
