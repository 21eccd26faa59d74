//! The forward search from one entrance of a cluster to its exits.
//!
//! The search is depth first and remembers, for every turn it discovers, the
//! turn from which it was discovered. A branch ends at an exit, where the way
//! back to the entrance is read off those links, or at a turn seen before.
//! So each exit that can be reached yields exactly one path: the one found
//! first.

use vstd::prelude::*;
use crate::collections::{TurnMap, TurnSet};
use crate::ids::TurnID;
use crate::network::{lemma_turns_from_lane, RoadNetwork, Turn};
use crate::uber_turn::{is_chain, paths_of, UberTurn};

verus! {

/// `p` leads from `start` to `end` along the links of `preds`, and meets
/// `start` nowhere but at its beginning.
pub open spec fn is_rooted_chain(
    preds: Map<TurnID, TurnID>,
    start: TurnID,
    end: TurnID,
    p: Seq<TurnID>,
) -> bool {
    &&& p.len() >= 1
    &&& p[0] == start
    &&& p.last() == end
    &&& forall|i: int|
        0 < i < p.len() ==> (#[trigger] p[i]) != start && preds.contains_key(p[i]) && preds[p[i]]
            == p[i - 1]
}

/// The way from `start` to `end` along the links of `preds`.
pub open spec fn path_to(preds: Map<TurnID, TurnID>, start: TurnID, end: TurnID) -> Seq<TurnID> {
    choose|p: Seq<TurnID>| is_rooted_chain(preds, start, end, p)
}

/// There is at most one way from `start` to `end` along the links.
pub proof fn lemma_rooted_chain_unique(
    preds: Map<TurnID, TurnID>,
    start: TurnID,
    end: TurnID,
    p: Seq<TurnID>,
    q: Seq<TurnID>,
)
    requires
        is_rooted_chain(preds, start, end, p),
        is_rooted_chain(preds, start, end, q),
    ensures
        p == q,
    decreases p.len(),
{
    if end == start {
        if p.len() > 1 {
            assert(p[p.len() - 1] != start);
        }
        if q.len() > 1 {
            assert(q[q.len() - 1] != start);
        }
        assert(p =~= q);
    } else {
        assert(p.len() > 1);
        assert(q.len() > 1);
        let pl = p.len() - 1;
        let ql = q.len() - 1;
        assert(preds[p[pl]] == p[pl - 1]);
        assert(preds[q[ql]] == q[ql - 1]);
        let p0 = p.drop_last();
        let q0 = q.drop_last();
        assert forall|i: int| 0 < i < p0.len() implies (#[trigger] p0[i]) != start
            && preds.contains_key(p0[i]) && preds[p0[i]] == p0[i - 1] by {
            assert(p0[i] == p[i]);
        }
        assert forall|i: int| 0 < i < q0.len() implies (#[trigger] q0[i]) != start
            && preds.contains_key(q0[i]) && preds[q0[i]] == q0[i - 1] by {
            assert(q0[i] == q[i]);
        }
        lemma_rooted_chain_unique(preds, start, p[pl - 1], p0, q0);
        assert(p =~= p0.push(end));
        assert(q =~= q0.push(end));
    }
}

/// Reads the path from `start` to `end` off the predecessor links.
pub fn trace_back(end: TurnID, start: TurnID, preds: &TurnMap) -> (path: Vec<TurnID>)
    requires
        exists|p: Seq<TurnID>| is_rooted_chain(preds@, start, end, p),
    ensures
        is_rooted_chain(preds@, start, end, path@),
        path@ == path_to(preds@, start, end),
{
    let ghost p = choose|p: Seq<TurnID>| is_rooted_chain(preds@, start, end, p);
    let ghost mut idx: int = p.len() - 1;
    let mut back: Vec<TurnID> = Vec::new();
    back.push(end);
    let mut current = end;
    while current != start
        invariant
            is_rooted_chain(preds@, start, end, p),
            0 <= idx < p.len(),
            current == p[idx],
            back@.len() == p.len() - idx,
            forall|j: int| 0 <= j < back@.len() ==> back@[j] == p[p.len() - 1 - j],
        decreases idx,
    {
        proof {
            assert(idx > 0);
            assert(preds@.contains_key(p[idx]) && preds@[p[idx]] == p[idx - 1]);
        }
        let prev = preds.get(&current).unwrap();
        back.push(prev);
        current = prev;
        proof {
            idx = idx - 1;
        }
    }
    proof {
        if idx > 0 {
            assert(p[idx] != start);
        }
    }
    let mut path: Vec<TurnID> = Vec::new();
    let mut k: usize = back.len();
    while k > 0
        invariant
            k <= back@.len(),
            back@.len() == p.len(),
            path@.len() == back@.len() - k,
            forall|j: int| 0 <= j < back@.len() ==> back@[j] == p[p.len() - 1 - j],
            forall|j: int| 0 <= j < path@.len() ==> path@[j] == p[j],
        decreases k,
    {
        k -= 1;
        path.push(back[k]);
    }
    proof {
        assert(path@ =~= p);
    }
    path
}

/// The state of a search: the link back from each turn discovered so far,
/// the turns that wait to be expanded (the last one is next), and the paths
/// found.
pub struct Search {
    pub preds: Map<TurnID, TurnID>,
    pub queue: Seq<TurnID>,
    pub results: Seq<Seq<TurnID>>,
}

/// The search looks at `next`, a turn that follows `current`. A turn seen
/// before changes nothing. A new one is linked back to `current`; if it is
/// an exit, the path to it is recorded, otherwise it waits to be expanded.
pub open spec fn visit(
    exits: Set<TurnID>,
    start: TurnID,
    st: Search,
    current: TurnID,
    next: TurnID,
) -> Search {
    if st.preds.contains_key(next) {
        st
    } else {
        let preds = st.preds.insert(next, current);
        if exits.contains(next) {
            Search { preds, queue: st.queue, results: st.results.push(path_to(preds, start, next)) }
        } else {
            Search { preds, queue: st.queue.push(next), results: st.results }
        }
    }
}

/// The search looks at each of `succs` in turn.
pub open spec fn expand(
    exits: Set<TurnID>,
    start: TurnID,
    st: Search,
    current: TurnID,
    succs: Seq<TurnID>,
) -> Search
    decreases succs.len(),
{
    if succs.len() == 0 {
        st
    } else {
        visit(exits, start, expand(exits, start, st, current, succs.drop_last()), current, succs.last())
    }
}

/// One round of the search: the turn that waited last is taken off the
/// queue, and every turn that leaves its destination lane is looked at.
pub open spec fn step(map: RoadNetwork, exits: Set<TurnID>, start: TurnID, st: Search) -> Search {
    let current = st.queue.last();
    expand(
        exits,
        start,
        Search { preds: st.preds, queue: st.queue.drop_last(), results: st.results },
        current,
        map.turns_from_lane(current.dst),
    )
}

/// The state after `n` rounds. Once nothing waits, the state stays as it is.
pub open spec fn run(map: RoadNetwork, exits: Set<TurnID>, start: TurnID, n: nat) -> Search
    decreases n,
{
    if n == 0 {
        Search { preds: Map::empty(), queue: seq![start], results: Seq::empty() }
    } else {
        let before = run(map, exits, start, (n - 1) as nat);
        if before.queue.len() == 0 {
            before
        } else {
            step(map, exits, start, before)
        }
    }
}

/// After `n` rounds nothing waits to be expanded.
pub open spec fn search_ends(map: RoadNetwork, exits: Set<TurnID>, start: TurnID, n: nat) -> bool {
    run(map, exits, start, n).queue.len() == 0
}

/// The paths that the search from `start` finds, in the order in which it
/// finds them. An entrance that is itself an exit is its own single path.
pub open spec fn flood_paths(map: RoadNetwork, exits: Set<TurnID>, start: TurnID) -> Seq<
    Seq<TurnID>,
> {
    if exits.contains(start) {
        seq![seq![start]]
    } else {
        run(map, exits, start, choose|n: nat| search_ends(map, exits, start, n)).results
    }
}

/// A search that has ended after `n` rounds is in the same state after any
/// larger number of rounds.
pub proof fn lemma_run_stays(map: RoadNetwork, exits: Set<TurnID>, start: TurnID, n: nat, m: nat)
    requires
        search_ends(map, exits, start, n),
        n <= m,
    ensures
        run(map, exits, start, m) == run(map, exits, start, n),
    decreases m,
{
    if m > n {
        lemma_run_stays(map, exits, start, n, (m - 1) as nat);
    }
}

/// However many rounds it took a search to end, the paths are the same.
pub proof fn lemma_search_result(map: RoadNetwork, exits: Set<TurnID>, start: TurnID, n: nat)
    requires
        !exits.contains(start),
        search_ends(map, exits, start, n),
    ensures
        flood_paths(map, exits, start) == run(map, exits, start, n).results,
{
    let m = choose|m: nat| search_ends(map, exits, start, m);
    if m <= n {
        lemma_run_stays(map, exits, start, m, n);
    } else {
        lemma_run_stays(map, exits, start, n, m);
    }
}

/// `p` is a walk through the network: each turn after the first leaves the
/// lane on which the turn before it arrived.
pub open spec fn is_walk(map: RoadNetwork, p: Seq<TurnID>) -> bool {
    &&& p.len() >= 1
    &&& forall|i: int| 0 < i < p.len() ==> map.turns_from_lane(p[i - 1].dst).contains(#[trigger] p[i])
}

/// `p` is a walk from `start` that passes no exit before its end.
pub open spec fn is_search_walk(
    map: RoadNetwork,
    exits: Set<TurnID>,
    start: TurnID,
    p: Seq<TurnID>,
) -> bool {
    &&& is_walk(map, p)
    &&& p[0] == start
    &&& forall|i: int| 0 <= i < p.len() - 1 ==> !exits.contains(#[trigger] p[i])
}

/// `p` is a walk from `start` to an exit, the first exit that it meets.
pub open spec fn is_crossing(
    map: RoadNetwork,
    exits: Set<TurnID>,
    start: TurnID,
    p: Seq<TurnID>,
) -> bool {
    &&& is_search_walk(map, exits, start, p)
    &&& exits.contains(p.last())
}

/// Along a walk that starts with a valid turn, every turn is a turn of the
/// network, and each starts on the lane where the one before it ended.
pub proof fn lemma_walk_is_chain(map: RoadNetwork, p: Seq<TurnID>)
    requires
        map.wf(),
        is_walk(map, p),
        map.has_lane(p[0].dst),
    ensures
        is_chain(p),
        forall|i: int| 0 <= i < p.len() ==> map.has_lane((#[trigger] p[i]).dst),
        forall|i: int| 0 < i < p.len() ==> map.has_turn(#[trigger] p[i]),
    decreases p.len(),
{
    if p.len() > 1 {
        let q = p.drop_last();
        assert forall|i: int| 0 < i < q.len() implies map.turns_from_lane(q[i - 1].dst).contains(
            #[trigger] q[i],
        ) by {
            assert(q[i] == p[i]);
        }
        lemma_walk_is_chain(map, q);
        let n = p.len() - 1;
        assert(q[n - 1] == p[n - 1]);
        assert(map.has_lane(q[n - 1].dst));
        let succs = map.turns_from_lane(p[n - 1].dst);
        assert(succs.contains(p[n]));
        let j = choose|j: int| 0 <= j < succs.len() && succs[j] == p[n];
        lemma_turns_from_lane(map, p[n - 1].dst, j);
        assert forall|i: int| 0 <= i < p.len() - 1 implies (#[trigger] p[i]).dst == p[i + 1].src by {
            if i < n - 1 {
                assert(q[i] == p[i]);
                assert(q[i + 1] == p[i + 1]);
            }
        }
        assert forall|i: int| 0 <= i < p.len() implies map.has_lane((#[trigger] p[i]).dst) by {
            if i < n {
                assert(q[i] == p[i]);
            }
        }
        assert forall|i: int| 0 < i < p.len() implies map.has_turn(#[trigger] p[i]) by {
            if i < n {
                assert(q[i] == p[i]);
            }
        }
    }
}

/// The identifiers of the turns at the first `n` intersections.
pub open spec fn turn_ids_upto(map: RoadNetwork, n: nat) -> Seq<TurnID>
    decreases n,
{
    if n == 0 {
        Seq::empty()
    } else {
        turn_ids_upto(map, (n - 1) as nat) + map.intersections@[n - 1].turns@.map_values(
            |t: Turn| t.id,
        )
    }
}

/// Every turn of the network.
pub open spec fn turn_universe(map: RoadNetwork) -> Set<TurnID> {
    turn_ids_upto(map, map.intersections@.len()).to_set()
}

proof fn lemma_turn_ids_upto(map: RoadNetwork, n: nat, i: int, j: int)
    requires
        0 <= i < n <= map.intersections@.len(),
        0 <= j < map.intersections@[i].turns@.len(),
    ensures
        turn_ids_upto(map, n).contains(map.intersections@[i].turns@[j].id),
    decreases n,
{
    let head = turn_ids_upto(map, (n - 1) as nat);
    let tail = map.intersections@[n - 1].turns@.map_values(|t: Turn| t.id);
    if i == n - 1 {
        assert((head + tail)[head.len() + j] == tail[j]);
    } else {
        lemma_turn_ids_upto(map, (n - 1) as nat, i, j);
        let k = choose|k: int| 0 <= k < head.len() && head[k] == map.intersections@[i].turns@[j].id;
        assert((head + tail)[k] == head[k]);
    }
}

/// The turns of a network are finitely many, and each is among them.
pub proof fn lemma_turn_universe(map: RoadNetwork, t: TurnID)
    requires
        map.wf(),
        map.has_turn(t),
    ensures
        turn_universe(map).finite(),
        turn_universe(map).contains(t),
{
    broadcast use vstd::seq_lib::seq_to_set_is_finite;

    let i = map.lane(t.src).dst_i;
    assert(map.lane_ok(t.src.0 as int));
    let j = choose|j: int| 0 <= j < map.turns_in(i).len() && (#[trigger] map.turns_in(i)[j]).id == t;
    lemma_turn_ids_upto(map, map.intersections@.len(), i.0 as int, j);
}

/// `t` is the entrance or has been linked back to another turn.
pub open spec fn discovered(st: Search, start: TurnID, t: TurnID) -> bool {
    t == start || st.preds.contains_key(t)
}

/// Every turn that leaves the destination lane of `t` has been discovered.
pub open spec fn expanded(map: RoadNetwork, preds: Map<TurnID, TurnID>, t: TurnID) -> bool {
    forall|j: int|
        0 <= j < map.turns_from_lane(t.dst).len() ==> preds.contains_key(
            #[trigger] map.turns_from_lane(t.dst)[j],
        )
}

/// What holds of a search at every moment. `chains` gives, for each turn
/// discovered, the walk by which it was reached; `busy` holds the turn that
/// is being expanded, if one is.
pub open spec fn search_inv(
    map: RoadNetwork,
    exits: Set<TurnID>,
    start: TurnID,
    st: Search,
    chains: Map<TurnID, Seq<TurnID>>,
    busy: Seq<TurnID>,
) -> bool {
    &&& forall|q: int|
        0 <= q < st.queue.len() ==> map.has_lane((#[trigger] st.queue[q]).dst) && !exits.contains(
            st.queue[q],
        ) && discovered(st, start, st.queue[q])
    &&& forall|k: TurnID| #[trigger] st.preds.contains_key(k) ==> map.has_turn(k)
    &&& forall|k: TurnID|
        #[trigger] st.preds.contains_key(k) && k != start ==> chains.contains_key(k)
            && is_rooted_chain(st.preds, start, k, chains[k]) && is_search_walk(
            map,
            exits,
            start,
            chains[k],
        )
    &&& forall|a: int|
        0 <= a < st.results.len() ==> is_crossing(map, exits, start, #[trigger] st.results[a])
            && st.preds.contains_key(st.results[a].last())
    &&& forall|a: int, b: int|
        0 <= a < b < st.results.len() ==> (#[trigger] st.results[a]).last() != (
        #[trigger] st.results[b]).last()
    &&& forall|k: TurnID|
        #[trigger] st.preds.contains_key(k) && exits.contains(k) ==> exists|a: int|
            0 <= a < st.results.len() && (#[trigger] st.results[a]).last() == k
    &&& forall|t: TurnID|
        #[trigger] discovered(st, start, t) && !exits.contains(t) ==> st.queue.contains(t)
            || busy.contains(t) || expanded(map, st.preds, t)
}

/// The walk by which a discovered turn was reached.
pub open spec fn chain_of(chains: Map<TurnID, Seq<TurnID>>, start: TurnID, t: TurnID) -> Seq<
    TurnID,
> {
    if t == start {
        seq![start]
    } else {
        chains[t]
    }
}

/// Looking at one more turn keeps what holds of a search, and either leaves
/// the state as it was or discovers a turn of the network that was not
/// discovered before.
proof fn lemma_visit(
    map: RoadNetwork,
    exits: Set<TurnID>,
    start: TurnID,
    st: Search,
    chains: Map<TurnID, Seq<TurnID>>,
    current: TurnID,
    next: TurnID,
) -> (after: Map<TurnID, Seq<TurnID>>)
    requires
        map.wf(),
        !exits.contains(start),
        search_inv(map, exits, start, st, chains, seq![current]),
        map.has_lane(current.dst),
        !exits.contains(current),
        discovered(st, start, current),
        map.turns_from_lane(current.dst).contains(next),
    ensures
        search_inv(map, exits, start, visit(exits, start, st, current, next), after, seq![current]),
        visit(exits, start, st, current, next).preds.contains_key(next),
        st.preds.contains_key(next) ==> visit(exits, start, st, current, next) == st,
        !st.preds.contains_key(next) ==> map.has_turn(next) && visit(
            exits,
            start,
            st,
            current,
            next,
        ).preds == st.preds.insert(next, current),
        !st.preds.contains_key(next) && next != start ==> is_rooted_chain(
            st.preds.insert(next, current),
            start,
            next,
            after[next],
        ),
        forall|k: TurnID| st.preds.contains_key(k) ==> visit(
            exits,
            start,
            st,
            current,
            next,
        ).preds.contains_key(k),
{
    let succs = map.turns_from_lane(current.dst);
    let j = choose|j: int| 0 <= j < succs.len() && succs[j] == next;
    lemma_turns_from_lane(map, current.dst, j);
    if st.preds.contains_key(next) {
        chains
    } else {
        lemma_visit_new(map, exits, start, st, chains, current, next)
    }
}

/// The case of `lemma_visit` in which `next` had not been discovered.
proof fn lemma_visit_new(
    map: RoadNetwork,
    exits: Set<TurnID>,
    start: TurnID,
    st: Search,
    chains: Map<TurnID, Seq<TurnID>>,
    current: TurnID,
    next: TurnID,
) -> (after: Map<TurnID, Seq<TurnID>>)
    requires
        map.wf(),
        !exits.contains(start),
        search_inv(map, exits, start, st, chains, seq![current]),
        map.has_lane(current.dst),
        !exits.contains(current),
        discovered(st, start, current),
        map.turns_from_lane(current.dst).contains(next),
        map.has_turn(next),
        map.has_lane(next.dst),
        !st.preds.contains_key(next),
    ensures
        search_inv(map, exits, start, visit(exits, start, st, current, next), after, seq![current]),
        next != start ==> is_rooted_chain(
            st.preds.insert(next, current),
            start,
            next,
            after[next],
        ),
{
    let preds = st.preds.insert(next, current);
    let now = visit(exits, start, st, current, next);
    let base = chain_of(chains, start, current);
    assert(is_rooted_chain(st.preds, start, current, base) && is_search_walk(
        map,
        exits,
        start,
        base,
    ));
    let walk = base.push(next);
    let after = if next == start {
        chains
    } else {
        chains.insert(next, walk)
    };
    // The links that were known are untouched, so the known walks still stand.
    assert forall|k: TurnID| #[trigger] preds.contains_key(k) && k != start implies after.contains_key(
        k,
    ) && is_rooted_chain(preds, start, k, after[k]) && is_search_walk(
        map,
        exits,
        start,
        after[k],
    ) by {
        if k == next {
            assert forall|i: int| 0 < i < walk.len() implies (#[trigger] walk[i]) != start
                && preds.contains_key(walk[i]) && preds[walk[i]] == walk[i - 1] by {
                if i < base.len() {
                    assert(walk[i] == base[i]);
                    assert(st.preds.contains_key(base[i]));
                }
            }
            assert forall|i: int| 0 < i < walk.len() implies map.turns_from_lane(
                walk[i - 1].dst,
            ).contains(#[trigger] walk[i]) by {
                if i < base.len() {
                    assert(walk[i] == base[i]);
                }
            }
            assert forall|i: int| 0 <= i < walk.len() - 1 implies !exits.contains(
                #[trigger] walk[i],
            ) by {
                assert(walk[i] == base[i]);
            }
        } else {
            let c = chains[k];
            assert(st.preds.contains_key(k));
            assert forall|i: int| 0 < i < c.len() implies (#[trigger] c[i]) != start
                && preds.contains_key(c[i]) && preds[c[i]] == c[i - 1] by {
                assert(st.preds.contains_key(c[i]));
            }
        }
    }
    assert forall|q: int| 0 <= q < now.queue.len() implies map.has_lane(
        (#[trigger] now.queue[q]).dst,
    ) && !exits.contains(now.queue[q]) && discovered(now, start, now.queue[q]) by {
        if q < st.queue.len() {
            assert(now.queue[q] == st.queue[q]);
            assert(discovered(st, start, st.queue[q]));
        }
    }
    assert forall|a: int| 0 <= a < now.results.len() implies is_crossing(
        map,
        exits,
        start,
        #[trigger] now.results[a],
    ) && now.preds.contains_key(now.results[a].last()) by {
        if a < st.results.len() {
            assert(now.results[a] == st.results[a]);
        } else {
            assert(is_rooted_chain(preds, start, next, after[next]));
            lemma_rooted_chain_unique(preds, start, next, after[next], path_to(preds, start, next));
        }
    }
    assert forall|a: int, b: int| 0 <= a < b < now.results.len() implies (
    #[trigger] now.results[a]).last() != (#[trigger] now.results[b]).last() by {
        assert(now.results[a] == st.results[a]);
        if b < st.results.len() {
            assert(now.results[b] == st.results[b]);
        } else {
            assert(st.preds.contains_key(st.results[a].last()));
            assert(is_rooted_chain(preds, start, next, after[next]));
            lemma_rooted_chain_unique(preds, start, next, after[next], path_to(preds, start, next));
        }
    }
    assert forall|k: TurnID| #[trigger] now.preds.contains_key(k) && exits.contains(
        k,
    ) implies exists|a: int|
        0 <= a < now.results.len() && (#[trigger] now.results[a]).last() == k by {
        if k == next {
            assert(is_rooted_chain(preds, start, next, after[next]));
            lemma_rooted_chain_unique(preds, start, next, after[next], path_to(preds, start, next));
            assert(now.results[st.results.len() as int].last() == k);
        } else {
            assert(st.preds.contains_key(k));
            let a = choose|a: int| 0 <= a < st.results.len() && (#[trigger] st.results[a]).last() == k;
            assert(now.results[a] == st.results[a]);
        }
    }
    assert forall|t: TurnID| #[trigger] discovered(now, start, t) && !exits.contains(
        t,
    ) implies now.queue.contains(t) || seq![current].contains(t) || expanded(
        map,
        now.preds,
        t,
    ) by {
        if t == next && !discovered(st, start, t) {
            assert(now.queue[now.queue.len() - 1] == t);
        } else {
            assert(discovered(st, start, t));
            if st.queue.contains(t) {
                let q = choose|q: int| 0 <= q < st.queue.len() && st.queue[q] == t;
                assert(now.queue[q] == t);
            }
        }
    }
    after
}

/// A search that has ended has discovered every turn of every walk from
/// the entrance that passes no exit before its end.
proof fn lemma_closed(
    map: RoadNetwork,
    exits: Set<TurnID>,
    start: TurnID,
    st: Search,
    chains: Map<TurnID, Seq<TurnID>>,
    p: Seq<TurnID>,
    i: int,
)
    requires
        search_inv(map, exits, start, st, chains, Seq::empty()),
        st.queue.len() == 0,
        is_search_walk(map, exits, start, p),
        0 <= i < p.len(),
    ensures
        discovered(st, start, p[i]),
    decreases i,
{
    if i > 0 {
        lemma_closed(map, exits, start, st, chains, p, i - 1);
        let t = p[i - 1];
        assert(!exits.contains(t));
        assert(discovered(st, start, t));
        assert(expanded(map, st.preds, t));
        let succs = map.turns_from_lane(t.dst);
        assert(succs.contains(p[i]));
        let j = choose|j: int| 0 <= j < succs.len() && succs[j] == p[i];
        assert(st.preds.contains_key(succs[j]));
    }
}

/// Searches forward from the entrance `start` and returns one path to each
/// exit that can be reached without passing another exit first.
///
/// The paths are exactly those of [`flood_paths`], in its order. Each leads
/// from `start` to an exit along turns of the network, no two end at the
/// same exit, and no exit that can be reached is left out.
pub fn flood(start: TurnID, map: &RoadNetwork, exits: &TurnSet) -> (r: Vec<UberTurn>)
    requires
        map.wf(),
        map.has_lane(start.dst),
    ensures
        paths_of(r@) == flood_paths(*map, exits@, start),
        forall|k: int| 0 <= k < r@.len() ==> is_crossing(*map, exits@, start, (#[trigger] r@[k])@),
        forall|a: int, b: int|
            0 <= a < b < r@.len() ==> (#[trigger] r@[a])@.last() != (#[trigger] r@[b])@.last(),
        forall|p: Seq<TurnID>|
            is_crossing(*map, exits@, start, p) ==> exists|k: int|
                0 <= k < r@.len() && (#[trigger] r@[k])@.last() == p.last(),
{
    if exits.contains(&start) {
        let mut path: Vec<TurnID> = Vec::new();
        path.push(start);
        let mut r: Vec<UberTurn> = Vec::new();
        r.push(UberTurn { path });
        proof {
            assert(r@[0]@ =~= seq![start]);
            assert(paths_of(r@) =~= seq![seq![start]]);
            assert forall|p: Seq<TurnID>| is_crossing(*map, exits@, start, p) implies exists|k: int|
                0 <= k < r@.len() && (#[trigger] r@[k])@.last() == p.last() by {
                if p.len() > 1 {
                    assert(!exits@.contains(p[0]));
                }
                assert(r@[0]@.last() == p.last());
            }
        }
        return r;
    }
    let mut results: Vec<UberTurn> = Vec::new();
    let mut preds = TurnMap::new();
    let mut queue: Vec<TurnID> = Vec::new();
    queue.push(start);
    let ghost mut st = run(*map, exits@, start, 0);
    let ghost mut chains: Map<TurnID, Seq<TurnID>> = Map::empty();
    let ghost mut rounds: nat = 0;
    proof {
        assert(queue@ =~= st.queue);
        assert(paths_of(results@) =~= st.results);
        assert(st.queue[0] == start);
    }
    while queue.len() > 0
        invariant
            map.wf(),
            !exits@.contains(start),
            st == run(*map, exits@, start, rounds),
            preds@ == st.preds,
            queue@ == st.queue,
            paths_of(results@) == st.results,
            search_inv(*map, exits@, start, st, chains, Seq::empty()),
        decreases turn_universe(*map).difference(preds@.dom()).len(), queue@.len(),
    {
        let ghost before = st;
        let ghost before_left = turn_universe(*map).difference(preds@.dom()).len();
        let current = queue.pop().unwrap();
        proof {
            assert(current == before.queue[before.queue.len() - 1]);
            assert(before.queue.contains(current));
            st = Search { preds: before.preds, queue: before.queue.drop_last(), results: before.results };
            assert forall|t: TurnID| #[trigger] discovered(st, start, t) && !exits@.contains(
                t,
            ) implies st.queue.contains(t) || seq![current].contains(t) || expanded(
                *map,
                st.preds,
                t,
            ) by {
                assert(discovered(before, start, t));
                if before.queue.contains(t) {
                    let q = choose|q: int| 0 <= q < before.queue.len() && before.queue[q] == t;
                    if q < st.queue.len() {
                        assert(st.queue[q] == t);
                    } else {
                        assert(seq![current][0] == t);
                    }
                }
            }
            assert forall|q: int| 0 <= q < st.queue.len() implies map.has_lane(
                (#[trigger] st.queue[q]).dst,
            ) && !exits@.contains(st.queue[q]) && discovered(st, start, st.queue[q]) by {
                assert(st.queue[q] == before.queue[q]);
                assert(discovered(before, start, before.queue[q]));
            }
            assert(discovered(before, start, current));
            assert forall|k: TurnID| #[trigger] st.preds.contains_key(k) && exits@.contains(
                k,
            ) implies exists|a: int|
                0 <= a < st.results.len() && (#[trigger] st.results[a]).last() == k by {
                let a = choose|a: int|
                    0 <= a < before.results.len() && (#[trigger] before.results[a]).last() == k;
                assert(st.results[a].last() == k);
            }
        }
        let ghost popped = st;
        let succs = map.get_turns_from_lane(current.dst);
        let mut j: usize = 0;
        while j < succs.len()
            invariant
                map.wf(),
                !exits@.contains(start),
                j <= succs@.len(),
                succs@ == map.turns_from_lane(current.dst),
                map.has_lane(current.dst),
                !exits@.contains(current),
                discovered(st, start, current),
                st == expand(exits@, start, popped, current, succs@.take(j as int)),
                preds@ == st.preds,
                queue@ == st.queue,
                paths_of(results@) == st.results,
                search_inv(*map, exits@, start, st, chains, seq![current]),
                forall|m: int| 0 <= m < j ==> st.preds.contains_key(#[trigger] succs@[m]),
                popped.queue.len() == before.queue.len() - 1,
                (turn_universe(*map).difference(preds@.dom()).len() == before_left && queue@.len()
                    == popped.queue.len()) || turn_universe(*map).difference(preds@.dom()).len()
                    < before_left,
            decreases succs@.len() - j,
        {
            let next = succs[j];
            let ghost old_st = st;
            proof {
                assert(succs@.take(j + 1).drop_last() =~= succs@.take(j as int));
                assert(succs@.take(j + 1).last() == next);
                assert(succs@.contains(next));
                chains = lemma_visit(*map, exits@, start, st, chains, current, next);
                st = visit(exits@, start, st, current, next);
            }
            if !preds.contains_key(&next) {
                proof {
                    lemma_turn_universe(*map, next);
                    let left = turn_universe(*map).difference(preds@.dom());
                    assert(left.contains(next));
                    assert(turn_universe(*map).difference(preds@.dom().insert(next)) =~= left.remove(
                        next,
                    ));
                }
                preds.insert(next, current);
                if exits.contains(&next) {
                    let path = trace_back(next, start, &preds);
                    results.push(UberTurn { path });
                    proof {
                        assert(paths_of(results@) =~= st.results);
                    }
                } else {
                    queue.push(next);
                }
            }
            j += 1;
        }
        proof {
            assert(succs@.take(j as int) =~= succs@);
            assert(st == step(*map, exits@, start, before));
            rounds = rounds + 1;
            assert(expanded(*map, st.preds, current));
            assert forall|t: TurnID| #[trigger] discovered(st, start, t) && !exits@.contains(
                t,
            ) implies st.queue.contains(t) || Seq::<TurnID>::empty().contains(t) || expanded(
                *map,
                st.preds,
                t,
            ) by {
                if seq![current].contains(t) {
                    assert(t == current);
                }
            }
        }
    }
    proof {
        lemma_search_result(*map, exits@, start, rounds);
        assert forall|k: int| 0 <= k < results@.len() implies is_crossing(
            *map,
            exits@,
            start,
            (#[trigger] results@[k])@,
        ) by {
            assert(st.results[k] == results@[k]@);
        }
        assert forall|a: int, b: int| 0 <= a < b < results@.len() implies (
        #[trigger] results@[a])@.last() != (#[trigger] results@[b])@.last() by {
            assert(st.results[a] == results@[a]@);
            assert(st.results[b] == results@[b]@);
        }
        assert forall|p: Seq<TurnID>| is_crossing(*map, exits@, start, p) implies exists|k: int|
            0 <= k < results@.len() && (#[trigger] results@[k])@.last() == p.last() by {
            lemma_closed(*map, exits@, start, st, chains, p, p.len() - 1);
            assert(st.preds.contains_key(p.last()));
            let a = choose|a: int| 0 <= a < st.results.len() && (#[trigger] st.results[a]).last() == p.last();
            assert(st.results[a] == results@[a]@);
        }
    }
    results
}

} // verus!
