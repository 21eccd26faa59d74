//! Groups of uber-turns that share their entry and exit lane.
//!
//! Several paths across a cluster may start on the same lane and end on the
//! same lane. They are drawn as one, so they are gathered into one group.
//! Groups are ordered by their lane pair; inside a group the paths keep the
//! order that they have in the cluster.

use vstd::prelude::*;
use crate::cluster::IntersectionCluster;
use crate::ids::{lane_pair_lt, LaneID, TurnID};
use crate::uber_turn::{paths_of, UberTurn};

verus! {

/// Uber-turns with the same entry lane and the same exit lane.
#[derive(Clone, Debug, PartialEq, Eq)]
pub struct UberTurnGroup {
    pub members: Vec<UberTurn>,
}

impl View for UberTurnGroup {
    type V = Seq<Seq<TurnID>>;

    open spec fn view(&self) -> Seq<Seq<TurnID>> {
        paths_of(self.members@)
    }
}

/// The lane on which a path starts and the lane on which it ends.
pub open spec fn key_of(p: Seq<TurnID>) -> (LaneID, LaneID) {
    (p[0].src, p.last().dst)
}

/// The paths among `paths` that start and end on the lanes `k`, in their
/// order.
pub open spec fn with_key(paths: Seq<Seq<TurnID>>, k: (LaneID, LaneID)) -> Seq<Seq<TurnID>> {
    paths.filter(|p: Seq<TurnID>| key_of(p) == k)
}

/// The lane pair that the paths of group `g` share.
pub open spec fn group_key(g: Seq<Seq<TurnID>>) -> (LaneID, LaneID) {
    key_of(g[0])
}

/// One of `groups` is the group of the lane pair `k`.
pub open spec fn has_group(groups: Seq<Seq<Seq<TurnID>>>, k: (LaneID, LaneID)) -> bool {
    exists|g: int| 0 <= g < groups.len() && group_key(#[trigger] groups[g]) == k
}

/// `groups` is the grouping of `paths`: each group holds all the paths of
/// one lane pair, in their order, and at least one; the groups come in
/// increasing order of their lane pairs; and no path is left out.
pub open spec fn is_grouping(paths: Seq<Seq<TurnID>>, groups: Seq<Seq<Seq<TurnID>>>) -> bool {
    &&& forall|g: int|
        0 <= g < groups.len() ==> (#[trigger] groups[g]).len() > 0 && groups[g] == with_key(
            paths,
            group_key(groups[g]),
        )
    &&& forall|g: int, h: int|
        0 <= g < h < groups.len() ==> lane_pair_lt(
            group_key(#[trigger] groups[g]),
            group_key(#[trigger] groups[h]),
        )
    &&& forall|i: int| 0 <= i < paths.len() ==> has_group(groups, key_of(#[trigger] paths[i]))
}

/// What a list of groups is, apart from how it is stored.
pub open spec fn group_views(groups: Seq<UberTurnGroup>) -> Seq<Seq<Seq<TurnID>>> {
    groups.map_values(|g: UberTurnGroup| g@)
}

/// Where none of `paths` has the lane pair `k`, none is selected.
proof fn lemma_with_key_empty(paths: Seq<Seq<TurnID>>, k: (LaneID, LaneID))
    requires
        forall|i: int| 0 <= i < paths.len() ==> key_of(#[trigger] paths[i]) != k,
    ensures
        with_key(paths, k).len() == 0,
{
    let pick = |p: Seq<TurnID>| key_of(p) == k;
    let sel = paths.filter(pick);
    if sel.len() > 0 {
        paths.lemma_filter_pred(pick, 0);
        assert(sel.contains(sel[0]));
        paths.lemma_filter_contains_rev(pick, sel[0]);
        let i = choose|i: int| 0 <= i < paths.len() && paths[i] == sel[0];
        assert(key_of(paths[i]) != k);
    }
}

/// What one more path does to the paths selected for a lane pair.
proof fn lemma_with_key_step(paths: Seq<Seq<TurnID>>, i: int, k: (LaneID, LaneID))
    requires
        0 <= i < paths.len(),
    ensures
        with_key(paths.take(i + 1), k) == (if key_of(paths[i]) == k {
            with_key(paths.take(i), k).push(paths[i])
        } else {
            with_key(paths.take(i), k)
        }),
{
    reveal(Seq::filter);
    assert(paths.take(i + 1).drop_last() =~= paths.take(i));
}

/// The grouping of the first `i` paths becomes that of the first `i + 1`
/// when the next path joins the group of its lane pair, or, where there is
/// none, forms a new group at the place `pos` that keeps the order.
proof fn lemma_grouping_step(
    paths: Seq<Seq<TurnID>>,
    i: int,
    groups: Seq<Seq<Seq<TurnID>>>,
    pos: int,
) -> (after: Seq<Seq<Seq<TurnID>>>)
    requires
        0 <= i < paths.len(),
        is_grouping(paths.take(i), groups),
        0 <= pos <= groups.len(),
        forall|g: int|
            0 <= g < pos ==> lane_pair_lt(group_key(#[trigger] groups[g]), key_of(paths[i])),
        pos < groups.len() ==> !lane_pair_lt(group_key(groups[pos]), key_of(paths[i])),
    ensures
        after == (if pos < groups.len() && group_key(groups[pos]) == key_of(paths[i]) {
            groups.update(pos, groups[pos].push(paths[i]))
        } else {
            groups.insert(pos, seq![paths[i]])
        }),
        is_grouping(paths.take(i + 1), after),
{
    let k = key_of(paths[i]);
    let old_paths = paths.take(i);
    let new_paths = paths.take(i + 1);
    let joins = pos < groups.len() && group_key(groups[pos]) == k;
    let after = if joins {
        groups.update(pos, groups[pos].push(paths[i]))
    } else {
        groups.insert(pos, seq![paths[i]])
    };
    assert forall|g: int| 0 <= g < groups.len() && g != pos implies group_key(
        #[trigger] groups[g],
    ) != k by {
        if g < pos {
            assert(lane_pair_lt(group_key(groups[g]), k));
        } else {
            assert(lane_pair_lt(group_key(groups[pos]), group_key(groups[g])));
        }
    }
    if !joins {
        assert forall|m: int| 0 <= m < old_paths.len() implies key_of(
            #[trigger] old_paths[m],
        ) != k by {
            assert(has_group(groups, key_of(old_paths[m])));
            let g = choose|g: int|
                0 <= g < groups.len() && group_key(#[trigger] groups[g]) == key_of(old_paths[m]);
            assert(group_key(groups[g]) != k);
        }
        lemma_with_key_empty(old_paths, k);
    }
    assert forall|g: int| 0 <= g < after.len() implies (#[trigger] after[g]).len() > 0 && after[g]
        == with_key(new_paths, group_key(after[g])) by {
        if joins {
            let before = groups[g];
            lemma_with_key_step(paths, i, group_key(before));
            if g == pos {
                assert(after[g][0] == before[0]);
            }
        } else if g == pos {
            lemma_with_key_step(paths, i, k);
            assert(with_key(old_paths, k).push(paths[i]) =~= seq![paths[i]]);
        } else {
            let before = if g < pos {
                groups[g]
            } else {
                groups[g - 1]
            };
            assert(after[g] == before);
            lemma_with_key_step(paths, i, group_key(before));
        }
    }
    assert forall|g: int, h: int| 0 <= g < h < after.len() implies lane_pair_lt(
        group_key(#[trigger] after[g]),
        group_key(#[trigger] after[h]),
    ) by {
        if joins {
            assert(group_key(after[g]) == group_key(groups[g])) by {
                assert(after[g][0] == groups[g][0]);
            }
            assert(group_key(after[h]) == group_key(groups[h])) by {
                assert(after[h][0] == groups[h][0]);
            }
        } else {
            let bg = if g < pos {
                g
            } else {
                g - 1
            };
            let bh = if h < pos {
                h
            } else {
                h - 1
            };
            if g == pos {
                assert(after[h] == groups[bh]);
                if bh > pos {
                    assert(lane_pair_lt(group_key(groups[pos]), group_key(groups[bh])));
                }
            } else if h == pos {
                assert(after[g] == groups[bg]);
            } else {
                assert(after[g] == groups[bg]);
                assert(after[h] == groups[bh]);
            }
        }
    }
    assert forall|m: int| 0 <= m < new_paths.len() implies has_group(
        after,
        key_of(#[trigger] new_paths[m]),
    ) by {
        if m == i {
            assert(after[pos][0] == if joins {
                groups[pos][0]
            } else {
                paths[i]
            });
            assert(group_key(after[pos]) == k);
        } else {
            assert(new_paths[m] == old_paths[m]);
            assert(has_group(groups, key_of(old_paths[m])));
            let g = choose|g: int|
                0 <= g < groups.len() && group_key(#[trigger] groups[g]) == key_of(old_paths[m]);
            if joins {
                assert(after[g][0] == groups[g][0]);
                assert(group_key(after[g]) == key_of(new_paths[m]));
            } else if g < pos {
                assert(after[g] == groups[g]);
                assert(group_key(after[g]) == key_of(new_paths[m]));
            } else {
                assert(after[g + 1] == groups[g]);
                assert(group_key(after[g + 1]) == key_of(new_paths[m]));
            }
        }
    }
    after
}

/// A list of paths has one grouping only.
pub proof fn lemma_grouping_unique(
    paths: Seq<Seq<TurnID>>,
    a: Seq<Seq<Seq<TurnID>>>,
    b: Seq<Seq<Seq<TurnID>>>,
)
    requires
        is_grouping(paths, a),
        is_grouping(paths, b),
    ensures
        a == b,
    decreases a.len(),
{
    if a.len() == 0 || b.len() == 0 {
        if a.len() > 0 {
            lemma_group_has_path(paths, a, 0);
        }
        if b.len() > 0 {
            lemma_group_has_path(paths, b, 0);
        }
        assert(a =~= b);
    } else {
        // The largest lane pair is that of the last group, in both.
        let la = a.len() - 1;
        let lb = b.len() - 1;
        lemma_group_has_path(paths, a, la);
        lemma_group_has_path(paths, b, lb);
        let ia = choose|i: int| 0 <= i < paths.len() && key_of(#[trigger] paths[i]) == group_key(a[la]);
        let ib = choose|i: int| 0 <= i < paths.len() && key_of(#[trigger] paths[i]) == group_key(b[lb]);
        assert(has_group(b, key_of(paths[ia])));
        assert(has_group(a, key_of(paths[ib])));
        let ga = choose|g: int|
            0 <= g < b.len() && group_key(#[trigger] b[g]) == key_of(paths[ia]);
        let gb = choose|g: int|
            0 <= g < a.len() && group_key(#[trigger] a[g]) == key_of(paths[ib]);
        if ga < lb {
            assert(lane_pair_lt(group_key(b[ga]), group_key(b[lb])));
        }
        if gb < la {
            assert(lane_pair_lt(group_key(a[gb]), group_key(a[la])));
        }
        let k = group_key(a[la]);
        assert(group_key(b[lb]) == k);
        assert(a[la] == b[lb]);
        // Without the paths of that pair, the rest is grouped by the rest.
        let rest = paths.filter(|p: Seq<TurnID>| key_of(p) != k);
        lemma_grouping_without_last(paths, a);
        lemma_grouping_without_last(paths, b);
        lemma_grouping_unique(rest, a.drop_last(), b.drop_last());
        assert(a =~= a.drop_last().push(a[la]));
        assert(b =~= b.drop_last().push(b[lb]));
    }
}

/// Some path has the lane pair of group `g`.
proof fn lemma_group_has_path(paths: Seq<Seq<TurnID>>, groups: Seq<Seq<Seq<TurnID>>>, g: int)
    requires
        is_grouping(paths, groups),
        0 <= g < groups.len(),
    ensures
        exists|i: int| 0 <= i < paths.len() && key_of(#[trigger] paths[i]) == group_key(groups[g]),
{
    let k = group_key(groups[g]);
    let pick = |p: Seq<TurnID>| key_of(p) == k;
    let sel = paths.filter(pick);
    assert(groups[g] == sel);
    paths.lemma_filter_pred(pick, 0);
    assert(sel.contains(sel[0]));
    paths.lemma_filter_contains_rev(pick, sel[0]);
    let i = choose|i: int| 0 <= i < paths.len() && paths[i] == sel[0];
    assert(key_of(paths[i]) == k);
}

/// Selecting a lane pair among the paths that do not have another pair
/// selects the same paths as among all.
proof fn lemma_with_key_of_rest(paths: Seq<Seq<TurnID>>, k: (LaneID, LaneID), other: (
    LaneID,
    LaneID,
))
    requires
        k != other,
    ensures
        with_key(paths.filter(|p: Seq<TurnID>| key_of(p) != other), k) == with_key(paths, k),
    decreases paths.len(),
{
    reveal(Seq::filter);
    if paths.len() > 0 {
        lemma_with_key_of_rest(paths.drop_last(), k, other);
        let keep = |p: Seq<TurnID>| key_of(p) != other;
        let kept = paths.drop_last().filter(keep);
        if keep(paths.last()) {
            assert(kept.push(paths.last()).drop_last() =~= kept);
        }
    }
}

/// Dropping the last group of a grouping leaves the grouping of the paths
/// that have another lane pair than that group.
proof fn lemma_grouping_without_last(paths: Seq<Seq<TurnID>>, groups: Seq<Seq<Seq<TurnID>>>)
    requires
        is_grouping(paths, groups),
        groups.len() > 0,
    ensures
        is_grouping(
            paths.filter(|p: Seq<TurnID>| key_of(p) != group_key(groups.last())),
            groups.drop_last(),
        ),
{
    let k = group_key(groups.last());
    let keep = |p: Seq<TurnID>| key_of(p) != k;
    let rest = paths.filter(keep);
    let fewer = groups.drop_last();
    assert forall|g: int| 0 <= g < fewer.len() implies (#[trigger] fewer[g]).len() > 0 && fewer[g]
        == with_key(rest, group_key(fewer[g])) by {
        assert(fewer[g] == groups[g]);
        assert(lane_pair_lt(group_key(groups[g]), group_key(groups[groups.len() - 1])));
        lemma_with_key_of_rest(paths, group_key(groups[g]), k);
    }
    assert forall|g: int, h: int| 0 <= g < h < fewer.len() implies lane_pair_lt(
        group_key(#[trigger] fewer[g]),
        group_key(#[trigger] fewer[h]),
    ) by {
        assert(fewer[g] == groups[g]);
        assert(fewer[h] == groups[h]);
    }
    assert forall|i: int| 0 <= i < rest.len() implies has_group(
        fewer,
        key_of(#[trigger] rest[i]),
    ) by {
        paths.lemma_filter_pred(keep, i);
        assert(rest.contains(rest[i]));
        paths.lemma_filter_contains_rev(keep, rest[i]);
        let m = choose|m: int| 0 <= m < paths.len() && paths[m] == rest[i];
        assert(has_group(groups, key_of(paths[m])));
        let g = choose|g: int|
            0 <= g < groups.len() && group_key(#[trigger] groups[g]) == key_of(paths[m]);
        assert(g < groups.len() - 1);
        assert(fewer[g] == groups[g]);
    }
}

/// Compares two lane pairs: by the first lane, then by the second.
pub fn lane_pair_less(a: (LaneID, LaneID), b: (LaneID, LaneID)) -> (r: bool)
    ensures
        r == lane_pair_lt(a, b),
{
    a.0.0 < b.0.0 || (a.0.0 == b.0.0 && a.1.0 < b.1.0)
}

fn lane_pair_equal(a: (LaneID, LaneID), b: (LaneID, LaneID)) -> (r: bool)
    ensures
        r == (a == b),
{
    a.0 == b.0 && a.1 == b.1
}

impl UberTurnGroup {
    /// The entry lane and the exit lane that the members share.
    pub fn key(&self) -> (k: (LaneID, LaneID))
        requires
            self@.len() > 0,
            self@[0].len() > 0,
        ensures
            k == group_key(self@),
    {
        (self.members[0].entry(), self.members[0].exit())
    }
}

/// The place of the lane pair `k` among the groups: behind every group with
/// a smaller pair.
fn find_group(groups: &Vec<UberTurnGroup>, k: (LaneID, LaneID)) -> (pos: usize)
    requires
        forall|g: int|
            0 <= g < groups@.len() ==> (#[trigger] groups@[g])@.len() > 0 && groups@[g]@[0].len()
                > 0,
    ensures
        pos <= groups@.len(),
        forall|g: int| 0 <= g < pos ==> lane_pair_lt(group_key((#[trigger] groups@[g])@), k),
        pos < groups@.len() ==> !lane_pair_lt(group_key(groups@[pos as int]@), k),
{
    let mut pos: usize = 0;
    while pos < groups.len()
        invariant
            forall|g: int|
                0 <= g < groups@.len() ==> (#[trigger] groups@[g])@.len() > 0
                    && groups@[g]@[0].len() > 0,
            pos <= groups@.len(),
            forall|g: int| 0 <= g < pos ==> lane_pair_lt(group_key((#[trigger] groups@[g])@), k),
        decreases groups@.len() - pos,
    {
        if !lane_pair_less(groups[pos].key(), k) {
            return pos;
        }
        pos += 1;
    }
    pos
}

impl IntersectionCluster {
    /// Gathers the uber-turns of the cluster into groups by entry and exit
    /// lane.
    ///
    /// The result is the one grouping of the cluster's paths: every group
    /// holds all the paths of its lane pair in the cluster's order, the
    /// groups are in increasing order of their lane pairs, and every path is
    /// in a group.
    pub fn uber_turn_groups(&self) -> (r: Vec<UberTurnGroup>)
        requires
            forall|k: int| 0 <= k < self@.uber_turns.len() ==> (#[trigger] self@.uber_turns[k]).len() > 0,
        ensures
            is_grouping(self@.uber_turns, group_views(r@)),
    {
        let ghost paths = self@.uber_turns;
        let mut groups: Vec<UberTurnGroup> = Vec::new();
        let mut i: usize = 0;
        while i < self.uber_turns.len()
            invariant
                paths == self@.uber_turns,
                forall|k: int| 0 <= k < paths.len() ==> (#[trigger] paths[k]).len() > 0,
                i <= paths.len(),
                is_grouping(paths.take(i as int), group_views(groups@)),
            decreases paths.len() - i,
        {
            let ut = &self.uber_turns[i];
            let ghost views = group_views(groups@);
            proof {
                assert(paths[i as int] == ut@);
                assert forall|g: int| 0 <= g < groups@.len() implies (#[trigger] groups@[g])@.len()
                    > 0 && groups@[g]@[0].len() > 0 by {
                    let sel = views[g];
                    assert(sel == groups@[g]@);
                    let pick = |p: Seq<TurnID>| key_of(p) == group_key(sel);
                    paths.take(i as int).lemma_filter_pred(pick, 0);
                    assert(sel.contains(sel[0]));
                    paths.take(i as int).lemma_filter_contains_rev(pick, sel[0]);
                    let m = choose|m: int| 0 <= m < i && paths.take(i as int)[m] == sel[0];
                    assert(paths[m].len() > 0);
                }
            }
            let k = (ut.entry(), ut.exit());
            let pos = find_group(&groups, k);
            proof {
                assert forall|g: int| 0 <= g < pos implies lane_pair_lt(
                    group_key(#[trigger] views[g]),
                    key_of(paths[i as int]),
                ) by {
                    assert(views[g] == groups@[g]@);
                }
                if pos < groups@.len() {
                    assert(views[pos as int] == groups@[pos as int]@);
                }
            }
            let ghost after = lemma_grouping_step(paths, i as int, views, pos as int);
            if pos < groups.len() && lane_pair_equal(groups[pos].key(), k) {
                let mut g = groups.remove(pos);
                g.members.push(ut.duplicate());
                proof {
                    assert(g@ =~= views[pos as int].push(ut@));
                }
                groups.insert(pos, g);
            } else {
                let mut members: Vec<UberTurn> = Vec::new();
                members.push(ut.duplicate());
                let g = UberTurnGroup { members };
                proof {
                    assert(g@ =~= seq![ut@]);
                }
                groups.insert(pos, g);
            }
            proof {
                assert(group_views(groups@) =~= after);
            }
            i += 1;
        }
        proof {
            assert(paths.take(i as int) =~= paths);
        }
        groups
    }
}

} // verus!
