//! Small collections keyed by turns.
//!
//! The search through a cluster needs a set of turns and a map from turns to
//! turns. Both are kept as plain vectors and searched linearly; a cluster
//! holds few turns. Their views are a mathematical set and map.

use vstd::prelude::*;
use crate::ids::TurnID;

verus! {

/// A finite set of turns.
pub struct TurnSet {
    items: Vec<TurnID>,
}

impl View for TurnSet {
    type V = Set<TurnID>;

    closed spec fn view(&self) -> Set<TurnID> {
        self.items@.to_set()
    }
}

impl TurnSet {
    pub fn new() -> (s: TurnSet)
        ensures
            s@ == Set::<TurnID>::empty(),
    {
        let s = TurnSet { items: Vec::new() };
        assert(s.items@.to_set() =~= Set::<TurnID>::empty());
        s
    }

    pub fn contains(&self, t: &TurnID) -> (r: bool)
        ensures
            r == self@.contains(*t),
    {
        let mut k: usize = 0;
        while k < self.items.len()
            invariant
                k <= self.items@.len(),
                forall|j: int| 0 <= j < k ==> self.items@[j] != *t,
            decreases self.items@.len() - k,
        {
            if self.items[k] == *t {
                return true;
            }
            k += 1;
        }
        false
    }

    /// Adds `t`; a turn already present is not added again.
    pub fn insert(&mut self, t: TurnID)
        ensures
            final(self)@ == old(self)@.insert(t),
    {
        if !self.contains(&t) {
            self.items.push(t);
            assert(self.items@.to_set() =~= old(self).items@.to_set().insert(t)) by {
                assert forall|x: TurnID|
                    self.items@.to_set().contains(x) == old(self).items@.to_set().insert(
                        t,
                    ).contains(x) by {
                    if old(self).items@.contains(x) {
                        let j = choose|j: int|
                            0 <= j < old(self).items@.len() && old(self).items@[j] == x;
                        assert(self.items@[j] == x);
                    }
                    if x == t {
                        assert(self.items@[self.items@.len() - 1] == t);
                    }
                }
            }
        } else {
            assert(self@ =~= old(self)@.insert(t));
        }
    }
}

/// What a list of pairs means as a map: a later pair overrides an earlier
/// one with the same key.
pub open spec fn pairs_to_map(s: Seq<(TurnID, TurnID)>) -> Map<TurnID, TurnID>
    decreases s.len(),
{
    if s.len() == 0 {
        Map::empty()
    } else {
        pairs_to_map(s.drop_last()).insert(s.last().0, s.last().1)
    }
}

/// A finite map from turns to turns.
pub struct TurnMap {
    entries: Vec<(TurnID, TurnID)>,
}

impl View for TurnMap {
    type V = Map<TurnID, TurnID>;

    closed spec fn view(&self) -> Map<TurnID, TurnID> {
        pairs_to_map(self.entries@)
    }
}

impl TurnMap {
    pub fn new() -> (m: TurnMap)
        ensures
            m@ == Map::<TurnID, TurnID>::empty(),
    {
        TurnMap { entries: Vec::new() }
    }

    pub fn get(&self, k: &TurnID) -> (r: Option<TurnID>)
        ensures
            r == (if self@.contains_key(*k) {
                Some(self@[*k])
            } else {
                None
            }),
    {
        let mut i: usize = self.entries.len();
        proof {
            assert(self.entries@.take(i as int) =~= self.entries@);
        }
        while i > 0
            invariant
                i <= self.entries@.len(),
                self@.contains_key(*k) == pairs_to_map(self.entries@.take(i as int)).contains_key(
                    *k,
                ),
                self@.contains_key(*k) ==> self@[*k] == pairs_to_map(
                    self.entries@.take(i as int),
                )[*k],
            decreases i,
        {
            proof {
                assert(self.entries@.take(i as int).drop_last() =~= self.entries@.take(i - 1));
            }
            i -= 1;
            if self.entries[i].0 == *k {
                return Some(self.entries[i].1);
            }
        }
        None
    }

    pub fn contains_key(&self, k: &TurnID) -> (r: bool)
        ensures
            r == self@.contains_key(*k),
    {
        self.get(k).is_some()
    }

    /// Maps `k` to `v`, replacing what `k` was mapped to before.
    pub fn insert(&mut self, k: TurnID, v: TurnID)
        ensures
            final(self)@ == old(self)@.insert(k, v),
    {
        self.entries.push((k, v));
        proof {
            assert(self.entries@.drop_last() =~= old(self).entries@);
        }
    }
}

} // verus!
