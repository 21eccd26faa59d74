//! One movement across a cluster of intersections.

use vstd::prelude::*;
use crate::ids::{LaneID, TurnID};

verus! {

/// A sequence of turns taken one after the other, from a lane that comes
/// from outside a cluster to a lane that leaves it.
#[derive(Clone, Debug, PartialEq, Eq)]
pub struct UberTurn {
    pub path: Vec<TurnID>,
}

impl View for UberTurn {
    type V = Seq<TurnID>;

    open spec fn view(&self) -> Seq<TurnID> {
        self.path@
    }
}

/// Each turn starts on the lane where the one before it ended.
pub open spec fn is_chain(path: Seq<TurnID>) -> bool {
    forall|i: int| 0 <= i < path.len() - 1 ==> (#[trigger] path[i]).dst == path[i + 1].src
}

/// The turn sequences of a list of uber-turns.
pub open spec fn paths_of(turns: Seq<UberTurn>) -> Seq<Seq<TurnID>> {
    turns.map_values(|u: UberTurn| u@)
}

/// A copy of `path`.
pub fn copy_path(path: &Vec<TurnID>) -> (r: Vec<TurnID>)
    ensures
        r@ == path@,
{
    let mut out: Vec<TurnID> = Vec::new();
    let mut k: usize = 0;
    while k < path.len()
        invariant
            k <= path@.len(),
            out@ == path@.take(k as int),
        decreases path@.len() - k,
    {
        out.push(path[k]);
        proof {
            assert(path@.take(k + 1) =~= path@.take(k as int).push(path@[k as int]));
        }
        k += 1;
    }
    proof {
        assert(path@.take(k as int) =~= path@);
    }
    out
}

impl UberTurn {
    /// The lane on which the movement starts.
    pub fn entry(&self) -> (l: LaneID)
        requires
            self@.len() > 0,
        ensures
            l == self@[0].src,
    {
        self.path[0].src
    }

    /// The lane on which the movement ends.
    pub fn exit(&self) -> (l: LaneID)
        requires
            self@.len() > 0,
        ensures
            l == self@.last().dst,
    {
        self.path[self.path.len() - 1].dst
    }

    /// A copy of this uber-turn.
    pub fn duplicate(&self) -> (r: UberTurn)
        ensures
            r@ == self@,
    {
        UberTurn { path: copy_path(&self.path) }
    }
}

} // verus!
