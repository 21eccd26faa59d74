//! The member list of a cluster: a set of intersections, kept as a vector in
//! strictly increasing order.

use vstd::prelude::*;
use crate::ids::IntersectionID;

verus! {

/// No intersection occurs twice, and smaller identifiers come first.
pub open spec fn strictly_increasing(s: Seq<IntersectionID>) -> bool {
    forall|i: int, j: int| 0 <= i < j < s.len() ==> (#[trigger] s[i]).0 < (#[trigger] s[j]).0
}

/// Puts `x` at its place in the increasing list `s`, unless it is there
/// already.
pub open spec fn insert_member(s: Seq<IntersectionID>, x: IntersectionID) -> Seq<IntersectionID>
    decreases s.len(),
{
    if s.len() == 0 {
        seq![x]
    } else if s.last().0 < x.0 {
        s.push(x)
    } else if s.last() == x {
        s
    } else {
        insert_member(s.drop_last(), x).push(s.last())
    }
}

/// The intersections of `s` in increasing order, each once.
pub open spec fn sorted_members(s: Seq<IntersectionID>) -> Seq<IntersectionID>
    decreases s.len(),
{
    if s.len() == 0 {
        Seq::empty()
    } else {
        insert_member(sorted_members(s.drop_last()), s.last())
    }
}

/// Where `x` goes: after `pos` elements, all those behind being larger and
/// the one before, if any, not larger.
proof fn lemma_insert_member_at(s: Seq<IntersectionID>, x: IntersectionID, pos: int)
    requires
        strictly_increasing(s),
        0 <= pos <= s.len(),
        forall|j: int| pos <= j < s.len() ==> (#[trigger] s[j]).0 > x.0,
        pos > 0 ==> s[pos - 1].0 <= x.0,
    ensures
        insert_member(s, x) == (if pos > 0 && s[pos - 1] == x {
            s
        } else {
            s.insert(pos, x)
        }),
    decreases s.len(),
{
    if s.len() == 0 {
        assert(s.insert(0, x) =~= seq![x]);
    } else if pos == s.len() {
        if s.last().0 < x.0 {
            assert(s.insert(pos, x) =~= s.push(x));
        }
    } else {
        assert(s[s.len() - 1].0 > x.0);
        let rest = s.drop_last();
        assert forall|i: int, j: int| 0 <= i < j < rest.len() implies (#[trigger] rest[i]).0 < (
        #[trigger] rest[j]).0 by {
            assert(rest[i] == s[i]);
            assert(rest[j] == s[j]);
        }
        assert forall|j: int| pos <= j < rest.len() implies (#[trigger] rest[j]).0 > x.0 by {
            assert(rest[j] == s[j]);
        }
        lemma_insert_member_at(rest, x, pos);
        if pos > 0 && s[pos - 1] == x {
            assert(rest.push(s.last()) =~= s);
        } else {
            assert(rest.insert(pos, x).push(s.last()) =~= s.insert(pos, x));
        }
    }
}

/// Inserting keeps the order and adds exactly `x`.
pub proof fn lemma_insert_member(s: Seq<IntersectionID>, x: IntersectionID)
    requires
        strictly_increasing(s),
    ensures
        strictly_increasing(insert_member(s, x)),
        forall|y: IntersectionID|
            #[trigger] insert_member(s, x).contains(y) <==> s.contains(y) || y == x,
    decreases s.len(),
{
    let r = insert_member(s, x);
    if s.len() == 0 {
        assert(r[0] == x);
    } else if s.last().0 < x.0 {
        assert forall|i: int, j: int| 0 <= i < j < r.len() implies (#[trigger] r[i]).0 < (
        #[trigger] r[j]).0 by {
            if j == s.len() {
                if i < s.len() - 1 {
                    assert(s[i].0 < s[s.len() - 1].0);
                }
            }
        }
        assert forall|y: IntersectionID| r.contains(y) <==> s.contains(y) || y == x by {
            if s.contains(y) {
                let k = choose|k: int| 0 <= k < s.len() && s[k] == y;
                assert(r[k] == y);
            }
            if y == x {
                assert(r[s.len() as int] == y);
            }
        }
    } else if s.last() == x {
        assert(s[s.len() - 1] == x);
    } else {
        let rest = s.drop_last();
        let last = s.last();
        assert forall|i: int, j: int| 0 <= i < j < rest.len() implies (#[trigger] rest[i]).0 < (
        #[trigger] rest[j]).0 by {
            assert(rest[i] == s[i]);
            assert(rest[j] == s[j]);
        }
        lemma_insert_member(rest, x);
        let inner = insert_member(rest, x);
        assert forall|i: int, j: int| 0 <= i < j < r.len() implies (#[trigger] r[i]).0 < (
        #[trigger] r[j]).0 by {
            if j == inner.len() {
                assert(inner.contains(inner[i]));
                if rest.contains(inner[i]) {
                    let k = choose|k: int| 0 <= k < rest.len() && rest[k] == inner[i];
                    assert(s[k].0 < s[s.len() - 1].0);
                }
            } else {
                assert(r[i] == inner[i]);
                assert(r[j] == inner[j]);
            }
        }
        assert forall|y: IntersectionID| r.contains(y) <==> s.contains(y) || y == x by {
            if r.contains(y) {
                let k = choose|k: int| 0 <= k < r.len() && r[k] == y;
                if k < inner.len() {
                    assert(inner[k] == y);
                    assert(inner.contains(y));
                    if rest.contains(y) {
                        let m = choose|m: int| 0 <= m < rest.len() && rest[m] == y;
                        assert(s[m] == y);
                    }
                } else {
                    assert(s[s.len() - 1] == y);
                }
            }
            if s.contains(y) {
                let k = choose|k: int| 0 <= k < s.len() && s[k] == y;
                if k < rest.len() {
                    assert(rest[k] == y);
                    assert(rest.contains(y));
                    assert(inner.contains(y));
                    let m = choose|m: int| 0 <= m < inner.len() && inner[m] == y;
                    assert(r[m] == y);
                } else {
                    assert(r[inner.len() as int] == y);
                }
            }
            if y == x {
                assert(inner.contains(y));
                let m = choose|m: int| 0 <= m < inner.len() && inner[m] == y;
                assert(r[m] == y);
            }
        }
    }
}

/// The sorted list is in strictly increasing order and holds exactly the
/// intersections of `s`.
pub proof fn lemma_sorted_members(s: Seq<IntersectionID>)
    ensures
        strictly_increasing(sorted_members(s)),
        forall|y: IntersectionID| #[trigger] sorted_members(s).contains(y) <==> s.contains(y),
    decreases s.len(),
{
    if s.len() > 0 {
        let rest = s.drop_last();
        lemma_sorted_members(rest);
        lemma_insert_member(sorted_members(rest), s.last());
        assert forall|y: IntersectionID| sorted_members(s).contains(y) <==> s.contains(y) by {
            if rest.contains(y) {
                let k = choose|k: int| 0 <= k < rest.len() && rest[k] == y;
                assert(s[k] == y);
            }
            if s.contains(y) {
                let k = choose|k: int| 0 <= k < s.len() && s[k] == y;
                if k < rest.len() {
                    assert(rest[k] == y);
                }
            }
        }
    }
}

/// A list that is already in strictly increasing order is its own sorted
/// list.
pub proof fn lemma_sorted_members_fixed(s: Seq<IntersectionID>)
    requires
        strictly_increasing(s),
    ensures
        sorted_members(s) == s,
    decreases s.len(),
{
    if s.len() > 0 {
        let rest = s.drop_last();
        assert forall|i: int, j: int| 0 <= i < j < rest.len() implies (#[trigger] rest[i]).0 < (
        #[trigger] rest[j]).0 by {
            assert(rest[i] == s[i]);
            assert(rest[j] == s[j]);
        }
        lemma_sorted_members_fixed(rest);
        if rest.len() > 0 {
            assert(rest[rest.len() - 1] == s[s.len() - 2]);
            assert(s[s.len() - 2].0 < s[s.len() - 1].0);
        }
        assert(rest.push(s.last()) =~= s);
    }
}

/// Sorts the members and drops repetitions.
pub fn sort_members(members: &Vec<IntersectionID>) -> (r: Vec<IntersectionID>)
    ensures
        r@ == sorted_members(members@),
        strictly_increasing(r@),
        forall|y: IntersectionID| #[trigger] r@.contains(y) <==> members@.contains(y),
{
    let mut out: Vec<IntersectionID> = Vec::new();
    let mut k: usize = 0;
    while k < members.len()
        invariant
            k <= members@.len(),
            out@ == sorted_members(members@.take(k as int)),
            strictly_increasing(out@),
        decreases members@.len() - k,
    {
        let x = members[k];
        let mut pos: usize = out.len();
        while pos > 0 && out[pos - 1].0 > x.0
            invariant
                pos <= out@.len(),
                forall|j: int| pos <= j < out@.len() ==> (#[trigger] out@[j]).0 > x.0,
            decreases pos,
        {
            pos -= 1;
        }
        proof {
            assert(members@.take(k + 1).drop_last() =~= members@.take(k as int));
            lemma_insert_member_at(out@, x, pos as int);
            lemma_insert_member(out@, x);
        }
        if !(pos > 0 && out[pos - 1] == x) {
            out.insert(pos, x);
        }
        k += 1;
    }
    proof {
        assert(members@.take(k as int) =~= members@);
        lemma_sorted_members(members@);
    }
    out
}

} // verus!
