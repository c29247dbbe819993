//! Sets of `u64` stored as ranges (`rangemap::RangeInclusiveSet`), and the
//! vocabulary of maximal runs in which their contents are described.
//!
//! `RangeInclusiveSet` keeps its ranges coalesced: `insert` merges a new
//! range with every stored range that overlaps it or is immediately
//! adjacent to it, and `remove` only cuts stored ranges. The stored ranges
//! are therefore exactly the maximal runs of consecutive members.

use vstd::prelude::*;
use rangemap::RangeInclusiveSet;

verus! {

/// `rangemap::RangeInclusiveSet`, opaque: what a set holds is named by
/// `range_set_contents`.
#[verifier::external_type_specification]
#[verifier::external_body]
#[verifier::reject_recursive_types(T)]
#[verifier::reject_recursive_types(StepFnsT)]
pub struct ExRangeInclusiveSet<T, StepFnsT>(RangeInclusiveSet<T, StepFnsT>);

/// The numbers that a range set holds.
pub uninterp spec fn range_set_contents(set: RangeInclusiveSet<u64>) -> Set<u64>;

/// The numbers from `lo` to `hi`, both included.
pub open spec fn interval(lo: u64, hi: u64) -> Set<u64> {
    Set::new(|x: u64| lo <= x <= hi)
}

/// `[lo, hi]` is a maximal run of consecutive members of `s`.
pub open spec fn is_maximal_run(s: Set<u64>, lo: u64, hi: u64) -> bool {
    &&& lo <= hi
    &&& forall|x: u64| lo <= x <= hi ==> #[trigger] s.contains(x)
    &&& lo > 0 ==> !s.contains((lo - 1) as u64)
    &&& hi < u64::MAX ==> !s.contains((hi + 1) as u64)
}

/// Each range of `r` ends before the next one starts.
pub open spec fn runs_ascending(r: Seq<(u64, u64)>) -> bool {
    forall|i: int, j: int| 0 <= i < j < r.len() ==> #[trigger] r[i].1 < #[trigger] r[j].0
}

/// Some range of `r` holds `x`.
pub open spec fn runs_cover(r: Seq<(u64, u64)>, x: u64) -> bool {
    exists|i: int| 0 <= i < r.len() && #[trigger] r[i].0 <= x && x <= r[i].1
}

/// `r` lists the maximal runs of `s`, in ascending order.
pub open spec fn is_run_list(r: Seq<(u64, u64)>, s: Set<u64>) -> bool {
    &&& forall|i: int| 0 <= i < r.len() ==> is_maximal_run(s, #[trigger] r[i].0, r[i].1)
    &&& runs_ascending(r)
    &&& forall|x: u64| s.contains(x) ==> runs_cover(r, x)
}

/// All numbers between `a` and `b` (in either order) belong to `s`.
pub open spec fn joined(s: Set<u64>, a: u64, b: u64) -> bool {
    forall|x: u64|
        (a <= x <= b || b <= x <= a) ==> #[trigger] s.contains(x)
}

/// `r` lists, in ascending order, the maximal runs of `s` that meet `[lo, hi]`.
pub open spec fn is_overlapping_run_list(r: Seq<(u64, u64)>, s: Set<u64>, lo: u64, hi: u64) -> bool {
    &&& forall|i: int|
        0 <= i < r.len() ==> is_maximal_run(s, #[trigger] r[i].0, r[i].1) && r[i].1 >= lo && r[i].0
            <= hi
    &&& runs_ascending(r)
    &&& forall|x: u64, y: u64|
        #![trigger runs_cover(r, x), joined(s, x, y)]
        s.contains(x) && lo <= y <= hi && joined(s, x, y) ==> runs_cover(r, x)
}

/// What `overlaps(lo..=hi)` answers for a coalesced set holding `s`.
pub open spec fn overlap_answer(s: Set<u64>, lo: u64, hi: u64) -> bool {
    if lo <= hi {
        exists|x: u64| lo <= x <= hi && #[trigger] s.contains(x)
    } else {
        joined(s, hi, lo)
    }
}

/// `x` begins a maximal run of `s`.
pub open spec fn starts_run(s: Set<u64>, x: u64) -> bool {
    s.contains(x) && (x == 0 || !s.contains((x - 1) as u64))
}

/// The first run of a run list starts at the least member, and a number
/// from that start on lies in the run exactly when everything up to it
/// is a member.
pub proof fn lemma_first_run(r: Seq<(u64, u64)>, s: Set<u64>)
    requires
        is_run_list(r, s),
    ensures
        r.len() == 0 <==> forall|x: u64| !s.contains(x),
        r.len() > 0 ==> s.contains(r[0].0) && forall|x: u64| s.contains(x) ==> r[0].0 <= x,
        r.len() > 0 ==> forall|y: u64| r[0].0 <= y ==> (y <= r[0].1 <==> joined(s, r[0].0, y)),
{
    if r.len() > 0 {
        assert(is_maximal_run(s, r[0].0, r[0].1));
        assert(s.contains(r[0].0));
        assert forall|x: u64| s.contains(x) implies r[0].0 <= x by {
            assert(runs_cover(r, x));
            let i = choose|i: int| 0 <= i < r.len() && #[trigger] r[i].0 <= x && x <= r[i].1;
            if i > 0 {
                assert(r[0].1 < r[i].0);
            }
        }
        assert forall|y: u64| r[0].0 <= y implies (y <= r[0].1 <==> joined(s, r[0].0, y)) by {
            if y > r[0].1 {
                if joined(s, r[0].0, y) {
                    let z = (r[0].1 + 1) as u64;
                    assert(r[0].0 <= z <= y);
                    assert(s.contains(z));
                }
            } else {
                assert forall|x: u64| (r[0].0 <= x <= y || y <= x <= r[0].0) implies #[trigger] s.contains(x) by {
                }
            }
        }
    } else {
        assert forall|x: u64| !s.contains(x) by {
            if s.contains(x) {
                assert(runs_cover(r, x));
            }
        }
    }
}

/// Without the members of its first run, a run list's other runs list
/// the rest of the set.
proof fn lemma_run_list_rest(r: Seq<(u64, u64)>, s: Set<u64>)
    requires
        is_run_list(r, s),
        r.len() > 0,
    ensures
        is_run_list(r.drop_first(), s.difference(interval(r[0].0, r[0].1))),
{
    let t = s.difference(interval(r[0].0, r[0].1));
    let q = r.drop_first();
    assert(is_maximal_run(s, r[0].0, r[0].1));
    assert forall|i: int| 0 <= i < q.len() implies is_maximal_run(t, #[trigger] q[i].0, q[i].1) by {
        assert(q[i] == r[i + 1]);
        assert(is_maximal_run(s, r[i + 1].0, r[i + 1].1));
        assert(r[0].1 < r[i + 1].0);
        if r[0].1 < u64::MAX {
            assert(!s.contains((r[0].1 + 1) as u64));
        }
        assert forall|x: u64| q[i].0 <= x <= q[i].1 implies #[trigger] t.contains(x) by {
            assert(s.contains(x));
        }
    }
    assert forall|i: int, j: int| 0 <= i < j < q.len() implies #[trigger] q[i].1 < #[trigger] q[j].0 by {
        assert(q[i] == r[i + 1] && q[j] == r[j + 1]);
    }
    assert forall|x: u64| t.contains(x) implies runs_cover(q, x) by {
        assert(runs_cover(r, x));
        let i = choose|i: int| 0 <= i < r.len() && #[trigger] r[i].0 <= x && x <= r[i].1;
        assert(i != 0);
        assert(q[i - 1] == r[i]);
        assert(q[i - 1].0 <= x && x <= q[i - 1].1);
    }
}

/// A set has one run list: two lists of its maximal runs in ascending
/// order are the same list.
pub proof fn lemma_run_list_unique(r1: Seq<(u64, u64)>, r2: Seq<(u64, u64)>, s: Set<u64>)
    requires
        is_run_list(r1, s),
        is_run_list(r2, s),
    ensures
        r1 == r2,
    decreases r1.len(),
{
    lemma_first_run(r1, s);
    lemma_first_run(r2, s);
    if r1.len() == 0 {
        if r2.len() > 0 {
            assert(s.contains(r2[0].0));
        }
        assert(r1 =~= r2);
    } else {
        assert(r2.len() > 0);
        assert(r1[0].0 <= r2[0].0 && r2[0].0 <= r1[0].0);
        let a = r1[0].0;
        assert(is_maximal_run(s, r1[0].0, r1[0].1));
        assert(is_maximal_run(s, r2[0].0, r2[0].1));
        lemma_run_extent(s, a, r1[0].1, r2[0].1);
        lemma_run_extent(s, a, r2[0].1, r1[0].1);
        assert(joined(s, a, r1[0].1)) by {
            assert forall|x: u64| (a <= x <= r1[0].1 || r1[0].1 <= x <= a) implies #[trigger] s.contains(x) by {
            }
        }
        assert(joined(s, a, r2[0].1)) by {
            assert forall|x: u64| (a <= x <= r2[0].1 || r2[0].1 <= x <= a) implies #[trigger] s.contains(x) by {
            }
        }
        assert(r1[0] == r2[0]);
        lemma_run_list_rest(r1, s);
        lemma_run_list_rest(r2, s);
        lemma_run_list_unique(r1.drop_first(), r2.drop_first(), s.difference(interval(a, r1[0].1)));
        assert(r1 =~= seq![r1[0]] + r1.drop_first());
        assert(r2 =~= seq![r2[0]] + r2.drop_first());
    }
}

/// The runs of an overlapping run list are exactly the maximal runs
/// that meet `[lo, hi]`, listed by ascending start.
pub proof fn lemma_overlapping_runs(r: Seq<(u64, u64)>, s: Set<u64>, lo: u64, hi: u64)
    requires
        is_overlapping_run_list(r, s, lo, hi),
        lo <= hi,
    ensures
        forall|i: int|
            0 <= i < r.len() ==> starts_run(s, #[trigger] r[i].0) && exists|y: u64|
                lo <= y <= hi && joined(s, r[i].0, y),
        forall|x: u64, y: u64|
            #![trigger starts_run(s, x), joined(s, x, y)]
            starts_run(s, x) && lo <= y <= hi && joined(s, x, y) ==> exists|i: int|
                0 <= i < r.len() && #[trigger] r[i].0 == x,
        forall|i: int, j: int| 0 <= i < j < r.len() ==> #[trigger] r[i].0 < #[trigger] r[j].0,
{
    assert forall|i: int| 0 <= i < r.len() implies starts_run(s, #[trigger] r[i].0) && exists|y: u64|
        lo <= y <= hi && joined(s, r[i].0, y) by {
        assert(is_maximal_run(s, r[i].0, r[i].1));
        let y = if r[i].0 >= lo { r[i].0 } else { lo };
        assert(lo <= y <= hi);
        assert(joined(s, r[i].0, y)) by {
            assert forall|x: u64| (r[i].0 <= x <= y || y <= x <= r[i].0) implies #[trigger] s.contains(x) by {
            }
        }
    }
    assert forall|x: u64, y: u64|
        #![trigger starts_run(s, x), joined(s, x, y)]
        starts_run(s, x) && lo <= y <= hi && joined(s, x, y) implies exists|i: int|
            0 <= i < r.len() && #[trigger] r[i].0 == x by {
        assert(runs_cover(r, x));
        let i = choose|i: int| 0 <= i < r.len() && #[trigger] r[i].0 <= x && x <= r[i].1;
        assert(is_maximal_run(s, r[i].0, r[i].1));
        if r[i].0 < x {
            assert(s.contains((x - 1) as u64));
        }
        assert(r[i].0 == x);
    }
    assert forall|i: int, j: int| 0 <= i < j < r.len() implies #[trigger] r[i].0 < #[trigger] r[j].0 by {
        assert(r[i].1 < r[j].0);
        assert(is_maximal_run(s, r[i].0, r[i].1));
    }
}

/// A number from the start of a maximal run on lies in the run exactly
/// when everything up to it is a member.
pub proof fn lemma_run_extent(s: Set<u64>, a: u64, b: u64, y: u64)
    requires
        is_maximal_run(s, a, b),
        a <= y,
    ensures
        y <= b <==> joined(s, a, y),
{
    if y > b {
        if joined(s, a, y) {
            let z = (b + 1) as u64;
            assert(a <= z <= y);
            assert(s.contains(z));
        }
    } else {
        assert forall|x: u64| (a <= x <= y || y <= x <= a) implies #[trigger] s.contains(x) by {
        }
    }
}

/// An empty set (`RangeInclusiveSet::new`).
#[verifier::external_body]
pub(crate) fn range_set_new() -> (r: RangeInclusiveSet<u64>)
    ensures
        range_set_contents(r) == Set::<u64>::empty(),
{
    RangeInclusiveSet::new()
}

/// Adds `lo..=hi` (`RangeInclusiveSet::insert`, which panics when `lo > hi`).
#[verifier::external_body]
pub(crate) fn range_set_insert(set: &mut RangeInclusiveSet<u64>, lo: u64, hi: u64)
    requires
        lo <= hi,
    ensures
        range_set_contents(*final(set)) == range_set_contents(*old(set)).union(interval(lo, hi)),
{
    set.insert(lo..=hi)
}

/// Removes `lo..=hi` (`RangeInclusiveSet::remove`, which panics when `lo > hi`).
#[verifier::external_body]
pub(crate) fn range_set_remove(set: &mut RangeInclusiveSet<u64>, lo: u64, hi: u64)
    requires
        lo <= hi,
    ensures
        range_set_contents(*final(set)) == range_set_contents(*old(set)).difference(
            interval(lo, hi),
        ),
{
    set.remove(lo..=hi)
}

/// Membership (`RangeInclusiveSet::contains`).
#[verifier::external_body]
pub(crate) fn range_set_contains(set: &RangeInclusiveSet<u64>, x: u64) -> (r: bool)
    ensures
        r == range_set_contents(*set).contains(x),
{
    set.contains(&x)
}

/// Whether a stored range reaches from `lo` or beyond down to `hi` or
/// below (`RangeInclusiveSet::overlaps`): for `lo <= hi`, whether some
/// member lies in `[lo, hi]`; for `lo > hi`, whether all of `[hi, lo]` is
/// in the set, that is, covered by one stored range.
#[verifier::external_body]
pub(crate) fn range_set_overlaps(set: &RangeInclusiveSet<u64>, lo: u64, hi: u64) -> (r: bool)
    ensures
        r == overlap_answer(range_set_contents(*set), lo, hi),
{
    set.overlaps(&(lo..=hi))
}

/// The stored ranges in ascending order (`RangeInclusiveSet::iter`).
#[verifier::external_body]
pub(crate) fn range_set_ranges(set: &RangeInclusiveSet<u64>) -> (r: Vec<(u64, u64)>)
    ensures
        is_run_list(r@, range_set_contents(*set)),
{
    set.iter().map(|r| (*r.start(), *r.end())).collect()
}

/// The stored ranges that meet `lo..=hi`, in ascending order
/// (`RangeInclusiveSet::overlapping`).
#[verifier::external_body]
pub(crate) fn range_set_overlapping(set: &RangeInclusiveSet<u64>, lo: u64, hi: u64) -> (r: Vec<
    (u64, u64),
>)
    requires
        lo <= hi,
    ensures
        is_overlapping_run_list(r@, range_set_contents(*set), lo, hi),
{
    set.overlapping(lo..=hi).map(|r| (*r.start(), *r.end())).collect()
}

} // verus!
