//! Banded ranking over a descending list of field values.
//!
//! Entries with equal values form a band; a band's rank number is the
//! 1-based position of its first entry, so ties share the earlier rank and
//! the next band resumes at its own position (sports-style ranking, not
//! dense ranking).

use crate::MAX_RECORDS_PER_LIST;
use vstd::prelude::*;

verus! {

/// Whether `vals` is sorted in descending order.
pub open spec fn sorted_desc(vals: Seq<u32>) -> bool {
    forall|i: int, j: int| 0 <= i <= j < vals.len() ==> vals[i] >= vals[j]
}

/// How many entries of `vals` are strictly greater than `v`.
pub open spec fn count_gt(vals: Seq<u32>, v: u32) -> int
    decreases vals.len(),
{
    if vals.len() == 0 {
        0
    } else {
        count_gt(vals.drop_last(), v) + if vals.last() > v { 1int } else { 0int }
    }
}

/// The banded rank `v` would take among the descending list `vals`:
/// `1` when the list is empty, `0` when `v` is below every entry, and
/// otherwise the 1-based position of the first entry of the band `v` lands
/// in.
pub open spec fn rank_of(vals: Seq<u32>, v: u32) -> int
    recommends
        sorted_desc(vals),
{
    if vals.len() == 0 {
        1
    } else if count_gt(vals, v) == vals.len() {
        0
    } else {
        count_gt(vals, vals[count_gt(vals, v)]) + 1
    }
}

/// The target triple for `v` against the descending list `vals`:
/// `(0, 0, 0)` when there is nothing to chase (empty list, or `v` already
/// meets the best entry); otherwise, for the first band `v` does reach,
/// `(rank of the band just above, that band's value, the reached band's
/// value)`; and when `v` reaches no band at all, `(rank of the last band,
/// the last band's value, 0)`.
pub open spec fn target_of(vals: Seq<u32>, v: u32) -> (int, u32, u32)
    recommends
        sorted_desc(vals),
{
    if vals.len() == 0 {
        (0, 0, 0)
    } else {
        let c = count_gt(vals, v);
        if c == 0 {
            (0, 0, 0)
        } else if c < vals.len() {
            (count_gt(vals, vals[c - 1]) + 1, vals[c - 1], vals[c])
        } else {
            (count_gt(vals, vals[vals.len() - 1]) + 1, vals[vals.len() - 1], 0)
        }
    }
}

/// Whether `v` would enter the display list `vals`: the list still has a
/// free slot, or `v` strictly beats the last entry.
pub open spec fn is_new_value(vals: Seq<u32>, v: u32) -> bool {
    vals.len() < MAX_RECORDS_PER_LIST || vals[vals.len() - 1] < v
}

/// `count_gt` never exceeds the list length.
pub proof fn lemma_count_gt_le_len(vals: Seq<u32>, v: u32)
    ensures
        0 <= count_gt(vals, v) <= vals.len(),
    decreases vals.len(),
{
    if vals.len() > 0 {
        lemma_count_gt_le_len(vals.drop_last(), v);
    }
}

/// Appending one value extends the count by whether that value is greater.
pub proof fn lemma_count_gt_take_step(vals: Seq<u32>, v: u32, i: int)
    requires
        0 <= i < vals.len(),
    ensures
        count_gt(vals.take(i + 1), v) == count_gt(vals.take(i), v) + if vals[i] > v {
            1int
        } else {
            0int
        },
{
    assert(vals.take(i + 1).drop_last() =~= vals.take(i));
    assert(vals.take(i + 1).last() == vals[i]);
}

/// A smaller value can only be beaten by more entries.
pub proof fn lemma_count_gt_monotone(vals: Seq<u32>, v1: u32, v2: u32)
    requires
        v2 <= v1,
    ensures
        count_gt(vals, v1) <= count_gt(vals, v2),
    decreases vals.len(),
{
    if vals.len() > 0 {
        lemma_count_gt_monotone(vals.drop_last(), v1, v2);
    }
}

/// Worse values never get a better (lower-numbered) rank: for `v2 <= v1`,
/// either `v2` is unranked (`0`), or `v1`'s rank number is at most `v2`'s.
/// Moreover a value unranked among the list leaves every worse value
/// unranked too. (Numerically the rank is not monotone across the drop to
/// `0`, since `0` encodes "below the whole list" rather than a position.)
pub proof fn lemma_rank_monotone(vals: Seq<u32>, v1: u32, v2: u32)
    requires
        sorted_desc(vals),
        v2 <= v1,
    ensures
        rank_of(vals, v2) == 0 || rank_of(vals, v1) <= rank_of(vals, v2),
        rank_of(vals, v1) == 0 ==> rank_of(vals, v2) == 0,
{
    if vals.len() > 0 {
        let c1 = count_gt(vals, v1);
        let c2 = count_gt(vals, v2);
        lemma_count_gt_monotone(vals, v1, v2);
        lemma_count_gt_le_len(vals, v1);
        lemma_count_gt_le_len(vals, v2);
        if c1 == vals.len() {
            assert(c2 == vals.len());
        } else {
            lemma_count_gt_le_len(vals, vals[c1]);
            if c2 < vals.len() {
                assert(vals[c1] >= vals[c2]);
                lemma_count_gt_monotone(vals, vals[c1], vals[c2]);
            }
        }
    }
}

/// Ties share a rank: two values beaten by the same entries land in the
/// same band and receive the same rank number.
pub proof fn lemma_rank_ties(vals: Seq<u32>, v1: u32, v2: u32)
    requires
        count_gt(vals, v1) == count_gt(vals, v2),
    ensures
        rank_of(vals, v1) == rank_of(vals, v2),
{
}

/// A list with a free display slot admits any value as new, whatever the
/// value.
pub proof fn lemma_new_when_short(vals: Seq<u32>, v: u32)
    requires
        vals.len() < MAX_RECORDS_PER_LIST,
    ensures
        is_new_value(vals, v),
{
}

} // verus!
