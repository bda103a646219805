//! Log-probability scores in fixed point.
//!
//! A score is an `i64` count of some small unit of log-probability chosen by
//! the caller. The least `i64` stands for negative infinity: adding anything
//! to it leaves it unchanged. Sums that leave the range of `i64` stop at its
//! ends, so a sum that falls below every finite score becomes negative
//! infinity.

use vstd::prelude::*;

verus! {

/// The score that stands for negative infinity.
pub const NEG_INFINITY: i64 = i64::MIN;

/// The sum of two scores: negative infinity if either is, else their
/// mathematical sum held to the range of `i64`.
pub open spec fn score_sum(a: i64, b: i64) -> i64 {
    if a == NEG_INFINITY || b == NEG_INFINITY {
        NEG_INFINITY
    } else if a + b < i64::MIN {
        NEG_INFINITY
    } else if a + b > i64::MAX {
        i64::MAX
    } else {
        (a + b) as i64
    }
}

/// Adds two scores.
pub fn score_add(a: i64, b: i64) -> (r: i64)
    ensures
        r == score_sum(a, b),
{
    if a == NEG_INFINITY || b == NEG_INFINITY {
        NEG_INFINITY
    } else {
        match a.checked_add(b) {
            Some(s) => s,
            None => if a < 0 {
                NEG_INFINITY
            } else {
                i64::MAX
            },
        }
    }
}

/// Adding a score that is at most zero never raises a score.
pub proof fn lemma_score_sum_nonpositive(a: i64, b: i64)
    requires
        b <= 0,
    ensures
        score_sum(a, b) <= a,
{
}

} // verus!
