//! Inclusive ranges of `u64` as puzzle inputs.

use std::ops::RangeInclusive;
use vstd::prelude::*;

verus! {

/// The range holds no number: it was used up by iteration, or its lower
/// bound lies above its upper bound.
pub open spec fn is_empty_range(r: RangeInclusive<u64>) -> bool {
    r@.exhausted || r@.start > r@.end
}

/// `RangeInclusive::start`: the lower bound of the range.
#[verifier::external_body]
fn range_start(r: &RangeInclusive<u64>) -> (lo: u64)
    ensures
        lo == r@.start,
{
    *r.start()
}

/// `RangeInclusive::end`: the upper bound of the range, which belongs to it.
#[verifier::external_body]
fn range_end(r: &RangeInclusive<u64>) -> (hi: u64)
    ensures
        hi == r@.end,
{
    *r.end()
}

/// `RangeInclusive::is_empty`: true when the range contains no items, which
/// is the case for bounds in the wrong order and after iteration has finished.
#[verifier::external_body]
fn range_is_empty(r: &RangeInclusive<u64>) -> (empty: bool)
    ensures
        empty == (r@.exhausted || r@.start > r@.end),
{
    r.is_empty()
}

/// The first and last number of a range, or `None` for an empty one.
pub fn bounds(r: &RangeInclusive<u64>) -> (ends: Option<(u64, u64)>)
    ensures
        match ends {
            Some((lo, hi)) => !is_empty_range(*r) && lo == r@.start && hi == r@.end && lo <= hi,
            None => is_empty_range(*r),
        },
{
    if range_is_empty(r) {
        None
    } else {
        Some((range_start(r), range_end(r)))
    }
}

} // verus!
