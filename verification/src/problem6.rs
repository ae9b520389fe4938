//! The square of the sum of a range against the sum of its squares.

use crate::ranges::{bounds, is_empty_range};
use std::ops::RangeInclusive;
use vstd::prelude::*;

verus! {

/// The sum of the numbers from `lo` to `hi`.
pub open spec fn sum_between(lo: int, hi: int) -> int
    decreases hi - lo + 1,
{
    if hi < lo {
        0
    } else {
        sum_between(lo, hi - 1) + hi
    }
}

/// The sum of the squares of the numbers from `lo` to `hi`.
pub open spec fn squares_between(lo: int, hi: int) -> int
    decreases hi - lo + 1,
{
    if hi < lo {
        0
    } else {
        squares_between(lo, hi - 1) + hi * hi
    }
}

/// The sum of the members of `r`.
pub open spec fn range_sum(r: RangeInclusive<u64>) -> int {
    if is_empty_range(r) {
        0
    } else {
        sum_between(r@.start as int, r@.end as int)
    }
}

/// The sum of the squares of the members of `r`.
pub open spec fn range_squares(r: RangeInclusive<u64>) -> int {
    if is_empty_range(r) {
        0
    } else {
        squares_between(r@.start as int, r@.end as int)
    }
}

/// Both sums grow with the upper bound, and the sum of the squares never
/// exceeds the square of the sum.
pub proof fn lemma_sums_grow(lo: int, mid: int, hi: int)
    requires
        0 <= lo,
        mid <= hi,
    ensures
        0 <= sum_between(lo, mid) <= sum_between(lo, hi),
        0 <= squares_between(lo, mid) <= squares_between(lo, hi),
        squares_between(lo, hi) <= sum_between(lo, hi) * sum_between(lo, hi),
    decreases hi - lo + 1,
{
    if hi < lo {
    } else {
        if mid < hi {
            lemma_sums_grow(lo, mid, hi - 1);
        } else {
            lemma_sums_grow(lo, mid - 1, hi - 1);
        }
        let s = sum_between(lo, hi - 1);
        let q = squares_between(lo, hi - 1);
        assert(hi * hi >= 0) by (nonlinear_arith);
        assert(q + hi * hi <= (s + hi) * (s + hi)) by (nonlinear_arith)
            requires
                q <= s * s,
                s >= 0,
                hi >= 0,
        ;
    }
}

/// The sum of the squares of the numbers from `lo` to `hi`.
fn sum_of_squares_between(lo: u64, hi: u64) -> (total: u64)
    requires
        lo <= hi,
        squares_between(lo as int, hi as int) <= u64::MAX,
    ensures
        total == squares_between(lo as int, hi as int),
{
    let mut total: u64 = 0;
    let mut x: u64 = lo;
    loop
        invariant_except_break
            total == squares_between(lo as int, x - 1),
        invariant
            lo <= x <= hi,
            squares_between(lo as int, hi as int) <= u64::MAX,
        ensures
            total == squares_between(lo as int, hi as int),
        decreases hi - x,
    {
        proof {
            lemma_sums_grow(lo as int, x as int, hi as int);
            lemma_sums_grow(lo as int, x - 1, x as int);
            assert(x * x >= 0) by (nonlinear_arith);
        }
        total = total + x * x;
        if x == hi {
            break ;
        }
        x = x + 1;
    }
    total
}

/// The square of the sum of the numbers from `lo` to `hi`.
fn square_of_sum_between(lo: u64, hi: u64) -> (square: u64)
    requires
        lo <= hi,
        sum_between(lo as int, hi as int) * sum_between(lo as int, hi as int) <= u64::MAX,
    ensures
        square == sum_between(lo as int, hi as int) * sum_between(lo as int, hi as int),
{
    proof {
        lemma_sums_grow(lo as int, hi as int, hi as int);
        let s = sum_between(lo as int, hi as int);
        assert(s <= s * s) by (nonlinear_arith)
            requires
                s >= 0,
        ;
    }
    let mut total: u64 = 0;
    let mut x: u64 = lo;
    loop
        invariant_except_break
            total == sum_between(lo as int, x - 1),
        invariant
            lo <= x <= hi,
            sum_between(lo as int, hi as int) <= u64::MAX,
        ensures
            total == sum_between(lo as int, hi as int),
        decreases hi - x,
    {
        proof {
            lemma_sums_grow(lo as int, x as int, hi as int);
        }
        total = total + x;
        if x == hi {
            break ;
        }
        x = x + 1;
    }
    total * total
}

/// The sum of the squares of the members of `r`.
pub fn sum_of_squares(r: RangeInclusive<u64>) -> (total: u64)
    requires
        range_squares(r) <= u64::MAX,
    ensures
        total == range_squares(r),
{
    match bounds(&r) {
        None => 0,
        Some((lo, hi)) => sum_of_squares_between(lo, hi),
    }
}

/// The square of the sum of the members of `r`.
pub fn square_of_sum(r: RangeInclusive<u64>) -> (square: u64)
    requires
        range_sum(r) * range_sum(r) <= u64::MAX,
    ensures
        square == range_sum(r) * range_sum(r),
{
    match bounds(&r) {
        None => 0,
        Some((lo, hi)) => square_of_sum_between(lo, hi),
    }
}

/// The square of the sum of the members of `r`, less the sum of their
/// squares.
pub fn solve(r: RangeInclusive<u64>) -> (difference: u64)
    requires
        range_sum(r) * range_sum(r) <= u64::MAX,
    ensures
        difference == range_sum(r) * range_sum(r) - range_squares(r),
{
    match bounds(&r) {
        None => 0,
        Some((lo, hi)) => {
            proof {
                lemma_sums_grow(lo as int, hi as int, hi as int);
            }
            square_of_sum_between(lo, hi) - sum_of_squares_between(lo, hi)
        },
    }
}

} // verus!
