//! The smallest number that every member of a range divides.

use crate::number_theory::lemma_multiples_are_spaced;
use crate::ranges::{bounds, is_empty_range};
use std::ops::RangeInclusive;
use vstd::arithmetic::div_mod::{lemma_mod_self_0, lemma_small_mod};
use vstd::prelude::*;

verus! {

/// Every number from `lo` to `hi` divides `n`.
pub open spec fn divisible_by_each(n: int, lo: int, hi: int) -> bool {
    forall|x: int| lo <= x <= hi ==> #[trigger] (n % x) == 0
}

/// Every member of `r` divides `n`.
pub open spec fn divisible_by_range(n: int, r: RangeInclusive<u64>) -> bool {
    is_empty_range(r) || divisible_by_each(n, r@.start as int, r@.end as int)
}

/// Whether every member of `r` divides `n`. Zero is no divisor: a range
/// that holds anything starts at 1 or above.
pub fn divisible_by_all(n: u64, r: RangeInclusive<u64>) -> (all: bool)
    requires
        is_empty_range(r) || r@.start >= 1,
    ensures
        all == divisible_by_range(n as int, r),
{
    match bounds(&r) {
        None => true,
        Some((lo, hi)) => divisible_between(n, lo, hi),
    }
}

/// Whether every number from `lo` to `hi` divides `n`.
fn divisible_between(n: u64, lo: u64, hi: u64) -> (all: bool)
    requires
        1 <= lo <= hi,
    ensures
        all == divisible_by_each(n as int, lo as int, hi as int),
{
    let mut x: u64 = lo;
    while x < hi
        invariant
            1 <= lo <= x <= hi,
            forall|y: int| lo <= y < x ==> #[trigger] (n as int % y) == 0,
        decreases hi - x,
    {
        if n % x != 0 {
            return false;
        }
        x = x + 1;
    }
    n % hi == 0
}

/// The smallest positive number that every member of `r` divides.
///
/// The range must not be empty and must start at 1 or above, and the answer
/// has to fit in 64 bits.
pub fn smallest_divisible_by(r: RangeInclusive<u64>) -> (least: u64)
    requires
        !is_empty_range(r),
        r@.start >= 1,
        exists|m: u64| m >= 1 && #[trigger] divisible_by_range(m as int, r),
    ensures
        least >= 1,
        divisible_by_range(least as int, r),
        forall|y: int| 1 <= y < least ==> !#[trigger] divisible_by_range(y, r),
{
    let ghost top = choose|m: u64| m >= 1 && #[trigger] divisible_by_range(m as int, r);
    match bounds(&r) {
        None => 1,
        Some((lo, hi)) => {
            let step_size = hi;
            let mut x: u64 = step_size;
            proof {
                assert(top as int % hi as int == 0);
                lemma_mod_self_0(hi as int);
                if top < hi {
                    lemma_small_mod(top as nat, hi as nat);
                }
                assert forall|y: int| 1 <= y < x implies !#[trigger] divisible_by_range(y, r) by {
                    lemma_small_mod(y as nat, hi as nat);
                    assert(y % (hi as int) != 0);
                }
            }
            loop
                invariant
                    !is_empty_range(r),
                    lo == r@.start,
                    hi == r@.end,
                    1 <= lo <= hi,
                    step_size == hi,
                    hi <= x <= top,
                    x as int % hi as int == 0,
                    top as int % hi as int == 0,
                    divisible_by_range(top as int, r),
                    forall|y: int| 1 <= y < x ==> !#[trigger] divisible_by_range(y, r),
                ensures
                    x >= 1,
                    divisible_by_range(x as int, r),
                    forall|y: int| 1 <= y < x ==> !#[trigger] divisible_by_range(y, r),
                decreases top - x,
            {
                if divisible_between(x, lo, hi) {
                    break ;
                }
                proof {
                    lemma_multiples_are_spaced(x as int, top as int, hi as int);
                    assert forall|y: int| 1 <= y < x + hi implies !#[trigger] divisible_by_range(
                        y,
                        r,
                    ) by {
                        if y > x {
                            if y % (hi as int) == 0 {
                                lemma_multiples_are_spaced(x as int, y, hi as int);
                            }
                            assert(y % (hi as int) != 0);
                        }
                    }
                }
                x = x + step_size;
                proof {
                    crate::number_theory::lemma_sum_of_multiples(
                        (x - hi) as int,
                        hi as int,
                        hi as int,
                    );
                }
            }
            x
        },
    }
}

/// The smallest positive number that every member of `r` divides.
pub fn solve(r: RangeInclusive<u64>) -> (least: u64)
    requires
        !is_empty_range(r),
        r@.start >= 1,
        exists|m: u64| m >= 1 && #[trigger] divisible_by_range(m as int, r),
    ensures
        least >= 1,
        divisible_by_range(least as int, r),
        forall|y: int| 1 <= y < least ==> !#[trigger] divisible_by_range(y, r),
{
    smallest_divisible_by(r)
}

} // verus!
