//! The sum of the numbers on the diagonals of a number spiral.

use vstd::prelude::*;

verus! {

/// The sum of the four corners of ring `n` of the spiral; ring 0 is the
/// single 1 in the middle.
pub open spec fn corners(n: int) -> int {
    if n == 0 {
        1
    } else {
        4 * ((n * 2 + 1) * (n * 2 + 1)) - 12 * n
    }
}

/// The sum of the corners of the rings 0 to `ring`.
pub open spec fn corner_total(ring: int) -> int
    decreases ring + 1,
{
    if ring < 0 {
        0
    } else {
        corner_total(ring - 1) + corners(ring)
    }
}

/// Four times the square of the side of ring `n`, the largest number that
/// comes up while the corners of the rings up to `n` are added.
pub open spec fn largest_term(n: int) -> int {
    4 * ((n * 2 + 1) * (n * 2 + 1))
}

/// Corner sums are positive and grow with the ring, as do the totals.
pub proof fn lemma_corner_total_grows(a: int, b: int)
    requires
        0 <= a <= b,
    ensures
        0 < corners(a) <= largest_term(a) <= largest_term(b),
        0 < corners(a) <= corner_total(a) <= corner_total(b),
    decreases b,
{
    assert(0 < corners(a) <= largest_term(a) <= largest_term(b)) by (nonlinear_arith)
        requires
            0 <= a <= b,
    ;
    assert(0 < corners(b)) by (nonlinear_arith)
        requires
            0 <= b,
    ;
    if b > 0 {
        if a < b {
            lemma_corner_total_grows(a, b - 1);
        } else {
            lemma_corner_total_grows(a - 1, b - 1);
        }
    } else {
        assert(corner_total(-1) == 0);
    }
}

/// The sum of the four corners of ring `n`.
pub fn ring_corners(n: usize) -> (sum: usize)
    requires
        largest_term(n as int) <= usize::MAX,
    ensures
        sum == corners(n as int),
{
    if n == 0 {
        return 1;
    }
    assert(12 * n < 4 * ((n * 2 + 1) * (n * 2 + 1)) && n * 2 + 1 <= (n * 2 + 1) * (n * 2 + 1) && (n
        * 2 + 1) * (n * 2 + 1) <= 4 * ((n * 2 + 1) * (n * 2 + 1))) by (nonlinear_arith)
        requires
            n >= 1,
    ;
    let side = n * 2 + 1;
    4 * (side * side) - 12 * n
}

/// The sum of the corners of the rings 0 to `ring`.
pub fn sum_until(ring: usize) -> (sum: usize)
    requires
        largest_term(ring as int) <= usize::MAX,
        corner_total(ring as int) <= usize::MAX,
    ensures
        sum == corner_total(ring as int),
{
    let mut sum: usize = 0;
    let mut n: usize = 0;
    loop
        invariant_except_break
            sum == corner_total(n - 1),
        invariant
            n <= ring,
            largest_term(ring as int) <= usize::MAX,
            corner_total(ring as int) <= usize::MAX,
        ensures
            sum == corner_total(ring as int),
        decreases ring - n,
    {
        proof {
            lemma_corner_total_grows(n as int, ring as int);
        }
        sum = sum + ring_corners(n);
        if n == ring {
            break ;
        }
        n = n + 1;
    }
    sum
}

/// The sum of the numbers on both diagonals of a spiral with `size` numbers
/// to a side.
pub fn solve(size: usize) -> (sum: usize)
    requires
        size >= 1,
        largest_term((size - 1) / 2) <= usize::MAX,
        corner_total((size - 1) / 2) <= usize::MAX,
    ensures
        sum == corner_total((size - 1) / 2),
{
    let n_rings = (size - 1) / 2;
    sum_until(n_rings)
}

} // verus!
