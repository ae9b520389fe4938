//! The sum of the numbers that are not the sum of two abundant numbers.

use crate::divisors::{lemma_divisor_sum_bounds, proper_divisor_sum};
use crate::seqs::lemma_push_contains;
use std::collections::HashSet;
use vstd::prelude::*;
use vstd::std_specs::hash::*;

verus! {

/// Every number above this bound is the sum of two abundant numbers.
pub const LIMIT: usize = 28123;

/// The proper divisors of `n` add up to more than `n`.
pub open spec fn is_abundant_number(n: int) -> bool {
    proper_divisor_sum(n) > n
}

/// `a` is an abundant number between 12, the smallest one, and `limit`.
pub open spec fn is_candidate(a: int, limit: int) -> bool {
    12 <= a <= limit && is_abundant_number(a)
}

/// `x` is the sum of the abundant numbers `a` and `b`, neither above `limit`.
pub open spec fn is_sum_of(x: int, a: int, b: int, limit: int) -> bool {
    is_candidate(a, limit) && is_candidate(b, limit) && a + b == x
}

/// `x` is the sum of two abundant numbers, neither above `limit`.
pub open spec fn is_abundant_sum(x: int, limit: int) -> bool {
    exists|a: int, b: int| #[trigger] is_sum_of(x, a, b, limit)
}

/// The sum of the numbers from 1 to `upto` that are not the sum of two
/// abundant numbers up to `limit`.
pub open spec fn non_summable_total(upto: int, limit: int) -> int
    decreases upto,
{
    if upto <= 0 {
        0
    } else {
        non_summable_total(upto - 1, limit) + if is_abundant_sum(upto, limit) {
            0
        } else {
            upto
        }
    }
}

/// The sum of the divisors of `n` up to half of `n`.
pub fn divisors_sum(n: usize) -> (sum: usize)
    requires
        proper_divisor_sum(n as int) <= usize::MAX,
    ensures
        sum == proper_divisor_sum(n as int),
{
    crate::divisors::divisors_sum(n)
}

/// Whether the proper divisors of `n` add up to more than `n`.
pub fn is_abundant(n: usize) -> (abundant: bool)
    requires
        proper_divisor_sum(n as int) <= usize::MAX,
    ensures
        abundant == is_abundant_number(n as int),
{
    divisors_sum(n) > n
}

/// The abundant numbers from 12 to `LIMIT`, in increasing order.
fn abundant_numbers() -> (found: Vec<usize>)
    ensures
        forall|i: int| 0 <= i < found.len() ==> is_candidate(#[trigger] found[i] as int, LIMIT as int),
        forall|a: int| is_candidate(a, LIMIT as int) ==> #[trigger] found@.contains(a as usize),
{
    let mut found: Vec<usize> = Vec::new();
    let mut n: usize = 12;
    while n <= LIMIT
        invariant
            12 <= n <= LIMIT + 1,
            forall|i: int|
                0 <= i < found.len() ==> is_candidate(#[trigger] found[i] as int, LIMIT as int),
            forall|a: int|
                is_candidate(a, LIMIT as int) && a < n ==> #[trigger] found@.contains(a as usize),
        decreases LIMIT + 1 - n,
    {
        proof {
            lemma_divisor_sum_bounds(n as int, 0, n as int / 2);
            let half = n as int / 2;
            assert(half * (half + 1) <= 14062 * 14063) by (nonlinear_arith)
                requires
                    0 <= half <= 14062,
            ;
        }
        if is_abundant(n) {
            proof {
                assert forall|a: int| is_candidate(a, LIMIT as int) && a < n + 1 implies #[trigger]
                    found@.push(n).contains(a as usize) by {
                    lemma_push_contains(found@, n, a as usize);
                }
            }
            found.push(n);
        }
        n = n + 1;
    }
    found
}

/// The pair of positions `(p, q)` has been dealt with when the scan stands
/// at `(i, j)`, and the numbers there add up to `x`.
pub open spec fn pair_gives(found: Seq<usize>, x: int, p: int, q: int, i: int, j: int) -> bool {
    &&& 0 <= p < found.len()
    &&& 0 <= q < found.len()
    &&& p < i || (p == i && q < j)
    &&& found[p] + found[q] == x
}

/// The sum of the numbers from 1 to `LIMIT` that are not the sum of two
/// abundant numbers.
pub fn solve() -> (sum: usize)
    ensures
        sum == non_summable_total(LIMIT as int, LIMIT as int),
{
    broadcast use group_hash_axioms;

    let found = abundant_numbers();
    let mut possible_sums: HashSet<usize> = HashSet::new();
    let mut i: usize = 0;
    while i < found.len()
        invariant
            i <= found.len(),
            forall|k: int|
                0 <= k < found.len() ==> is_candidate(#[trigger] found[k] as int, LIMIT as int),
            forall|x: usize|
                possible_sums@.contains(x) <==> exists|p: int, q: int| #[trigger]
                    pair_gives(found@, x as int, p, q, i as int, 0),
        decreases found.len() - i,
    {
        let mut j: usize = 0;
        while j < found.len()
            invariant
                i < found.len(),
                j <= found.len(),
                forall|k: int|
                    0 <= k < found.len() ==> is_candidate(#[trigger] found[k] as int, LIMIT as int),
                forall|x: usize|
                    possible_sums@.contains(x) <==> exists|p: int, q: int| #[trigger]
                        pair_gives(found@, x as int, p, q, i as int, j as int),
            decreases found.len() - j,
        {
            let ghost before = possible_sums@;
            assert(is_candidate(found[i as int] as int, LIMIT as int));
            assert(is_candidate(found[j as int] as int, LIMIT as int));
            let both = found[i] + found[j];
            possible_sums.insert(both);
            proof {
                assert forall|x: usize|
                    possible_sums@.contains(x) <==> exists|p: int, q: int| #[trigger]
                        pair_gives(found@, x as int, p, q, i as int, j + 1) by {
                    if possible_sums@.contains(x) {
                        if x == both {
                            assert(pair_gives(found@, x as int, i as int, j as int, i as int, j + 1));
                        } else {
                            assert(before.contains(x));
                            let (p, q) = choose|p: int, q: int| #[trigger]
                                pair_gives(found@, x as int, p, q, i as int, j as int);
                            assert(pair_gives(found@, x as int, p, q, i as int, j + 1));
                        }
                    }
                    if exists|p: int, q: int| #[trigger]
                        pair_gives(found@, x as int, p, q, i as int, j + 1) {
                        let (p, q) = choose|p: int, q: int| #[trigger]
                            pair_gives(found@, x as int, p, q, i as int, j + 1);
                        if p == i && q == j {
                        } else {
                            assert(pair_gives(found@, x as int, p, q, i as int, j as int));
                        }
                    }
                }
            }
            j = j + 1;
        }
        proof {
            assert forall|x: usize|
                possible_sums@.contains(x) <==> exists|p: int, q: int| #[trigger]
                    pair_gives(found@, x as int, p, q, i + 1, 0) by {
                if possible_sums@.contains(x) {
                    let (p, q) = choose|p: int, q: int| #[trigger]
                        pair_gives(found@, x as int, p, q, i as int, found.len() as int);
                    assert(pair_gives(found@, x as int, p, q, i + 1, 0));
                }
                if exists|p: int, q: int| #[trigger] pair_gives(found@, x as int, p, q, i + 1, 0) {
                    let (p, q) = choose|p: int, q: int| #[trigger]
                        pair_gives(found@, x as int, p, q, i + 1, 0);
                    assert(pair_gives(found@, x as int, p, q, i as int, found.len() as int));
                }
            }
        }
        i = i + 1;
    }
    proof {
        assert forall|x: usize| possible_sums@.contains(x) <==> is_abundant_sum(
            x as int,
            LIMIT as int,
        ) by {
            if possible_sums@.contains(x) {
                let (p, q) = choose|p: int, q: int| #[trigger]
                    pair_gives(found@, x as int, p, q, found.len() as int, 0);
                assert(is_sum_of(x as int, found[p] as int, found[q] as int, LIMIT as int));
            }
            if is_abundant_sum(x as int, LIMIT as int) {
                let (a, b) = choose|a: int, b: int| #[trigger]
                    is_sum_of(x as int, a, b, LIMIT as int);
                assert(found@.contains(a as usize));
                assert(found@.contains(b as usize));
                let p = choose|p: int| 0 <= p < found.len() && found[p] == a as usize;
                let q = choose|q: int| 0 <= q < found.len() && found[q] == b as usize;
                assert(pair_gives(found@, x as int, p, q, found.len() as int, 0));
            }
        }
    }
    let mut sum: usize = 0;
    let mut x: usize = 0;
    while x < LIMIT
        invariant
            x <= LIMIT,
            sum == non_summable_total(x as int, LIMIT as int),
            sum <= x * LIMIT,
            forall|y: usize|
                possible_sums@.contains(y) <==> is_abundant_sum(y as int, LIMIT as int),
        decreases LIMIT - x,
    {
        x = x + 1;
        assert(x * LIMIT <= LIMIT * LIMIT && (x - 1) * LIMIT + LIMIT == x * LIMIT) by (nonlinear_arith)
            requires
                x <= LIMIT,
        ;
        if !possible_sums.contains(&x) {
            sum = sum + x;
        }
    }
    sum
}

} // verus!
