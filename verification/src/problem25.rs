//! The position of the first Fibonacci number of a given size.

use crate::bigint::{big_from_u64, big_lt, big_pow, big_value};
use crate::fibonacci::{fibonacci, generate, lemma_big_terms_are_fibonacci, term};
use num::BigUint;
use vstd::arithmetic::power::pow;
use vstd::prelude::*;

verus! {

/// Term `k >= 1` is the first that is at least `min`.
pub open spec fn is_first_at_least(k: nat, min: nat) -> bool {
    &&& k >= 1
    &&& fibonacci(k) >= min
    &&& forall|j: nat| 1 <= j < k ==> #[trigger] fibonacci(j) < min
}

/// Some term that a `usize` can count to is at least `min`.
pub open spec fn is_reachable(min: nat) -> bool {
    exists|k: nat| k < usize::MAX && #[trigger] fibonacci(k) >= min
}

/// The position, in the numbering 1, 1, 2, 3, 5, ... that starts at 1, of
/// the first Fibonacci number that is at least `min_value`; never less
/// than 2, as the search starts at the second 1.
pub fn index_for_fib_of_at_least(min_value: BigUint) -> (index: usize)
    requires
        is_reachable(big_value(min_value)),
    ensures
        index >= 2,
        is_first_at_least((index - 1) as nat, big_value(min_value)),
{
    let ghost min = big_value(min_value);
    let ghost found = choose|k: nat| k < usize::MAX && #[trigger] fibonacci(k) >= min;
    let ghost top = if found == 0 {
        1nat
    } else {
        found
    };
    let mut fibs = generate::<BigUint>();
    let mut idx: usize = 1;
    loop
        invariant_except_break
            forall|j: nat| 1 <= j <= fibs.produced() ==> #[trigger] fibonacci(j) < min,
        invariant
            min == big_value(min_value),
            fibs.wf(),
            idx == fibs.produced() + 1,
            fibs.produced() <= top < usize::MAX,
            top >= 1,
            fibonacci(top) >= min,
        ensures
            idx >= 2,
            is_first_at_least((idx - 1) as nat, min),
        decreases top - fibs.produced(),
    {
        proof {
            if fibs.produced() == top {
                assert(fibonacci(top) < min);
            }
            lemma_big_terms_are_fibonacci(fibs.produced() + 1);
        }
        match fibs.next() {
            Some(n) => {
                idx = idx + 1;
                if !big_lt(&n, &min_value) {
                    break ;
                }
            },
            None => {},
        }
    }
    idx
}

/// The position of the first Fibonacci number with at least `n_digits`
/// decimal digits.
pub fn solve(n_digits: usize) -> (index: usize)
    requires
        n_digits >= 1,
        is_reachable(pow(10, (n_digits - 1) as nat) as nat),
    ensures
        index >= 2,
        is_first_at_least((index - 1) as nat, pow(10, (n_digits - 1) as nat) as nat),
{
    let min_val = big_pow(big_from_u64(10), n_digits - 1);
    index_for_fib_of_at_least(min_val)
}

} // verus!
