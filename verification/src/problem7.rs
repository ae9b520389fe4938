//! The prime at a given position.

use crate::number_theory::{is_prime_number, primes_between};
use crate::primes::generate;
use vstd::prelude::*;

verus! {

/// The `n`-th prime, counting from 1: `solve(1)` is 2.
///
/// There is no prime before the first, and the one asked for has to fit in
/// 64 bits.
pub fn solve(n: usize) -> (p: u64)
    requires
        n >= 1,
        primes_between(1, u64::MAX as int) >= n,
    ensures
        is_prime_number(p as int),
        primes_between(1, p as int) == n,
{
    let mut primes = generate();
    primes.nth(n - 1).unwrap()
}

} // verus!
