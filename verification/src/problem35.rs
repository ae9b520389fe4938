//! Circular primes: primes whose digit rotations are all prime.

use crate::number_theory::{
    consecutive_primes, is_prime_number, lemma_consecutive_primes_complete,
    lemma_consecutive_primes_element, lemma_consecutive_primes_increasing,
};
use crate::seqs::lemma_push_contains;
use crate::primes::generate;
use crate::utils::{digits_of, int_to_digits, number_from_digits};
use std::collections::HashSet;
use vstd::prelude::*;
use vstd::std_specs::hash::*;

verus! {

/// `s` with its last `k` elements moved to the front.
pub open spec fn rotate_right(s: Seq<u64>, k: int) -> Seq<u64> {
    s.subrange(s.len() - k, s.len() as int) + s.subrange(0, s.len() - k)
}

/// The number written by the digits of `n` rotated to the right `k` times.
pub open spec fn rotation_value(n: nat, k: int) -> nat {
    number_from_digits(rotate_right(digits_of(n), k))
}

/// How many rotations `n` has: one per digit, and one for zero.
pub open spec fn rotation_count(n: nat) -> nat {
    if digits_of(n).len() == 0 {
        1
    } else {
        digits_of(n).len()
    }
}

/// Every rotation of `n` fits in 64 bits.
pub open spec fn rotations_fit(n: nat) -> bool {
    forall|k: int| 0 <= k < rotation_count(n) ==> #[trigger] rotation_value(n, k) <= u64::MAX
}

/// Every rotation of `n` is among `known`.
pub open spec fn all_rotations_in(n: nat, known: Set<u64>) -> bool {
    forall|k: int|
        0 <= k < rotation_count(n) ==> known.contains(#[trigger] rotation_value(n, k) as u64)
}

/// Every rotation of `p` is a prime below `limit`.
pub open spec fn is_circular_below(p: nat, limit: nat) -> bool {
    forall|k: int|
        0 <= k < rotation_count(p) ==> is_prime_number(#[trigger] rotation_value(p, k) as int)
            && rotation_value(p, k) < limit
}

/// The primes below `limit` all of whose rotations are primes below `limit`.
pub open spec fn circular_primes(limit: nat) -> Set<u64> {
    Set::new(|p: u64| p < limit && is_prime_number(p as int) && is_circular_below(p as nat, limit))
}

/// The number written by a prefix does not exceed the number written by
/// the whole.
pub proof fn lemma_prefix_number(s: Seq<u64>, i: int)
    requires
        0 <= i <= s.len(),
    ensures
        number_from_digits(s.take(i)) <= number_from_digits(s),
    decreases s.len() - i,
{
    if i < s.len() {
        lemma_prefix_number(s, i + 1);
        assert(s.take(i + 1).drop_last() =~= s.take(i));
    } else {
        assert(s.take(i) =~= s);
    }
}

/// The number written by the digits `ds`, most significant first.
pub fn digits_to_int(ds: &Vec<u64>) -> (number: u64)
    requires
        number_from_digits(ds@) <= u64::MAX,
    ensures
        number == number_from_digits(ds@),
{
    let mut result: u64 = 0;
    let mut i: usize = 0;
    assert(ds@.take(0) =~= Seq::<u64>::empty());
    while i < ds.len()
        invariant
            i <= ds.len(),
            number_from_digits(ds@) <= u64::MAX,
            result == number_from_digits(ds@.take(i as int)),
        decreases ds.len() - i,
    {
        proof {
            lemma_prefix_number(ds@, i + 1);
            assert(ds@.take(i + 1).drop_last() =~= ds@.take(i as int));
        }
        result = result * 10;
        result = result + ds[i];
        i = i + 1;
    }
    assert(ds@.take(ds.len() as int) =~= ds@);
    result
}

/// The numbers written by the rotations of the digits of `n`: `n` itself
/// first, then one for each further turn of the last digit to the front.
pub fn rotations_of(n: u64) -> (results: Vec<u64>)
    requires
        rotations_fit(n as nat),
    ensures
        results.len() == rotation_count(n as nat),
        forall|k: int| 0 <= k < results.len() ==> #[trigger] results[k] == rotation_value(n as nat, k),
{
    let mut digits = int_to_digits(n);
    let ghost unturned = digits@;
    let len = digits.len();
    let mut results: Vec<u64> = Vec::new();
    proof {
        assert(rotate_right(unturned, 0) =~= unturned);
        assert(rotation_value(n as nat, 0) <= u64::MAX);
    }
    results.push(digits_to_int(&digits));
    let mut turn: usize = 1;
    while turn < len
        invariant
            1 <= turn,
            len == unturned.len(),
            unturned == digits_of(n as nat),
            rotations_fit(n as nat),
            turn <= len || turn == 1,
            digits@ == rotate_right(unturned, turn - 1),
            results.len() == turn,
            forall|k: int|
                0 <= k < results.len() ==> #[trigger] results[k] == rotation_value(n as nat, k),
        decreases len - turn,
    {
        let ghost before = digits@;
        let last = digits.pop().unwrap();
        digits.insert(0, last);
        proof {
            assert(digits@ =~= rotate_right(unturned, turn as int));
            assert(rotation_value(n as nat, turn as int) <= u64::MAX);
        }
        results.push(digits_to_int(&digits));
        turn = turn + 1;
    }
    assert(results.len() == rotation_count(n as nat));
    results
}

/// Whether every rotation of `prime` is among `known_primes`.
pub fn is_circular(prime: u64, known_primes: &HashSet<u64>) -> (circular: bool)
    requires
        rotations_fit(prime as nat),
    ensures
        circular == all_rotations_in(prime as nat, known_primes@),
{
    broadcast use group_hash_axioms;

    let rotations = rotations_of(prime);
    let mut k: usize = 0;
    while k < rotations.len()
        invariant
            k <= rotations.len(),
            rotations.len() == rotation_count(prime as nat),
            forall|m: int|
                0 <= m < rotations.len() ==> #[trigger] rotations[m] == rotation_value(
                    prime as nat,
                    m,
                ),
            forall|m: int|
                0 <= m < k ==> known_primes@.contains(
                    #[trigger] rotation_value(prime as nat, m) as u64,
                ),
        decreases rotations.len() - k,
    {
        if !known_primes.contains(&rotations[k]) {
            assert(!known_primes@.contains(rotation_value(prime as nat, k as int) as u64));
            return false;
        }
        k = k + 1;
    }
    true
}

/// The number of circular primes below `limit`.
///
/// The rotations of each prime below `limit` have to fit in 64 bits.
pub fn solve(limit: u64) -> (count: usize)
    requires
        forall|p: u64| p < limit && is_prime_number(p as int) ==> #[trigger] rotations_fit(p as nat),
    ensures
        count == circular_primes(limit as nat).len(),
{
    broadcast use group_hash_axioms;

    let mut source = generate();
    let primes = source.take_while_below(limit);
    proof {
        assert forall|x: u64| #[trigger]
            primes@.contains(x) <==> x < limit && is_prime_number(x as int) by {
            if primes@.contains(x) {
                let j = choose|j: int| 0 <= j < primes.len() && primes[j] == x;
                lemma_consecutive_primes_element(1, primes@, j);
            }
            if x < limit && is_prime_number(x as int) {
                if x <= crate::number_theory::last_or(1, primes@) {
                    lemma_consecutive_primes_complete(1, primes@, x as int);
                }
            }
        }
    }
    let mut ps: HashSet<u64> = HashSet::new();
    let mut i: usize = 0;
    while i < primes.len()
        invariant
            i <= primes.len(),
            forall|x: u64| ps@.contains(x) <==> primes@.take(i as int).contains(x),
        decreases primes.len() - i,
    {
        proof {
            assert(primes@.take(i + 1) =~= primes@.take(i as int).push(primes[i as int]));
            assert forall|x: u64| ps@.insert(primes[i as int]).contains(x) <==> primes@.take(
                i + 1,
            ).contains(x) by {
                lemma_push_contains(primes@.take(i as int), primes[i as int], x);
            }
        }
        ps.insert(primes[i]);
        i = i + 1;
    }
    assert(primes@.take(primes.len() as int) =~= primes@);
    let mut count: usize = 0;
    let ghost mut circular: Seq<u64> = Seq::empty();
    let mut j: usize = 0;
    assert(primes@.take(0) =~= Seq::<u64>::empty());
    while j < primes.len()
        invariant
            j <= primes.len(),
            consecutive_primes(1, primes@),
            forall|x: u64| #[trigger] primes@.contains(x) <==> x < limit && is_prime_number(x as int),
            forall|p: u64|
                p < limit && is_prime_number(p as int) ==> #[trigger] rotations_fit(p as nat),
            count == circular.len(),
            count <= j,
            forall|a: int, b: int| 0 <= a < b < circular.len() ==> circular[a] < circular[b],
            forall|q: u64|
                circular.contains(q) <==> primes@.take(j as int).contains(q) && all_rotations_in(
                    q as nat,
                    ps@,
                ),
        decreases primes.len() - j,
    {
        let p = primes[j];
        let ghost before = circular;
        proof {
            assert(primes@.contains(p));
            assert(p < limit && is_prime_number(p as int));
            assert(rotations_fit(p as nat));
            assert(primes@.take(j + 1) =~= primes@.take(j as int).push(p));
            assert forall|a: int| 0 <= a < circular.len() implies #[trigger] circular[a] < p by {
                assert(circular.contains(circular[a]));
                let m = choose|m: int|
                    0 <= m < primes@.take(j as int).len() && primes@.take(j as int)[m]
                        == circular[a];
                lemma_consecutive_primes_increasing(1, primes@, m, j as int);
            }
        }
        if is_circular(p, &ps) {
            count = count + 1;
            proof {
                circular = circular.push(p);
            }
        }
        proof {
            assert forall|q: u64|
                circular.contains(q) <==> primes@.take(j + 1).contains(q) && all_rotations_in(
                    q as nat,
                    ps@,
                ) by {
                lemma_push_contains(before, p, q);
                lemma_push_contains(primes@.take(j as int), p, q);
            }
        }
        j = j + 1;
    }
    proof {
        assert(primes@.take(primes.len() as int) =~= primes@);
        assert forall|q: u64| circular.to_set().contains(q) <==> circular_primes(
            limit as nat,
        ).contains(q) by {
            if primes@.contains(q) {
                assert(rotations_fit(q as nat));
                if all_rotations_in(q as nat, ps@) {
                    assert forall|k: int| 0 <= k < rotation_count(q as nat) implies is_prime_number(
                        #[trigger] rotation_value(q as nat, k) as int,
                    ) && rotation_value(q as nat, k) < limit by {
                        assert(ps@.contains(rotation_value(q as nat, k) as u64));
                        assert(primes@.contains(rotation_value(q as nat, k) as u64));
                    }
                }
                if is_circular_below(q as nat, limit as nat) {
                    assert forall|k: int| 0 <= k < rotation_count(q as nat) implies ps@.contains(
                        #[trigger] rotation_value(q as nat, k) as u64,
                    ) by {
                        assert(primes@.contains(rotation_value(q as nat, k) as u64));
                    }
                }
            }
        }
        assert(circular.to_set() =~= circular_primes(limit as nat));
        circular.unique_seq_to_set();
    }
    count
}

} // verus!
