//! The number of distinct powers with base and exponent from given ranges.

use crate::bigint::{big_eq, big_from_u64, big_pow, big_value};
use crate::ranges::{bounds, is_empty_range};
use itertools::Itertools;
use num::BigUint;
use std::ops::RangeInclusive;
use vstd::arithmetic::div_mod::{lemma_fundamental_div_mod, lemma_mod_bound};
use vstd::arithmetic::power::pow;
use vstd::prelude::*;

verus! {

/// `n` is a member of `r`.
pub open spec fn in_range(n: int, r: RangeInclusive<u64>) -> bool {
    !is_empty_range(r) && r@.start <= n <= r@.end
}

/// `v` is a base from `bases` raised to an exponent from `pows`.
pub open spec fn is_power(v: int, bases: RangeInclusive<u64>, pows: RangeInclusive<u64>) -> bool {
    exists|a: int, b: int| in_range(a, bases) && in_range(b, pows) && v == #[trigger] pow(a, b as nat)
}

/// The powers of the bases from `bases` with the exponents from `pows`.
pub open spec fn powers(bases: RangeInclusive<u64>, pows: RangeInclusive<u64>) -> Set<int> {
    Set::new(|v: int| is_power(v, bases, pows))
}

/// The numbers that the elements of `v` hold.
pub open spec fn values(v: Seq<BigUint>) -> Seq<int> {
    Seq::new(v.len(), |i: int| big_value(v[i]) as int)
}

/// The members of `r` in increasing order.
fn members(r: &RangeInclusive<u64>) -> (out: Vec<u64>)
    ensures
        is_empty_range(*r) ==> out.len() == 0,
        !is_empty_range(*r) ==> out.len() == r@.end - r@.start + 1,
        forall|i: int| 0 <= i < out.len() ==> #[trigger] out[i] == r@.start + i,
{
    let mut out: Vec<u64> = Vec::new();
    match bounds(r) {
        None => {},
        Some((lo, hi)) => {
            let mut n: u64 = lo;
            loop
                invariant_except_break
                    out.len() == n - lo,
                invariant
                    lo <= n <= hi,
                    forall|i: int| 0 <= i < out.len() ==> #[trigger] out[i] == lo + i,
                ensures
                    out.len() == hi - lo + 1,
                decreases hi - n,
            {
                out.push(n);
                if n == hi {
                    break ;
                }
                n = n + 1;
            }
        },
    }
    out
}

/// `Itertools::cartesian_product` of two lists, collected: every item of
/// `a` paired with every item of `b`, the pairs of the first item of `a`
/// first, and among the pairs of one item of `a` in the order of `b`.
#[verifier::external_body]
fn cartesian_product(a: &Vec<u64>, b: &Vec<u64>) -> (pairs: Vec<(u64, u64)>)
    ensures
        pairs.len() == a.len() * b.len(),
        forall|i: int, j: int|
            0 <= i < a.len() && 0 <= j < b.len() ==> #[trigger] pairs[i * b.len() + j] == (
                a[i],
                b[j],
            ),
{
    a.iter().copied().cartesian_product(b.iter().copied()).collect()
}

/// The distinct powers of the bases from `bases` with the exponents from
/// `pows`, each once, in the order in which they first come up.
///
/// Exponents have to fit in `usize`.
pub fn digits(bases: RangeInclusive<u64>, pows: RangeInclusive<u64>) -> (found: Vec<BigUint>)
    requires
        is_empty_range(pows) || pows@.end <= usize::MAX,
    ensures
        values(found@).no_duplicates(),
        values(found@).to_set() == powers(bases, pows),
{
    distinct_powers(&bases, &pows)
}

/// The distinct powers of the bases from `bases` with the exponents from
/// `pows`, each once, in the order in which they first come up.
fn distinct_powers(bases: &RangeInclusive<u64>, pows: &RangeInclusive<u64>) -> (found: Vec<BigUint>)
    requires
        is_empty_range(*pows) || pows@.end <= usize::MAX,
    ensures
        values(found@).no_duplicates(),
        values(found@).to_set() == powers(*bases, *pows),
{
    let base_list = members(bases);
    let pow_list = members(pows);
    let pairs = cartesian_product(&base_list, &pow_list);
    let mut found: Vec<BigUint> = Vec::new();
    let mut p: usize = 0;
    let ghost width = pow_list.len() as int;
    while p < pairs.len()
        invariant
            p <= pairs.len(),
            width == pow_list.len(),
            pairs.len() == base_list.len() * width,
            is_empty_range(*pows) || pows@.end <= usize::MAX,
            is_empty_range(*bases) ==> base_list.len() == 0,
            !is_empty_range(*bases) ==> base_list.len() == bases@.end - bases@.start + 1,
            forall|i: int| 0 <= i < base_list.len() ==> #[trigger] base_list[i] == bases@.start + i,
            is_empty_range(*pows) ==> pow_list.len() == 0,
            !is_empty_range(*pows) ==> pow_list.len() == pows@.end - pows@.start + 1,
            forall|i: int| 0 <= i < pow_list.len() ==> #[trigger] pow_list[i] == pows@.start + i,
            forall|i: int, j: int|
                0 <= i < base_list.len() && 0 <= j < width ==> #[trigger] pairs[i * width + j] == (
                    base_list[i],
                    pow_list[j],
                ),
            values(found@).no_duplicates(),
            forall|v: int|
                values(found@).contains(v) <==> exists|q: int|
                    0 <= q < p && v == #[trigger] pow(pairs[q].0 as int, pairs[q].1 as nat),
        decreases pairs.len() - p,
    {
        let (a, b) = pairs[p];
        proof {
            // position `p` holds the pair of row `p / width` and column `p % width`
            assert(width > 0) by (nonlinear_arith)
                requires
                    p < base_list.len() * width,
                    width >= 0,
            ;
            lemma_fundamental_div_mod(p as int, width);
            lemma_mod_bound(p as int, width);
            let i = p as int / width;
            let j = p as int % width;
            assert(0 <= i < base_list.len()) by (nonlinear_arith)
                requires
                    p == width * i + j,
                    0 <= j < width,
                    0 <= p < base_list.len() * width,
            ;
            assert(i * width + j == p) by (nonlinear_arith)
                requires
                    p == width * i + j,
            ;
            assert(pairs[i * width + j] == (base_list[i], pow_list[j]));
            assert(b <= usize::MAX);
        }
        let value = big_pow(big_from_u64(a), b as usize);
        let ghost v = big_value(value) as int;
        let mut known: bool = false;
        let mut k: usize = 0;
        while k < found.len() && !known
            invariant
                k <= found.len(),
                v == big_value(value),
                known ==> values(found@).contains(v),
                !known ==> forall|m: int| 0 <= m < k ==> #[trigger] values(found@)[m] != v,
            decreases found.len() - k, if known { 0int } else { 1int },
        {
            if big_eq(&found[k], &value) {
                assert(values(found@)[k as int] == v);
                known = true;
            } else {
                k = k + 1;
            }
        }
        let ghost before = values(found@);
        if !known {
            found.push(value);
            assert(values(found@) =~= before.push(v));
        }
        proof {
            assert forall|w: int|
                values(found@).contains(w) <==> exists|q: int|
                    0 <= q < p + 1 && w == #[trigger] pow(pairs[q].0 as int, pairs[q].1 as nat) by {
                crate::seqs::lemma_push_contains(before, v, w);
                if w == v {
                    assert(w == pow(pairs[p as int].0 as int, pairs[p as int].1 as nat));
                }
                if before.contains(w) {
                    let q = choose|q: int|
                        0 <= q < p && w == #[trigger] pow(pairs[q].0 as int, pairs[q].1 as nat);
                    assert(0 <= q < p + 1);
                }
                if exists|q: int|
                    0 <= q < p + 1 && w == #[trigger] pow(pairs[q].0 as int, pairs[q].1 as nat) {
                    let q = choose|q: int|
                        0 <= q < p + 1 && w == #[trigger] pow(pairs[q].0 as int, pairs[q].1 as nat);
                    if q < p {
                        assert(before.contains(w));
                    }
                }
            }
        }
        p = p + 1;
    }
    proof {
        assert forall|v: int| values(found@).to_set().contains(v) <==> powers(*bases, *pows).contains(
            v,
        ) by {
            if values(found@).contains(v) {
                let q = choose|q: int|
                    0 <= q < pairs.len() && v == #[trigger] pow(
                        pairs[q].0 as int,
                        pairs[q].1 as nat,
                    );
                assert(width > 0) by (nonlinear_arith)
                    requires
                        q < base_list.len() * width,
                        0 <= q,
                        width >= 0,
                ;
                lemma_fundamental_div_mod(q, width);
                lemma_mod_bound(q, width);
                let i = q / width;
                let j = q % width;
                assert(0 <= i < base_list.len()) by (nonlinear_arith)
                    requires
                        q == width * i + j,
                        0 <= j < width,
                        0 <= q < base_list.len() * width,
                ;
                assert(i * width + j == q) by (nonlinear_arith)
                    requires
                        q == width * i + j,
                ;
                assert(pairs[i * width + j] == (base_list[i], pow_list[j]));
                assert(in_range(base_list[i] as int, *bases));
                assert(in_range(pow_list[j] as int, *pows));
                let a = base_list[i] as int;
                let b = pow_list[j] as int;
                assert(pairs[q] == (base_list[i], pow_list[j]));
                assert(in_range(a, *bases) && in_range(b, *pows) && v == pow(a, b as nat));
                assert(is_power(v, *bases, *pows));
            }
            if is_power(v, *bases, *pows) {
                let (a, b) = choose|a: int, b: int|
                    in_range(a, *bases) && in_range(b, *pows) && v == #[trigger] pow(a, b as nat);
                let i = a - bases@.start;
                let j = b - pows@.start;
                assert(0 <= i * width + j < base_list.len() * width) by (nonlinear_arith)
                    requires
                        0 <= i < base_list.len(),
                        0 <= j < width,
                ;
                let q = i * width + j;
                assert(pairs[i * width + j] == (base_list[i], pow_list[j]));
                assert(v == pow(pairs[q].0 as int, pairs[q].1 as nat));
                assert(values(found@).contains(v));
            }
        }
        assert(values(found@).to_set() =~= powers(*bases, *pows));
    }
    found
}

/// The number of distinct powers with base and exponent both from `r`.
pub fn solve(r: RangeInclusive<u64>) -> (count: usize)
    requires
        is_empty_range(r) || r@.end <= usize::MAX,
    ensures
        count == powers(r, r).len(),
{
    let found = distinct_powers(&r, &r);
    proof {
        values(found@).unique_seq_to_set();
    }
    found.len()
}

} // verus!
