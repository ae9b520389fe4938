//! Palindromic products of two factors from a range.

use crate::seqs::lemma_push_contains;
use crate::utils::{digits_of, int_to_digits, reversed};
use vstd::prelude::*;

verus! {

/// The decimal digits of `n` read the same in both directions.
pub open spec fn is_palindrome(n: nat) -> bool {
    digits_of(n) == reversed(digits_of(n))
}

/// `(a, b)` comes before `(c, d)` in dictionary order.
pub open spec fn pair_before(p: (u64, u64), q: (u64, u64)) -> bool {
    p.0 < q.0 || (p.0 == q.0 && p.1 < q.1)
}

/// The product of any two factors below `max` fits in 64 bits.
pub open spec fn products_fit(max: u64) -> bool {
    max == 0 || (max - 1) * (max - 1) <= u64::MAX
}

/// `a <= b` are factors from `min` up to, not including, `max` with a
/// palindromic product.
pub open spec fn is_palindrome_pair(p: (u64, u64), min: u64, max: u64) -> bool {
    min <= p.0 <= p.1 < max && is_palindrome((p.0 * p.1) as nat)
}

/// Whether the decimal digits of `n` read the same in both directions.
pub fn is_palimdrome_number(n: u64) -> (same: bool)
    ensures
        same == is_palindrome(n as nat),
{
    let digits = int_to_digits(n);
    let len = digits.len();
    let mut i: usize = 0;
    while i < len
        invariant
            len == digits.len(),
            digits@ == digits_of(n as nat),
            i <= len,
            forall|j: int| 0 <= j < i ==> #[trigger] digits[j] == digits[len - 1 - j],
        decreases len - i,
    {
        if digits[i] != digits[len - 1 - i] {
            proof {
                assert(reversed(digits@)[i as int] != digits@[i as int]);
            }
            return false;
        }
        i = i + 1;
    }
    assert(digits@ =~= reversed(digits@));
    true
}

/// All pairs `(a, b)` with `min <= a <= b < max` whose product is a
/// palindrome, in dictionary order.
pub fn palimdrome_factors(min: u64, max: u64) -> (out: Vec<(u64, u64)>)
    requires
        products_fit(max),
    ensures
        forall|i: int, j: int| 0 <= i < j < out.len() ==> pair_before(out[i], out[j]),
        forall|i: int| 0 <= i < out.len() ==> is_palindrome_pair(#[trigger] out[i], min, max),
        forall|p: (u64, u64)| is_palindrome_pair(p, min, max) ==> #[trigger] out@.contains(p),
{
    let mut out: Vec<(u64, u64)> = Vec::new();
    let mut a: u64 = min;
    while a < max
        invariant
            products_fit(max),
            min <= a,
            forall|i: int, j: int| 0 <= i < j < out.len() ==> pair_before(out[i], out[j]),
            forall|i: int|
                0 <= i < out.len() ==> is_palindrome_pair(#[trigger] out[i], min, max) && out[i].0
                    < a,
            forall|p: (u64, u64)|
                is_palindrome_pair(p, min, max) && p.0 < a ==> #[trigger] out@.contains(p),
        decreases max - a,
    {
        let mut b: u64 = a;
        while b < max
            invariant
                products_fit(max),
                min <= a <= b,
                a < max,
                forall|i: int, j: int| 0 <= i < j < out.len() ==> pair_before(out[i], out[j]),
                forall|i: int|
                    0 <= i < out.len() ==> is_palindrome_pair(#[trigger] out[i], min, max)
                        && pair_before(out[i], (a, b)),
                forall|p: (u64, u64)|
                    is_palindrome_pair(p, min, max) && pair_before(p, (a, b))
                        ==> #[trigger] out@.contains(p),
            decreases max - b,
        {
            assert(a * b <= (max - 1) * (max - 1)) by (nonlinear_arith)
                requires
                    a <= max - 1,
                    b <= max - 1,
            ;
            let result = a * b;
            if is_palimdrome_number(result) {
                proof {
                    assert forall|p: (u64, u64)|
                        is_palindrome_pair(p, min, max) && pair_before(
                            p,
                            (a, (b + 1) as u64),
                        ) implies #[trigger] out@.push((a, b)).contains(p) by {
                        lemma_push_contains(out@, (a, b), p);
                    }
                }
                out.push((a, b));
            }
            b = b + 1;
        }
        a = a + 1;
    }
    out
}

/// The largest palindrome that is a product of two factors from `min` up
/// to, not including, `max`. Such a product has to exist.
pub fn solve(min: u64, max: u64) -> (best: u64)
    requires
        products_fit(max),
        exists|p: (u64, u64)| is_palindrome_pair(p, min, max),
    ensures
        exists|p: (u64, u64)| is_palindrome_pair(p, min, max) && best == p.0 * p.1,
        forall|p: (u64, u64)| is_palindrome_pair(p, min, max) ==> p.0 * p.1 <= best,
{
    let factors = palimdrome_factors(min, max);
    proof {
        let p = choose|p: (u64, u64)| is_palindrome_pair(p, min, max);
        assert(factors@.contains(p));
    }
    assert(factors[0].0 * factors[0].1 <= (max - 1) * (max - 1)) by (nonlinear_arith)
        requires
            factors[0].0 <= max - 1,
            factors[0].1 <= max - 1,
    ;
    let mut best: u64 = factors[0].0 * factors[0].1;
    let ghost mut witness: (u64, u64) = factors[0];
    let mut i: usize = 1;
    while i < factors.len()
        invariant
            products_fit(max),
            1 <= i <= factors.len(),
            forall|k: int|
                0 <= k < factors.len() ==> is_palindrome_pair(#[trigger] factors[k], min, max),
            is_palindrome_pair(witness, min, max),
            best == witness.0 * witness.1,
            forall|k: int| 0 <= k < i ==> (#[trigger] factors[k]).0 * factors[k].1 <= best,
        decreases factors.len() - i,
    {
        let (a, b) = factors[i];
        assert(a * b <= (max - 1) * (max - 1)) by (nonlinear_arith)
            requires
                a <= max - 1,
                b <= max - 1,
        ;
        let product = a * b;
        if product > best {
            best = product;
            proof {
                witness = factors[i as int];
            }
        }
        i = i + 1;
    }
    proof {
        assert forall|p: (u64, u64)| is_palindrome_pair(p, min, max) implies p.0 * p.1 <= best by {
            assert(factors@.contains(p));
            let k = choose|k: int| 0 <= k < factors.len() && factors[k] == p;
            assert(factors[k].0 * factors[k].1 <= best);
        }
    }
    best
}

} // verus!
