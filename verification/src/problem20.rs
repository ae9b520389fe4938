//! The digit sum of a factorial, on arbitrary-precision numbers.

use crate::bigint::{big_div_rem, big_from_u64, big_lt, big_mul, big_to_u64, big_value};
use crate::seqs::{lemma_total_push, lemma_total_take_grows, total};
use crate::sequence::LazySequence;
use crate::utils::{digit_sum, lemma_low_digits_total, low_digits};
use num::BigUint;
use vstd::prelude::*;

verus! {

/// The product of the numbers from 1 to `n`.
pub open spec fn factorial(n: nat) -> nat
    decreases n,
{
    if n == 0 {
        1
    } else {
        n * factorial((n - 1) as nat)
    }
}

/// A cursor over the decimal digits of an arbitrary-precision number, least
/// significant first.
pub struct Digitizer {
    n: Option<BigUint>,
}

impl Digitizer {
    /// The magnitude whose digits are still to come.
    pub closed spec fn remaining(&self) -> nat {
        match self.n {
            Some(n) => big_value(n),
            None => 0,
        }
    }

    /// A held magnitude is never zero: zero is held as nothing.
    pub closed spec fn wf(&self) -> bool {
        self.n matches Some(n) ==> big_value(n) > 0
    }

    /// A cursor over the digits of `x`. Zero has no digits.
    pub fn new(x: BigUint) -> (it: Digitizer)
        ensures
            it.wf(),
            it.remaining() == big_value(x),
    {
        let zero = big_from_u64(0);
        if big_lt(&zero, &x) {
            Digitizer { n: Some(x) }
        } else {
            Digitizer { n: None }
        }
    }

    /// Strips and returns the least significant remaining digit; `None` once
    /// the remaining magnitude is zero.
    pub fn next(&mut self) -> (digit: Option<u64>)
        requires
            old(self).wf(),
        ensures
            final(self).wf(),
            old(self).remaining() == 0 ==> digit.is_none() && final(self).remaining() == 0,
            old(self).remaining() > 0 ==> digit == Some((old(self).remaining() % 10) as u64)
                && final(self).remaining() == old(self).remaining() / 10,
    {
        let ten = big_from_u64(10);
        let zero = big_from_u64(0);
        let mut current: Option<u64> = None;
        let mut next: Option<BigUint> = None;
        match &self.n {
            Some(n) => {
                let (quotient, remainder) = big_div_rem(n, &ten);
                next = Some(quotient);
                current = big_to_u64(&remainder);
            },
            None => {},
        }
        match next {
            Some(n) => {
                if big_lt(&zero, &n) {
                    self.n = Some(n);
                } else {
                    self.n = None;
                }
            },
            None => {},
        }
        current
    }
}

impl LazySequence for Digitizer {
    type Item = u64;

    open spec fn ready(&self) -> bool {
        self.wf()
    }

    open spec fn pulls(&self, after: &Self, item: Option<u64>) -> bool {
        if self.remaining() == 0 {
            item.is_none() && after.remaining() == 0
        } else {
            item == Some((self.remaining() % 10) as u64) && after.remaining() == self.remaining()
                / 10
        }
    }

    fn advance(&mut self) -> (item: Option<u64>) {
        self.next()
    }
}

/// The decimal digits of `x`, least significant first.
pub fn digits_in(x: BigUint) -> (digits: Vec<u64>)
    ensures
        digits@ == low_digits(big_value(x)),
{
    let ghost value = big_value(x);
    let mut it = Digitizer::new(x);
    let mut digits: Vec<u64> = Vec::new();
    let mut more: bool = true;
    while more
        invariant
            it.wf(),
            low_digits(value) == digits@ + low_digits(it.remaining()),
            !more ==> it.remaining() == 0,
        decreases it.remaining(), if more { 1int } else { 0int },
    {
        let ghost before = it.remaining();
        let ghost shorter = digits@;
        match it.next() {
            Some(d) => {
                digits.push(d);
                assert(shorter + low_digits(before) =~= digits@ + low_digits(before / 10));
            },
            None => {
                more = false;
            },
        }
    }
    assert(digits@ =~= digits@ + low_digits(0));
    digits
}

/// The factorial of `x`.
pub fn big_factorial(x: u64) -> (product: BigUint)
    ensures
        big_value(product) == factorial(x as nat),
{
    let mut acc = big_from_u64(1);
    let mut n: u64 = 1;
    proof {
        reveal_with_fuel(factorial, 2);
    }
    if x == 0 {
        return acc;
    }
    while n < x
        invariant
            1 <= n <= x,
            big_value(acc) == factorial(n as nat),
        decreases x - n,
    {
        n = n + 1;
        let factor = big_from_u64(n);
        acc = big_mul(&acc, &factor);
        assert(big_value(acc) == n * factorial((n - 1) as nat)) by (nonlinear_arith)
            requires
                big_value(acc) == factorial((n - 1) as nat) * n,
        ;
    }
    acc
}

/// The sum of the decimal digits of the factorial of `n`.
pub fn solve(n: u64) -> (sum: u64)
    requires
        digit_sum(factorial(n as nat)) <= u64::MAX,
    ensures
        sum == digit_sum(factorial(n as nat)),
{
    let digits = digits_in(big_factorial(n));
    proof {
        lemma_low_digits_total(factorial(n as nat));
    }
    let mut sum: u64 = 0;
    let mut i: usize = 0;
    while i < digits.len()
        invariant
            i <= digits.len(),
            total(digits@) <= u64::MAX,
            sum == total(digits@.take(i as int)),
        decreases digits.len() - i,
    {
        proof {
            assert(digits@.take(i + 1) =~= digits@.take(i as int).push(digits[i as int]));
            lemma_total_push(digits@.take(i as int), digits[i as int]);
            lemma_total_take_grows(digits@, i + 1);
        }
        sum = sum + digits[i];
        i = i + 1;
    }
    assert(digits@.take(digits.len() as int) =~= digits@);
    sum
}

} // verus!
