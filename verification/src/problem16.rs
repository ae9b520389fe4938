//! Long multiplication on decimal digits, and the digit sum of a power.

use crate::seqs::{lemma_total_drop_first, lemma_total_push, lemma_total_take_grows, total};
use crate::utils::digit_sum;
use vstd::arithmetic::power::pow;
use vstd::prelude::*;

verus! {

/// Ten to the power `k`.
pub open spec fn pow10(k: nat) -> nat
    decreases k,
{
    if k == 0 {
        1
    } else {
        10 * pow10((k - 1) as nat)
    }
}

/// The number written by `s`, least significant entry first.
pub open spec fn little_endian_value(s: Seq<u64>) -> nat
    decreases s.len(),
{
    if s.len() == 0 {
        0
    } else {
        s[0] as nat + 10 * little_endian_value(s.drop_first())
    }
}

/// Every entry of `s` is a decimal digit.
pub open spec fn all_digits(s: Seq<u64>) -> bool {
    forall|i: int| 0 <= i < s.len() ==> #[trigger] s[i] <= 9
}

/// An entry appended at the top counts with the weight of its position.
pub proof fn lemma_value_push(s: Seq<u64>, d: u64)
    ensures
        little_endian_value(s.push(d)) == little_endian_value(s) + d * pow10(s.len()),
    decreases s.len(),
{
    if s.len() == 0 {
        assert(s.push(d).drop_first() =~= Seq::<u64>::empty());
        assert(little_endian_value(s.push(d).drop_first()) == 0);
        assert(d * pow10(0) == d) by (nonlinear_arith)
            requires
                pow10(0) == 1,
        ;
    } else {
        let rest = s.drop_first();
        lemma_value_push(rest, d);
        assert(s.push(d).drop_first() =~= rest.push(d));
        assert(10 * (little_endian_value(rest) + d * pow10(rest.len())) == 10 * little_endian_value(
            rest,
        ) + d * pow10(s.len())) by (nonlinear_arith)
            requires
                pow10(s.len()) == 10 * pow10(rest.len()),
        ;
    }
}

/// The entries of a digit sequence add up to the digit sum of its value.
pub proof fn lemma_digits_total(s: Seq<u64>)
    requires
        all_digits(s),
    ensures
        total(s) == digit_sum(little_endian_value(s)),
    decreases s.len(),
{
    if s.len() > 0 {
        let rest = s.drop_first();
        assert(all_digits(rest)) by {
            assert forall|i: int| 0 <= i < rest.len() implies #[trigger] rest[i] <= 9 by {
                assert(rest[i] == s[i + 1]);
            }
        }
        lemma_digits_total(rest);
        lemma_total_drop_first(s);
        let v = little_endian_value(s);
        let w = little_endian_value(rest);
        assert(s[0] <= 9);
        assert(v % 10 == s[0] as nat && v / 10 == w) by {
            vstd::arithmetic::div_mod::lemma_fundamental_div_mod_converse(
                v as int,
                10,
                w as int,
                s[0] as int,
            );
        }
        if v == 0 {
            assert(w == 0 && s[0] == 0);
            assert(digit_sum(w) == 0);
        }
    }
}

/// The carry that long multiplication by `factor` brings into position `i`
/// of `digits`.
pub open spec fn carry_into(digits: Seq<u64>, factor: int, i: int) -> int
    decreases i,
{
    if i <= 0 {
        0
    } else {
        (factor * digits[i - 1] + carry_into(digits, factor, i - 1)) / 10
    }
}

/// What long multiplication by `factor` has at position `i` of `digits`
/// before it splits off the carry.
pub open spec fn value_at(digits: Seq<u64>, factor: int, i: int) -> int {
    factor * digits[i] + carry_into(digits, factor, i)
}

/// Nothing that comes up in the multiplication of `digits` by `factor`
/// exceeds 64 bits.
pub open spec fn product_fits(digits: Seq<u64>, factor: int) -> bool {
    forall|i: int| 0 <= i < digits.len() ==> #[trigger] value_at(digits, factor, i) <= u64::MAX
}

/// With decimal digits the carries stay below the factor.
pub proof fn lemma_carries_of_digits(digits: Seq<u64>, factor: int, i: int)
    requires
        all_digits(digits),
        0 <= factor,
        0 <= i <= digits.len(),
    ensures
        0 <= carry_into(digits, factor, i),
        carry_into(digits, factor, i) < factor || carry_into(digits, factor, i) == 0,
        i < digits.len() ==> 0 <= value_at(digits, factor, i) < 10 * factor || value_at(
            digits,
            factor,
            i,
        ) == 0,
    decreases i,
{
    if i > 0 {
        lemma_carries_of_digits(digits, factor, i - 1);
    }
    if i < digits.len() {
        assert(digits[i] <= 9);
        assert(0 <= factor * digits[i] <= 9 * factor) by (nonlinear_arith)
            requires
                0 <= digits[i] <= 9,
                0 <= factor,
        ;
    }
}

/// Multiplies the number written by `digits`, least significant first, by
/// `factor`. The result is written the same way: one digit per entry, but
/// for a final carry, which is appended whole.
///
/// No product of `factor` and an entry, with the carry added, may exceed
/// 64 bits. For decimal digits this holds whenever ten times `factor` fits.
pub fn mul(digits: &[u64], factor: u64) -> (product: Vec<u64>)
    requires
        product_fits(digits@, factor as int),
    ensures
        little_endian_value(product@) == factor * little_endian_value(digits@),
        product.len() == digits.len() + if carry_into(
            digits@,
            factor as int,
            digits.len() as int,
        ) > 0 {
            1int
        } else {
            0int
        },
        forall|i: int|
            0 <= i < digits.len() ==> #[trigger] product[i] == value_at(digits@, factor as int, i)
                % 10,
        product.len() > digits.len() ==> product[digits.len() as int] == carry_into(
            digits@,
            factor as int,
            digits.len() as int,
        ),
{
    let mut next_digits: Vec<u64> = Vec::new();
    let mut carry: u64 = 0;
    let mut i: usize = 0;
    proof {
        assert(digits@.take(0) =~= Seq::<u64>::empty());
        assert(carry * pow10(0) == 0) by (nonlinear_arith)
            requires
                carry == 0,
        ;
        assert(factor * little_endian_value(digits@.take(0)) == 0) by (nonlinear_arith)
            requires
                little_endian_value(digits@.take(0)) == 0,
        ;
    }
    while i < digits.len()
        invariant
            product_fits(digits@, factor as int),
            i <= digits.len(),
            next_digits.len() == i,
            carry == carry_into(digits@, factor as int, i as int),
            forall|j: int|
                0 <= j < i ==> #[trigger] next_digits[j] == value_at(digits@, factor as int, j) % 10,
            little_endian_value(next_digits@) + carry * pow10(i as nat) == factor
                * little_endian_value(digits@.take(i as int)),
        decreases digits.len() - i,
    {
        let d = digits[i];
        assert(value_at(digits@, factor as int, i as int) <= u64::MAX);
        assert(0 <= factor * d) by (nonlinear_arith)
            requires
                0 <= factor,
                0 <= d,
        ;
        let value = factor * d + carry;
        proof {
            let low = little_endian_value(next_digits@);
            let seen = little_endian_value(digits@.take(i as int));
            let weight = pow10(i as nat);
            lemma_value_push(next_digits@, (value % 10) as u64);
            assert(digits@.take(i + 1) =~= digits@.take(i as int).push(d));
            lemma_value_push(digits@.take(i as int), d);
            assert(pow10((i + 1) as nat) == 10 * weight);
            assert(low + (value % 10) * weight + (value / 10) * (10 * weight) == factor * (seen + d
                * weight)) by (nonlinear_arith)
                requires
                    low + carry * weight == factor * seen,
                    value == factor * d + carry,
                    value == 10 * (value / 10) + value % 10,
            ;
        }
        carry = value / 10;
        next_digits.push(value % 10);
        i = i + 1;
    }
    assert(digits@.take(digits.len() as int) =~= digits@);
    if carry > 0 {
        proof {
            lemma_value_push(next_digits@, carry);
        }
        next_digits.push(carry);
    } else {
        assert(carry * pow10(i as nat) == 0) by (nonlinear_arith)
            requires
                carry == 0,
        ;
    }
    next_digits
}

/// The entries that long multiplication of `digits` by `factor` gives: a
/// digit for each entry of `digits`, and the final carry if there is one.
pub open spec fn product_entries(digits: Seq<u64>, factor: int) -> Seq<u64> {
    let low = Seq::new(digits.len(), |i: int| (value_at(digits, factor, i) % 10) as u64);
    let carry = carry_into(digits, factor, digits.len() as int);
    if carry > 0 {
        low.push(carry as u64)
    } else {
        low
    }
}

/// The entries of `factor` to the power `power`, reached from 1 by
/// `power` long multiplications.
pub open spec fn power_entries(factor: int, power: nat) -> Seq<u64>
    decreases power,
{
    if power == 0 {
        seq![1u64]
    } else {
        product_entries(power_entries(factor, (power - 1) as nat), factor)
    }
}

/// Long multiplication multiplies: the entries of the product write
/// `factor` times the number that `digits` writes, with the carry into
/// position `i` weighted like that position.
pub proof fn lemma_product_value(digits: Seq<u64>, factor: int, i: int)
    requires
        0 <= factor,
        0 <= i <= digits.len(),
        product_fits(digits, factor),
    ensures
        0 <= carry_into(digits, factor, i) <= u64::MAX,
        little_endian_value(Seq::new(i as nat, |j: int| (value_at(digits, factor, j) % 10) as u64))
            + carry_into(digits, factor, i) * pow10(i as nat) == factor * little_endian_value(
            digits.take(i),
        ),
        i == digits.len() ==> little_endian_value(product_entries(digits, factor)) == factor
            * little_endian_value(digits),
    decreases i,
{
    let low = Seq::new(i as nat, |j: int| (value_at(digits, factor, j) % 10) as u64);
    if i == 0 {
        assert(digits.take(0) =~= Seq::<u64>::empty());
        assert(low =~= Seq::<u64>::empty());
        assert(factor * little_endian_value(digits.take(0)) == 0) by (nonlinear_arith)
            requires
                little_endian_value(digits.take(0)) == 0,
        ;
    } else {
        lemma_product_value(digits, factor, i - 1);
        let before = Seq::new((i - 1) as nat, |j: int| (value_at(digits, factor, j) % 10) as u64);
        let d = digits[i - 1];
        let carry = carry_into(digits, factor, i - 1);
        let value = value_at(digits, factor, i - 1);
        let weight = pow10((i - 1) as nat);
        assert(0 <= factor * d) by (nonlinear_arith)
            requires
                0 <= factor,
                0 <= d,
        ;
        assert(low =~= before.push((value % 10) as u64));
        lemma_value_push(before, (value % 10) as u64);
        assert(digits.take(i) =~= digits.take(i - 1).push(d));
        lemma_value_push(digits.take(i - 1), d);
        assert(pow10(i as nat) == 10 * weight);
        assert(little_endian_value(before) + (value % 10) * weight + (value / 10) * (10 * weight)
            == factor * (little_endian_value(digits.take(i - 1)) + d * weight)) by (nonlinear_arith)
            requires
                little_endian_value(before) + carry * weight == factor * little_endian_value(
                    digits.take(i - 1),
                ),
                value == factor * d + carry,
                value == 10 * (value / 10) + value % 10,
        ;
    }
    if i == digits.len() {
        assert(digits.take(i) =~= digits);
        let carry = carry_into(digits, factor, i);
        if carry > 0 {
            lemma_value_push(low, carry as u64);
        } else {
            assert(carry * pow10(i as nat) == 0) by (nonlinear_arith)
                requires
                    carry == 0,
            ;
        }
    }
}

/// With a factor of at most 10 the entries stay decimal digits: they are
/// the digits of the power, at most one more than the multiplications
/// done, and nothing on the way exceeds 64 bits.
pub proof fn lemma_small_factor(factor: int, power: nat)
    requires
        0 <= factor <= 10,
    ensures
        all_digits(power_entries(factor, power)),
        product_fits(power_entries(factor, power), factor),
        little_endian_value(power_entries(factor, power)) == pow(factor, power),
        1 <= power_entries(factor, power).len() <= power + 1,
        total(power_entries(factor, power)) == digit_sum(pow(factor, power) as nat),
        total(power_entries(factor, power)) <= 9 * (power + 1),
    decreases power,
{
    let entries = power_entries(factor, power);
    reveal(pow);
    if power == 0 {
        reveal_with_fuel(little_endian_value, 2);
        assert(entries.drop_first() =~= Seq::<u64>::empty());
    } else {
        let before = power_entries(factor, (power - 1) as nat);
        lemma_small_factor(factor, (power - 1) as nat);
        lemma_product_value(before, factor, before.len() as int);
        lemma_carries_of_digits(before, factor, before.len() as int);
    }
    assert forall|i: int| 0 <= i < entries.len() implies #[trigger] value_at(entries, factor, i)
        <= u64::MAX by {
        lemma_carries_of_digits(entries, factor, i);
    }
    lemma_digits_total(entries);
    lemma_total_of_digits(entries);
}

/// Decimal digits add up to at most nine times their number.
pub proof fn lemma_total_of_digits(s: Seq<u64>)
    requires
        all_digits(s),
    ensures
        total(s) <= 9 * s.len(),
    decreases s.len(),
{
    if s.len() > 0 {
        assert(all_digits(s.drop_last())) by {
            assert forall|i: int| 0 <= i < s.drop_last().len() implies #[trigger] s.drop_last()[i]
                <= 9 by {
                assert(s.drop_last()[i] == s[i]);
            }
        }
        lemma_total_of_digits(s.drop_last());
        assert(s[s.len() - 1] <= 9);
    }
}

/// The sum of the entries that `power` long multiplications by `factor`
/// lead to from 1. For a `factor` of at most 10 these are decimal digits,
/// and their sum is the digit sum of `factor` to the power `power`.
///
/// Nothing on the way may exceed 64 bits, nor may the sum;
/// `lemma_small_factor` shows when that is so.
pub fn solve(factor: u64, power: u64) -> (sum: u64)
    requires
        forall|t: nat|
            t < power ==> product_fits(#[trigger] power_entries(factor as int, t), factor as int),
        total(power_entries(factor as int, power as nat)) <= u64::MAX,
    ensures
        sum == total(power_entries(factor as int, power as nat)),
        factor <= 10 ==> sum == digit_sum(pow(factor as int, power as nat) as nat),
{
    let mut digits: Vec<u64> = Vec::new();
    digits.push(1);
    let mut step: u64 = 0;
    assert(digits@ =~= power_entries(factor as int, 0));
    while step < power
        invariant
            step <= power,
            forall|t: nat|
                t < power ==> product_fits(
                    #[trigger] power_entries(factor as int, t),
                    factor as int,
                ),
            digits@ == power_entries(factor as int, step as nat),
        decreases power - step,
    {
        assert(product_fits(power_entries(factor as int, step as nat), factor as int));
        let next = self::mul(digits.as_slice(), factor);
        assert(next@ =~= product_entries(digits@, factor as int));
        digits = next;
        step = step + 1;
    }
    let mut sum: u64 = 0;
    let mut i: usize = 0;
    assert(digits@.take(0) =~= Seq::<u64>::empty());
    while i < digits.len()
        invariant
            i <= digits.len(),
            total(digits@) <= u64::MAX,
            sum == total(digits@.take(i as int)),
        decreases digits.len() - i,
    {
        proof {
            assert(digits@.take(i + 1) =~= digits@.take(i as int).push(digits[i as int]));
            lemma_total_push(digits@.take(i as int), digits[i as int]);
            lemma_total_take_grows(digits@, i + 1);
        }
        sum = sum + digits[i];
        i = i + 1;
    }
    proof {
        assert(digits@.take(digits.len() as int) =~= digits@);
        if factor <= 10 {
            lemma_small_factor(factor as int, power as nat);
        }
    }
    sum
}

} // verus!
