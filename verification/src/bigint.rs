//! Arbitrary-precision naturals, provided by the `num` crate.
//!
//! Verus does not look inside a `BigUint`. Its contents are named by
//! `big_digits`, and each operation this library uses is reached through a
//! small function whose contract is taken on trust from `num`.

use num::BigUint;
use vstd::arithmetic::power::pow;
use vstd::prelude::*;

verus! {

/// `num::BigUint`, an unsigned integer of any size. Nothing is claimed of
/// what is inside: values are only carried through.
#[verifier::external_type_specification]
#[verifier::external_body]
pub struct ExBigUint(BigUint);

/// The base-2^32 digits that a `BigUint` holds, least significant first,
/// as `BigUint::to_u32_digits` lists them.
pub uninterp spec fn big_digits(n: BigUint) -> Seq<u32>;

/// The natural number written by base-2^32 digits, least significant first.
pub open spec fn magnitude(digits: Seq<u32>) -> nat
    decreases digits.len(),
{
    if digits.len() == 0 {
        0
    } else {
        digits[0] as nat + 0x1_0000_0000 * magnitude(digits.drop_first())
    }
}

/// The natural number that `n` holds.
pub open spec fn big_value(n: BigUint) -> nat {
    magnitude(big_digits(n))
}

/// `BigUint::from(u64)`: the result holds the number `x`.
#[verifier::external_body]
pub(crate) fn big_from_u64(x: u64) -> (n: BigUint)
    ensures
        magnitude(big_digits(n)) == x,
{
    BigUint::from(x)
}

/// `num::One::one` for `BigUint`: the result holds the number 1.
#[verifier::external_body]
pub(crate) fn big_one() -> (n: BigUint)
    ensures
        magnitude(big_digits(n)) == 1,
{
    <BigUint as num::One>::one()
}

/// `Clone::clone` for `BigUint`: the copy holds the same digits.
#[verifier::external_body]
pub(crate) fn big_clone(a: &BigUint) -> (n: BigUint)
    ensures
        big_digits(n) == big_digits(*a),
{
    a.clone()
}

/// `&BigUint + &BigUint`: the result holds the sum; it cannot overflow.
#[verifier::external_body]
pub(crate) fn big_add(a: &BigUint, b: &BigUint) -> (n: BigUint)
    ensures
        magnitude(big_digits(n)) == magnitude(big_digits(*a)) + magnitude(big_digits(*b)),
{
    a + b
}

/// `&BigUint * &BigUint`: the result holds the product; it cannot overflow.
#[verifier::external_body]
pub(crate) fn big_mul(a: &BigUint, b: &BigUint) -> (n: BigUint)
    ensures
        magnitude(big_digits(n)) == magnitude(big_digits(*a)) * magnitude(big_digits(*b)),
{
    a * b
}

/// `num::Integer::div_rem` for `BigUint`: quotient and remainder of the
/// division of `a` by `d`. The outside function panics on a zero divisor,
/// which the precondition leaves out.
#[verifier::external_body]
pub(crate) fn big_div_rem(a: &BigUint, d: &BigUint) -> (qr: (BigUint, BigUint))
    requires
        magnitude(big_digits(*d)) > 0,
    ensures
        magnitude(big_digits(qr.0)) == magnitude(big_digits(*a)) / magnitude(big_digits(*d)),
        magnitude(big_digits(qr.1)) == magnitude(big_digits(*a)) % magnitude(big_digits(*d)),
{
    num::Integer::div_rem(a, d)
}

/// `num::ToPrimitive::to_u64` for `BigUint`: the number as a `u64`, or
/// `None` when it does not fit in 64 bits.
#[verifier::external_body]
pub(crate) fn big_to_u64(a: &BigUint) -> (x: Option<u64>)
    ensures
        match x {
            Some(v) => v == magnitude(big_digits(*a)),
            None => magnitude(big_digits(*a)) > u64::MAX,
        },
{
    num::ToPrimitive::to_u64(a)
}

/// `<` on `BigUint`: compares the two numbers.
#[verifier::external_body]
pub(crate) fn big_lt(a: &BigUint, b: &BigUint) -> (less: bool)
    ensures
        less == (magnitude(big_digits(*a)) < magnitude(big_digits(*b))),
{
    a < b
}

/// `==` on `BigUint`: true exactly when the two hold the same number.
#[verifier::external_body]
pub(crate) fn big_eq(a: &BigUint, b: &BigUint) -> (same: bool)
    ensures
        same == (magnitude(big_digits(*a)) == magnitude(big_digits(*b))),
{
    a == b
}

/// `num::pow` on a `BigUint`: `base` raised to the power `exp`, with
/// `pow(base, 0)` being 1.
#[verifier::external_body]
pub(crate) fn big_pow(base: BigUint, exp: usize) -> (n: BigUint)
    ensures
        magnitude(big_digits(n)) == pow(magnitude(big_digits(base)) as int, exp as nat),
{
    num::pow(base, exp)
}

} // verus!
