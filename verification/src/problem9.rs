//! The Pythagorean triplet with a given sum.

use vstd::prelude::*;

verus! {

/// `a <= b < c` are the sides of a right triangle with perimeter `sum`.
pub open spec fn is_triplet(a: int, b: int, c: int, sum: int) -> bool {
    1 <= a <= b < c && a + b + c == sum && a * a + b * b == c * c
}

/// `(a, b)` comes before `(x, y)` in dictionary order.
pub open spec fn sides_before(a: int, b: int, x: int, y: int) -> bool {
    a < x || (a == x && b < y)
}

/// The numbers involved stay within 64 bits for sums up to this bound.
pub const MAX_SUM: u64 = 0x1_0000_0000;

/// The Pythagorean triplet `(a, b, c)` with `a + b + c == sum` that comes
/// first when the candidates are tried by increasing `a`, then increasing
/// `b`. One has to exist.
pub fn find_triplet(sum: u64) -> (sides: (u64, u64, u64))
    requires
        sum <= MAX_SUM,
        exists|a: int, b: int, c: int| is_triplet(a, b, c, sum as int),
    ensures
        is_triplet(sides.0 as int, sides.1 as int, sides.2 as int, sum as int),
        forall|a: int, b: int, c: int| #[trigger]
            is_triplet(a, b, c, sum as int) ==> !sides_before(
                a,
                b,
                sides.0 as int,
                sides.1 as int,
            ),
{
    let ghost (wa, wb, wc) = choose|a: int, b: int, c: int| is_triplet(a, b, c, sum as int);
    let mut a: u64 = 1;
    loop
        invariant
            sum <= MAX_SUM,
            is_triplet(wa, wb, wc, sum as int),
            1 <= a <= wa,
            forall|x: int, y: int, z: int| #[trigger]
                is_triplet(x, y, z, sum as int) ==> x >= a,
        decreases sum - a,
    {
        let mut b: u64 = a;
        loop
            invariant
                sum <= MAX_SUM,
                is_triplet(wa, wb, wc, sum as int),
                1 <= a <= wa,
                a <= b,
                a + b <= sum,
                forall|x: int, y: int, z: int| #[trigger]
                    is_triplet(x, y, z, sum as int) ==> !sides_before(x, y, a as int, b as int),
            ensures
                forall|x: int, y: int, z: int| #[trigger]
                    is_triplet(x, y, z, sum as int) ==> x > a,
            decreases sum - b,
        {
            let c = sum - a - b;
            if c <= b {
                break ;
            }
            assert(a * a + b * b <= 0xFFFF_FFFF * 0xFFFF_FFFF && c * c <= 0xFFFF_FFFF * 0xFFFF_FFFF)
                by (nonlinear_arith)
                requires
                    0 <= a,
                    0 <= b,
                    a + b <= 0xFFFF_FFFF,
                    0 <= c <= 0xFFFF_FFFF,
            ;
            if a * a + b * b == c * c {
                return (a, b, c);
            }
            b = b + 1;
        }
        a = a + 1;
    }
}

/// The product of the sides of the Pythagorean triplet with perimeter
/// `sum` that `find_triplet` finds. The product has to fit in 64 bits.
pub fn solve(sum: u64) -> (product: u64)
    requires
        sum <= MAX_SUM,
        exists|a: int, b: int, c: int| is_triplet(a, b, c, sum as int),
        forall|a: int, b: int, c: int| #[trigger]
            is_triplet(a, b, c, sum as int) ==> a * b * c <= u64::MAX,
    ensures
        exists|a: int, b: int, c: int|
            is_triplet(a, b, c, sum as int) && product == a * b * c && (forall|
                x: int,
                y: int,
                z: int,
            | #[trigger] is_triplet(x, y, z, sum as int) ==> !sides_before(x, y, a, b)),
{
    let (a, b, c) = find_triplet(sum);
    assert(is_triplet(a as int, b as int, c as int, sum as int));
    assert(0 <= a * b <= a * b * c) by (nonlinear_arith)
        requires
            a >= 0,
            b >= 0,
            c >= 1,
    ;
    a * b * c
}

} // verus!
