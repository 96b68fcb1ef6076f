//! What the bit patterns of doubles stand for, and what their arithmetic gives.
use crate::double::{grid, lemma_grid_order, one, place, Double, INFINITY_BITS};
use crate::rounding::{lemma_nearest, lemma_one, nearest, rounds_to, signed};
use vstd::arithmetic::power2::*;
use vstd::prelude::*;

verus! {

/// The distance between two numbers.
pub open spec fn distance(a: int, b: int) -> int {
    if a < b {
        b - a
    } else {
        a - b
    }
}

/// Whether no double is closer to `num / den` than `x`, and none that is as close has an
/// even bit pattern where `x` has an odd one. Infinity counts as the double that follows
/// the largest finite one.
pub open spec fn closest(x: Double, num: int, den: int) -> bool {
    &&& !x.nan()
    &&& forall|y: Double| #![trigger y.units()]
        !y.nan() ==> {
            &&& distance(x.units() * den, num) <= distance(y.units() * den, num)
            &&& distance(x.units() * den, num) == distance(y.units() * den, num) && x.units()
                != y.units() ==> x.bits % 2 == 0
        }
}

/// The value of a double, read off its fields: the sign, the exponent of 11 bits and the
/// fraction of 52 bits. A unit is 2^-1074.
pub proof fn law_fields(x: Double, sign: bool, exponent: int, fraction: int)
    requires
        0 <= exponent < 2048,
        0 <= fraction < 0x10_0000_0000_0000,
        x.bits == (if sign {
            0x8000_0000_0000_0000int
        } else {
            0
        }) + exponent * 0x10_0000_0000_0000 + fraction,
    ensures
        x.negative() == sign,
        x.nan() <==> exponent == 2047 && fraction > 0,
        x.infinite() <==> exponent == 2047 && fraction == 0,
        exponent == 0 ==> x.units() == (if sign {
            -fraction
        } else {
            fraction
        }),
        exponent > 0 ==> x.units() == (if sign {
            -(0x10_0000_0000_0000 + fraction) * pow2((exponent - 1) as nat)
        } else {
            (0x10_0000_0000_0000 + fraction) * pow2((exponent - 1) as nat)
        }),
        one() == pow2(1074),
{
    let mag = x.magnitude();
    assert(mag == exponent * 0x10_0000_0000_0000 + fraction);
    lemma2_to64();
    if exponent == 0 {
        assert(place(mag) == 0);
        assert(grid(mag) == fraction * 1);
    } else {
        assert(place(mag) == exponent - 1);
        let m = 0x10_0000_0000_0000 + fraction;
        let p = pow2((exponent - 1) as nat) as int;
        assert((-m) * p == -(m * p)) by (nonlinear_arith);
    }
}

/// A rounded magnitude is closest to its ratio.
proof fn lemma_rounded_is_closest(num: int, den: int, mag: int, other: int)
    requires
        num >= 0,
        den > 0,
        rounds_to(num, den, mag),
        0 <= other <= INFINITY_BITS,
    ensures
        distance(grid(mag) * den, num) <= distance(grid(other) * den, num),
        distance(grid(mag) * den, num) == distance(grid(other) * den, num) && other != mag ==> mag % 2
            == 0,
{
    let x = grid(mag);
    let y = grid(other);
    if other < mag {
        let prev = grid(mag - 1);
        lemma_grid_order(other, mag - 1);
        lemma_grid_order(mag - 1, mag);
        assert(y * den <= prev * den < x * den && den * (prev + x) == prev * den + x * den)
            by (nonlinear_arith)
            requires
                y <= prev < x,
                den > 0,
        ;
    } else if mag < other {
        let next = grid(mag + 1);
        lemma_grid_order(mag + 1, other);
        lemma_grid_order(mag, mag + 1);
        assert(x * den < next * den <= y * den && den * (x + next) == x * den + next * den)
            by (nonlinear_arith)
            requires
                x < next <= y,
                den > 0,
        ;
    }
}

/// A rounded ratio with the sign of the exact one is closest to it.
proof fn lemma_signed_is_closest(negative: bool, num: int, den: int)
    requires
        num >= 0,
        den > 0,
    ensures
        closest(
            signed(negative, nearest(num, den)),
            if negative {
                -num
            } else {
                num
            },
            den,
        ),
        signed(negative, nearest(num, den)).negative() == negative,
{
    lemma_nearest(num, den);
    let mag = nearest(num, den);
    let x = signed(negative, mag);
    let exact = if negative {
        -num
    } else {
        num
    };
    assert(x.magnitude() == mag);
    assert(x.bits % 2 == 0 <==> mag % 2 == 0);
    lemma_grid_order(mag, 0);
    assert((-grid(mag)) * den == -(grid(mag) * den)) by (nonlinear_arith);
    assert forall|y: Double| #![trigger y.units()] !y.nan() implies {
        &&& distance(x.units() * den, exact) <= distance(y.units() * den, exact)
        &&& distance(x.units() * den, exact) == distance(y.units() * den, exact) && x.units()
            != y.units() ==> x.bits % 2 == 0
    } by {
        let g = grid(y.magnitude());
        lemma_grid_order(y.magnitude(), mag);
        lemma_rounded_is_closest(num, den, mag, y.magnitude());
        lemma_rounded_is_closest(num, den, mag, 0);
        lemma_grid_order(0, 0);
        assert((-g) * den == -(g * den)) by (nonlinear_arith);
        assert(g * den >= 0 && (g > 0 ==> g * den > 0)) by (nonlinear_arith)
            requires
                g >= 0,
                den > 0,
        ;
        assert(0 * den == 0);
    }
}

/// A product of finite numbers is the double closest to the exact product, and negative if
/// exactly one factor is. Nothing else is a number, except that an infinity times what is
/// not zero is an infinity.
pub proof fn law_product(a: Double, b: Double)
    ensures
        a.times(b).nan() <==> a.nan() || b.nan() || (a.infinite() && b.units() == 0) || (b.infinite()
            && a.units() == 0),
        !a.times(b).nan() ==> a.times(b).negative() == (a.negative() != b.negative()),
        !a.times(b).nan() && (a.infinite() || b.infinite()) ==> a.times(b).infinite(),
        !a.nan() && !b.nan() && !a.infinite() && !b.infinite() ==> closest(
            a.times(b),
            a.units() * b.units(),
            one(),
        ),
{
    lemma_one();
    let x = grid(a.magnitude());
    let y = grid(b.magnitude());
    lemma_grid_order(a.magnitude(), b.magnitude());
    lemma_grid_order(b.magnitude(), a.magnitude());
    assert(x * y >= 0) by (nonlinear_arith)
        requires
            x >= 0,
            y >= 0,
    ;
    assert((-x) * y == -(x * y) && x * (-y) == -(x * y) && (-x) * (-y) == x * y) by (nonlinear_arith);
    lemma_signed_is_closest(a.negative() != b.negative(), x * y, one());
    lemma_grid_order(INFINITY_BITS as int, 0);
}

/// A quotient of finite numbers is the double closest to the exact quotient, and negative
/// if exactly one of them is. An infinity over a finite number is an infinity, as is what is
/// not zero over zero; a finite number over an infinity is zero.
pub proof fn law_quotient(a: Double, b: Double)
    ensures
        a.over(b).nan() <==> a.nan() || b.nan() || (a.infinite() && b.infinite()) || (a.units() == 0
            && b.units() == 0),
        !a.over(b).nan() ==> a.over(b).negative() == (a.negative() != b.negative()),
        !a.over(b).nan() && (a.infinite() || b.units() == 0) ==> a.over(b).infinite(),
        !a.over(b).nan() && b.infinite() ==> a.over(b).units() == 0,
        !a.nan() && !b.nan() && !a.infinite() && !b.infinite() && b.units() != 0 ==> closest(
            a.over(b),
            if b.units() > 0 {
                a.units() * one()
            } else {
                -a.units() * one()
            },
            distance(b.units(), 0),
        ),
{
    lemma_one();
    let x = grid(a.magnitude());
    let y = grid(b.magnitude());
    let u = one();
    lemma_grid_order(a.magnitude(), b.magnitude());
    lemma_grid_order(b.magnitude(), a.magnitude());
    assert(x * u >= 0) by (nonlinear_arith)
        requires
            x >= 0,
            u >= 0,
    ;
    assert((-x) * u == -(x * u)) by (nonlinear_arith);
    if y > 0 {
        lemma_signed_is_closest(a.negative() != b.negative(), x * u, y);
    }
    lemma_grid_order(INFINITY_BITS as int, 0);
    lemma_grid_order(0, 0);
}

/// One minus a number between zero and one is the double closest to the exact difference.
pub proof fn law_complement(x: Double)
    requires
        !x.nan() ==> 0 <= x.units() <= one(),
    ensures
        x.complement().nan() <==> x.nan(),
        !x.nan() ==> closest(x.complement(), one() - x.units(), 1),
        !x.nan() ==> !x.complement().negative(),
{
    if !x.nan() {
        lemma_signed_is_closest(false, one() - x.units(), 1);
    }
}

/// A whole number becomes the double closest to it, and dropping the fraction of a number
/// gives the whole number below it, held to 64 bits.
pub proof fn law_whole_numbers(n: int, x: Double)
    requires
        n >= 0,
    ensures
        closest(Double::whole(n), n * one(), 1),
        !Double::whole(n).negative(),
        x.nan() ==> x.truncated() == 0,
        !x.nan() && x.units() <= 0 ==> x.truncated() == 0,
        !x.nan() && 0 <= x.units() < 0x1_0000_0000_0000_0000 * one() ==> x.truncated() * one()
            <= x.units() < (x.truncated() + 1) * one(),
        !x.nan() && x.units() >= 0x1_0000_0000_0000_0000 * one() ==> x.truncated()
            == 0xFFFF_FFFF_FFFF_FFFF,
{
    lemma_one();
    let u = one();
    assert(n * u >= 0) by (nonlinear_arith)
        requires
            n >= 0,
            u > 0,
    ;
    lemma_signed_is_closest(false, n * u, 1);
    if !x.nan() && x.units() >= 0 {
        let v = x.units();
        let q = v / u;
        let r = v % u;
        vstd::arithmetic::div_mod::lemma_fundamental_div_mod(v, u);
        assert(q * u == u * q && (q + 1) * u == u * q + u) by (nonlinear_arith);
        assert(v < 0x1_0000_0000_0000_0000 * u <==> q < 0x1_0000_0000_0000_0000) by (nonlinear_arith)
            requires
                v == u * q + r,
                0 <= r < u,
        ;
        assert(v == 0 ==> q == 0) by (nonlinear_arith)
            requires
                v == u * q + r,
                0 <= r < u,
        ;
    }
}

} // verus!
