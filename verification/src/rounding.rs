//! Arithmetic on doubles, rounded to the nearest double with ties to even.
use crate::double::{
    grid, lemma_grid_increases, lemma_grid_order, lemma_grid_step, one, place, Double, FRACTION_RANGE,
    INFINITY_BITS, NAN_BITS, ONE_BITS, SIGN_BIT, UNIT_SHIFT,
};
use vstd::arithmetic::power2::*;
use vstd::prelude::*;

verus! {

/// Whether `mag` is the magnitude of the double nearest to `num / den` units of
/// 2^-1074: the ratio lies between the midpoints to the two neighbours of `mag`, and
/// on a midpoint only if `mag` is even.
pub open spec fn rounds_to(num: int, den: int, mag: int) -> bool {
    &&& 0 <= mag <= INFINITY_BITS
    &&& mag > 0 ==> {
        let doubled_midpoint = den * (grid(mag - 1) + grid(mag));
        if mag % 2 == 0 {
            doubled_midpoint <= 2 * num
        } else {
            doubled_midpoint < 2 * num
        }
    }
    &&& mag < INFINITY_BITS ==> {
        let doubled_midpoint = den * (grid(mag) + grid(mag + 1));
        if mag % 2 == 0 {
            2 * num <= doubled_midpoint
        } else {
            2 * num < doubled_midpoint
        }
    }
}

/// The magnitude of the double nearest to `num / den` units of 2^-1074.
pub open spec fn nearest(num: int, den: int) -> int {
    choose|mag: int| rounds_to(num, den, mag)
}

/// A smaller ratio over the same denominator does not round to a larger double.
proof fn lemma_rounding_order(low: int, high: int, den: int, a: int, b: int)
    requires
        den > 0,
        low <= high,
        rounds_to(low, den, a),
        rounds_to(high, den, b),
    ensures
        a <= b,
{
    if b < a {
        lemma_grid_order(b, a - 1);
        lemma_grid_order(b + 1, a);
        let x = grid(b) + grid(b + 1);
        let y = grid(a - 1) + grid(a);
        assert(den * x <= den * y) by (nonlinear_arith)
            requires
                den > 0,
                x <= y,
        ;
        if b + 1 < a {
            lemma_grid_increases(b + 1, a);
            assert(den * x < den * y) by (nonlinear_arith)
                requires
                    den > 0,
                    x < y,
            ;
        }
    }
}

/// The largest magnitude up to `top` whose double is at most `num / den` units.
proof fn lemma_floor_exists(num: int, den: int, top: int) -> (mag: int)
    requires
        num >= 0,
        den > 0,
        top >= 0,
    ensures
        0 <= mag <= top,
        den * grid(mag) <= num,
        mag < top ==> num < den * grid(mag + 1),
    decreases top,
{
    if den * grid(top) <= num {
        top
    } else if top == 0 {
        lemma_grid_order(0, 0);
        assert(den * 0 == 0);
        0
    } else {
        lemma_floor_exists(num, den, top - 1)
    }
}

/// A ratio between two neighbouring doubles rounds to the lower one below their midpoint,
/// to the upper one above it, and on it to the even one.
proof fn lemma_rounds_from_floor(num: int, den: int, floor: int)
    requires
        den > 0,
        0 <= floor < INFINITY_BITS,
        den * grid(floor) <= num,
        num < den * grid(floor + 1),
    ensures
        ({
            let doubled_midpoint = den * (grid(floor) + grid(floor + 1));
            if 2 * num < doubled_midpoint || (2 * num == doubled_midpoint && floor % 2 == 0) {
                rounds_to(num, den, floor)
            } else {
                rounds_to(num, den, floor + 1)
            }
        }),
{
    let low = grid(floor);
    let next = grid(floor + 1);
    let after = grid(floor + 2);
    lemma_grid_increases(floor + 1, floor + 2);
    assert(2 * (den * next) < den * (next + after)) by (nonlinear_arith)
        requires
            den > 0,
            next < after,
    ;
    if floor > 0 {
        lemma_grid_increases(floor - 1, floor);
        let prev = grid(floor - 1);
        assert(den * (prev + low) < 2 * (den * low)) by (nonlinear_arith)
            requires
                den > 0,
                prev < low,
        ;
    }
}

/// A ratio beyond the finite doubles rounds to infinity.
proof fn lemma_rounds_to_infinity(num: int, den: int)
    requires
        den > 0,
        den * grid(INFINITY_BITS as int) <= num,
    ensures
        rounds_to(num, den, INFINITY_BITS as int),
{
    let top = INFINITY_BITS as int;
    let high = grid(top);
    let prev = grid(top - 1);
    lemma_grid_increases(top - 1, top);
    assert(den * (prev + high) < 2 * (den * high)) by (nonlinear_arith)
        requires
            den > 0,
            prev < high,
    ;
}

/// Every ratio has exactly one nearest double.
pub proof fn lemma_nearest(num: int, den: int)
    requires
        num >= 0,
        den > 0,
    ensures
        rounds_to(num, den, nearest(num, den)),
        forall|mag: int| rounds_to(num, den, mag) ==> mag == nearest(num, den),
{
    let floor = lemma_floor_exists(num, den, INFINITY_BITS as int);
    if floor == INFINITY_BITS {
        lemma_rounds_to_infinity(num, den);
    } else {
        lemma_rounds_from_floor(num, den, floor);
    }
    assert forall|mag: int| rounds_to(num, den, mag) implies mag == nearest(num, den) by {
        let n = nearest(num, den);
        lemma_rounding_order(num, num, den, mag, n);
        lemma_rounding_order(num, num, den, n, mag);
    }
}

/// A ratio that is a double rounds to it.
pub proof fn lemma_nearest_exact(num: int, den: int, mag: int)
    requires
        den > 0,
        0 <= mag <= INFINITY_BITS,
        num == den * grid(mag),
    ensures
        nearest(num, den) == mag,
{
    lemma_grid_order(mag, mag);
    lemma_grid_increases(mag, mag + 1);
    let low = grid(mag);
    let next = grid(mag + 1);
    assert(num >= 0) by (nonlinear_arith)
        requires
            den > 0,
            low >= 0,
            num == den * low,
    ;
    assert(2 * num < den * (low + next)) by (nonlinear_arith)
        requires
            den > 0,
            low < next,
            num == den * low,
    ;
    if mag > 0 {
        lemma_grid_increases(mag - 1, mag);
        let prev = grid(mag - 1);
        assert(den * (prev + low) < 2 * num) by (nonlinear_arith)
            requires
                den > 0,
                prev < low,
                num == den * low,
        ;
    }
    assert(rounds_to(num, den, mag));
    lemma_nearest(num, den);
}

/// Rounding keeps the order of ratios over the same denominator.
pub proof fn lemma_nearest_order(low: int, high: int, den: int)
    requires
        den > 0,
        0 <= low <= high,
    ensures
        nearest(low, den) <= nearest(high, den),
{
    lemma_nearest(low, den);
    lemma_nearest(high, den);
    lemma_rounding_order(low, high, den, nearest(low, den), nearest(high, den));
}

proof fn lemma_scaled_comparison(num: int, den: int, factor: int, x: int)
    requires
        factor > 0,
    ensures
        den * x <= 2 * num <==> (den * factor) * x <= 2 * (num * factor),
        den * x < 2 * num <==> (den * factor) * x < 2 * (num * factor),
{
    let a = den * x;
    assert((den * factor) * x == a * factor) by (nonlinear_arith)
        requires
            a == den * x,
    ;
    assert(2 * (num * factor) == (2 * num) * factor) by (nonlinear_arith);
    let b = 2 * num;
    assert(a <= b <==> a * factor <= b * factor) by (nonlinear_arith)
        requires
            factor > 0,
    ;
    assert(a < b <==> a * factor < b * factor) by (nonlinear_arith)
        requires
            factor > 0,
    ;
}

/// Rounding depends on the ratio alone.
pub proof fn lemma_nearest_scaled(num: int, den: int, factor: int)
    requires
        num >= 0,
        den > 0,
        factor > 0,
    ensures
        nearest(num * factor, den * factor) == nearest(num, den),
{
    let mag = nearest(num, den);
    lemma_nearest(num, den);
    assert(num * factor >= 0 && den * factor > 0) by (nonlinear_arith)
        requires
            num >= 0,
            den > 0,
            factor > 0,
    ;
    lemma_nearest(num * factor, den * factor);
    lemma_scaled_comparison(num, den, factor, grid(mag) + grid(mag + 1));
    lemma_scaled_comparison(num, den, factor, grid(mag - 1) + grid(mag));
    assert(rounds_to(num * factor, den * factor, mag));
}

/// The exponent that stands for the unit of 2^-1074 in the scale of `round_scaled`.
pub const SCALE: u64 = 4096;

/// What rounding a significand of `q / 2` at `shift` places above the unit gives, where
/// `q` is the ratio in halves of the last place, cut to a whole number.
proof fn lemma_round_last_place(num: int, d: int, shift: int, q: int)
    requires
        d > 0,
        shift >= 0,
        0 <= q < 4 * FRACTION_RANGE,
        shift == 0 || q >= 2 * FRACTION_RANGE,
        q * (d * pow2((shift - 1 + SCALE) as nat)) <= num,
        num < (q + 1) * (d * pow2((shift - 1 + SCALE) as nat)),
    ensures
        ({
            let m = q / 2;
            let exact = q * (d * pow2((shift - 1 + SCALE) as nat)) == num;
            let floor = shift * FRACTION_RANGE + m;
            let up = q % 2 == 1 && (!exact || m % 2 == 1);
            nearest(num, d * pow2(SCALE as nat)) == if floor >= INFINITY_BITS {
                INFINITY_BITS as int
            } else if up {
                floor + 1
            } else {
                floor
            }
        }),
{
    let w = d * pow2((shift - 1 + SCALE) as nat);
    let den = d * pow2(SCALE as nat);
    let m = q / 2;
    let bit = q % 2;
    let floor = shift * FRACTION_RANGE + m;
    let p = pow2(shift as nat) as int;
    let k = pow2(SCALE as nat) as int;
    let h = pow2((shift - 1 + SCALE) as nat) as int;
    lemma_pow2_pos(SCALE as nat);
    lemma_pow2_pos((shift - 1 + SCALE) as nat);
    lemma_pow2_adds(shift as nat, SCALE as nat);
    lemma_pow2_unfold((shift + SCALE) as nat);
    assert(p * k == 2 * h);
    assert(den * p == 2 * w) by (nonlinear_arith)
        requires
            den == d * k,
            w == d * h,
            p * k == 2 * h,
    ;
    assert(den > 0 && w > 0) by (nonlinear_arith)
        requires
            den == d * k,
            w == d * h,
            d > 0,
            k > 0,
            h > 0,
    ;
    assert(place(floor) == shift);
    let g = grid(floor);
    assert(g == m * p);
    lemma_grid_step(floor);
    let g1 = grid(floor + 1);
    assert(g1 == g + p);
    assert(den * g == m * (2 * w)) by (nonlinear_arith)
        requires
            g == m * p,
            den * p == 2 * w,
    ;
    assert(den * g1 == den * g + 2 * w) by (nonlinear_arith)
        requires
            g1 == g + p,
            den * p == 2 * w,
    ;
    assert(m * (2 * w) == (2 * m) * w) by (nonlinear_arith);
    assert(q * w == (2 * m) * w + bit * w) by (nonlinear_arith)
        requires
            q == 2 * m + bit,
    ;
    assert((q + 1) * w == q * w + w) by (nonlinear_arith);
    assert(0 * w == 0 && 1 * w == w);
    assert(bit == 0 || bit == 1);
    assert(den * (g + g1) == den * g + den * g1) by (nonlinear_arith);
    assert(q * w >= 0) by (nonlinear_arith)
        requires
            q >= 0,
            w > 0,
    ;
    lemma_nearest(num, den);
    if floor >= INFINITY_BITS {
        let top = INFINITY_BITS as int;
        let high = grid(top);
        lemma_grid_order(top, floor);
        assert(den * high <= den * g) by (nonlinear_arith)
            requires
                den > 0,
                high <= g,
        ;
        lemma_rounds_to_infinity(num, den);
    } else {
        assert(floor % 2 == m % 2);
        lemma_rounds_from_floor(num, den, floor);
    }
}

/// Rounds `n / d * 2^e` units of 2^-1074 to the nearest double and returns its
/// magnitude. The quotient is brought to two more binary places than a double's
/// significand needs, of which the last stands for everything below it.
fn round_scaled(n: u128, d: u64, e: i32) -> (mag: u64)
    requires
        n < 0x1000_0000_0000_0000_0000_0000_0000,
        0 < d < 0x20_0000_0000_0000,
        -4000 <= e <= 4000,
    ensures
        mag == nearest(
            n * pow2((e + SCALE) as nat),
            d * pow2(SCALE as nat),
        ),
        mag <= INFINITY_BITS,
{
    let ghost num = n * pow2((e + SCALE) as nat);
    proof {
        lemma2_to64();
        lemma2_to64_rest();
        lemma_pow2_adds(54, 54);
        lemma_pow2_adds(108, (e + SCALE) as nat);
        lemma_pow2_pos((e + SCALE) as nat);
        let p = pow2((e + SCALE) as nat) as int;
        let x = n as int;
        let bound = pow2(108) as int;
        assert(x * p < bound * p) by (nonlinear_arith)
            requires
                x < bound,
                p > 0,
        ;
    }
    let wide: u128 = d as u128;
    let threshold: u128 = wide * 0x20_0000_0000_0000;
    let mut scaled: u128 = n;
    let mut exp: i32 = e;
    while scaled < threshold && exp > -1
        invariant
            wide == d,
            0 < d < 0x20_0000_0000_0000,
            threshold == wide * 0x20_0000_0000_0000,
            scaled < 0x1000_0000_0000_0000_0000_0000_0000,
            -4000 <= exp <= 4000,
            num == scaled * pow2((exp + SCALE) as nat),
        decreases exp + 4001,
    {
        proof {
            let p = pow2((exp - 1 + SCALE) as nat) as int;
            let x = scaled as int;
            lemma_pow2_unfold((exp + SCALE) as nat);
            assert(x * (2 * p) == (x * 2) * p) by (nonlinear_arith);
        }
        scaled = scaled * 2;
        exp = exp - 1;
    }
    let mut q: u128 = scaled / wide;
    let rest: u128 = scaled % wide;
    let mut sticky: bool = rest != 0;
    proof {
        let p = pow2((exp + SCALE) as nat) as int;
        let quotient = q as int;
        let divisor = d as int;
        let r = rest as int;
        let x = scaled as int;
        lemma_pow2_pos((exp + SCALE) as nat);
        vstd::arithmetic::div_mod::lemma_fundamental_div_mod(x, divisor);
        assert(num == quotient * (divisor * p) + r * p) by (nonlinear_arith)
            requires
                num == x * p,
                x == divisor * quotient + r,
        ;
        assert(0 <= r * p < divisor * p && (r != 0 ==> r * p > 0)) by (nonlinear_arith)
            requires
                0 <= r < divisor,
                p > 0,
        ;
        assert(quotient * (divisor * p) + divisor * p == (quotient + 1) * (divisor * p))
            by (nonlinear_arith);
        if x >= threshold {
            vstd::arithmetic::div_mod::lemma_div_is_ordered(
                threshold as int,
                x,
                divisor,
            );
            vstd::arithmetic::div_mod::lemma_div_multiples_vanish(0x20_0000_0000_0000, divisor);
        }
        vstd::arithmetic::div_mod::lemma_div_pos_is_pos(x, divisor);
    }
    while q >= 0x40_0000_0000_0000 || exp < -1
        invariant
            0 < d < 0x20_0000_0000_0000,
            -4000 <= e <= 4000,
            -4000 <= exp <= 4112,
            num < pow2((108 + e + SCALE) as nat),
            exp <= -1 || q >= 0x20_0000_0000_0000,
            q * (d * pow2((exp + SCALE) as nat)) <= num,
            num < (q + 1) * (d * pow2((exp + SCALE) as nat)),
            sticky <==> q * (d * pow2((exp + SCALE) as nat)) != num,
        decreases
                q + (if exp < -1 {
                    -1 - exp
                } else {
                    0
                }),
    {
        proof {
            let p = pow2((exp + SCALE) as nat) as int;
            let divisor = d as int;
            let w = divisor * p;
            let half = (q / 2) as int;
            let bit = (q % 2) as int;
            lemma_pow2_unfold((exp + 1 + SCALE) as nat);
            lemma_pow2_pos((exp + SCALE) as nat);
            assert(divisor * (2 * p) == 2 * w) by (nonlinear_arith)
                requires
                    w == divisor * p,
            ;
            assert(w >= p) by (nonlinear_arith)
                requires
                    w == divisor * p,
                    divisor >= 1,
                    p > 0,
            ;
            let whole = q as int;
            assert(half * (2 * w) == whole * w - bit * w) by (nonlinear_arith)
                requires
                    whole == 2 * half + bit,
            ;
            assert((half + 1) * (2 * w) == (whole + 1) * w + (1 - bit) * w) by (nonlinear_arith)
                requires
                    whole == 2 * half + bit,
            ;
            assert(bit == 0 || bit == 1);
            assert(0 * w == 0 && 1 * w == w);
            if exp > -1 {
                assert(whole * w >= w) by (nonlinear_arith)
                    requires
                        whole >= 1,
                        w > 0,
                ;
                if exp >= 4109 {
                    if exp + SCALE > 108 + e + SCALE {
                        lemma_pow2_strictly_increases(
                            (108 + e + SCALE) as nat,
                            (exp + SCALE) as nat,
                        );
                    }
                }
            }
        }
        sticky = sticky || q % 2 == 1;
        q = q / 2;
        exp = exp + 1;
    }
    let m: u64 = (q / 2) as u64;
    let up: bool = q % 2 == 1 && (sticky || m % 2 == 1);
    let shift: u64 = (exp + 1) as u64;
    proof {
        lemma_round_last_place(num, d as int, shift as int, q as int);
    }
    if shift > 2046 {
        INFINITY_BITS
    } else {
        let floor: u64 = shift * FRACTION_RANGE + m;
        if floor >= INFINITY_BITS {
            INFINITY_BITS
        } else if up {
            floor + 1
        } else {
            floor
        }
    }
}

/// The double with the given sign and magnitude.
pub open spec fn signed(negative: bool, mag: int) -> Double {
    Double {
        bits: if negative {
            (mag + SIGN_BIT) as u64
        } else {
            mag as u64
        },
    }
}

fn with_sign(negative: bool, mag: u64) -> (r: Double)
    requires
        mag < SIGN_BIT,
    ensures
        r == signed(negative, mag as int),
{
    if negative {
        Double { bits: mag + SIGN_BIT }
    } else {
        Double { bits: mag }
    }
}

/// Splits a magnitude into a whole significand and the number of doublings that turn
/// it into units of 2^-1074.
fn split(mag: u64) -> (parts: (u64, u64))
    requires
        mag <= INFINITY_BITS,
    ensures
        grid(mag as int) == parts.0 * pow2(parts.1 as nat),
        parts.0 < 2 * FRACTION_RANGE,
        parts.1 == place(mag as int) <= 2046,
        parts.1 > 0 ==> parts.0 >= FRACTION_RANGE,
        parts.0 == 0 <==> mag == 0,
{
    if mag < FRACTION_RANGE {
        (mag, 0)
    } else {
        let shift: u64 = mag / FRACTION_RANGE - 1;
        (mag - shift * FRACTION_RANGE, shift)
    }
}

/// A whole number of fewer than 54 binary digits, doubled any small number of times,
/// is a double.
proof fn lemma_representable(x: int, s: nat) -> (mag: int)
    requires
        0 <= x < 2 * FRACTION_RANGE,
        s <= 1500,
    ensures
        0 <= mag < INFINITY_BITS,
        grid(mag) == x * pow2(s),
    decreases s,
{
    if s == 0 {
        assert(place(x) == 0);
        x
    } else if x >= FRACTION_RANGE {
        let mag = s * FRACTION_RANGE + x;
        assert(place(mag) == s);
        mag
    } else {
        let mag = lemma_representable(2 * x, (s - 1) as nat);
        let p = pow2((s - 1) as nat) as int;
        lemma_pow2_unfold(s);
        assert((2 * x) * p == x * (2 * p)) by (nonlinear_arith);
        mag
    }
}

/// Whole numbers up to 2^53 are doubles.
pub proof fn lemma_whole_exact(n: int)
    requires
        0 <= n <= 2 * FRACTION_RANGE,
    ensures
        Double::whole(n).units() == n * one(),
        Double::whole(n).magnitude() < INFINITY_BITS,
        !Double::whole(n).negative(),
{
    let u = one();
    let mag = if n == 2 * FRACTION_RANGE {
        lemma_pow2_unfold((UNIT_SHIFT + 1) as nat);
        let f = FRACTION_RANGE as int;
        assert(f * (2 * u) == (2 * f) * u) by (nonlinear_arith);
        lemma_representable(f, (UNIT_SHIFT + 1) as nat)
    } else {
        lemma_representable(n, UNIT_SHIFT as nat)
    };
    lemma_nearest_exact(n * u, 1, mag);
}

/// The bit pattern of one stands for the number one.
pub proof fn lemma_one()
    ensures
        grid(ONE_BITS as int) == one(),
        one() > 0,
{
    lemma2_to64();
    lemma2_to64_rest();
    lemma_pow2_adds(52, 1022);
    lemma_pow2_pos(UNIT_SHIFT as nat);
    assert(place(ONE_BITS as int) == 1022);
}

proof fn lemma_pow2_upto(a: nat, b: nat)
    requires
        a <= b,
    ensures
        pow2(a) <= pow2(b),
{
    if a < b {
        lemma_pow2_strictly_increases(a, b);
    }
}

proof fn lemma_div_common_factor(x: int, p: int, w: int)
    requires
        0 <= x,
        p > 0,
        w > 0,
    ensures
        (x * w) / (p * w) == x / p,
{
    vstd::arithmetic::mul::lemma_mul_is_commutative(p, w);
    vstd::arithmetic::div_mod::lemma_div_denominator(x * w, w, p);
    vstd::arithmetic::div_mod::lemma_div_multiples_vanish(x, w);
    vstd::arithmetic::mul::lemma_mul_is_commutative(x, w);
    assert(w * p > 0) by (nonlinear_arith)
        requires
            p > 0,
            w > 0,
    ;
}

/// One minus a number below 2^-54 rounds to one.
proof fn lemma_complement_of_tiny(m: int, s: int)
    requires
        0 <= m < 2 * FRACTION_RANGE,
        0 <= s < UNIT_SHIFT - 107,
    ensures
        0 <= m * pow2(s as nat) <= one(),
        nearest(one() - m * pow2(s as nat), 1) == ONE_BITS,
{
    let tiny = m * pow2(s as nat);
    let p = pow2(s as nat) as int;
    lemma_one();
    lemma_pow2_pos(s as nat);
    lemma2_to64();
    lemma2_to64_rest();
    lemma_pow2_upto(s as nat, 966);
    lemma_pow2_adds(53, 966);
    let f = pow2(966) as int;
    assert(0 <= m * p <= 0x20_0000_0000_0000 * f) by (nonlinear_arith)
        requires
            0 <= m <= 0x20_0000_0000_0000,
            0 < p <= f,
    ;
    lemma_pow2_upto(1019, 1020);
    lemma_pow2_unfold(1021);
    lemma_pow2_upto(1021, UNIT_SHIFT as nat);
    lemma_grid_step(ONE_BITS - 1);
    assert(place(ONE_BITS - 1) == 1021);
    lemma_grid_increases(ONE_BITS as int, ONE_BITS + 1);
    assert(rounds_to(one() - tiny, 1, ONE_BITS as int));
    lemma_nearest(one() - tiny, 1);
}

/// Computes a power of two.
fn power_of_two(k: u64) -> (r: u128)
    requires
        k <= 107,
    ensures
        r == pow2(k as nat),
{
    let mut r: u128 = 1;
    let mut i: u64 = 0;
    proof {
        lemma2_to64();
    }
    while i < k
        invariant
            i <= k <= 107,
            r == pow2(i as nat),
        decreases k - i,
    {
        proof {
            lemma_pow2_unfold((i + 1) as nat);
            lemma_pow2_upto((i + 1) as nat, 107);
            lemma2_to64();
            lemma2_to64_rest();
            lemma_pow2_adds(54, 53);
        }
        r = r * 2;
        i = i + 1;
    }
    r
}

impl Double {
    /// The product of two doubles, as IEEE 754 defines it for rounding to nearest.
    pub open spec fn times(self, other: Double) -> Double {
        let negative = self.negative() != other.negative();
        if self.nan() || other.nan() {
            Double { bits: NAN_BITS }
        } else if self.infinite() || other.infinite() {
            if self.units() == 0 || other.units() == 0 {
                Double { bits: NAN_BITS }
            } else {
                signed(negative, INFINITY_BITS as int)
            }
        } else {
            signed(
                negative,
                nearest(grid(self.magnitude()) * grid(other.magnitude()), one()),
            )
        }
    }

    /// The quotient of two doubles, as IEEE 754 defines it for rounding to nearest.
    pub open spec fn over(self, other: Double) -> Double {
        let negative = self.negative() != other.negative();
        if self.nan() || other.nan() {
            Double { bits: NAN_BITS }
        } else if self.infinite() {
            if other.infinite() {
                Double { bits: NAN_BITS }
            } else {
                signed(negative, INFINITY_BITS as int)
            }
        } else if other.infinite() {
            signed(negative, 0)
        } else if other.units() == 0 {
            if self.units() == 0 {
                Double { bits: NAN_BITS }
            } else {
                signed(negative, INFINITY_BITS as int)
            }
        } else {
            signed(
                negative,
                nearest(grid(self.magnitude()) * one(), grid(other.magnitude())),
            )
        }
    }

    /// One minus a number between zero and one.
    pub open spec fn complement(self) -> Double {
        if self.nan() {
            Double { bits: NAN_BITS }
        } else {
            signed(false, nearest(one() - self.units(), 1))
        }
    }

    /// The double nearest to a whole number.
    pub open spec fn whole(n: int) -> Double {
        signed(false, nearest(n * one(), 1))
    }

    /// The number without its fraction, held to the range of `u64`; zero for what is not
    /// a number.
    pub open spec fn truncated(self) -> int {
        if self.nan() || self.units() < 0 {
            0
        } else if self.units() / one() > u64::MAX {
            u64::MAX as int
        } else {
            self.units() / one()
        }
    }

    /// Multiplies two numbers.
    pub fn mul(self, other: Double) -> (r: Double)
        ensures
            r == self.times(other),
    {
        let a: u64 = self.magnitude_bits();
        let b: u64 = other.magnitude_bits();
        let negative: bool = self.is_negative() != other.is_negative();
        proof {
            lemma_grid_order(a as int, a as int);
            lemma_grid_order(b as int, b as int);
        }
        if a > INFINITY_BITS || b > INFINITY_BITS {
            return Double { bits: NAN_BITS };
        }
        if a == INFINITY_BITS || b == INFINITY_BITS {
            if a == 0 || b == 0 {
                return Double { bits: NAN_BITS };
            }
            return with_sign(negative, INFINITY_BITS);
        }
        let (ma, sa): (u64, u64) = split(a);
        let (mb, sb): (u64, u64) = split(b);
        assert(ma * mb < 0x400_0000_0000_0000_0000_0000_0000) by (nonlinear_arith)
            requires
                ma < 0x20_0000_0000_0000,
                mb < 0x20_0000_0000_0000,
        ;
        let n: u128 = (ma as u128) * (mb as u128);
        let e: i32 = (sa as i32) + (sb as i32) - (UNIT_SHIFT as i32);
        let mag: u64 = round_scaled(n, 1, e);
        proof {
            let ga = grid(a as int);
            let gb = grid(b as int);
            let pa = pow2(sa as nat) as int;
            let pb = pow2(sb as nat) as int;
            let fill = (SCALE - UNIT_SHIFT) as nat;
            let f = pow2(fill) as int;
            lemma_pow2_pos(fill);
            lemma_pow2_pos(UNIT_SHIFT as nat);
            lemma_pow2_adds(sa as nat, sb as nat);
            lemma_pow2_adds((sa + sb) as nat, fill);
            lemma_pow2_adds(UNIT_SHIFT as nat, fill);
            assert(sa + sb + fill == e + SCALE);
            let x = ma as int;
            let y = mb as int;
            assert(n * pow2((e + SCALE) as nat) == (ga * gb) * f) by (nonlinear_arith)
                requires
                    n == x * y,
                    ga == x * pa,
                    gb == y * pb,
                    pow2((e + SCALE) as nat) == (pa * pb) * f,
            ;
            assert(1 * pow2(SCALE as nat) == one() * f);
            assert(ga * gb >= 0) by (nonlinear_arith)
                requires
                    ga >= 0,
                    gb >= 0,
            ;
            lemma_nearest_scaled(ga * gb, one(), f);
        }
        with_sign(negative, mag)
    }

    /// Divides two numbers.
    pub fn div(self, other: Double) -> (r: Double)
        ensures
            r == self.over(other),
    {
        let a: u64 = self.magnitude_bits();
        let b: u64 = other.magnitude_bits();
        let negative: bool = self.is_negative() != other.is_negative();
        proof {
            lemma_grid_order(a as int, a as int);
            lemma_grid_order(b as int, b as int);
        }
        if a > INFINITY_BITS || b > INFINITY_BITS {
            return Double { bits: NAN_BITS };
        }
        if a == INFINITY_BITS {
            if b == INFINITY_BITS {
                return Double { bits: NAN_BITS };
            }
            return with_sign(negative, INFINITY_BITS);
        }
        if b == INFINITY_BITS {
            return with_sign(negative, 0);
        }
        if b == 0 {
            if a == 0 {
                return Double { bits: NAN_BITS };
            }
            return with_sign(negative, INFINITY_BITS);
        }
        let (ma, sa): (u64, u64) = split(a);
        let (mb, sb): (u64, u64) = split(b);
        let e: i32 = (sa as i32) - (sb as i32) + (UNIT_SHIFT as i32);
        let mag: u64 = round_scaled(ma as u128, mb, e);
        proof {
            let ga = grid(a as int);
            let gb = grid(b as int);
            let pa = pow2(sa as nat) as int;
            let pb = pow2(sb as nat) as int;
            let fill = (SCALE - sb) as nat;
            let f = pow2(fill) as int;
            lemma_pow2_pos(fill);
            lemma_pow2_adds(sa as nat, UNIT_SHIFT as nat);
            lemma_pow2_adds((sa + UNIT_SHIFT) as nat, fill);
            lemma_pow2_adds(sb as nat, fill);
            assert(sa + UNIT_SHIFT + fill == e + SCALE);
            let x = ma as int;
            let y = mb as int;
            let u = one();
            lemma_pow2_pos(UNIT_SHIFT as nat);
            assert(x * pow2((e + SCALE) as nat) == (ga * u) * f) by (nonlinear_arith)
                requires
                    ga == x * pa,
                    pow2((e + SCALE) as nat) == (pa * u) * f,
            ;
            assert(y * pow2(SCALE as nat) == gb * f) by (nonlinear_arith)
                requires
                    gb == y * pb,
                    pow2(SCALE as nat) == pb * f,
            ;
            assert(ga * u >= 0) by (nonlinear_arith)
                requires
                    ga >= 0,
                    u >= 0,
            ;
            lemma_nearest_scaled(ga * u, gb, f);
        }
        with_sign(negative, mag)
    }

    /// Subtracts a number between zero and one from one.
    pub fn one_minus(self) -> (r: Double)
        requires
            self.nan() || 0 <= self.units() <= one(),
        ensures
            r == self.complement(),
    {
        if self.is_nan() {
            return Double { bits: NAN_BITS };
        }
        let mag: u64 = self.magnitude_bits();
        proof {
            lemma_one();
            lemma_grid_order(mag as int, ONE_BITS as int);
            assert(self.units() == grid(mag as int));
        }
        let (m, s): (u64, u64) = split(mag);
        let gap: u64 = UNIT_SHIFT - s;
        if gap > 107 {
            proof {
                lemma_complement_of_tiny(m as int, s as int);
            }
            return Double { bits: ONE_BITS };
        }
        let p: u128 = power_of_two(gap);
        proof {
            let w = pow2(s as nat) as int;
            let whole = p as int;
            let x = m as int;
            lemma_pow2_pos(s as nat);
            lemma_pow2_adds(gap as nat, s as nat);
            assert(x <= whole) by (nonlinear_arith)
                requires
                    x * w <= whole * w,
                    w > 0,
            ;
            lemma_pow2_upto(gap as nat, 107);
            lemma2_to64();
            lemma2_to64_rest();
            lemma_pow2_adds(54, 53);
        }
        let n: u128 = p - (m as u128);
        let result: u64 = round_scaled(n, 1, s as i32);
        proof {
            let w = pow2(s as nat) as int;
            let f = pow2(SCALE as nat) as int;
            let whole = p as int;
            let x = m as int;
            let difference = one() - self.units();
            lemma_pow2_pos(SCALE as nat);
            lemma_pow2_adds(gap as nat, s as nat);
            lemma_pow2_adds(s as nat, SCALE as nat);
            assert(n * pow2((s + SCALE) as nat) == difference * f) by (nonlinear_arith)
                requires
                    n == whole - x,
                    difference == whole * w - x * w,
                    pow2((s + SCALE) as nat) == w * f,
            ;
            lemma_nearest_scaled(difference, 1, f);
        }
        with_sign(false, result)
    }

    /// The double nearest to a whole number.
    pub fn of_integer(n: u64) -> (r: Double)
        ensures
            r == Double::whole(n as int),
    {
        let mag: u64 = round_scaled(n as u128, 1, UNIT_SHIFT as i32);
        proof {
            let f = pow2(SCALE as nat) as int;
            let x = n as int;
            let u = one();
            lemma_pow2_pos(SCALE as nat);
            lemma_pow2_pos(UNIT_SHIFT as nat);
            lemma_pow2_adds(UNIT_SHIFT as nat, SCALE as nat);
            assert(x * pow2((UNIT_SHIFT + SCALE) as nat) == (x * u) * f) by (nonlinear_arith)
                requires
                    pow2((UNIT_SHIFT + SCALE) as nat) == u * f,
            ;
            assert(x * u >= 0) by (nonlinear_arith)
                requires
                    x >= 0,
                    u >= 0,
            ;
            lemma_nearest_scaled(x * u, 1, f);
        }
        with_sign(false, mag)
    }

    /// Drops the fraction of a number.
    pub fn truncate(self) -> (r: u64)
        ensures
            r == self.truncated(),
    {
        let mag: u64 = self.magnitude_bits();
        proof {
            lemma_grid_order(mag as int, 0);
            lemma_pow2_pos(UNIT_SHIFT as nat);
        }
        if self.is_nan() {
            return 0;
        }
        if self.is_negative() {
            proof {
                if self.units() == 0 {
                    vstd::arithmetic::div_mod::lemma_div_basics(one());
                }
            }
            return 0;
        }
        let (m, s): (u64, u64) = split(mag);
        if s >= UNIT_SHIFT {
            let up: u64 = s - UNIT_SHIFT;
            proof {
                let p = pow2(up as nat) as int;
                let x = m as int;
                let u = one();
                lemma_pow2_adds(up as nat, UNIT_SHIFT as nat);
                assert(x * pow2(s as nat) == u * (x * p)) by (nonlinear_arith)
                    requires
                        pow2(s as nat) == p * u,
                ;
                vstd::arithmetic::div_mod::lemma_div_multiples_vanish(x * p, u);
                lemma2_to64();
                lemma2_to64_rest();
            }
            if up > 11 {
                proof {
                    lemma_pow2_upto(12, up as nat);
                    let p = pow2(up as nat) as int;
                    let x = m as int;
                    assert(x * p >= 0x10_0000_0000_0000 * 4096) by (nonlinear_arith)
                        requires
                            x >= 0x10_0000_0000_0000,
                            p >= 4096,
                    ;
                }
                return u64::MAX;
            }
            let p: u128 = power_of_two(up);
            proof {
                lemma_pow2_upto(up as nat, 11);
                let w = p as int;
                let x = m as int;
                assert(0 <= x * w <= 0x1F_FFFF_FFFF_FFFF * 2048) by (nonlinear_arith)
                    requires
                        0 <= x <= 0x1F_FFFF_FFFF_FFFF,
                        0 <= w <= 2048,
                ;
            }
            m * (p as u64)
        } else {
            let down: u64 = UNIT_SHIFT - s;
            proof {
                let p = pow2(down as nat) as int;
                let w = pow2(s as nat) as int;
                let x = m as int;
                lemma_pow2_pos(down as nat);
                lemma_pow2_pos(s as nat);
                lemma_pow2_adds(down as nat, s as nat);
                lemma_div_common_factor(x, p, w);
                lemma2_to64();
                lemma2_to64_rest();
            }
            if down > 52 {
                proof {
                    lemma_pow2_upto(53, down as nat);
                    vstd::arithmetic::div_mod::lemma_basic_div(m as int, pow2(down as nat) as int);
                }
                return 0;
            }
            let p: u128 = power_of_two(down);
            proof {
                lemma_pow2_upto(down as nat, 52);
            }
            m / (p as u64)
        }
    }
}

/// A double that is not negative and stands for a whole number is that whole number.
pub proof fn law_whole_is_unique(x: Double, n: int)
    requires
        0 <= n <= 2 * FRACTION_RANGE,
        !x.nan(),
        !x.negative(),
        x.units() == n * one(),
    ensures
        x == Double::whole(n),
{
    lemma_whole_exact(n);
    lemma_grid_order(x.magnitude(), Double::whole(n).magnitude());
    lemma_grid_order(Double::whole(n).magnitude(), x.magnitude());
}

/// Products and quotients of whole numbers that are themselves whole numbers up to 2^53
/// are exact.
pub proof fn law_whole_arithmetic(a: int, b: int)
    requires
        0 <= a <= 2 * FRACTION_RANGE,
        0 <= b <= 2 * FRACTION_RANGE,
        a * b <= 2 * FRACTION_RANGE,
    ensures
        Double::whole(a).times(Double::whole(b)) == Double::whole(a * b),
        b > 0 ==> Double::whole(a * b).over(Double::whole(b)) == Double::whole(a),
{
    let u = one();
    lemma_one();
    assert(0 <= a * b) by (nonlinear_arith)
        requires
            0 <= a,
            0 <= b,
    ;
    lemma_whole_exact(a);
    lemma_whole_exact(b);
    lemma_whole_exact(a * b);
    let product = Double::whole(a * b).magnitude();
    assert((a * u) * (b * u) == u * ((a * b) * u)) by (nonlinear_arith);
    lemma_nearest_exact((a * u) * (b * u), u, product);
    if b > 0 {
        let divisor = b * u;
        assert(divisor > 0) by (nonlinear_arith)
            requires
                divisor == b * u,
                b > 0,
                u > 0,
        ;
        assert(((a * b) * u) * u == divisor * (a * u)) by (nonlinear_arith)
            requires
                divisor == b * u,
        ;
        lemma_nearest_exact(((a * b) * u) * u, divisor, Double::whole(a).magnitude());
    }
}

} // verus!
