//! Double-precision numbers held by their IEEE 754 bit patterns.
//!
//! A finite double is a whole multiple of 2^-1074, the smallest positive one, so
//! every value is modelled as an integer number of those units. Infinity takes the
//! place that follows the largest finite double, which makes the order of the
//! model the order of the numbers.
use vstd::arithmetic::power2::*;
use vstd::prelude::*;

verus! {

/// The bit pattern of positive infinity; larger magnitudes are not numbers.
pub const INFINITY_BITS: u64 = 0x7FF0_0000_0000_0000;

/// The sign bit.
pub const SIGN_BIT: u64 = 0x8000_0000_0000_0000;

/// One more than the largest fraction field.
pub const FRACTION_RANGE: u64 = 0x10_0000_0000_0000;

/// How many times the unit of 2^-1074 must be doubled to give one.
pub const UNIT_SHIFT: u64 = 1074;

/// The bit pattern of 1.0.
pub const ONE_BITS: u64 = 0x3FF0_0000_0000_0000;

/// The bit pattern that results of invalid operations take.
pub const NAN_BITS: u64 = 0x7FF8_0000_0000_0000;

/// The number of doublings between the unit and the last place of the doubles whose
/// magnitude bits are `mag`.
pub open spec fn place(mag: int) -> int {
    if mag < FRACTION_RANGE {
        0
    } else {
        mag / FRACTION_RANGE as int - 1
    }
}

/// The double whose magnitude bits are `mag`, counted in units of 2^-1074.
pub open spec fn grid(mag: int) -> int {
    (mag - place(mag) * FRACTION_RANGE) * pow2(place(mag) as nat)
}

/// The number one, counted in units of 2^-1074.
pub open spec fn one() -> int {
    pow2(UNIT_SHIFT as nat) as int
}

/// A double-precision number. Two values are `==` when their bit patterns are; the
/// numeric comparisons are methods.
#[derive(Clone, Copy, Debug, PartialEq, Eq, Structural)]
pub struct Double {
    pub bits: u64,
}

/// Consecutive magnitudes are one last place apart.
pub proof fn lemma_grid_step(mag: int)
    requires
        0 <= mag,
    ensures
        place(mag) >= 0,
        grid(mag + 1) == grid(mag) + pow2(place(mag) as nat),
        pow2(place(mag) as nat) > 0,
{
    let s = place(mag);
    let m = mag - s * FRACTION_RANGE;
    let p = pow2(s as nat) as int;
    lemma_pow2_pos(s as nat);
    if place(mag + 1) == s {
        assert((m + 1) * p == m * p + p) by (nonlinear_arith);
    } else {
        assert(place(mag + 1) == s + 1);
        assert(m + 1 == 2 * FRACTION_RANGE);
        lemma_pow2_unfold((s + 1) as nat);
        let f = FRACTION_RANGE as int;
        assert(mag + 1 - (s + 1) * f == f);
        assert(f * (2 * p) == (2 * f - 1) * p + p) by (nonlinear_arith);
    }
}

/// A larger magnitude is a larger number.
pub proof fn lemma_grid_increases(a: int, b: int)
    requires
        0 <= a < b,
    ensures
        grid(a) < grid(b),
    decreases b - a,
{
    lemma_grid_step(b - 1);
    if a < b - 1 {
        lemma_grid_increases(a, b - 1);
    }
}

/// Magnitudes compare as the numbers do.
pub proof fn lemma_grid_order(a: int, b: int)
    requires
        0 <= a,
        0 <= b,
    ensures
        a <= b <==> grid(a) <= grid(b),
        a < b <==> grid(a) < grid(b),
        grid(a) >= 0,
        grid(a) == 0 <==> a == 0,
{
    assert(grid(0) == 0) by {
        assert(forall|p: int| #[trigger] (0 * p) == 0) by (nonlinear_arith);
    }
    if a < b {
        lemma_grid_increases(a, b);
    } else if b < a {
        lemma_grid_increases(b, a);
    }
    if 0 < a {
        lemma_grid_increases(0, a);
    }
}

impl Double {
    /// The number with a given bit pattern.
    #[verifier::allow_in_spec]
    pub fn of_bits(bits: u64) -> Double
        returns
            (Double { bits: bits }),
    {
        Double { bits: bits }
    }

    /// The sign bit.
    pub open spec fn negative(self) -> bool {
        self.bits >= SIGN_BIT
    }

    /// The bits other than the sign.
    pub open spec fn magnitude(self) -> int {
        if self.negative() {
            self.bits - SIGN_BIT
        } else {
            self.bits as int
        }
    }

    /// Whether this is not a number.
    pub open spec fn nan(self) -> bool {
        self.magnitude() > INFINITY_BITS
    }

    /// Whether this is one of the two infinities.
    pub open spec fn infinite(self) -> bool {
        self.magnitude() == INFINITY_BITS
    }

    /// The number itself, in units of 2^-1074.
    pub open spec fn units(self) -> int {
        if self.negative() {
            -grid(self.magnitude())
        } else {
            grid(self.magnitude())
        }
    }

    /// The place of the number among all doubles, counted from zero.
    pub open spec fn rank(self) -> int {
        if self.negative() {
            -self.magnitude()
        } else {
            self.magnitude()
        }
    }

    /// `self <= other` as numbers.
    pub open spec fn le(self, other: Double) -> bool {
        !self.nan() && !other.nan() && self.rank() <= other.rank()
    }

    /// `self < other` as numbers.
    pub open spec fn lt(self, other: Double) -> bool {
        !self.nan() && !other.nan() && self.rank() < other.rank()
    }

    /// The nearest number to `self` that is neither below `low` nor above `high`; what
    /// is not a number stays so.
    pub open spec fn clamped(self, low: Double, high: Double) -> Double {
        if self.lt(low) {
            low
        } else if high.lt(self) {
            high
        } else {
            self
        }
    }

    /// Whether the sign bit is set.
    pub fn is_negative(self) -> (r: bool)
        ensures
            r == self.negative(),
    {
        self.bits >= SIGN_BIT
    }

    /// The bits other than the sign.
    pub fn magnitude_bits(self) -> (r: u64)
        ensures
            r == self.magnitude(),
            r < SIGN_BIT,
    {
        if self.bits >= SIGN_BIT {
            self.bits - SIGN_BIT
        } else {
            self.bits
        }
    }

    /// Whether this is not a number.
    pub fn is_nan(self) -> (r: bool)
        ensures
            r == self.nan(),
    {
        self.magnitude_bits() > INFINITY_BITS
    }

    /// `self <= other` as numbers.
    pub fn at_most(self, other: Double) -> (r: bool)
        ensures
            r == self.le(other),
    {
        if self.is_nan() || other.is_nan() {
            return false;
        }
        let a: u64 = self.magnitude_bits();
        let b: u64 = other.magnitude_bits();
        if self.is_negative() {
            if other.is_negative() {
                b <= a
            } else {
                true
            }
        } else if other.is_negative() {
            a == 0 && b == 0
        } else {
            a <= b
        }
    }

    /// `self < other` as numbers.
    pub fn below(self, other: Double) -> (r: bool)
        ensures
            r == self.lt(other),
    {
        !self.is_nan() && !other.is_nan() && !other.at_most(self)
    }

    /// `self == other` as numbers: no such value equals one that is not a number, and
    /// the two zeros are equal.
    pub fn same_number(self, other: Double) -> (r: bool)
        ensures
            r == (self.le(other) && other.le(self)),
    {
        self.at_most(other) && other.at_most(self)
    }

    /// Restricts a number to the range from `low` to `high`.
    pub fn clamp(self, low: Double, high: Double) -> (r: Double)
        ensures
            r == self.clamped(low, high),
    {
        if self.below(low) {
            low
        } else if high.below(self) {
            high
        } else {
            self
        }
    }
}

/// The order of doubles is the order of the numbers that they stand for.
pub broadcast proof fn law_order_le(a: Double, b: Double)
    ensures
        #[trigger] a.le(b) <==> !a.nan() && !b.nan() && a.units() <= b.units(),
{
    lemma_grid_order(a.magnitude(), b.magnitude());
    lemma_grid_order(b.magnitude(), a.magnitude());
}

/// The strict order of doubles is the strict order of the numbers that they stand for.
pub broadcast proof fn law_order_lt(a: Double, b: Double)
    ensures
        #[trigger] a.lt(b) <==> !a.nan() && !b.nan() && a.units() < b.units(),
{
    lemma_grid_order(a.magnitude(), b.magnitude());
    lemma_grid_order(b.magnitude(), a.magnitude());
}

} // verus!
