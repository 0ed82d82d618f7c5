//! What a bit pattern stands for, and what rounding to nearest means.

use vstd::arithmetic::power2::*;
use vstd::prelude::*;

verus! {

/// The sign bit.
pub const SIGN_BIT: u64 = 0x8000_0000_0000_0000;

/// The magnitude of infinity; larger magnitudes are NaN.
pub const INFINITE: u64 = 0x7ff0_0000_0000_0000;

/// The magnitude of the NaN that operations return.
pub const QUIET_NAN: u64 = 0x7ff8_0000_0000_0000;

/// The weight of the implicit leading bit: two to the power 52.
pub const HIDDEN_BIT: u64 = 0x10_0000_0000_0000;

/// An IEEE 754 binary64 number, held as its bit pattern.
///
/// `==` compares bit patterns; the numeric order is [`Binary64::lt`] and
/// [`Binary64::le`].
#[derive(Clone, Copy, Debug, PartialEq, Eq, Structural)]
pub struct Binary64 {
    /// Sign, biased exponent and fraction, from the most significant bit down.
    pub bits: u64,
}

impl Binary64 {
    /// Whether the sign bit is set.
    pub open spec fn negative(self) -> bool {
        self.bits >= SIGN_BIT
    }

    /// The bit pattern without its sign bit.
    pub open spec fn magnitude(self) -> int {
        if self.negative() {
            self.bits - SIGN_BIT
        } else {
            self.bits as int
        }
    }

    pub open spec fn nan(self) -> bool {
        self.magnitude() > INFINITE
    }

    pub open spec fn infinite(self) -> bool {
        self.magnitude() == INFINITE
    }

    pub open spec fn finite(self) -> bool {
        self.magnitude() < INFINITE
    }

    /// The number that a magnitude stands for, counted in units of the
    /// smallest positive number (two to the power -1074).
    ///
    /// Infinity is given the number that would follow the largest finite one:
    /// rounding to nearest overflows exactly when that number is the nearest.
    pub open spec fn units(magnitude: int) -> int {
        let exponent = magnitude / (HIDDEN_BIT as int);
        let fraction = magnitude % (HIDDEN_BIT as int);
        if exponent == 0 {
            fraction
        } else {
            (HIDDEN_BIT + fraction) * pow2((exponent - 1) as nat)
        }
    }

    /// The number that a finite bit pattern stands for, in the same units.
    pub open spec fn value(self) -> int {
        if self.negative() {
            -Self::units(self.magnitude())
        } else {
            Self::units(self.magnitude())
        }
    }

    /// The bit pattern with the given sign and magnitude.
    pub open spec fn compose(negative: bool, magnitude: int) -> Binary64 {
        Binary64 {
            bits: if negative {
                (magnitude + SIGN_BIT) as u64
            } else {
                magnitude as u64
            },
        }
    }

    pub open spec fn not_a_number() -> Binary64 {
        Binary64 { bits: QUIET_NAN }
    }

    pub open spec fn negated(self) -> Binary64 {
        Self::compose(!self.negative(), self.magnitude())
    }

    /// Twice the point halfway between a magnitude and the next one.
    pub open spec fn midpoint(magnitude: int) -> int {
        Self::units(magnitude) + Self::units(magnitude + 1)
    }

    /// Whether `magnitude` is the one nearest to the non-negative number
    /// `num / den` units, the even one of two that are equally near.
    pub open spec fn nearest(num: int, den: int, magnitude: int) -> bool {
        let even = magnitude % 2 == 0;
        &&& 0 <= magnitude <= INFINITE
        &&& magnitude > 0 ==> {
            ||| Self::midpoint(magnitude - 1) * den < 2 * num
            ||| even && Self::midpoint(magnitude - 1) * den == 2 * num
        }
        &&& magnitude < INFINITE ==> {
            ||| 2 * num < Self::midpoint(magnitude) * den
            ||| even && 2 * num == Self::midpoint(magnitude) * den
        }
    }

    /// The magnitude nearest to `num / den` units.
    pub open spec fn rounded(num: int, den: int) -> int {
        choose|magnitude: int| Self::nearest(num, den, magnitude)
    }

    /// Whether `magnitude` is the one nearest to the square root of `square`
    /// square units, the even one of two that are equally near.
    pub open spec fn nearest_root(square: int, magnitude: int) -> bool {
        let even = magnitude % 2 == 0;
        &&& 0 <= magnitude <= INFINITE
        &&& magnitude > 0 ==> {
            let below = Self::midpoint(magnitude - 1);
            ||| below * below < 4 * square
            ||| even && below * below == 4 * square
        }
        &&& magnitude < INFINITE ==> {
            let above = Self::midpoint(magnitude);
            ||| 4 * square < above * above
            ||| even && 4 * square == above * above
        }
    }

    /// The magnitude nearest to the square root of `square` square units.
    pub open spec fn rounded_root(square: int) -> int {
        choose|magnitude: int| Self::nearest_root(square, magnitude)
    }

    /// The sum, rounded to nearest.
    pub open spec fn plus(self, other: Binary64) -> Binary64 {
        let sum = self.value() + other.value();
        if self.nan() || other.nan() {
            Self::not_a_number()
        } else if self.infinite() {
            if other.infinite() && self.negative() != other.negative() {
                Self::not_a_number()
            } else {
                self
            }
        } else if other.infinite() {
            other
        } else if sum == 0 {
            Self::compose(self.negative() && other.negative(), 0)
        } else {
            Self::compose(sum < 0, Self::rounded(if sum < 0 { -sum } else { sum }, 1))
        }
    }

    /// The difference, rounded to nearest.
    pub open spec fn minus(self, other: Binary64) -> Binary64 {
        self.plus(other.negated())
    }

    /// The product, rounded to nearest.
    pub open spec fn times(self, other: Binary64) -> Binary64 {
        let negative = self.negative() != other.negative();
        let a = Self::units(self.magnitude());
        let b = Self::units(other.magnitude());
        if self.nan() || other.nan() {
            Self::not_a_number()
        } else if self.infinite() || other.infinite() {
            if a == 0 || b == 0 {
                Self::not_a_number()
            } else {
                Self::compose(negative, INFINITE as int)
            }
        } else {
            Self::compose(negative, Self::rounded(a * b, pow2(1074) as int))
        }
    }

    /// The quotient, rounded to nearest.
    pub open spec fn over(self, other: Binary64) -> Binary64 {
        let negative = self.negative() != other.negative();
        let a = Self::units(self.magnitude());
        let b = Self::units(other.magnitude());
        if self.nan() || other.nan() {
            Self::not_a_number()
        } else if self.infinite() {
            if other.infinite() {
                Self::not_a_number()
            } else {
                Self::compose(negative, INFINITE as int)
            }
        } else if other.infinite() {
            Self::compose(negative, 0)
        } else if b == 0 {
            if a == 0 {
                Self::not_a_number()
            } else {
                Self::compose(negative, INFINITE as int)
            }
        } else {
            Self::compose(negative, Self::rounded(a * pow2(1074), b))
        }
    }

    /// The square root, rounded to nearest.
    pub open spec fn root(self) -> Binary64 {
        if self.nan() {
            Self::not_a_number()
        } else if self.magnitude() == 0 {
            self
        } else if self.negative() {
            Self::not_a_number()
        } else if self.infinite() {
            self
        } else {
            Self::compose(false, Self::rounded_root(self.value() * pow2(1074)))
        }
    }

    /// Numeric `<`; false where either side is NaN.
    pub open spec fn less(self, other: Binary64) -> bool {
        &&& !self.nan()
        &&& !other.nan()
        &&& self.value() < other.value()
    }

    /// Numeric `<=`; false where either side is NaN.
    pub open spec fn at_most(self, other: Binary64) -> bool {
        &&& !self.nan()
        &&& !other.nan()
        &&& self.value() <= other.value()
    }

    /// The number itself inside `[low, high]`, else the bound that it exceeds;
    /// NaN stays as it is.
    pub open spec fn clamped(self, low: Binary64, high: Binary64) -> Binary64 {
        if self.less(low) {
            low
        } else if high.less(self) {
            high
        } else {
            self
        }
    }

    /// The number truncated towards zero and saturated to `[0, limit]`;
    /// NaN gives zero.
    pub open spec fn truncated(self, limit: int) -> int {
        let whole = self.value() / (pow2(1074) as int);
        if self.nan() || self.negative() {
            0
        } else if self.infinite() || whole > limit {
            limit
        } else {
            whole
        }
    }

    /// The number nearest to a non-negative integer.
    pub open spec fn of_integer(x: int) -> Binary64 {
        Self::compose(false, Self::rounded(x * pow2(1074), 1))
    }
}

/// The encoding of `significand * 2^exponent` units: exponent and significand
/// add up to the magnitude, the carry into the exponent included.
pub proof fn lemma_units_of_parts(exponent: int, significand: int)
    requires
        0 <= exponent,
        0 <= significand <= 2 * HIDDEN_BIT,
        exponent == 0 || significand >= HIDDEN_BIT,
    ensures
        Binary64::units(exponent * HIDDEN_BIT + significand) == significand * pow2(
            exponent as nat,
        ),
{
    let h = HIDDEN_BIT as int;
    let m = exponent * h + significand;
    lemma2_to64();
    if significand < h {
        assert(exponent == 0 && pow2(0) == 1);
        assert(m / h == 0 && m % h == significand);
        assert(significand * pow2(exponent as nat) == significand) by (nonlinear_arith)
            requires
                pow2(exponent as nat) == 1,
        ;
    } else if significand < 2 * h {
        assert(m / h == exponent + 1 && m % h == significand - h) by (nonlinear_arith)
            requires
                m == exponent * h + significand,
                h == 0x10_0000_0000_0000,
                h <= significand < 2 * h,
        ;
    } else {
        assert(m / h == exponent + 2 && m % h == 0) by (nonlinear_arith)
            requires
                m == exponent * h + significand,
                h == 0x10_0000_0000_0000,
                significand == 2 * h,
        ;
        lemma_pow2_unfold((exponent + 1) as nat);
        assert(h * pow2((exponent + 1) as nat) == (2 * h) * pow2(exponent as nat))
            by (nonlinear_arith)
            requires
                pow2((exponent + 1) as nat) == 2 * pow2(exponent as nat),
        ;
    }
}

/// Consecutive magnitudes stand for increasing numbers.
pub proof fn lemma_units_step(magnitude: int)
    requires
        0 <= magnitude,
    ensures
        0 <= Binary64::units(magnitude) < Binary64::units(magnitude + 1),
{
    let h = HIDDEN_BIT as int;
    let e = magnitude / h;
    let f = magnitude % h;
    let (exponent, significand) = if e == 0 {
        (0int, f)
    } else {
        (e - 1, f + h)
    };
    assert(magnitude == exponent * h + significand && e >= 0) by (nonlinear_arith)
        requires
            e == magnitude / h,
            f == magnitude % h,
            h == 0x10_0000_0000_0000,
            magnitude >= 0,
            e == 0 ==> exponent == 0 && significand == f,
            e != 0 ==> exponent == e - 1 && significand == f + h,
    ;
    lemma_units_of_parts(exponent, significand);
    lemma_units_of_parts(exponent, significand + 1);
    lemma_pow2_pos(exponent as nat);
    let p = pow2(exponent as nat) as int;
    assert(0 <= significand * p < (significand + 1) * p) by (nonlinear_arith)
        requires
            significand >= 0,
            p > 0,
    ;
}

/// The numbers that magnitudes stand for are ordered as the magnitudes are.
pub proof fn lemma_units_increase(a: int, b: int)
    requires
        0 <= a < b,
    ensures
        0 <= Binary64::units(a) < Binary64::units(b),
    decreases b - a,
{
    lemma_units_step(b - 1);
    lemma_units_step(a);
    if a < b - 1 {
        lemma_units_increase(a, b - 1);
    }
}

/// Two nearest magnitudes: the second is not above the first.
proof fn lemma_nearest_bound(num: int, den: int, a: int, b: int)
    requires
        den > 0,
        Binary64::nearest(num, den, a),
        Binary64::nearest(num, den, b),
    ensures
        b <= a,
{
    if a < b {
        let x = Binary64::midpoint(a);
        let y = Binary64::midpoint(b - 1);
        if a < b - 1 {
            lemma_units_increase(a, b - 1);
            lemma_units_increase(a + 1, b);
            assert(x * den < y * den) by (nonlinear_arith)
                requires
                    x < y,
                    den > 0,
            ;
        }
    }
}

/// A magnitude that is nearest is the rounded one: no other is nearest.
pub proof fn lemma_rounded(num: int, den: int, magnitude: int)
    requires
        den > 0,
        Binary64::nearest(num, den, magnitude),
    ensures
        Binary64::rounded(num, den) == magnitude,
{
    let other = Binary64::rounded(num, den);
    lemma_nearest_bound(num, den, other, magnitude);
    lemma_nearest_bound(num, den, magnitude, other);
}

/// Two magnitudes nearest to a square root: the second is not above the first.
proof fn lemma_nearest_root_bound(square: int, a: int, b: int)
    requires
        Binary64::nearest_root(square, a),
        Binary64::nearest_root(square, b),
    ensures
        b <= a,
{
    if a < b {
        let x = Binary64::midpoint(a);
        let y = Binary64::midpoint(b - 1);
        if a < b - 1 {
            lemma_units_increase(a, b - 1);
            lemma_units_increase(a + 1, b);
            assert(x * x < y * y) by (nonlinear_arith)
                requires
                    0 <= x < y,
            ;
        }
    }
}

/// A magnitude that is nearest to a square root is the rounded one.
pub proof fn lemma_rounded_root(square: int, magnitude: int)
    requires
        Binary64::nearest_root(square, magnitude),
    ensures
        Binary64::rounded_root(square) == magnitude,
{
    let other = Binary64::rounded_root(square);
    lemma_nearest_root_bound(square, other, magnitude);
    lemma_nearest_root_bound(square, magnitude, other);
}

} // verus!
