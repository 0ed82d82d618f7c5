//! Order, and conversion from and to integers.

use super::arith::parts;
use super::round::{power_of_two, round, Exact};
use super::value::{Binary64, INFINITE};
use vstd::arithmetic::power2::*;
use vstd::prelude::*;

verus! {

impl Binary64 {
    /// `self < other`.
    pub fn lt(self, other: Binary64) -> (r: bool)
        ensures
            r == self.less(other),
    {
        let a: u64 = self.absolute();
        let b: u64 = other.absolute();
        proof {
            lemma_units_order(a as int, b as int);
            super::arith::lemma_units_zero(a as int);
            super::arith::lemma_units_zero(b as int);
        }
        if a > INFINITE || b > INFINITE {
            false
        } else if self.is_negative() {
            if other.is_negative() {
                b < a
            } else {
                a > 0 || b > 0
            }
        } else if other.is_negative() {
            false
        } else {
            a < b
        }
    }

    /// `self <= other`.
    pub fn le(self, other: Binary64) -> (r: bool)
        ensures
            r == self.at_most(other),
    {
        !self.is_nan() && !other.is_nan() && !other.lt(self)
    }

    /// `self` restricted to `[low, high]`.
    pub fn clamp(self, low: Binary64, high: Binary64) -> (r: Binary64)
        ensures
            r == self.clamped(low, high),
    {
        if self.lt(low) {
            low
        } else if high.lt(self) {
            high
        } else {
            self
        }
    }

    /// The number nearest to `x`.
    pub fn from_u64(x: u64) -> (r: Binary64)
        ensures
            r == Self::of_integer(x as int),
            !r.negative(),
    {
        let e = Exact { quotient: x as u128, exponent: 1074, sticky: false };
        proof {
            lemma2_to64();
            lemma2_to64_rest();
            lemma_pow2_strictly_increases(64, 127);
        }
        let m: u64 = round(e);
        proof {
            assert(e.quotient * e.raise() * 1 == x * pow2(1074)) by (nonlinear_arith)
                requires
                    e.raise() == pow2(1074),
                    e.quotient == x,
            ;
            assert((x * pow2(1074)) * e.lower() == x * pow2(1074)) by (nonlinear_arith)
                requires
                    e.lower() == 1,
            ;
            super::round::lemma_rounds_to_nearest(e, m as int, x * pow2(1074), 1);
        }
        Self::with_sign(false, m)
    }

    /// The number truncated to an integer, saturated; zero for NaN.
    pub fn to_u64(self) -> (r: u64)
        ensures
            r == self.truncated(u64::MAX as int),
    {
        let a: u64 = self.absolute();
        if a > INFINITE || self.is_negative() {
            return 0;
        }
        if a == INFINITE {
            return u64::MAX;
        }
        let p = parts(a);
        let ghost n = p.significand as int;
        let ghost one = pow2(1074) as int;
        proof {
            lemma2_to64();
            lemma2_to64_rest();
            lemma_pow2_pos(1074);
        }
        if p.exponent >= 1074 {
            let up: u64 = p.exponent - 1074;
            proof {
                lemma_pow2_adds(up as nat, 1074);
                lemma_pow2_pos(up as nat);
                let t = pow2(up as nat) as int;
                assert(self.value() == (n * t) * one) by (nonlinear_arith)
                    requires
                        self.value() == n * pow2(p.exponent as nat),
                        pow2(p.exponent as nat) == t * one,
                ;
                vstd::arithmetic::div_mod::lemma_div_by_multiple(n * t, one);
            }
            if up >= 12 {
                proof {
                    lemma_pow2_adds(52, 12);
                    if up > 12 {
                        lemma_pow2_strictly_increases(12, up as nat);
                    }
                    let t = pow2(up as nat) as int;
                    assert(n * t >= pow2(52) * pow2(12)) by (nonlinear_arith)
                        requires
                            n >= pow2(52),
                            t >= pow2(12),
                    ;
                }
                return u64::MAX;
            }
            let t: u128 = power_of_two(up as u32);
            proof {
                lemma_pow2_adds(53, 11);
                if up < 11 {
                    lemma_pow2_strictly_increases(up as nat, 11);
                }
                assert(0 <= n * t < pow2(53) * pow2(11)) by (nonlinear_arith)
                    requires
                        0 <= n < pow2(53),
                        0 < t <= pow2(11),
                ;
            }
            ((p.significand as u128) * t) as u64
        } else {
            let down: u64 = 1074 - p.exponent;
            proof {
                lemma_pow2_adds(down as nat, p.exponent as nat);
                lemma_pow2_pos(down as nat);
                lemma_pow2_pos(p.exponent as nat);
                let low = pow2(p.exponent as nat) as int;
                let s = pow2(down as nat) as int;
                vstd::arithmetic::div_mod::lemma_div_denominator(n * low, low, s);
                vstd::arithmetic::div_mod::lemma_div_by_multiple(n, low);
                assert(low * s == one) by (nonlinear_arith)
                    requires
                        one == s * low,
                ;
                assert(self.value() / one == n / s);
            }
            if down >= 64 {
                proof {
                    if down > 64 {
                        lemma_pow2_strictly_increases(64, down as nat);
                    }
                    let s = pow2(down as nat) as int;
                    vstd::arithmetic::div_mod::lemma_basic_div(n, s);
                }
                return 0;
            }
            let s: u128 = power_of_two(down as u32);
            proof {
                assert(0 <= n / (s as int) <= n) by (nonlinear_arith)
                    requires
                        n >= 0,
                        s > 0,
                ;
            }
            ((p.significand as u128) / s) as u64
        }
    }

    /// The number truncated to an integer of 32 bits, saturated; zero for NaN.
    pub fn to_u32(self) -> (r: u32)
        ensures
            r == self.truncated(u32::MAX as int),
    {
        let wide: u64 = self.to_u64();
        if wide > u32::MAX as u64 {
            u32::MAX
        } else {
            wide as u32
        }
    }
}

/// Magnitudes are ordered as the numbers that they stand for.
pub(crate) proof fn lemma_units_order(a: int, b: int)
    requires
        0 <= a,
        0 <= b,
    ensures
        a < b <==> Binary64::units(a) < Binary64::units(b),
        a == b <==> Binary64::units(a) == Binary64::units(b),
{
    if a < b {
        super::value::lemma_units_increase(a, b);
    } else if b < a {
        super::value::lemma_units_increase(b, a);
    }
}

} // verus!
