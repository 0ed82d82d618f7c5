//! The four operations and the square root, correctly rounded.

use super::round::{bit_length, power_of_two, round, Exact};
use super::value::{Binary64, HIDDEN_BIT, INFINITE, QUIET_NAN, SIGN_BIT};
use vstd::arithmetic::power2::*;
use vstd::prelude::*;

verus! {

/// A finite magnitude as `significand * 2^exponent` units.
pub(crate) struct Parts {
    pub(crate) significand: u64,
    pub(crate) exponent: u64,
}

impl Parts {
    pub(crate) open spec fn of(self, magnitude: int) -> bool {
        &&& magnitude == self.exponent * HIDDEN_BIT + self.significand
        &&& Binary64::units(magnitude) == self.significand * pow2(self.exponent as nat)
        &&& self.significand < 2 * HIDDEN_BIT
        &&& self.exponent <= 2045
        &&& self.exponent > 0 ==> self.significand >= HIDDEN_BIT
        &&& (self.significand == 0) == (magnitude == 0)
    }
}

pub(crate) fn parts(magnitude: u64) -> (r: Parts)
    requires
        magnitude < INFINITE,
    ensures
        r.of(magnitude as int),
{
    let biased: u64 = magnitude / HIDDEN_BIT;
    let fraction: u64 = magnitude % HIDDEN_BIT;
    let r = if biased == 0 {
        Parts { significand: fraction, exponent: 0 }
    } else {
        Parts { significand: fraction + HIDDEN_BIT, exponent: biased - 1 }
    };
    proof {
        super::value::lemma_units_of_parts(r.exponent as int, r.significand as int);
    }
    r
}

impl Binary64 {
    pub fn is_negative(self) -> (r: bool)
        ensures
            r == self.negative(),
    {
        self.bits >= SIGN_BIT
    }

    /// The bit pattern without its sign bit.
    pub(crate) fn absolute(self) -> (r: u64)
        ensures
            r == self.magnitude(),
            r < SIGN_BIT,
    {
        if self.bits >= SIGN_BIT {
            self.bits - SIGN_BIT
        } else {
            self.bits
        }
    }

    pub(crate) fn with_sign(negative: bool, magnitude: u64) -> (r: Binary64)
        requires
            magnitude < SIGN_BIT,
        ensures
            r == Self::compose(negative, magnitude as int),
            r.negative() == negative,
            r.magnitude() == magnitude,
    {
        if negative {
            Binary64 { bits: magnitude + SIGN_BIT }
        } else {
            Binary64 { bits: magnitude }
        }
    }

    pub fn is_nan(self) -> (r: bool)
        ensures
            r == self.nan(),
    {
        self.absolute() > INFINITE
    }

    pub fn is_finite(self) -> (r: bool)
        ensures
            r == self.finite(),
    {
        self.absolute() < INFINITE
    }

    pub fn negate(self) -> (r: Binary64)
        ensures
            r == self.negated(),
    {
        Self::with_sign(!self.is_negative(), self.absolute())
    }

    /// `self * other`.
    pub fn product(self, other: Binary64) -> (r: Binary64)
        ensures
            r == self.times(other),
    {
        let negative: bool = self.is_negative() != other.is_negative();
        let a: u64 = self.absolute();
        let b: u64 = other.absolute();
        if a > INFINITE || b > INFINITE {
            return Binary64 { bits: QUIET_NAN };
        }
        proof {
            lemma_units_zero(a as int);
            lemma_units_zero(b as int);
        }
        if a == INFINITE || b == INFINITE {
            if a == 0 || b == 0 {
                return Binary64 { bits: QUIET_NAN };
            }
            return Self::with_sign(negative, INFINITE);
        }
        let pa = parts(a);
        let pb = parts(b);
        proof {
            lemma2_to64_rest();
            assert(0 <= pa.significand * pb.significand < 0x80_0000_0000_0000 * 0x80_0000_0000_0000)
                by (nonlinear_arith)
                requires
                    pa.significand < 0x80_0000_0000_0000,
                    pb.significand < 0x80_0000_0000_0000,
            ;
            lemma_pow2_adds(63, 64);
        }
        let e = Exact {
            quotient: (pa.significand as u128) * (pb.significand as u128),
            exponent: pa.exponent as i64 + pb.exponent as i64 - 1074,
            sticky: false,
        };
        let m: u64 = round(e);
        proof {
            lemma_product(pa.significand as int, pa.exponent as int, pb.significand as int,
                pb.exponent as int, e);
            super::round::lemma_rounds_to_nearest(
                e,
                m as int,
                Self::units(a as int) * Self::units(b as int),
                pow2(1074) as int,
            );
        }
        Self::with_sign(negative, m)
    }
}

/// Only magnitude zero stands for zero.
pub(crate) proof fn lemma_units_zero(magnitude: int)
    requires
        magnitude >= 0,
    ensures
        Binary64::units(magnitude) >= 0,
        Binary64::units(magnitude) == 0 <==> magnitude == 0,
{
    super::value::lemma_units_of_parts(0, 0);
    if magnitude > 0 {
        super::value::lemma_units_increase(0, magnitude);
    }
}

proof fn lemma_product(na: int, ja: int, nb: int, jb: int, e: Exact)
    requires
        ja >= 0,
        jb >= 0,
        e.quotient == na * nb,
        e.exponent == ja + jb - 1074,
        !e.sticky,
    ensures
        e.stands_for((na * pow2(ja as nat)) * (nb * pow2(jb as nat)), pow2(1074) as int),
        pow2(1074) > 0,
{
    let a = pow2(ja as nat) as int;
    let b = pow2(jb as nat) as int;
    let den = pow2(1074) as int;
    let raise = e.raise();
    let lower = e.lower();
    lemma2_to64();
    lemma_pow2_pos(1074);
    lemma_pow2_adds(ja as nat, jb as nat);
    if e.exponent >= 0 {
        lemma_pow2_adds(e.exponent as nat, 1074);
    } else {
        lemma_pow2_adds((ja + jb) as nat, (-e.exponent) as nat);
    }
    assert(a * b * lower == raise * den) by (nonlinear_arith)
        requires
            if e.exponent >= 0 {
                lower == 1 && a * b == raise * den
            } else {
                raise == 1 && a * b * lower == den
            },
    ;
    let n = na * nb;
    let ab = a * b;
    assert((na * a) * (nb * b) == n * ab) by (nonlinear_arith)
        requires
            n == na * nb,
            ab == a * b,
    ;
    assert((n * ab) * lower == n * (ab * lower)) by (nonlinear_arith);
    assert(n * (raise * den) == n * raise * den) by (nonlinear_arith);
}

impl Binary64 {
    /// `self / other`.
    pub fn quotient(self, other: Binary64) -> (r: Binary64)
        ensures
            r == self.over(other),
    {
        let negative: bool = self.is_negative() != other.is_negative();
        let a: u64 = self.absolute();
        let b: u64 = other.absolute();
        if a > INFINITE || b > INFINITE {
            return Binary64 { bits: QUIET_NAN };
        }
        proof {
            lemma_units_zero(a as int);
            lemma_units_zero(b as int);
        }
        if a == INFINITE {
            if b == INFINITE {
                return Binary64 { bits: QUIET_NAN };
            }
            return Self::with_sign(negative, INFINITE);
        }
        if b == INFINITE {
            return Self::with_sign(negative, 0);
        }
        if b == 0 {
            if a == 0 {
                return Binary64 { bits: QUIET_NAN };
            }
            return Self::with_sign(negative, INFINITE);
        }
        let pa = parts(a);
        let pb = parts(b);
        let e = if a == 0 {
            Exact { quotient: 0, exponent: 0, sticky: false }
        } else {
            divide(&pa, &pb)
        };
        proof {
            lemma2_to64();
            lemma_pow2_pos(127);
            if a == 0 {
                assert(0 * pow2(1074) * e.lower() == 0) by (nonlinear_arith);
                assert(0 * e.raise() * Self::units(b as int) == 0) by (nonlinear_arith);
            }
        }
        let m: u64 = round(e);
        proof {
            super::round::lemma_rounds_to_nearest(
                e,
                m as int,
                Self::units(a as int) * pow2(1074),
                Self::units(b as int),
            );
        }
        Self::with_sign(negative, m)
    }
}

/// The significand shifted up to 53 bits.
fn normalize(significand: u64) -> (r: (u64, u32))
    requires
        0 < significand < 2 * HIDDEN_BIT,
    ensures
        HIDDEN_BIT <= r.0 < 2 * HIDDEN_BIT,
        r.1 <= 52,
        r.0 == significand * pow2(r.1 as nat),
{
    proof {
        lemma2_to64();
        lemma2_to64_rest();
        lemma_pow2_strictly_increases(64, 127);
    }
    let len: u32 = bit_length(significand as u128);
    proof {
        if len > 53 {
            if len > 54 {
                lemma_pow2_strictly_increases(53, (len - 1) as nat);
            }
        }
        lemma_pow2_adds(len as nat, (53 - len) as nat);
        lemma_pow2_adds((len - 1) as nat, (53 - len) as nat);
        let t = pow2((53 - len) as nat) as int;
        lemma_pow2_pos((53 - len) as nat);
        assert(pow2((len - 1) as nat) * t <= significand * t < pow2(len as nat) * t)
            by (nonlinear_arith)
            requires
                pow2((len - 1) as nat) <= significand < pow2(len as nat),
                t > 0,
        ;
    }
    let up: u32 = 53 - len;
    let t: u128 = power_of_two(up);
    (((significand as u128) * t) as u64, up)
}

/// The quotient of two positive numbers, to 72 bits or more.
fn divide(a: &Parts, b: &Parts) -> (e: Exact)
    requires
        0 < a.significand < 2 * HIDDEN_BIT,
        0 < b.significand < 2 * HIDDEN_BIT,
        a.exponent <= 2045,
        b.exponent <= 2045,
    ensures
        e.fits(),
        e.stands_for(
            (a.significand * pow2(a.exponent as nat)) * pow2(1074),
            b.significand * pow2(b.exponent as nat),
        ),
{
    let (n, up) = normalize(a.significand);
    proof {
        lemma2_to64();
        lemma2_to64_rest();
        lemma_pow2_adds(53, 73);
        lemma_pow2_adds(52, 73);
        lemma_pow2_adds(53, 72);
        lemma_pow2_strictly_increases(126, 127);
        lemma_pow2_strictly_increases(54, 72);
        lemma_pow2_adds(63, 64);
    }
    let t: u128 = power_of_two(73);
    proof {
        assert(pow2(52) == HIDDEN_BIT && pow2(53) == 2 * HIDDEN_BIT);
        assert(pow2(52) * t <= n * t < pow2(53) * t) by (nonlinear_arith)
            requires
                pow2(52) <= n < pow2(53),
                t > 0,
        ;
    }
    let d: u128 = (n as u128) * t;
    let divisor: u128 = b.significand as u128;
    let quotient: u128 = d / divisor;
    let rest: u128 = d % divisor;
    let e = Exact {
        quotient,
        exponent: a.exponent as i64 - up as i64 - 73 - b.exponent as i64 + 1074,
        sticky: rest != 0,
    };
    proof {
        assert(pow2(125) == pow2(52) * pow2(73) && pow2(125) == pow2(53) * pow2(72));
        assert(quotient >= pow2(72)) by (nonlinear_arith)
            requires
                quotient == d / divisor,
                d >= pow2(53) * pow2(72),
                0 < divisor < pow2(53),
        ;
        assert(quotient <= d) by (nonlinear_arith)
            requires
                quotient == d / divisor,
                0 < divisor,
        ;
        assert(d == divisor * quotient + rest) by {
            vstd::arithmetic::div_mod::lemma_fundamental_div_mod(d as int, divisor as int);
        }
        lemma_quotient(a.significand as int, a.exponent as int, b.significand as int,
            b.exponent as int, up as int, d as int, rest as int, e);
    }
    e
}

proof fn lemma_quotient(na: int, ja: int, nb: int, jb: int, up: int, d: int, rest: int, e: Exact)
    requires
        ja >= 0,
        jb >= 0,
        up >= 0,
        nb > 0,
        d == (na * pow2(up as nat)) * pow2(73),
        d == nb * e.quotient + rest,
        0 <= rest < nb,
        e.exponent == ja - up - 73 - jb + 1074,
        e.sticky == (rest != 0),
    ensures
        e.stands_for((na * pow2(ja as nat)) * pow2(1074), nb * pow2(jb as nat)),
{
    let q = e.quotient as int;
    let raise = e.raise();
    let lower = e.lower();
    let a = pow2(ja as nat) as int;
    let b = pow2(jb as nat) as int;
    let num = (na * a) * pow2(1074);
    let den = nb * b;
    lemma2_to64();
    lemma_pow2_adds(ja as nat, 1074);
    lemma_pow2_adds(up as nat, 73);
    let lead = pow2((up + 73) as nat) as int;
    assert(num == na * pow2((ja + 1074) as nat)) by (nonlinear_arith)
        requires
            num == (na * a) * pow2(1074),
            pow2((ja + 1074) as nat) == a * pow2(1074),
    ;
    assert(d == na * lead) by (nonlinear_arith)
        requires
            d == (na * pow2(up as nat)) * pow2(73),
            lead == pow2(up as nat) * pow2(73),
    ;
    // One weight `w` scales both sides.
    let w = if e.exponent >= 0 {
        pow2((e.exponent + jb) as nat) as int
    } else {
        b
    };
    lemma_pow2_pos(jb as nat);
    if e.exponent >= 0 {
        lemma_pow2_adds(e.exponent as nat, jb as nat);
        lemma_pow2_pos((e.exponent + jb) as nat);
        lemma_pow2_adds((up + 73) as nat, (e.exponent + jb) as nat);
        assert(num * lower == d * w) by (nonlinear_arith)
            requires
                lower == 1,
                num == na * (lead * w),
                d == na * lead,
        ;
        assert(raise * den == nb * w) by (nonlinear_arith)
            requires
                w == raise * b,
                den == nb * b,
        ;
    } else {
        lemma_pow2_adds((ja + 1074) as nat, (-e.exponent) as nat);
        lemma_pow2_adds((up + 73) as nat, jb as nat);
        let lift = pow2((ja + 1074) as nat) as int;
        assert(num * lower == d * w) by (nonlinear_arith)
            requires
                num == na * lift,
                lift * lower == lead * w,
                d == na * lead,
        ;
        assert(raise * den == nb * w) by (nonlinear_arith)
            requires
                raise == 1,
                den == nb * b,
                w == b,
        ;
    }
    assert(q * raise * den == q * (raise * den)) by (nonlinear_arith);
    assert((q + 1) * raise * den == (q + 1) * (raise * den)) by (nonlinear_arith);
    assert(d * w == q * (nb * w) + rest * w) by (nonlinear_arith)
        requires
            d == nb * q + rest,
    ;
    assert((q + 1) * (nb * w) == q * (nb * w) + nb * w) by (nonlinear_arith);
    assert(0 <= rest * w < nb * w) by (nonlinear_arith)
        requires
            0 <= rest < nb,
            w > 0,
    ;
    if rest != 0 {
        assert(rest * w > 0) by (nonlinear_arith)
            requires
                rest > 0,
                w > 0,
        ;
    } else {
        assert(rest * w == 0) by (nonlinear_arith)
            requires
                rest == 0,
        ;
    }
}

/// The sum (or difference) of a number and a smaller one.
fn combine(big: &Parts, small: &Parts, subtract: bool) -> (e: Exact)
    requires
        0 < big.significand < 2 * HIDDEN_BIT,
        small.significand < 2 * HIDDEN_BIT,
        small.exponent <= big.exponent <= 2045,
        big.exponent > 0 ==> big.significand >= HIDDEN_BIT,
        subtract ==> small.significand * pow2(small.exponent as nat) <= big.significand * pow2(
            big.exponent as nat,
        ),
    ensures
        e.fits(),
        e.stands_for(
            big.significand * pow2(big.exponent as nat) + (if subtract {
                -(small.significand * pow2(small.exponent as nat))
            } else {
                small.significand * pow2(small.exponent as nat) as int
            }),
            1,
        ),
{
    let gap: u64 = big.exponent - small.exponent;
    proof {
        lemma2_to64();
        lemma2_to64_rest();
        lemma_pow2_adds(53, 72);
        lemma_pow2_adds(52, 72);
        lemma_pow2_adds(60, 64);
        lemma_pow2_adds(61, 64);
        lemma_pow2_adds(63, 64);
    }
    let ghost n1 = big.significand as int;
    let ghost n2 = small.significand as int;
    let ghost signed = if subtract {
        -n2
    } else {
        n2
    };
    let ghost low = pow2(small.exponent as nat) as int;
    if gap <= 72 {
        let t: u128 = power_of_two(gap as u32);
        proof {
            if gap < 72 {
                lemma_pow2_strictly_increases(gap as nat, 72);
            }
            lemma_pow2_pos(gap as nat);
            assert(0 <= n1 * t < pow2(53) * pow2(72)) by (nonlinear_arith)
                requires
                    0 <= n1 < pow2(53),
                    0 < t <= pow2(72),
            ;
            lemma_pow2_adds(gap as nat, small.exponent as nat);
            lemma_pow2_pos(small.exponent as nat);
            assert((n1 * t) * low == n1 * pow2(big.exponent as nat)) by (nonlinear_arith)
                requires
                    pow2(big.exponent as nat) == t * low,
            ;
            if subtract {
                assert(n2 <= n1 * t) by (nonlinear_arith)
                    requires
                        n2 * low <= (n1 * t) * low,
                        low > 0,
                ;
            }
        }
        let shifted: u128 = (big.significand as u128) * t;
        let quotient: u128 = if subtract {
            shifted - small.significand as u128
        } else {
            shifted + small.significand as u128
        };
        let e = Exact { quotient, exponent: small.exponent as i64, sticky: false };
        proof {
            assert(quotient == n1 * t + signed);
            assert(quotient * low == (n1 * t) * low + signed * low) by (nonlinear_arith)
                requires
                    quotient == n1 * t + signed,
            ;
            assert(signed * low == (if subtract {
                -(n2 * low)
            } else {
                n2 * low
            })) by (nonlinear_arith)
                requires
                    signed == if subtract {
                        -n2
                    } else {
                        n2
                    },
            ;
            lemma_whole(e, quotient * low);
        }
        e
    } else {
        let t: u128 = power_of_two(72);
        proof {
            assert(pow2(52) * t <= n1 * t < pow2(53) * t) by (nonlinear_arith)
                requires
                    pow2(52) <= n1 < pow2(53),
                    t > 0,
            ;
        }
        let drop: u64 = gap - 72;
        let shifted: u128 = (big.significand as u128) * t;
        let (kept, lost) = if drop >= 64 {
            (0u64, small.significand)
        } else {
            let s: u128 = power_of_two(drop as u32);
            proof {
                vstd::arithmetic::div_mod::lemma_fundamental_div_mod(n2, s as int);
                assert(n2 / (s as int) <= n2 && n2 % (s as int) <= n2) by (nonlinear_arith)
                    requires
                        s > 0,
                        n2 >= 0,
                ;
            }
            let wide: u128 = small.significand as u128;
            ((wide / s) as u64, (wide % s) as u64)
        };
        let ghost s = pow2(drop as nat) as int;
        proof {
            if drop >= 64 {
                if drop > 64 {
                    lemma_pow2_strictly_increases(64, drop as nat);
                }
            }
            assert(n2 == kept * s + lost && 0 <= lost < s) by (nonlinear_arith)
                requires
                    if drop >= 64 {
                        kept == 0 && lost == n2 && n2 < s
                    } else {
                        n2 == s * kept + lost && 0 <= lost < s
                    },
            ;
        }
        let quotient: u128 = if !subtract {
            shifted + kept as u128
        } else if lost != 0 {
            shifted - kept as u128 - 1
        } else {
            shifted - kept as u128
        };
        let e = Exact { quotient, exponent: big.exponent as i64 - 72, sticky: lost != 0 };
        proof {
            lemma_combine_far(n1, n2, kept as int, lost as int, big.exponent as int,
                small.exponent as int, drop as int, subtract, e);
        }
        e
    }
}

/// A whole number of steps stands for itself.
proof fn lemma_whole(e: Exact, num: int)
    requires
        e.exponent >= 0,
        !e.sticky,
        num == e.quotient * pow2(e.exponent as nat),
    ensures
        e.stands_for(num, 1),
{
    lemma2_to64();
    assert(e.quotient * e.raise() * 1 == num && num * e.lower() == num) by (nonlinear_arith)
        requires
            e.lower() == 1,
            num == e.quotient * e.raise(),
    ;
}

/// Far apart: the smaller number is cut at the last kept bit of the larger.
proof fn lemma_combine_far(
    n1: int,
    n2: int,
    kept: int,
    lost: int,
    j1: int,
    j2: int,
    drop: int,
    subtract: bool,
    e: Exact,
)
    requires
        j2 >= 0,
        drop >= 1,
        j1 == j2 + 72 + drop,
        n2 == kept * pow2(drop as nat) + lost,
        0 <= lost < pow2(drop as nat),
        e.exponent == j1 - 72,
        e.sticky == (lost != 0),
        e.quotient == (if !subtract {
            n1 * pow2(72) + kept
        } else if lost != 0 {
            n1 * pow2(72) - kept - 1
        } else {
            n1 * pow2(72) - kept
        }),
    ensures
        e.stands_for(
            n1 * pow2(j1 as nat) + (if subtract {
                -(n2 * pow2(j2 as nat))
            } else {
                n2 * pow2(j2 as nat)
            }),
            1,
        ),
{
    lemma2_to64();
    let low = pow2(j2 as nat) as int;
    let s = pow2(drop as nat) as int;
    let raise = pow2((j1 - 72) as nat) as int;
    let t = pow2(72) as int;
    lemma_pow2_pos(j2 as nat);
    lemma_pow2_adds(drop as nat, j2 as nat);
    lemma_pow2_adds(72, (j1 - 72) as nat);
    let q = e.quotient as int;
    let big = n1 * pow2(j1 as nat);
    let small = n2 * low;
    let cut = lost * low;
    assert(big == (n1 * t) * raise) by (nonlinear_arith)
        requires
            big == n1 * pow2(j1 as nat),
            pow2(j1 as nat) == t * raise,
    ;
    assert(small == kept * raise + cut) by (nonlinear_arith)
        requires
            small == n2 * low,
            n2 == kept * s + lost,
            raise == s * low,
            cut == lost * low,
    ;
    assert(0 <= cut < raise) by (nonlinear_arith)
        requires
            cut == lost * low,
            0 <= lost < s,
            low > 0,
            raise == s * low,
    ;
    if lost != 0 {
        assert(cut > 0) by (nonlinear_arith)
            requires
                cut == lost * low,
                lost > 0,
                low > 0,
        ;
    } else {
        assert(cut == 0) by (nonlinear_arith)
            requires
                cut == lost * low,
                lost == 0,
        ;
    }
    let num = if subtract {
        big - small
    } else {
        big + small
    };
    assert(q * raise * 1 == q * raise && (q + 1) * raise * 1 == q * raise + raise && num * e.lower()
        == num) by (nonlinear_arith)
        requires
            e.lower() == 1,
    ;
    let nt = n1 * t;
    assert((nt + kept) * raise == nt * raise + kept * raise) by (nonlinear_arith);
    assert((nt - kept) * raise == nt * raise - kept * raise) by (nonlinear_arith);
    assert((nt - kept - 1) * raise == nt * raise - kept * raise - raise) by (nonlinear_arith);
}

/// A larger magnitude has no smaller exponent.
proof fn lemma_exponents_ordered(a: Parts, b: Parts, ma: int, mb: int)
    requires
        a.of(ma),
        b.of(mb),
        mb <= ma,
    ensures
        b.exponent <= a.exponent,
{
    if a.exponent < b.exponent {
        let h = HIDDEN_BIT as int;
        assert(b.exponent * h >= (a.exponent + 1) * h) by (nonlinear_arith)
            requires
                a.exponent + 1 <= b.exponent,
                h > 0,
        ;
        assert((a.exponent + 1) * h == a.exponent * h + h) by (nonlinear_arith);
    }
}

impl Binary64 {
    /// `self + other`.
    pub fn sum(self, other: Binary64) -> (r: Binary64)
        ensures
            r == self.plus(other),
    {
        let a: u64 = self.absolute();
        let b: u64 = other.absolute();
        if a > INFINITE || b > INFINITE {
            return Binary64 { bits: QUIET_NAN };
        }
        if a == INFINITE {
            if b == INFINITE && self.is_negative() != other.is_negative() {
                return Binary64 { bits: QUIET_NAN };
            }
            return self;
        }
        if b == INFINITE {
            return other;
        }
        proof {
            lemma_units_zero(a as int);
            lemma_units_zero(b as int);
            if a < b {
                super::value::lemma_units_increase(a as int, b as int);
            } else if b < a {
                super::value::lemma_units_increase(b as int, a as int);
            }
        }
        let subtract: bool = self.is_negative() != other.is_negative();
        if a == b && (subtract || a == 0) {
            return Self::with_sign(self.is_negative() && other.is_negative(), 0);
        }
        let (negative, big, small) = if a >= b {
            (self.is_negative(), a, b)
        } else {
            (other.is_negative(), b, a)
        };
        let p = parts(big);
        let s = parts(small);
        proof {
            lemma_exponents_ordered(p, s, big as int, small as int);
        }
        let e = combine(&p, &s, subtract);
        let m: u64 = round(e);
        proof {
            let total = self.value() + other.value();
            let size = if total < 0 {
                -total
            } else {
                total
            };
            super::round::lemma_rounds_to_nearest(e, m as int, size, 1);
        }
        Self::with_sign(negative, m)
    }

    /// `self - other`.
    pub fn difference(self, other: Binary64) -> (r: Binary64)
        ensures
            r == self.minus(other),
    {
        self.sum(other.negate())
    }
}

/// The integer part of a square root.
fn integer_root(n: u128) -> (r: u64)
    requires
        n < pow2(125),
    ensures
        r * r <= n < (r + 1) * (r + 1),
        r < pow2(63),
{
    proof {
        lemma2_to64();
        lemma2_to64_rest();
        lemma_pow2_adds(63, 62);
    }
    let mut low: u64 = 0;
    let mut high: u64 = 0x8000_0000_0000_0000;
    proof {
        assert(0x8000_0000_0000_0000 * 0x8000_0000_0000_0000 == pow2(63) * pow2(63));
        assert(pow2(63) * pow2(62) <= pow2(63) * pow2(63)) by (nonlinear_arith)
            requires
                pow2(62) <= pow2(63),
        ;
    }
    while high - low > 1
        invariant
            low < high <= 0x8000_0000_0000_0000,
            low * low <= n < high * high,
        decreases high - low,
    {
        let mid: u64 = low + (high - low) / 2;
        proof {
            assert(mid * mid <= 0x8000_0000_0000_0000 * 0x8000_0000_0000_0000) by (nonlinear_arith)
                requires
                    0 <= mid <= 0x8000_0000_0000_0000,
            ;
        }
        if (mid as u128) * (mid as u128) <= n {
            low = mid;
        } else {
            high = mid;
        }
    }
    low
}

impl Binary64 {
    /// The square root.
    pub fn square_root(self) -> (r: Binary64)
        ensures
            r == self.root(),
    {
        let a: u64 = self.absolute();
        if a > INFINITE {
            return Binary64 { bits: QUIET_NAN };
        }
        if a == 0 {
            return self;
        }
        if self.is_negative() {
            return Binary64 { bits: QUIET_NAN };
        }
        if a == INFINITE {
            return self;
        }
        let p = parts(a);
        let (n, up) = normalize(p.significand);
        // The radicand is `n` shifted by 71 or 72 bits, so that an even power
        // of two is left over.
        let extra: u32 = if (p.exponent + 72 - up as u64) % 2 == 0 {
            72
        } else {
            71
        };
        proof {
            lemma2_to64();
            lemma2_to64_rest();
            lemma_pow2_adds(53, 72);
            lemma_pow2_adds(52, 71);
            lemma_pow2_strictly_increases(71, 72);
            lemma_pow2_adds(63, 62);
            lemma_pow2_strictly_increases(63, 127);
            lemma_pow2_adds(54, 54);
            lemma_pow2_strictly_increases(108, 123);
        }
        let t: u128 = power_of_two(extra);
        proof {
            assert(n * t < pow2(53) * pow2(72)) by (nonlinear_arith)
                requires
                    0 <= n < pow2(53),
                    0 < t <= pow2(72),
            ;
            assert(pow2(52) * pow2(71) <= n * t) by (nonlinear_arith)
                requires
                    pow2(52) <= n,
                    pow2(71) <= t,
            ;
        }
        let radicand: u128 = (n as u128) * t;
        let quotient: u64 = integer_root(radicand);
        proof {
            assert(quotient * quotient < pow2(63) * pow2(63)) by (nonlinear_arith)
                requires
                    0 <= quotient < pow2(63),
            ;
            assert(pow2(63) * pow2(63) < u128::MAX);
            assert(quotient >= pow2(54)) by (nonlinear_arith)
                requires
                    pow2(54) * pow2(54) <= radicand,
                    radicand < (quotient + 1) * (quotient + 1),
            ;
        }
        let exponent: i64 = (p.exponent as i64 + 1074 - up as i64 - extra as i64) / 2;
        let e = Exact {
            quotient: quotient as u128,
            exponent,
            sticky: (quotient as u128) * (quotient as u128) != radicand,
        };
        let m: u64 = round(e);
        proof {
            let square = self.value() * pow2(1074);
            lemma_radicand(p.significand as int, p.exponent as int, up as int, extra as int,
                exponent as int);
            super::round::lemma_rounds_to_nearest_root(e, m as int, radicand as int, square);
        }
        Self::with_sign(false, m)
    }
}

proof fn lemma_radicand(n: int, j: int, up: int, extra: int, exponent: int)
    requires
        j >= 0,
        up >= 0,
        extra >= 0,
        exponent >= 0,
        2 * exponent == j + 1074 - up - extra,
    ensures
        (n * pow2(j as nat)) * pow2(1074) == ((n * pow2(up as nat)) * pow2(extra as nat)) * (pow2(
            exponent as nat,
        ) * pow2(exponent as nat)),
{
    lemma_pow2_adds(j as nat, 1074);
    lemma_pow2_adds(up as nat, extra as nat);
    lemma_pow2_adds(exponent as nat, exponent as nat);
    lemma_pow2_adds((up + extra) as nat, (2 * exponent) as nat);
    let a = pow2(j as nat) as int;
    let b = pow2(1074) as int;
    let u = pow2(up as nat) as int;
    let x = pow2(extra as nat) as int;
    let y = pow2((2 * exponent) as nat) as int;
    assert((n * a) * b == n * (a * b)) by (nonlinear_arith);
    assert(((n * u) * x) * y == n * ((u * x) * y)) by (nonlinear_arith);
}

} // verus!
