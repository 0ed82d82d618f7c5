//! Rounding to nearest: the last step of every operation.

use super::value::Binary64;
use super::value::{HIDDEN_BIT, INFINITE};
use vstd::arithmetic::power2::*;
use vstd::prelude::*;

verus! {

/// The exact result of an operation before rounding: `quotient * 2^exponent`
/// units, plus a positive part of less than one `2^exponent` where `sticky`.
#[derive(Clone, Copy)]
pub(crate) struct Exact {
    pub(crate) quotient: u128,
    pub(crate) exponent: i64,
    pub(crate) sticky: bool,
}

impl Exact {
    /// Small enough to shift; with a sticky part, long enough for that part to
    /// lie below every midpoint's last bit.
    pub(crate) open spec fn fits(self) -> bool {
        &&& self.quotient < pow2(127)
        &&& -4000 <= self.exponent <= 4000
        &&& self.sticky ==> self.quotient >= pow2(54)
    }

    /// The factor of the quotient, where the exponent is positive.
    pub(crate) open spec fn raise(self) -> int {
        pow2(if self.exponent >= 0 { self.exponent as nat } else { 0 }) as int
    }

    /// The divisor of the quotient, where the exponent is negative.
    pub(crate) open spec fn lower(self) -> int {
        pow2(if self.exponent < 0 { (-self.exponent) as nat } else { 0 }) as int
    }

    /// Whether this lies at or above `twice / 2`, and above it if `strict`.
    pub(crate) open spec fn above(self, twice: int, strict: bool) -> bool {
        if strict && !self.sticky {
            twice * self.lower() < 2 * self.quotient * self.raise()
        } else {
            twice * self.lower() <= 2 * self.quotient * self.raise()
        }
    }

    /// Whether this lies at or below `twice / 2`, and below it if `strict`.
    pub(crate) open spec fn below(self, twice: int, strict: bool) -> bool {
        if self.sticky {
            2 * (self.quotient + 1) * self.raise() <= twice * self.lower()
        } else if strict {
            2 * self.quotient * self.raise() < twice * self.lower()
        } else {
            2 * self.quotient * self.raise() <= twice * self.lower()
        }
    }

    /// Whether `magnitude` is the nearest one, the even one of two.
    pub(crate) open spec fn rounds_to(self, magnitude: int) -> bool {
        let odd = magnitude % 2 != 0;
        &&& 0 <= magnitude <= INFINITE
        &&& magnitude > 0 ==> self.above(Binary64::midpoint(magnitude - 1), odd)
        &&& magnitude < INFINITE ==> self.below(Binary64::midpoint(magnitude), odd)
    }
}

proof fn lemma_one_shifted(e: u128)
    requires
        e < 128,
    ensures
        1u128 << e == pow2(e as nat),
    decreases e,
{
    lemma2_to64();
    if e == 0 {
        assert(1u128 << 0u128 == 1u128) by (bit_vector);
    } else {
        let d = (e - 1) as u128;
        assert(1u128 << e == 2 * (1u128 << d)) by (bit_vector)
            requires
                0 < e < 128,
                d == e - 1,
        ;
        lemma_one_shifted(d);
        lemma_pow2_unfold(e as nat);
    }
}

pub(crate) fn power_of_two(e: u32) -> (r: u128)
    requires
        e < 128,
    ensures
        r == pow2(e as nat),
{
    proof {
        lemma_one_shifted(e as u128);
    }
    1u128 << (e as u128)
}

/// The number of significant bits.
pub(crate) fn bit_length(q: u128) -> (len: u32)
    requires
        0 < q < pow2(127),
    ensures
        1 <= len <= 127,
        pow2((len - 1) as nat) <= q < pow2(len as nat),
{
    let mut len: u32 = 0;
    let mut rest: u128 = q;
    proof {
        lemma2_to64();
    }
    while rest > 0
        invariant
            0 < q < pow2(127),
            rest * pow2(len as nat) <= q < (rest + 1) * pow2(len as nat),
            len <= 127,
            rest == 0 ==> len >= 1 && pow2((len - 1) as nat) <= q,
        decreases rest,
    {
        let ghost p = pow2(len as nat) as int;
        let half: u128 = rest / 2;
        proof {
            lemma_pow2_unfold((len + 1) as nat);
            assert(half * (2 * p) <= rest * p && (rest + 1) * p <= (half + 1) * (2 * p))
                by (nonlinear_arith)
                requires
                    half == rest / 2,
                    p >= 0,
            ;
            assert(rest >= 1 ==> p <= rest * p) by (nonlinear_arith)
                requires
                    p >= 0,
            ;
            if len >= 127 {
                if len > 127 {
                    lemma_pow2_strictly_increases(127, len as nat);
                }
                assert(false);
            }
        }
        rest = half;
        len = len + 1;
    }
    proof {
        assert((rest + 1) * pow2(len as nat) == pow2(len as nat)) by (nonlinear_arith)
            requires
                rest == 0,
        ;
    }
    len
}

/// Scaling the quotient by `2^shift` and splitting off what the shift drops.
proof fn lemma_scales(e: Exact, shift: int, exponent: int)
    requires
        shift == exponent - e.exponent,
        exponent >= 0,
    ensures
        e.raise() > 0,
        e.lower() > 0,
        shift >= 0 ==> pow2(exponent as nat) * e.lower() == pow2(shift as nat) * e.raise(),
        shift <= 0 ==> pow2(exponent as nat) * pow2((-shift) as nat) == e.raise() && e.lower()
            == 1,
{
    lemma2_to64();
    lemma_pow2_pos(e.exponent as nat);
    lemma_pow2_pos((-e.exponent) as nat);
    if e.exponent < 0 {
        lemma_pow2_adds(exponent as nat, (-e.exponent) as nat);
    } else if shift >= 0 {
        lemma_pow2_adds(shift as nat, e.exponent as nat);
    } else {
        lemma_pow2_adds(exponent as nat, (-shift) as nat);
    }
    if shift == 0 && e.exponent >= 0 {
        lemma_pow2_adds(exponent as nat, 0);
    }
}

/// The quotient is `n` whole steps of `2^exponent` units and `r` out of
/// `2^shift` parts of the next: rounding looks at `r` against one half.
proof fn lemma_round_split(e: Exact, exponent: int, shift: int, n: int, r: int, up: bool)
    requires
        0 <= exponent <= 2045,
        shift == exponent - e.exponent,
        shift >= 1,
        e.quotient == n * pow2(shift as nat) + r,
        0 <= r < pow2(shift as nat),
        0 <= n < 2 * HIDDEN_BIT,
        exponent == 0 || n >= HIDDEN_BIT,
        up == (2 * r > pow2(shift as nat) || (2 * r == pow2(shift as nat) && (e.sticky || n % 2
            != 0))),
    ensures
        e.rounds_to(exponent * HIDDEN_BIT + n + (if up { 1int } else { 0int })),
{
    let base = exponent * HIDDEN_BIT + n;
    let j = pow2(exponent as nat) as int;
    let s = pow2(shift as nat) as int;
    let raise = e.raise();
    let lower = e.lower();
    let q = e.quotient as int;
    let half = pow2((shift - 1) as nat) as int;
    lemma_scales(e, shift, exponent);
    lemma_pow2_unfold(shift as nat);
    lemma_units_of_parts_and_next(exponent, n);
    assert(base % 2 == n % 2) by (nonlinear_arith)
        requires
            base == exponent * 0x10_0000_0000_0000 + n,
    ;
    let middle = Binary64::midpoint(base);
    assert(middle == (2 * n + 1) * j) by (nonlinear_arith)
        requires
            middle == n * j + (n + 1) * j,
    ;
    assert(middle * lower == (2 * n + 1) * (s * raise)) by (nonlinear_arith)
        requires
            middle == (2 * n + 1) * j,
            j * lower == s * raise,
    ;
    assert((2 * n + 1) * (s * raise) == (2 * n * s + s) * raise) by (nonlinear_arith);
    assert(2 * q * raise == (2 * n * s + 2 * r) * raise) by (nonlinear_arith)
        requires
            q == n * s + r,
    ;
    assert(2 * (q + 1) * raise == (2 * n * s + 2 * r + 2) * raise) by (nonlinear_arith)
        requires
            q == n * s + r,
    ;
    assert(2 * n * j == 2 * (n * j) && 2 * (n + 1) * j == 2 * ((n + 1) * j)) by (nonlinear_arith);
    if up {
        super::value::lemma_units_step(base + 1);
        let next = Binary64::midpoint(base + 1);
        assert(2 * (q + 1) * raise <= next * lower) by {
            assert((2 * n * s + 2 * r + 2) * raise <= (2 * n * s + 2 * s) * raise)
                by (nonlinear_arith)
                requires
                    r + 1 <= s,
                    raise > 0,
            ;
            assert((2 * n * s + 2 * s) * raise == (2 * (n + 1) * j) * lower) by (nonlinear_arith)
                requires
                    j * lower == s * raise,
            ;
            assert((2 * (n + 1) * j) * lower <= next * lower) by (nonlinear_arith)
                requires
                    2 * (n + 1) * j <= next,
                    lower > 0,
            ;
        }
        assert(2 * q * raise < 2 * (q + 1) * raise) by (nonlinear_arith)
            requires
                raise > 0,
        ;
        assert((2 * n * s + s) * raise <= (2 * n * s + 2 * r) * raise) by (nonlinear_arith)
            requires
                s <= 2 * r,
                raise > 0,
        ;
        if s < 2 * r {
            assert((2 * n * s + s) * raise < (2 * n * s + 2 * r) * raise) by (nonlinear_arith)
                requires
                    s < 2 * r,
                    raise > 0,
            ;
        }
    } else {
        if base > 0 {
            super::value::lemma_units_step(base - 1);
            let previous = Binary64::midpoint(base - 1);
            assert(previous * lower < 2 * q * raise) by {
                assert(previous * lower < (2 * n * j) * lower) by (nonlinear_arith)
                    requires
                        previous < 2 * n * j,
                        lower > 0,
                ;
                assert((2 * n * j) * lower == (2 * n * s) * raise) by (nonlinear_arith)
                    requires
                        j * lower == s * raise,
                ;
                assert((2 * n * s) * raise <= (2 * n * s + 2 * r) * raise) by (nonlinear_arith)
                    requires
                        r >= 0,
                        raise > 0,
                ;
            }
        }
        if 2 * r < s {
            assert((2 * n * s + 2 * r + 2) * raise <= (2 * n * s + s) * raise)
                by (nonlinear_arith)
                requires
                    2 * r + 2 <= s,
                    raise > 0,
            ;
            assert((2 * n * s + 2 * r) * raise < (2 * n * s + s) * raise) by (nonlinear_arith)
                requires
                    2 * r < s,
                    raise > 0,
            ;
        }
    }
}

proof fn lemma_units_of_parts_and_next(exponent: int, n: int)
    requires
        0 <= exponent,
        0 <= n < 2 * HIDDEN_BIT,
        exponent == 0 || n >= HIDDEN_BIT,
    ensures
        Binary64::units(exponent * HIDDEN_BIT + n) == n * pow2(exponent as nat),
        Binary64::units(exponent * HIDDEN_BIT + n + 1) == (n + 1) * pow2(exponent as nat),
{
    super::value::lemma_units_of_parts(exponent, n);
    super::value::lemma_units_of_parts(exponent, n + 1);
}

/// The quotient is a whole number of steps: nothing is dropped.
proof fn lemma_round_exact(e: Exact, exponent: int, shift: int, n: int)
    requires
        0 <= exponent <= 2045,
        shift == exponent - e.exponent,
        shift <= 0,
        !e.sticky,
        n == e.quotient * pow2((-shift) as nat),
        0 <= n < 2 * HIDDEN_BIT,
        exponent == 0 || n >= HIDDEN_BIT,
    ensures
        e.rounds_to(exponent * HIDDEN_BIT + n),
{
    let base = exponent * HIDDEN_BIT + n;
    let j = pow2(exponent as nat) as int;
    let t = pow2((-shift) as nat) as int;
    let raise = e.raise();
    let q = e.quotient as int;
    lemma_scales(e, shift, exponent);
    lemma_units_of_parts_and_next(exponent, n);
    super::value::lemma_units_step(base);
    assert(q * raise == n * j) by (nonlinear_arith)
        requires
            j * t == raise,
            n == q * t,
    ;
    assert(2 * q * raise == 2 * (q * raise)) by (nonlinear_arith);
    if base > 0 {
        super::value::lemma_units_step(base - 1);
    }
}

/// Less than half a unit rounds to zero.
proof fn lemma_round_zero(e: Exact, len: int)
    requires
        e.quotient < pow2(len as nat),
        len >= 0,
        e.exponent < -len,
    ensures
        e.rounds_to(0),
{
    let shift = -e.exponent;
    lemma_scales(e, shift, 0);
    lemma2_to64();
    lemma_pow2_unfold(shift as nat);
    if len < shift - 1 {
        lemma_pow2_strictly_increases(len as nat, (shift - 1) as nat);
    }
    let s = pow2(shift as nat) as int;
    let q = e.quotient as int;
    super::value::lemma_units_of_parts(0, 0);
    super::value::lemma_units_of_parts(0, 1);
    assert(Binary64::midpoint(0) == 1);
    assert(e.raise() == 1 && e.lower() == s);
    assert(2 * (q + 1) <= s);
}

/// The quotient is past the largest finite number.
proof fn lemma_round_infinite(e: Exact, len: int)
    requires
        len >= 1,
        pow2((len - 1) as nat) <= e.quotient,
        e.exponent + len - 53 >= 2046,
    ensures
        e.rounds_to(INFINITE as int),
{
    let q = e.quotient as int;
    let largest = INFINITE - 1;
    super::value::lemma_units_of_parts(2045, 2 * HIDDEN_BIT);
    super::value::lemma_units_of_parts(2045, 2 * HIDDEN_BIT - 1);
    let j = pow2(2045) as int;
    let limit = 2 * HIDDEN_BIT * j;
    lemma2_to64();
    lemma2_to64_rest();
    assert(Binary64::units(INFINITE as int) == limit);
    super::value::lemma_units_step(largest);
    let middle = Binary64::midpoint(largest);
    assert(middle < 2 * limit);
    lemma_pow2_adds(53, 2045);
    assert(limit == pow2(2098));
    if e.exponent >= 0 {
        let raise = e.raise();
        lemma_pow2_adds((len - 1) as nat, e.exponent as nat);
        let reached = pow2((len - 1 + e.exponent) as nat) as int;
        if 2098 < len - 1 + e.exponent {
            lemma_pow2_strictly_increases(2098, (len - 1 + e.exponent) as nat);
        }
        lemma_pow2_pos(e.exponent as nat);
        assert(reached <= q * raise) by (nonlinear_arith)
            requires
                reached == pow2((len - 1) as nat) * raise,
                pow2((len - 1) as nat) <= q,
                raise > 0,
        ;
        assert(2 * q * raise == 2 * (q * raise)) by (nonlinear_arith);
        assert(middle * e.lower() == middle) by (nonlinear_arith)
            requires
                e.lower() == 1,
        ;
    } else {
        let lower = e.lower();
        lemma_pow2_adds(2098, (-e.exponent) as nat);
        if 2098 - e.exponent < len - 1 {
            lemma_pow2_strictly_increases((2098 - e.exponent) as nat, (len - 1) as nat);
        }
        lemma_pow2_pos((-e.exponent) as nat);
        assert(middle * lower < 2 * (limit * lower)) by (nonlinear_arith)
            requires
                middle < 2 * limit,
                lower > 0,
        ;
        assert(2 * q * e.raise() == 2 * q) by (nonlinear_arith)
            requires
                e.raise() == 1,
        ;
    }
}

/// Rounds an exact result to the nearest magnitude, ties to even.
pub(crate) fn round(e: Exact) -> (magnitude: u64)
    requires
        e.fits(),
    ensures
        e.rounds_to(magnitude as int),
{
    let q: u128 = e.quotient;
    proof {
        lemma2_to64();
        lemma2_to64_rest();
    }
    if q == 0 {
        proof {
            let len = 0int;
            if e.exponent < 0 {
                lemma_round_zero(e, len);
            } else {
                lemma_round_exact(e, 0, -(e.exponent as int), 0);
            }
        }
        return 0;
    }
    let len: i64 = bit_length(q) as i64;
    let excess: i64 = e.exponent + len - 53;
    if excess >= 2046 {
        proof {
            lemma_round_infinite(e, len as int);
        }
        return INFINITE;
    }
    let exponent: i64 = if excess > 0 {
        excess
    } else {
        0
    };
    let shift: i64 = exponent - e.exponent;
    if shift > len {
        proof {
            lemma_round_zero(e, len as int);
        }
        return 0;
    }
    if shift <= 0 {
        let t: u128 = power_of_two((-shift) as u32);
        proof {
            lemma_significand_scaled(q as int, len as int, -(shift as int), exponent > 0);
        }
        let n: u64 = (q * t) as u64;
        proof {
            lemma_round_exact(e, exponent as int, shift as int, n as int);
        }
        (exponent as u64) * HIDDEN_BIT + n
    } else {
        let s: u128 = power_of_two(shift as u32);
        proof {
            lemma_significand_split(q as int, len as int, shift as int, exponent > 0);
        }
        let n: u64 = (q / s) as u64;
        let r: u128 = q % s;
        let half: u128 = s / 2;
        let up: bool = r > half || (r == half && (e.sticky || n % 2 != 0));
        proof {
            lemma_pow2_unfold(shift as nat);
            lemma_round_split(e, exponent as int, shift as int, n as int, r as int, up);
        }
        let base: u64 = (exponent as u64) * HIDDEN_BIT + n;
        if up {
            base + 1
        } else {
            base
        }
    }
}

/// A short quotient, shifted up to a significand.
proof fn lemma_significand_scaled(q: int, len: int, shift: int, normal: bool)
    requires
        1 <= len,
        pow2((len - 1) as nat) <= q < pow2(len as nat),
        0 <= shift,
        len + shift <= 53,
        normal ==> len + shift == 53,
    ensures
        shift < 128,
        0 < pow2(shift as nat),
        0 <= q * pow2(shift as nat) < 2 * HIDDEN_BIT,
        normal ==> q * pow2(shift as nat) >= HIDDEN_BIT,
{
    lemma2_to64();
    lemma2_to64_rest();
    let t = pow2(shift as nat) as int;
    lemma_pow2_pos(shift as nat);
    lemma_pow2_adds(len as nat, shift as nat);
    lemma_pow2_adds((len - 1) as nat, shift as nat);
    if len + shift < 53 {
        lemma_pow2_strictly_increases((len + shift) as nat, 53);
    }
    assert(q * t < pow2(len as nat) * t && pow2((len - 1) as nat) * t <= q * t) by (nonlinear_arith)
        requires
            t > 0,
            pow2((len - 1) as nat) <= q < pow2(len as nat),
    ;
    assert(pow2(53) == 2 * HIDDEN_BIT && pow2(52) == HIDDEN_BIT);
}

/// A long quotient, shifted down to a significand.
proof fn lemma_significand_split(q: int, len: int, shift: int, normal: bool)
    requires
        1 <= len,
        pow2((len - 1) as nat) <= q < pow2(len as nat),
        1 <= shift <= len,
        len - shift <= 53,
        normal ==> len - shift == 53,
    ensures
        0 < pow2(shift as nat),
        0 <= q / (pow2(shift as nat) as int) < 2 * HIDDEN_BIT,
        normal ==> q / (pow2(shift as nat) as int) >= HIDDEN_BIT,
        q == (q / (pow2(shift as nat) as int)) * pow2(shift as nat) + q % (pow2(
            shift as nat,
        ) as int),
{
    lemma2_to64();
    lemma2_to64_rest();
    let s = pow2(shift as nat) as int;
    lemma_pow2_pos(shift as nat);
    vstd::arithmetic::div_mod::lemma_fundamental_div_mod(q, s);
    let n = q / s;
    let top = pow2((len - shift) as nat) as int;
    lemma_pow2_adds((len - shift) as nat, shift as nat);
    if len - shift < 53 {
        lemma_pow2_strictly_increases((len - shift) as nat, 53);
    }
    assert(0 <= n < top) by (nonlinear_arith)
        requires
            q < top * s,
            q >= 0,
            s > 0,
            n == q / s,
    ;
    assert(q == n * s + q % s) by (nonlinear_arith)
        requires
            q == s * n + q % s,
    ;
    assert(pow2(53) == 2 * HIDDEN_BIT && pow2(52) == HIDDEN_BIT);
    if normal {
        lemma_pow2_adds(52, shift as nat);
        assert(n >= HIDDEN_BIT) by (nonlinear_arith)
            requires
                q >= 0x10_0000_0000_0000 * s,
                s > 0,
                n == q / s,
                HIDDEN_BIT == 0x10_0000_0000_0000,
        ;
    }
}

impl Exact {
    /// Whether this is the number `num / den` units.
    pub(crate) open spec fn stands_for(self, num: int, den: int) -> bool {
        let low = self.quotient * self.raise() * den;
        let high = (self.quotient + 1) * self.raise() * den;
        if self.sticky {
            low < num * self.lower() < high
        } else {
            num * self.lower() == low
        }
    }
}

proof fn lemma_above(e: Exact, twice: int, strict: bool, num: int, den: int)
    requires
        den > 0,
        e.stands_for(num, den),
        e.above(twice, strict),
    ensures
        twice * den <= 2 * num,
        strict ==> twice * den < 2 * num,
{
    let q = e.quotient as int;
    let raise = e.raise();
    let lower = e.lower();
    lemma_scales(e, -(e.exponent as int), 0);
    assert((twice * lower) * den <= (2 * q * raise) * den) by (nonlinear_arith)
        requires
            twice * lower <= 2 * q * raise,
            den > 0,
    ;
    if twice * lower < 2 * q * raise {
        assert((twice * lower) * den < (2 * q * raise) * den) by (nonlinear_arith)
            requires
                twice * lower < 2 * q * raise,
                den > 0,
        ;
    }
    assert((2 * q * raise) * den == 2 * (q * raise * den)) by (nonlinear_arith);
    assert((twice * lower) * den == (twice * den) * lower) by (nonlinear_arith);
    assert(2 * (num * lower) == (2 * num) * lower) by (nonlinear_arith);
    assert((twice * den) * lower <= (2 * num) * lower);
    assert(twice * den <= 2 * num) by (nonlinear_arith)
        requires
            (twice * den) * lower <= (2 * num) * lower,
            lower > 0,
    ;
    if strict {
        assert((twice * den) * lower < (2 * num) * lower);
        assert(twice * den < 2 * num) by (nonlinear_arith)
            requires
                (twice * den) * lower < (2 * num) * lower,
                lower > 0,
        ;
    }
}

proof fn lemma_below(e: Exact, twice: int, strict: bool, num: int, den: int)
    requires
        den > 0,
        e.stands_for(num, den),
        e.below(twice, strict),
    ensures
        2 * num <= twice * den,
        strict ==> 2 * num < twice * den,
{
    let top = if e.sticky {
        e.quotient + 1
    } else {
        e.quotient as int
    };
    let raise = e.raise();
    let lower = e.lower();
    lemma_scales(e, -(e.exponent as int), 0);
    assert((2 * top * raise) * den <= (twice * lower) * den) by (nonlinear_arith)
        requires
            2 * top * raise <= twice * lower,
            den > 0,
    ;
    if 2 * top * raise < twice * lower {
        assert((2 * top * raise) * den < (twice * lower) * den) by (nonlinear_arith)
            requires
                2 * top * raise < twice * lower,
                den > 0,
        ;
    }
    assert((2 * top * raise) * den == 2 * (top * raise * den)) by (nonlinear_arith);
    assert((twice * lower) * den == (twice * den) * lower) by (nonlinear_arith);
    assert(2 * (num * lower) == (2 * num) * lower) by (nonlinear_arith);
    assert((2 * num) * lower <= (twice * den) * lower);
    assert(2 * num <= twice * den) by (nonlinear_arith)
        requires
            (2 * num) * lower <= (twice * den) * lower,
            lower > 0,
    ;
    if strict {
        assert((2 * num) * lower < (twice * den) * lower);
        assert(2 * num < twice * den) by (nonlinear_arith)
            requires
                (2 * num) * lower < (twice * den) * lower,
                lower > 0,
        ;
    }
}

/// Rounding an exact result gives the magnitude nearest to what it stands for.
pub(crate) proof fn lemma_rounds_to_nearest(e: Exact, magnitude: int, num: int, den: int)
    requires
        den > 0,
        e.stands_for(num, den),
        e.rounds_to(magnitude),
    ensures
        Binary64::rounded(num, den) == magnitude,
{
    let odd = magnitude % 2 != 0;
    if magnitude > 0 {
        lemma_above(e, Binary64::midpoint(magnitude - 1), odd, num, den);
    }
    if magnitude < INFINITE {
        lemma_below(e, Binary64::midpoint(magnitude), odd, num, den);
    }
    super::value::lemma_rounded(num, den, magnitude);
}

/// Rounding the integer part of a square root, with a sticky part where the
/// root is not whole, gives the magnitude nearest to the root.
pub(crate) proof fn lemma_rounds_to_nearest_root(e: Exact, magnitude: int, n: int, square: int)
    requires
        e.exponent >= 0,
        square == n * (e.raise() * e.raise()),
        e.quotient * e.quotient <= n < (e.quotient + 1) * (e.quotient + 1),
        e.sticky == (e.quotient * e.quotient != n),
        e.rounds_to(magnitude),
    ensures
        Binary64::rounded_root(square) == magnitude,
{
    let odd = magnitude % 2 != 0;
    let q = e.quotient as int;
    let raise = e.raise();
    lemma_scales(e, -(e.exponent as int), 0);
    lemma2_to64();
    let low = 2 * q * raise;
    let high = 2 * (q + 1) * raise;
    assert(low * low == 4 * ((q * q) * (raise * raise))) by (nonlinear_arith)
        requires
            low == 2 * q * raise,
    ;
    assert(high * high == 4 * (((q + 1) * (q + 1)) * (raise * raise))) by (nonlinear_arith)
        requires
            high == 2 * (q + 1) * raise,
    ;
    assert(raise * raise > 0) by (nonlinear_arith)
        requires
            raise > 0,
    ;
    assert((q * q) * (raise * raise) <= n * (raise * raise)) by (nonlinear_arith)
        requires
            q * q <= n,
            raise * raise > 0,
    ;
    assert(n * (raise * raise) < ((q + 1) * (q + 1)) * (raise * raise)) by (nonlinear_arith)
        requires
            n < (q + 1) * (q + 1),
            raise * raise > 0,
    ;
    if e.sticky {
        assert((q * q) * (raise * raise) < n * (raise * raise)) by (nonlinear_arith)
            requires
                q * q < n,
                raise * raise > 0,
        ;
    }
    assert(low >= 0) by (nonlinear_arith)
        requires
            low == 2 * q * raise,
            q >= 0,
            raise > 0,
    ;
    if magnitude > 0 {
        let b = Binary64::midpoint(magnitude - 1);
        super::value::lemma_units_step(magnitude - 1);
        assert(b * e.lower() == b) by (nonlinear_arith)
            requires
                e.lower() == 1,
        ;
        assert(b <= low);
        assert(b * b <= low * low) by (nonlinear_arith)
            requires
                0 <= b <= low,
        ;
        if b < low {
            assert(b * b < low * low) by (nonlinear_arith)
                requires
                    0 <= b < low,
            ;
        }
    }
    if magnitude < INFINITE {
        let a = Binary64::midpoint(magnitude);
        assert(a * e.lower() == a) by (nonlinear_arith)
            requires
                e.lower() == 1,
        ;
        if e.sticky {
            assert(high * high <= a * a) by (nonlinear_arith)
                requires
                    0 <= high <= a,
            ;
        } else {
            assert(low * low <= a * a) by (nonlinear_arith)
                requires
                    0 <= low <= a,
            ;
            if low < a {
                assert(low * low < a * a) by (nonlinear_arith)
                    requires
                        0 <= low < a,
                ;
            }
        }
    }
    super::value::lemma_rounded_root(square, magnitude);
}

} // verus!
