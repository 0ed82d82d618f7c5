//! What rounding keeps: numbers that need none, and the order of numbers.

use super::value::{Binary64, HIDDEN_BIT, INFINITE};
use vstd::arithmetic::power2::*;
use vstd::prelude::*;

verus! {

/// A number between zero and a magnitude lies between two consecutive ones.
proof fn lemma_between(num: int, den: int, high: int) -> (m: int)
    requires
        num >= 0,
        den > 0,
        high > 0,
        num < Binary64::units(high) * den,
    ensures
        0 <= m < high,
        Binary64::units(m) * den <= num < Binary64::units(m + 1) * den,
    decreases high,
{
    if Binary64::units(high - 1) * den <= num {
        high - 1
    } else {
        super::value::lemma_units_of_parts(0, 0);
        assert(high > 1) by {
            if high == 1 {
                assert(Binary64::units(0) * den == 0) by (nonlinear_arith)
                    requires
                        Binary64::units(0) == 0,
                ;
            }
        }
        lemma_between(num, den, high - 1)
    }
}

/// Every non-negative number has a nearest magnitude.
pub proof fn lemma_nearest_exists(num: int, den: int)
    requires
        num >= 0,
        den > 0,
    ensures
        Binary64::nearest(num, den, Binary64::rounded(num, den)),
{
    let top = INFINITE as int;
    if num >= Binary64::units(top) * den {
        super::value::lemma_units_step(top - 1);
        let mid = Binary64::midpoint(top - 1);
        assert(mid * den < 2 * num) by (nonlinear_arith)
            requires
                mid < 2 * Binary64::units(top),
                num >= Binary64::units(top) * den,
                den > 0,
        ;
        assert(Binary64::nearest(num, den, top));
    } else {
        let m = lemma_between(num, den, top);
        let mid = Binary64::midpoint(m);
        let low = Binary64::units(m);
        let high = Binary64::units(m + 1);
        super::value::lemma_units_step(m);
        super::value::lemma_units_step(m + 1);
        if m > 0 {
            super::value::lemma_units_step(m - 1);
            let before = Binary64::midpoint(m - 1);
            assert(before * den < 2 * num) by (nonlinear_arith)
                requires
                    before < 2 * low,
                    low * den <= num,
                    den > 0,
            ;
        }
        let after = Binary64::midpoint(m + 1);
        assert(2 * num < after * den) by (nonlinear_arith)
            requires
                after > 2 * high,
                num < high * den,
                den > 0,
        ;
        if 2 * num < mid * den || (2 * num == mid * den && m % 2 == 0) {
            assert(Binary64::nearest(num, den, m));
        } else {
            assert(Binary64::nearest(num, den, m + 1));
        }
    }
}

/// Law: rounding keeps the order of numbers.
pub proof fn law_rounding_is_monotone(num1: int, den1: int, num2: int, den2: int)
    requires
        num1 >= 0,
        num2 >= 0,
        den1 > 0,
        den2 > 0,
        num1 * den2 <= num2 * den1,
    ensures
        0 <= Binary64::rounded(num1, den1) <= Binary64::rounded(num2, den2) <= INFINITE,
{
    lemma_nearest_exists(num1, den1);
    lemma_nearest_exists(num2, den2);
    let m1 = Binary64::rounded(num1, den1);
    let m2 = Binary64::rounded(num2, den2);
    if m2 < m1 {
        let low = Binary64::midpoint(m2);
        let high = Binary64::midpoint(m1 - 1);
        if m2 < m1 - 1 {
            super::value::lemma_units_increase(m2, m1 - 1);
            super::value::lemma_units_increase(m2 + 1, m1);
        }
        assert(2 * num1 * den2 <= 2 * num2 * den1) by (nonlinear_arith)
            requires
                num1 * den2 <= num2 * den1,
        ;
        assert(2 * num2 * den1 <= low * den2 * den1) by (nonlinear_arith)
            requires
                2 * num2 <= low * den2,
                den1 > 0,
        ;
        assert(high * den1 * den2 <= 2 * num1 * den2) by (nonlinear_arith)
            requires
                high * den1 <= 2 * num1,
                den2 > 0,
        ;
        assert(low * den2 * den1 == low * (den1 * den2) && high * den1 * den2 == high * (den1
            * den2)) by (nonlinear_arith);
        assert(den1 * den2 > 0) by (nonlinear_arith)
            requires
                den1 > 0,
                den2 > 0,
        ;
        if low < high {
            assert(low * (den1 * den2) < high * (den1 * den2)) by (nonlinear_arith)
                requires
                    low < high,
                    den1 * den2 > 0,
            ;
        } else {
            assert(m2 == m1 - 1);
            if m1 % 2 == 0 {
                assert(2 * num2 * den1 < low * den2 * den1) by (nonlinear_arith)
                    requires
                        2 * num2 < low * den2,
                        den1 > 0,
                ;
            } else {
                assert(high * den1 * den2 < 2 * num1 * den2) by (nonlinear_arith)
                    requires
                        high * den1 < 2 * num1,
                        den2 > 0,
                ;
            }
        }
    }
}

/// Law: a number that has a magnitude of its own is not changed by rounding.
pub proof fn law_rounding_keeps_numbers(magnitude: int, den: int)
    requires
        0 <= magnitude <= INFINITE,
        den > 0,
    ensures
        Binary64::rounded(Binary64::units(magnitude) * den, den) == magnitude,
{
    let u = Binary64::units(magnitude);
    super::value::lemma_units_step(magnitude);
    let above = Binary64::midpoint(magnitude);
    assert(2 * (u * den) < above * den) by (nonlinear_arith)
        requires
            above > 2 * u,
            den > 0,
    ;
    if magnitude > 0 {
        super::value::lemma_units_step(magnitude - 1);
        let below = Binary64::midpoint(magnitude - 1);
        assert(below * den < 2 * (u * den)) by (nonlinear_arith)
            requires
                below < 2 * u,
                den > 0,
        ;
    }
    super::value::lemma_rounded(u * den, den, magnitude);
}

/// Rounding does not cross a number that has a magnitude of its own.
pub proof fn lemma_rounded_bounds(num: int, den: int, magnitude: int)
    requires
        num >= 0,
        den > 0,
        0 <= magnitude <= INFINITE,
    ensures
        0 <= Binary64::rounded(num, den) <= INFINITE,
        num <= Binary64::units(magnitude) * den ==> Binary64::rounded(num, den) <= magnitude,
        num >= Binary64::units(magnitude) * den ==> Binary64::rounded(num, den) >= magnitude,
{
    let u = Binary64::units(magnitude);
    super::arith::lemma_units_zero(magnitude);
    lemma_nearest_exists(num, den);
    law_rounding_keeps_numbers(magnitude, den);
    assert(u * den >= 0) by (nonlinear_arith)
        requires
            u >= 0,
            den > 0,
    ;
    if num <= u * den {
        assert(num * den <= (u * den) * den) by (nonlinear_arith)
            requires
                num <= u * den,
                den > 0,
        ;
        law_rounding_is_monotone(num, den, u * den, den);
    }
    if num >= u * den {
        assert((u * den) * den <= num * den) by (nonlinear_arith)
            requires
                num >= u * den,
                den > 0,
        ;
        law_rounding_is_monotone(u * den, den, num, den);
    }
}

/// What a composed pattern stands for.
pub proof fn lemma_composed(negative: bool, magnitude: int)
    requires
        0 <= magnitude <= INFINITE,
    ensures
        Binary64::compose(negative, magnitude).negative() == negative,
        Binary64::compose(negative, magnitude).magnitude() == magnitude,
        !Binary64::compose(negative, magnitude).nan(),
        Binary64::compose(negative, magnitude).value() == (if negative {
            -Binary64::units(magnitude)
        } else {
            Binary64::units(magnitude)
        }),
{
}

/// A finite number's magnitude is ordered as its absolute value.
pub proof fn lemma_magnitude_order(a: Binary64, b: Binary64)
    requires
        !a.negative(),
        !b.negative(),
    ensures
        a.value() <= b.value() <==> a.magnitude() <= b.magnitude(),
        a.value() >= 0,
{
    super::convert::lemma_units_order(a.magnitude(), b.magnitude());
    super::arith::lemma_units_zero(a.magnitude());
}

/// Law: a sum of numbers stays inside finite bounds that the exact sum keeps.
pub proof fn law_sum_stays_in_bounds(a: Binary64, b: Binary64, low: Binary64, high: Binary64)
    requires
        a.finite(),
        b.finite(),
        low.finite(),
        high.finite(),
        low.value() <= a.value() + b.value() <= high.value(),
    ensures
        a.plus(b).finite(),
        low.value() <= a.plus(b).value() <= high.value(),
{
    let s = a.value() + b.value();
    super::arith::lemma_units_zero(low.magnitude());
    super::arith::lemma_units_zero(high.magnitude());
    super::arith::lemma_units_zero(0);
    if s == 0 {
        lemma_composed(a.negative() && b.negative(), 0);
    } else if s > 0 {
        assert(!high.negative());
        lemma_rounded_bounds(s, 1, high.magnitude());
        let m = Binary64::rounded(s, 1);
        lemma_composed(false, m);
        super::convert::lemma_units_order(m, high.magnitude());
        super::arith::lemma_units_zero(m);
        if !low.negative() {
            lemma_rounded_bounds(s, 1, low.magnitude());
            super::convert::lemma_units_order(low.magnitude(), m);
        }
    } else {
        assert(low.negative());
        lemma_rounded_bounds(-s, 1, low.magnitude());
        let m = Binary64::rounded(-s, 1);
        lemma_composed(true, m);
        super::convert::lemma_units_order(m, low.magnitude());
        super::arith::lemma_units_zero(m);
        if high.negative() {
            lemma_rounded_bounds(-s, 1, high.magnitude());
            super::convert::lemma_units_order(high.magnitude(), m);
        }
    }
}

/// Law: a sum that has a bit pattern of its own is exact.
pub proof fn law_sum_is_exact(a: Binary64, b: Binary64, r: Binary64)
    requires
        a.finite(),
        b.finite(),
        r.finite(),
        a.value() + b.value() == r.value(),
    ensures
        a.plus(b).finite(),
        a.plus(b).value() == r.value(),
{
    law_sum_stays_in_bounds(a, b, r, r);
}

/// Law: sums of numbers are ordered as the exact sums are.
pub proof fn law_sums_are_monotone(a: Binary64, b: Binary64, c: Binary64, d: Binary64)
    requires
        a.finite(),
        b.finite(),
        c.finite(),
        d.finite(),
        0 <= a.value() + b.value() <= c.value() + d.value(),
    ensures
        !a.plus(b).nan(),
        !c.plus(d).nan(),
        a.plus(b).value() <= c.plus(d).value(),
{
    let s = a.value() + b.value();
    let t = c.value() + d.value();
    super::arith::lemma_units_zero(0);
    if s == 0 {
        lemma_composed(a.negative() && b.negative(), 0);
    }
    if t == 0 {
        lemma_composed(c.negative() && d.negative(), 0);
    } else {
        law_rounding_is_monotone(s, 1, t, 1);
        let m = Binary64::rounded(t, 1);
        lemma_composed(false, m);
        super::arith::lemma_units_zero(m);
        if s > 0 {
            lemma_composed(false, Binary64::rounded(s, 1));
            super::convert::lemma_units_order(Binary64::rounded(s, 1), m);
        }
    }
}

/// The magnitude of `k * 2^base` units, for a whole number that needs no
/// rounding.
pub proof fn lemma_whole_magnitude(k: int, base: int) -> (m: int)
    requires
        0 <= k <= 2 * HIDDEN_BIT,
        52 <= base <= 2000,
    ensures
        0 <= m < INFINITE,
        Binary64::units(m) == k * pow2(base as nat),
{
    lemma2_to64();
    lemma2_to64_rest();
    if k == 0 {
        super::value::lemma_units_of_parts(0, 0);
        assert(0 * pow2(base as nat) == 0) by (nonlinear_arith);
        0
    } else {
        let e = lemma_leading_bit(k, 53);
        // `k` has `e + 1` bits: shift it up by `52 - e` bits.
        if e == 53 {
            assert(pow2(53) == 2 * HIDDEN_BIT);
            super::value::lemma_units_of_parts(base + 1, HIDDEN_BIT as int);
            lemma_pow2_adds(1, base as nat);
            let p = pow2(base as nat) as int;
            assert(HIDDEN_BIT * (2 * p) == (2 * HIDDEN_BIT) * p) by (nonlinear_arith);
            (base + 1) * HIDDEN_BIT + HIDDEN_BIT
        } else {
            let up = pow2((52 - e) as nat) as int;
            let n = k * up;
            let j = base - 52 + e;
            lemma_pow2_pos((52 - e) as nat);
            lemma_pow2_adds(e as nat, (52 - e) as nat);
            lemma_pow2_adds((e + 1) as nat, (52 - e) as nat);
            assert(pow2(e as nat) * up <= n < pow2((e + 1) as nat) * up) by (nonlinear_arith)
                requires
                    n == k * up,
                    up > 0,
                    pow2(e as nat) <= k < pow2((e + 1) as nat),
            ;
            assert(pow2(52) == HIDDEN_BIT && pow2(53) == 2 * HIDDEN_BIT);
            super::value::lemma_units_of_parts(j, n);
            lemma_pow2_adds((52 - e) as nat, j as nat);
            let low = pow2(j as nat) as int;
            assert(n * low == k * (up * low)) by (nonlinear_arith)
                requires
                    n == k * up,
            ;
            j * HIDDEN_BIT + n
        }
    }
}

/// Below `2^e` units, consecutive numbers are at most `2^(e - 53)` apart.
pub(crate) proof fn lemma_gap(magnitude: int, e: int)
    requires
        magnitude >= 0,
        e >= 53,
        Binary64::units(magnitude) < pow2(e as nat),
    ensures
        Binary64::units(magnitude + 1) - Binary64::units(magnitude) <= pow2((e - 53) as nat),
{
    let h = HIDDEN_BIT as int;
    let d = magnitude / h;
    let f = magnitude % h;
    let (j, n) = if d == 0 {
        (0int, f)
    } else {
        (d - 1, f + h)
    };
    assert(magnitude == j * h + n && d >= 0) by (nonlinear_arith)
        requires
            d == magnitude / h,
            f == magnitude % h,
            h == 0x10_0000_0000_0000,
            magnitude >= 0,
            d == 0 ==> j == 0 && n == f,
            d != 0 ==> j == d - 1 && n == f + h,
    ;
    super::value::lemma_units_of_parts(j, n);
    super::value::lemma_units_of_parts(j, n + 1);
    let p = pow2(j as nat) as int;
    assert((n + 1) * p - n * p == p) by (nonlinear_arith);
    if j > e - 53 {
        lemma2_to64_rest();
        lemma_pow2_adds(52, j as nat);
        assert(n * p >= h * p) by (nonlinear_arith)
            requires
                n >= h,
                p >= 0,
        ;
        if 52 + j > e {
            lemma_pow2_strictly_increases(e as nat, (52 + j) as nat);
        }
    } else if j < e - 53 {
        lemma_pow2_strictly_increases(j as nat, (e - 53) as nat);
    }
}

/// Law: a number up to `2^e` units is rounded to one up to `2^e` units, with an
/// error of at most `2^(e - 54)` units.
pub proof fn law_rounding_error(num: int, den: int, e: int)
    requires
        num >= 0,
        den > 0,
        53 <= e <= 2000,
        num <= pow2(e as nat) * den,
    ensures
        ({
            let m = Binary64::rounded(num, den);
            &&& 0 <= m < INFINITE
            &&& 0 <= Binary64::units(m) <= pow2(e as nat)
            &&& -(pow2(e as nat) * den) <= pow2(54) * (Binary64::units(m) * den - num) <= pow2(
                e as nat,
            ) * den
        }),
{
    let top = lemma_whole_magnitude(1, e);
    let limit = pow2(e as nat) as int;
    assert(1 * pow2(e as nat) == limit);
    lemma_rounded_bounds(num, den, top);
    lemma_nearest_exists(num, den);
    let m = Binary64::rounded(num, den);
    let u = Binary64::units(m);
    super::convert::lemma_units_order(m, top);
    super::arith::lemma_units_zero(m);
    let gap = pow2((e - 53) as nat) as int;
    lemma_pow2_pos((e - 53) as nat);
    lemma2_to64_rest();
    lemma_pow2_adds(53, (e - 53) as nat);
    let scale = pow2(53) as int;
    let err = u * den - num;
    assert(gap * den >= 0) by (nonlinear_arith)
        requires
            gap > 0,
            den > 0,
    ;
    assert(2 * err <= gap * den) by {
        if m > 0 {
            super::value::lemma_units_step(m - 1);
            super::convert::lemma_units_order(m - 1, top);
            lemma_gap(m - 1, e);
            let mid = Binary64::midpoint(m - 1);
            assert(2 * (u * den) - mid * den <= gap * den) by (nonlinear_arith)
                requires
                    2 * u - mid <= gap,
                    den > 0,
            ;
        } else {
            super::arith::lemma_units_zero(0);
            assert(u * den == 0) by (nonlinear_arith)
                requires
                    u == 0,
            ;
        }
    }
    assert(-(gap * den) <= 2 * err) by {
        if m < top {
            super::convert::lemma_units_order(m, top);
            lemma_gap(m, e);
            let mid = Binary64::midpoint(m);
            assert(mid * den - 2 * (u * den) <= gap * den) by (nonlinear_arith)
                requires
                    mid - 2 * u <= gap,
                    den > 0,
            ;
        }
    }
    assert(scale * (2 * err) <= scale * (gap * den) && scale * (2 * err) >= -(scale * (gap * den)))
        by (nonlinear_arith)
        requires
            2 * err <= gap * den,
            -(gap * den) <= 2 * err,
            scale > 0,
    ;
    assert(scale * (gap * den) == limit * den) by (nonlinear_arith)
        requires
            limit == scale * gap,
    ;
    assert(scale * (2 * err) == pow2(54) * err) by (nonlinear_arith)
        requires
            pow2(54) == 2 * scale,
    ;
}

/// The position of the leading bit.
pub proof fn lemma_leading_bit(k: int, limit: int) -> (e: int)
    requires
        0 < k <= pow2(limit as nat),
        limit >= 0,
    ensures
        0 <= e <= limit,
        pow2(e as nat) <= k < pow2((e + 1) as nat),
    decreases limit,
{
    lemma2_to64();
    lemma_pow2_unfold((limit + 1) as nat);
    if k == pow2(limit as nat) {
        limit
    } else {
        assert(limit > 0);
        lemma_pow2_unfold(limit as nat);
        if k >= pow2((limit - 1) as nat) {
            limit - 1
        } else {
            lemma_leading_bit(k, limit - 1)
        }
    }
}

/// Law: whole numbers up to `2^53` are converted exactly.
pub proof fn law_small_integers_are_exact(k: int)
    requires
        0 <= k <= 2 * HIDDEN_BIT,
    ensures
        Binary64::of_integer(k).finite(),
        !Binary64::of_integer(k).negative(),
        Binary64::of_integer(k).value() == k * pow2(1074),
{
    let m = lemma_whole_magnitude(k, 1074);
    law_rounding_keeps_numbers(m, 1);
    assert(Binary64::units(m) * 1 == Binary64::units(m)) by (nonlinear_arith);
    lemma_composed(false, m);
}

/// Law: converting whole numbers keeps their order.
pub proof fn law_integers_keep_order(a: int, b: int)
    requires
        0 <= a <= b,
    ensures
        !Binary64::of_integer(a).nan(),
        !Binary64::of_integer(b).nan(),
        !Binary64::of_integer(a).negative(),
        !Binary64::of_integer(b).negative(),
        0 <= Binary64::of_integer(a).value() <= Binary64::of_integer(b).value(),
        Binary64::of_integer(a).magnitude() <= Binary64::of_integer(b).magnitude(),
{
    let one = pow2(1074) as int;
    lemma_pow2_pos(1074);
    assert(0 <= a * one <= b * one) by (nonlinear_arith)
        requires
            0 <= a <= b,
            one > 0,
    ;
    law_rounding_is_monotone(a * one, 1, b * one, 1);
    let x = Binary64::rounded(a * one, 1);
    let y = Binary64::rounded(b * one, 1);
    lemma_composed(false, x);
    lemma_composed(false, y);
    super::convert::lemma_units_order(x, y);
    super::arith::lemma_units_zero(x);
}

/// Every 64-bit integer is converted to a finite number.
pub proof fn lemma_words_are_finite(x: int)
    requires
        0 <= x <= u64::MAX,
    ensures
        Binary64::of_integer(x).finite(),
        !Binary64::of_integer(x).negative(),
        0 <= Binary64::of_integer(x).value() <= pow2(1138),
        x >= 1 ==> Binary64::of_integer(x).value() >= pow2(1074),
        x >= 2 ==> Binary64::of_integer(x).value() >= 2 * pow2(1074),
{
    let one = pow2(1074) as int;
    lemma2_to64();
    lemma2_to64_rest();
    lemma_pow2_pos(1074);
    // The magnitude of two to the power 64.
    let top = 1086 * HIDDEN_BIT + HIDDEN_BIT;
    super::value::lemma_units_of_parts(1086, HIDDEN_BIT as int);
    lemma_pow2_adds(52, 1086);
    lemma_pow2_adds(64, 1074);
    assert(pow2(52) == HIDDEN_BIT);
    assert(0 <= x * one <= pow2(64) * one) by (nonlinear_arith)
        requires
            0 <= x <= pow2(64),
            one > 0,
    ;
    assert(Binary64::units(top) * 1 == pow2(1138)) by (nonlinear_arith)
        requires
            Binary64::units(top) == pow2(1138),
    ;
    lemma_rounded_bounds(x * one, 1, top);
    let m = Binary64::rounded(x * one, 1);
    lemma_composed(false, m);
    super::convert::lemma_units_order(m, top);
    super::arith::lemma_units_zero(m);
    if x >= 1 {
        law_small_integers_are_exact(1);
        law_integers_keep_order(1, x);
        assert(1 * pow2(1074) == pow2(1074)) by (nonlinear_arith);
    }
    if x >= 2 {
        law_small_integers_are_exact(2);
        law_integers_keep_order(2, x);
    }
}

/// Law: adding non-negative numbers gives a non-negative number, never NaN.
pub proof fn law_non_negative_sums(a: Binary64, b: Binary64)
    requires
        !a.nan(),
        !a.negative(),
        !b.nan(),
        !b.negative() || b.magnitude() == 0,
    ensures
        !a.plus(b).nan(),
        !a.plus(b).negative(),
{
    super::arith::lemma_units_zero(a.magnitude());
    super::arith::lemma_units_zero(b.magnitude());
    if a.finite() && b.finite() {
        let s = a.value() + b.value();
        if s > 0 {
            lemma_nearest_exists(s, 1);
            lemma_composed(false, Binary64::rounded(s, 1));
        }
    }
}

/// Law: the product of finite numbers is not NaN, and has the product's sign.
pub proof fn law_finite_products(a: Binary64, b: Binary64)
    requires
        a.finite(),
        b.finite(),
    ensures
        !a.times(b).nan(),
        a.times(b).negative() == (a.negative() != b.negative()),
        a.magnitude() == 0 || b.magnitude() == 0 ==> a.times(b).magnitude() == 0,
{
    let x = Binary64::units(a.magnitude());
    let y = Binary64::units(b.magnitude());
    let den = pow2(1074) as int;
    lemma_pow2_pos(1074);
    super::arith::lemma_units_zero(a.magnitude());
    super::arith::lemma_units_zero(b.magnitude());
    super::arith::lemma_units_zero(0);
    assert(x * y >= 0) by (nonlinear_arith)
        requires
            x >= 0,
            y >= 0,
    ;
    lemma_nearest_exists(x * y, den);
    lemma_composed(a.negative() != b.negative(), Binary64::rounded(x * y, den));
    if x == 0 || y == 0 {
        assert(x * y == 0) by (nonlinear_arith)
            requires
                x == 0 || y == 0,
        ;
        law_rounding_keeps_numbers(0, den);
        assert(Binary64::units(0) * den == 0) by (nonlinear_arith)
            requires
                Binary64::units(0) == 0,
        ;
    }
}

/// Law: a non-negative number over a positive finite one is a non-negative
/// number, never NaN.
pub proof fn law_non_negative_quotients(a: Binary64, b: Binary64)
    requires
        !a.nan(),
        !a.negative(),
        b.finite(),
        !b.negative(),
        b.value() > 0,
    ensures
        !a.over(b).nan(),
        !a.over(b).negative(),
{
    lemma_composed(false, INFINITE as int);
    if a.finite() {
        let num = Binary64::units(a.magnitude()) * pow2(1074);
        lemma_pow2_pos(1074);
        super::arith::lemma_units_zero(a.magnitude());
        assert(num >= 0) by (nonlinear_arith)
            requires
                num == Binary64::units(a.magnitude()) * pow2(1074),
                Binary64::units(a.magnitude()) >= 0,
        ;
        lemma_nearest_exists(num, b.value());
        lemma_composed(false, Binary64::rounded(num, b.value()));
    }
}

/// Law: a quotient of finite numbers stays inside bounds, by magnitude, that
/// the exact quotient keeps; its sign is the quotient's.
pub proof fn law_quotient_stays_in_bounds(a: Binary64, b: Binary64, low: int, high: int)
    requires
        a.finite(),
        b.finite(),
        b.magnitude() > 0,
        0 <= low <= high < INFINITE,
        Binary64::units(low) * Binary64::units(b.magnitude()) <= Binary64::units(a.magnitude())
            * pow2(1074) <= Binary64::units(high) * Binary64::units(b.magnitude()),
    ensures
        a.over(b).finite(),
        a.over(b).negative() == (a.negative() != b.negative()),
        low <= a.over(b).magnitude() <= high,
{
    let num = Binary64::units(a.magnitude()) * pow2(1074);
    let den = Binary64::units(b.magnitude());
    super::arith::lemma_units_zero(b.magnitude());
    super::arith::lemma_units_zero(low);
    assert(Binary64::units(low) * den >= 0) by (nonlinear_arith)
        requires
            Binary64::units(low) >= 0,
            den > 0,
    ;
    lemma_rounded_bounds(num, den, low);
    lemma_rounded_bounds(num, den, high);
    lemma_composed(a.negative() != b.negative(), Binary64::rounded(num, den));
}

/// A decimal fraction `num / den` whose nearest number has the significand `n`
/// at exponent `j`.
pub proof fn lemma_decimal(num: int, den: int, j: int, n: int)
    requires
        num >= 0,
        den > 0,
        0 <= j <= 1074,
        HIDDEN_BIT < n < 2 * HIDDEN_BIT,
        den * (2 * n - 1) < 2 * (num * pow2((1074 - j) as nat)) < den * (2 * n + 1),
    ensures
        Binary64::rounded(num * pow2(1074), den) == j * HIDDEN_BIT + n,
{
    let m = j * HIDDEN_BIT + n;
    let p = pow2(j as nat) as int;
    let k = num * pow2((1074 - j) as nat);
    lemma_pow2_pos(j as nat);
    lemma_pow2_adds((1074 - j) as nat, j as nat);
    super::value::lemma_units_of_parts(j, n - 1);
    super::value::lemma_units_of_parts(j, n);
    super::value::lemma_units_of_parts(j, n + 1);
    let x = num * pow2(1074);
    assert(x == k * p) by (nonlinear_arith)
        requires
            x == num * pow2(1074),
            pow2(1074) == pow2((1074 - j) as nat) * p,
            k == num * pow2((1074 - j) as nat),
    ;
    let below = Binary64::midpoint(m - 1);
    let above = Binary64::midpoint(m);
    assert(below == (2 * n - 1) * p && above == (2 * n + 1) * p) by (nonlinear_arith)
        requires
            below == (n - 1) * p + n * p,
            above == n * p + (n + 1) * p,
    ;
    assert(below * den < 2 * x) by (nonlinear_arith)
        requires
            below == (2 * n - 1) * p,
            x == k * p,
            den * (2 * n - 1) < 2 * k,
            p > 0,
    ;
    assert(2 * x < above * den) by (nonlinear_arith)
        requires
            above == (2 * n + 1) * p,
            x == k * p,
            2 * k < den * (2 * n + 1),
            p > 0,
    ;
    super::value::lemma_rounded(x, den, m);
}

/// A pattern with the significand `k * 2^s` at exponent `1074 - s` stands for
/// the whole number `k`.
pub proof fn lemma_whole_pattern(x: Binary64, k: int, s: int)
    requires
        0 <= s <= 1074,
        HIDDEN_BIT <= k * pow2(s as nat) < 2 * HIDDEN_BIT,
        x.bits == (1074 - s) * HIDDEN_BIT + k * pow2(s as nat),
    ensures
        x.finite(),
        !x.negative(),
        x.value() == k * pow2(1074),
{
    let n = k * pow2(s as nat);
    super::value::lemma_units_of_parts(1074 - s, n);
    lemma_pow2_adds(s as nat, (1074 - s) as nat);
    let low = pow2((1074 - s) as nat) as int;
    assert(n * low == k * (pow2(s as nat) * low)) by (nonlinear_arith)
        requires
            n == k * pow2(s as nat),
    ;
}

/// Law: a product of finite numbers stays inside bounds, by magnitude, that the
/// exact product keeps; its sign is the product's.
pub proof fn law_product_stays_in_bounds(a: Binary64, b: Binary64, low: int, high: int)
    requires
        a.finite(),
        b.finite(),
        0 <= low <= high < INFINITE,
        Binary64::units(low) * pow2(1074) <= Binary64::units(a.magnitude()) * Binary64::units(
            b.magnitude(),
        ) <= Binary64::units(high) * pow2(1074),
    ensures
        a.times(b).finite(),
        a.times(b).negative() == (a.negative() != b.negative()),
        low <= a.times(b).magnitude() <= high,
{
    let num = Binary64::units(a.magnitude()) * Binary64::units(b.magnitude());
    let den = pow2(1074) as int;
    lemma_pow2_pos(1074);
    super::arith::lemma_units_zero(low);
    assert(Binary64::units(low) * den >= 0) by (nonlinear_arith)
        requires
            Binary64::units(low) >= 0,
            den > 0,
    ;
    lemma_rounded_bounds(num, den, low);
    lemma_rounded_bounds(num, den, high);
    lemma_composed(a.negative() != b.negative(), Binary64::rounded(num, den));
}

/// Law: a sum of at most `2^e` units is rounded with an error of at most
/// `2^(e - 54)` units.
pub proof fn law_sum_error(a: Binary64, b: Binary64, e: int)
    requires
        a.finite(),
        b.finite(),
        53 <= e <= 2000,
        -pow2(e as nat) <= a.value() + b.value() <= pow2(e as nat),
    ensures
        a.plus(b).finite(),
        -pow2(e as nat) <= a.plus(b).value() <= pow2(e as nat),
        -pow2(e as nat) <= pow2(54) * (a.plus(b).value() - (a.value() + b.value())) <= pow2(
            e as nat,
        ),
{
    let s = a.value() + b.value();
    let n = if s < 0 {
        -s
    } else {
        s
    };
    let limit = pow2(e as nat) as int;
    assert(limit * 1 == limit);
    law_rounding_error(n, 1, e);
    let m = Binary64::rounded(n, 1);
    let u = Binary64::units(m);
    super::arith::lemma_units_zero(0);
    lemma_composed(s < 0, m);
    lemma_composed(a.negative() && b.negative(), 0);
    assert(u * 1 - n == u - n);
    if s == 0 {
        assert(pow2(54) * 0 == 0);
    } else if s < 0 {
        assert(pow2(54) * (-u - s) == -(pow2(54) * (u - n))) by (nonlinear_arith)
            requires
                n == -s,
        ;
    }
}

/// Law: a quotient of at most `2^e` units is rounded with an error of at most
/// `2^(e - 54)` units; the divisor is positive.
pub proof fn law_quotient_error(a: Binary64, b: Binary64, e: int)
    requires
        a.finite(),
        b.finite(),
        !b.negative(),
        b.value() > 0,
        53 <= e <= 2000,
        Binary64::units(a.magnitude()) * pow2(1074) <= pow2(e as nat) * b.value(),
    ensures
        a.over(b).finite(),
        -pow2(e as nat) <= a.over(b).value() <= pow2(e as nat),
        -(pow2(e as nat) * b.value()) <= pow2(54) * (a.over(b).value() * b.value() - a.value()
            * pow2(1074)) <= pow2(e as nat) * b.value(),
{
    let n = Binary64::units(a.magnitude()) * pow2(1074);
    let d = b.value();
    super::arith::lemma_units_zero(a.magnitude());
    super::arith::lemma_units_zero(b.magnitude());
    lemma_pow2_pos(1074);
    assert(n >= 0) by (nonlinear_arith)
        requires
            n == Binary64::units(a.magnitude()) * pow2(1074),
            Binary64::units(a.magnitude()) >= 0,
            pow2(1074) > 0,
    ;
    law_rounding_error(n, d, e);
    let m = Binary64::rounded(n, d);
    let u = Binary64::units(m);
    lemma_composed(a.negative(), m);
    if a.negative() {
        let v = a.value();
        assert(pow2(54) * ((-u) * d - v * pow2(1074)) == -(pow2(54) * (u * d - n)))
            by (nonlinear_arith)
            requires
                n == (-v) * pow2(1074),
        ;
    }
}

/// Law: a product of at most `2^e` units is rounded with an error of at most
/// `2^(e - 54)` units.
pub proof fn law_product_error(a: Binary64, b: Binary64, e: int)
    requires
        a.finite(),
        b.finite(),
        53 <= e <= 2000,
        Binary64::units(a.magnitude()) * Binary64::units(b.magnitude()) <= pow2(e as nat) * pow2(
            1074,
        ),
    ensures
        a.times(b).finite(),
        -pow2(e as nat) <= a.times(b).value() <= pow2(e as nat),
        -(pow2(e as nat) * pow2(1074)) <= pow2(54) * (a.times(b).value() * pow2(1074) - a.value()
            * b.value()) <= pow2(e as nat) * pow2(1074),
{
    let x = Binary64::units(a.magnitude());
    let y = Binary64::units(b.magnitude());
    let n = x * y;
    let d = pow2(1074) as int;
    super::arith::lemma_units_zero(a.magnitude());
    super::arith::lemma_units_zero(b.magnitude());
    lemma_pow2_pos(1074);
    assert(n >= 0) by (nonlinear_arith)
        requires
            n == x * y,
            x >= 0,
            y >= 0,
    ;
    law_rounding_error(n, d, e);
    let m = Binary64::rounded(n, d);
    let u = Binary64::units(m);
    let negative = a.negative() != b.negative();
    lemma_composed(negative, m);
    assert((-x) * y == -n && x * (-y) == -n && (-x) * (-y) == n) by (nonlinear_arith)
        requires
            n == x * y,
    ;
    if negative {
        assert(pow2(54) * ((-u) * d - (-n)) == -(pow2(54) * (u * d - n))) by (nonlinear_arith);
    }
}

/// Law: a whole number of at most `2^e` units is converted with an error of at
/// most `2^(e - 54)` units.
pub proof fn law_integer_error(x: int, e: int)
    requires
        0 <= x,
        53 <= e <= 2000,
        x * pow2(1074) <= pow2(e as nat),
    ensures
        Binary64::of_integer(x).finite(),
        !Binary64::of_integer(x).negative(),
        0 <= Binary64::of_integer(x).value() <= pow2(e as nat),
        -pow2(e as nat) <= pow2(54) * (Binary64::of_integer(x).value() - x * pow2(1074)) <= pow2(
            e as nat,
        ),
{
    let n = x * pow2(1074);
    assert(n >= 0) by (nonlinear_arith)
        requires
            n == x * pow2(1074),
            x >= 0,
    ;
    assert(pow2(e as nat) * 1 == pow2(e as nat));
    law_rounding_error(n, 1, e);
    let m = Binary64::rounded(n, 1);
    assert(Binary64::units(m) * 1 - n == Binary64::units(m) - n);
    lemma_composed(false, m);
}

} // verus!
