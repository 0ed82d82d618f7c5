//! What comparing, clamping, cutting and taking roots mean for the numbers.

use super::value::{Binary64, INFINITE};
use vstd::arithmetic::power2::*;
use vstd::prelude::*;

verus! {

/// Law: two numbers are ordered one way or the other, or stand for the same; a
/// NaN is ordered with none.
pub proof fn law_order_is_total(a: Binary64, b: Binary64)
    ensures
        a.nan() || b.nan() ==> !a.less(b) && !a.at_most(b),
        !a.nan() && !b.nan() ==> {
            &&& a.less(b) <==> a.value() < b.value()
            &&& a.at_most(b) <==> a.value() <= b.value()
            &&& a.less(b) || b.less(a) || a.value() == b.value()
        },
{
}

/// Law: clamping gives a number between the bounds, the number itself where it
/// lies there, and otherwise the nearer bound. NaN stays NaN.
pub proof fn law_clamp_is_between(x: Binary64, low: Binary64, high: Binary64)
    requires
        low.finite(),
        high.finite(),
        low.value() <= high.value(),
    ensures
        x.nan() ==> x.clamped(low, high).nan(),
        !x.nan() ==> {
            let r = x.clamped(low, high);
            &&& r.finite()
            &&& low.value() <= r.value() <= high.value()
            &&& low.value() <= x.value() <= high.value() ==> r == x
            &&& x.value() < low.value() ==> r.value() == low.value()
            &&& x.value() > high.value() ==> r.value() == high.value()
        },
{
    super::convert::lemma_units_order(low.magnitude(), INFINITE as int);
    super::convert::lemma_units_order(high.magnitude(), INFINITE as int);
    super::arith::lemma_units_zero(low.magnitude());
    super::arith::lemma_units_zero(high.magnitude());
    super::arith::lemma_units_zero(INFINITE as int);
}

/// Law: cutting a number leaves its whole part, not below zero and not above the
/// limit.
pub proof fn law_cut_leaves_the_whole_part(x: Binary64, limit: int)
    requires
        limit >= 0,
    ensures
        ({
            let u = pow2(1074) as int;
            let k = x.truncated(limit);
            &&& 0 <= k <= limit
            &&& x.nan() || x.negative() ==> k == 0
            &&& x.infinite() && !x.negative() ==> k == limit
            &&& x.finite() && !x.negative() ==> {
                &&& k * u <= x.value()
                &&& k < limit ==> x.value() < (k + 1) * u
            }
        }),
{
    let u = pow2(1074) as int;
    let v = x.value();
    lemma_pow2_pos(1074);
    super::arith::lemma_units_zero(x.magnitude());
    if !x.nan() && !x.negative() {
        let k = v / u;
        assert(0 <= k && k * u <= v && v < (k + 1) * u) by (nonlinear_arith)
            requires
                k == v / u,
                v >= 0,
                u > 0,
        ;
        if k > limit {
            assert(limit * u <= k * u) by (nonlinear_arith)
                requires
                    limit <= k,
                    u > 0,
            ;
        }
    }
}

/// A square between zero and that of a magnitude lies between those of two
/// consecutive ones.
proof fn lemma_square_between(square: int, high: int) -> (m: int)
    requires
        square >= 0,
        high > 0,
        square < Binary64::units(high) * Binary64::units(high),
    ensures
        0 <= m < high,
        Binary64::units(m) * Binary64::units(m) <= square < Binary64::units(m + 1)
            * Binary64::units(m + 1),
    decreases high,
{
    if Binary64::units(high - 1) * Binary64::units(high - 1) <= square {
        high - 1
    } else {
        super::arith::lemma_units_zero(0);
        assert(high > 1) by {
            if high == 1 {
                assert(Binary64::units(0) * Binary64::units(0) == 0) by (nonlinear_arith)
                    requires
                        Binary64::units(0) == 0,
                ;
            }
        }
        lemma_square_between(square, high - 1)
    }
}

/// Every square below that of infinity has a magnitude nearest to its root.
proof fn lemma_nearest_root_exists(square: int)
    requires
        0 <= square < Binary64::units(INFINITE as int) * Binary64::units(INFINITE as int),
    ensures
        Binary64::nearest_root(square, Binary64::rounded_root(square)),
{
    let m = lemma_square_between(square, INFINITE as int);
    let low = Binary64::units(m);
    let high = Binary64::units(m + 1);
    let mid = low + high;
    super::value::lemma_units_step(m);
    super::value::lemma_units_step(m + 1);
    assert(4 * square < (2 * high) * (2 * high)) by (nonlinear_arith)
        requires
            square < high * high,
    ;
    if m > 0 {
        super::value::lemma_units_step(m - 1);
        let before = Binary64::midpoint(m - 1);
        assert(before * before < 4 * square) by (nonlinear_arith)
            requires
                0 <= before < 2 * low,
                low * low <= square,
        ;
    }
    let after = Binary64::midpoint(m + 1);
    assert(4 * square < after * after) by (nonlinear_arith)
        requires
            square < high * high,
            after > 2 * high,
            high > 0,
    ;
    if 4 * square < mid * mid || (4 * square == mid * mid && m % 2 == 0) {
        assert(Binary64::nearest_root(square, m));
    } else {
        assert(Binary64::nearest_root(square, m + 1));
    }
}

/// Law: the square root of a number whose root is at most `2^e` units is off by
/// at most `2^(e - 54)` units: the number lies between the squares of the root
/// less and plus that much.
pub proof fn law_root_error(x: Binary64, e: int)
    requires
        x.finite(),
        !x.negative(),
        53 <= e <= 2000,
        x.value() * pow2(1074) <= pow2(e as nat) * pow2(e as nat),
    ensures
        ({
            let r = x.root().value();
            let gap = pow2((e - 53) as nat) as int;
            let square = x.value() * pow2(1074);
            &&& x.root().finite()
            &&& 0 <= r <= pow2(e as nat)
            &&& 4 * square <= (2 * r + gap) * (2 * r + gap)
            &&& 2 * r >= gap ==> (2 * r - gap) * (2 * r - gap) <= 4 * square
        }),
{
    let limit = pow2(e as nat) as int;
    let gap = pow2((e - 53) as nat) as int;
    lemma_pow2_pos((e - 53) as nat);
    lemma_pow2_pos(1074);
    super::arith::lemma_units_zero(x.magnitude());
    super::arith::lemma_units_zero(0);
    let square = x.value() * pow2(1074);
    assert(square >= 0) by (nonlinear_arith)
        requires
            square == x.value() * pow2(1074),
            x.value() >= 0,
    ;
    if x.magnitude() == 0 {
        assert(square == 0) by (nonlinear_arith)
            requires
                square == x.value() * pow2(1074),
                x.value() == 0,
        ;
        assert((2 * 0 + gap) * (2 * 0 + gap) >= 0) by (nonlinear_arith);
    } else {
        let top = super::laws::lemma_whole_magnitude(1, e);
        assert(1 * pow2(e as nat) == limit);
        super::convert::lemma_units_order(top, INFINITE as int);
        super::arith::lemma_units_zero(top);
        let inf = Binary64::units(INFINITE as int);
        assert(limit * limit < inf * inf) by (nonlinear_arith)
            requires
                0 <= limit < inf,
        ;
        lemma_nearest_root_exists(square);
        let m = Binary64::rounded_root(square);
        super::arith::lemma_units_zero(m);
        // Not above the top.
        if m > top {
            super::value::lemma_units_step(m - 1);
            super::convert::lemma_units_order(top, m - 1);
            let mid = Binary64::midpoint(m - 1);
            assert(mid * mid > 4 * (limit * limit)) by (nonlinear_arith)
                requires
                    mid > 2 * limit,
                    limit >= 0,
            ;
        }
        super::convert::lemma_units_order(m, top);
        super::laws::lemma_composed(false, m);
        let r = Binary64::units(m);
        if m > 0 {
            super::convert::lemma_units_order(m - 1, top);
            super::laws::lemma_gap(m - 1, e);
            let mid = Binary64::midpoint(m - 1);
            let low = 2 * r - gap;
            super::value::lemma_units_step(m - 1);
            if low >= 0 {
                assert(low * low <= mid * mid) by (nonlinear_arith)
                    requires
                        0 <= low <= mid,
                ;
            }
        }
        let high = 2 * r + gap;
        if m < top {
            super::laws::lemma_gap(m, e);
            super::value::lemma_units_step(m);
            let mid = Binary64::midpoint(m);
            assert(mid * mid <= high * high) by (nonlinear_arith)
                requires
                    0 <= mid <= high,
            ;
        } else {
            assert(4 * (limit * limit) <= high * high) by (nonlinear_arith)
                requires
                    high >= 2 * limit,
                    limit >= 0,
            ;
        }
    }
}

/// Law: a NaN makes every result NaN.
pub proof fn law_nan_spreads(a: Binary64, b: Binary64)
    requires
        a.nan() || b.nan(),
    ensures
        a.plus(b).nan(),
        a.minus(b).nan(),
        a.times(b).nan(),
        a.over(b).nan(),
        a.nan() ==> a.root().nan() && a.negated().nan(),
{
}

/// Law: negation changes the sign and nothing else, so that a difference is the
/// sum with the negated number.
pub proof fn law_negation(a: Binary64, b: Binary64)
    ensures
        a.negated().negative() == !a.negative(),
        a.negated().magnitude() == a.magnitude(),
        a.negated().value() == -a.value(),
        a.negated().negated() == a,
        a.minus(b) == a.plus(b.negated()),
{
}

/// Law: infinity keeps its sign in a sum with a number, and in a product or
/// quotient with a positive one; it has no difference, product with zero or
/// quotient with infinity.
pub proof fn law_infinity(a: Binary64, b: Binary64)
    requires
        a.infinite(),
    ensures
        b.finite() ==> a.plus(b) == a && b.plus(a) == a,
        a.plus(a) == a,
        a.minus(a).nan(),
        b.infinite() ==> a.over(b).nan(),
        b.finite() && b.value() == 0 ==> a.times(b).nan() && b.times(a).nan(),
        b.finite() && b.value() > 0 ==> a.times(b) == a && b.times(a) == a && a.over(b) == a,
        b.finite() ==> b.over(a).finite() && b.over(a).value() == 0,
        !a.negative() ==> a.root() == a,
        a.negative() ==> a.root().nan(),
{
    super::arith::lemma_units_zero(0);
    super::arith::lemma_units_zero(a.magnitude());
    super::arith::lemma_units_zero(b.magnitude());
}

/// Law: a number over zero is infinite, zero over zero is NaN, and a negative
/// number has no root.
pub proof fn law_division_by_zero(a: Binary64, zero: Binary64)
    requires
        a.finite(),
        zero.finite(),
        zero.value() == 0,
    ensures
        a.value() != 0 ==> a.over(zero).infinite(),
        a.value() == 0 ==> a.over(zero).nan(),
        a.value() < 0 ==> a.root().nan(),
        zero.root() == zero,
{
    super::arith::lemma_units_zero(0);
    super::arith::lemma_units_zero(a.magnitude());
    super::arith::lemma_units_zero(zero.magnitude());
}

} // verus!
