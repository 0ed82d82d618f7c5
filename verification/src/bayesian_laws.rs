//! What the rate estimate and the commands drawn from it keep.

use crate::bayesian::{
    self, Dispatch, LambdaState, LambdaWarning, LAMBDA_MAX, LAMBDA_MIN, LAMBDA_SCALE,
    MICROS_PER_SECOND, UNIFORM_STEP,
};
use crate::binary64::value::{HIDDEN_BIT, INFINITE};
use crate::binary64::{arith, convert, laws, value, Binary64};
use crate::scoring::{self, ONE, ZERO};
use crate::scoring_laws;
use vstd::arithmetic::power2::*;
use vstd::prelude::*;

verus! {

/// Law: the constants are the numbers that they are named for. The lower bound
/// of the rate is the number nearest to 0.1, the others are exact.
pub proof fn law_constants()
    ensures
        Binary64::rounded(1int * pow2(1074), 10) == LAMBDA_MIN,
        10 * (Binary64 { bits: LAMBDA_MIN }).value() >= pow2(1074),
        (Binary64 { bits: LAMBDA_MAX }).value() == 50 * pow2(1074),
        (Binary64 { bits: LAMBDA_SCALE }).value() == 1000 * pow2(1074),
        (Binary64 { bits: MICROS_PER_SECOND }).value() == 1_000_000 * pow2(1074),
        (Binary64 { bits: UNIFORM_STEP }).value() == pow2(1021),
        pow2(53) * pow2(1021) == pow2(1074),
        pow2(1074) > 0,
{
    lemma2_to64();
    lemma2_to64_rest();
    lemma_pow2_pos(1074);
    laws::lemma_decimal(1, 10, 1018, 0x19_9999_9999_999a);
    value::lemma_units_of_parts(1018, 0x19_9999_9999_999a);
    lemma_pow2_adds(56, 1018);
    lemma_pow2_pos(1018);
    let p = pow2(1018) as int;
    assert(10 * (0x19_9999_9999_999a * p) >= 0x100_0000_0000_0000 * p) by (nonlinear_arith)
        requires
            p > 0,
    ;
    laws::lemma_whole_pattern(Binary64 { bits: LAMBDA_MAX }, 50, 47);
    laws::lemma_whole_pattern(Binary64 { bits: LAMBDA_SCALE }, 1000, 43);
    laws::lemma_whole_pattern(
        Binary64 { bits: MICROS_PER_SECOND },
        1_000_000,
        33,
    );
    value::lemma_units_of_parts(969, HIDDEN_BIT as int);
    lemma_pow2_adds(52, 969);
    lemma_pow2_adds(53, 1021);
}

/// Law: the clamp is never silent. A warning is due exactly where clamping
/// changes the posterior mean.
pub proof fn law_no_silent_clamp(raw: Binary64)
    ensures
        LambdaState::warning_for(raw) is None <==> raw.clamped(
            Binary64 { bits: LAMBDA_MIN },
            Binary64 { bits: LAMBDA_MAX },
        ) == raw,
{
}

/// Whether a rate lies inside its bounds.
pub open spec fn rate_in_bounds(lambda: Binary64) -> bool {
    &&& (Binary64 { bits: LAMBDA_MIN }).at_most(lambda)
    &&& lambda.at_most(Binary64 { bits: LAMBDA_MAX })
}

/// Law: after an update the rate lies inside its bounds, whatever the state,
/// unless the posterior mean is NaN.
pub proof fn law_rate_is_clamped(state: LambdaState, observation: Binary64)
    requires
        !state.raw_mean(observation).nan(),
    ensures
        rate_in_bounds(state.updated(observation).lambda),
{
    convert::lemma_units_order(LAMBDA_MIN as int, LAMBDA_MAX as int);
}

impl LambdaState {
    /// The parameters are whole histories of the prior: `1 <= beta <= alpha <=
    /// 2^53`, and the rate lies inside its bounds.
    pub open spec fn sound(self) -> bool {
        &&& self.alpha.finite()
        &&& !self.alpha.negative()
        &&& self.beta.finite()
        &&& !self.beta.negative()
        &&& pow2(1074) <= self.beta.value() <= self.alpha.value() <= pow2(1127)
        &&& rate_in_bounds(self.lambda)
    }
}

/// The prior is sound.
pub proof fn law_prior_is_sound()
    ensures
        LambdaState::prior().sound(),
{
    scoring_laws::law_constants();
    lemma_pow2_strictly_increases(1074, 1127);
    convert::lemma_units_order(LAMBDA_MIN as int, ONE as int);
    convert::lemma_units_order(ONE as int, LAMBDA_MAX as int);
}

/// Adding at most one to a number up to `2^53` does not exceed `2^53`.
proof fn lemma_sum_up_to_limit(a: Binary64, b: Binary64)
    requires
        a.finite(),
        !a.negative(),
        b.finite(),
        pow2(1074) <= a.value() <= pow2(1127),
        0 <= b.value() <= pow2(1074),
    ensures
        a.plus(b).finite(),
        !a.plus(b).negative(),
        pow2(1074) <= a.plus(b).value() <= pow2(1127),
{
    let one = pow2(1074) as int;
    lemma2_to64();
    lemma2_to64_rest();
    lemma_pow2_pos(1074);
    lemma_pow2_adds(53, 1074);
    scoring_laws::law_constants();
    // The magnitude of two to the power 53, and the next one.
    let top = 1075 * HIDDEN_BIT + HIDDEN_BIT;
    value::lemma_units_of_parts(1075, HIDDEN_BIT as int);
    value::lemma_units_of_parts(1075, HIDDEN_BIT + 1);
    value::lemma_units_step(top - 1);
    lemma_pow2_adds(1, 1074);
    assert(pow2(1075) == 2 * one);
    assert(HIDDEN_BIT * (2 * one) == (2 * HIDDEN_BIT) * one && (HIDDEN_BIT + 1) * (2 * one) == (2
        * HIDDEN_BIT + 2) * one) by (nonlinear_arith);
    let limit = pow2(1127) + one;
    assert(limit == (2 * HIDDEN_BIT + 1) * one) by (nonlinear_arith)
        requires
            limit == (2 * HIDDEN_BIT) * one + one,
    ;
    assert((2 * HIDDEN_BIT) * one + (2 * HIDDEN_BIT + 2) * one == 2 * ((2 * HIDDEN_BIT + 1) * one))
        by (nonlinear_arith);
    assert(Binary64::midpoint(top) * 1 == 2 * limit);
    assert(Binary64::midpoint(top - 1) * 1 < 2 * limit);
    value::lemma_rounded(limit, 1, top);
    let s = a.value() + b.value();
    laws::law_rounding_is_monotone(s, 1, limit, 1);
    laws::lemma_rounded_bounds(s, 1, ONE as int);
    let m = Binary64::rounded(s, 1);
    laws::lemma_composed(false, m);
    convert::lemma_units_order(m, top);
    convert::lemma_units_order(ONE as int, m);
}

/// Law: scores keep a posterior sound. Its mean is never NaN and never below
/// one, so the rate stays inside its bounds and is never raised to the lower.
pub proof fn law_posterior_stays_sound(state: LambdaState, score: Binary64)
    requires
        state.sound(),
        scoring::in_unit_range(score),
    ensures
        state.updated(score).sound(),
        state.raw_mean(score).finite(),
        state.raw_mean(score).value() >= pow2(1074),
        !(LambdaState::warning_for(state.raw_mean(score)) matches Some(
            LambdaWarning::BelowMinimum { .. },
        )),
{
    let one = Binary64 { bits: ONE };
    let unit = pow2(1074) as int;
    scoring_laws::law_constants();
    lemma_pow2_pos(1074);
    lemma_sum_up_to_limit(state.alpha, one);
    lemma_sum_up_to_limit(state.beta, score);
    laws::law_sums_are_monotone(state.beta, score, state.alpha, one);
    let alpha = state.alpha.plus(one);
    let beta = state.beta.plus(score);
    let a = alpha.value();
    let b = beta.value();
    arith::lemma_units_zero(beta.magnitude());
    assert(unit * b <= a * unit && a * unit <= a * b) by (nonlinear_arith)
        requires
            0 < unit <= b <= a,
    ;
    laws::lemma_magnitude_order(one, alpha);
    laws::law_quotient_stays_in_bounds(
        alpha,
        beta,
        ONE as int,
        alpha.magnitude(),
    );
    let raw = alpha.over(beta);
    convert::lemma_units_order(ONE as int, raw.magnitude());
    convert::lemma_units_order(LAMBDA_MIN as int, ONE as int);
    law_rate_is_clamped(state, score);
}

/// Law: a rate inside its bounds is carried by a command to within one
/// thousandth; what is carried lies between 100 and 50000.
pub proof fn law_scaled_rate(lambda: Binary64)
    requires
        rate_in_bounds(lambda),
    ensures
        100 <= bayesian::scaled_rate(lambda) <= 50_000,
        1000 * lambda.value() - pow2(1074) < bayesian::scaled_rate(lambda) * pow2(1074)
            < 1000 * lambda.value() + pow2(1074),
{
    let one = pow2(1074) as int;
    let scale = Binary64 { bits: LAMBDA_SCALE };
    law_constants();
    let l = lambda.value();
    assert(!lambda.negative()) by {
        arith::lemma_units_zero(lambda.magnitude());
    }
    assert(lambda.finite()) by {
        convert::lemma_units_order(lambda.magnitude(), LAMBDA_MAX as int);
    }
    let low = laws::lemma_whole_magnitude(100, 1074);
    let high = laws::lemma_whole_magnitude(50_000, 1074);
    convert::lemma_units_order(low, high);
    let exact = l * (1000 * one);
    assert((100 * one) * one <= exact && exact <= (50_000 * one) * one) by (nonlinear_arith)
        requires
            exact == l * (1000 * one),
            one <= 10 * l,
            l <= 50 * one,
            one > 0,
    ;
    laws::law_product_stays_in_bounds(lambda, scale, low, high);
    let r = lambda.times(scale);
    let v = r.value();
    let k = v / one;
    convert::lemma_units_order(low, r.magnitude());
    convert::lemma_units_order(r.magnitude(), high);
    assert(100 <= k <= 50_000 && k * one <= v < (k + 1) * one) by (nonlinear_arith)
        requires
            k == v / one,
            one > 0,
            100 * one <= v <= 50_000 * one,
    ;
    assert(bayesian::scaled_rate(lambda) == k);
    // A whole number below or above the exact product bounds the rounded one.
    let under = laws::lemma_whole_magnitude(k - 1, 1074);
    let over = laws::lemma_whole_magnitude(k + 1, 1074);
    laws::lemma_rounded_bounds(exact, one, under);
    laws::lemma_rounded_bounds(exact, one, over);
    convert::lemma_units_order(under, r.magnitude());
    convert::lemma_units_order(over, r.magnitude());
    assert((k - 1) * one < k * one) by (nonlinear_arith)
        requires
            one > 0,
    ;
    assert(exact > ((k - 1) * one) * one);
    assert(exact < ((k + 1) * one) * one);
    assert(k * one - one < 1000 * l && 1000 * l < k * one + one) by (nonlinear_arith)
        requires
            exact == l * (1000 * one),
            exact > ((k - 1) * one) * one,
            exact < ((k + 1) * one) * one,
            one > 0,
    ;
}

/// Law: a uniform number is `j / 2^53` exactly, with `j` between 1 and `2^53`;
/// so it lies in `(0, 1]` and has a logarithm.
pub proof fn law_uniform_is_positive(word: u64)
    ensures
        bayesian::uniform_of(word).finite(),
        bayesian::uniform_of(word).value() == (pow2(53) - word / 2048) * pow2(1021),
        0 < bayesian::uniform_of(word).value() <= pow2(1074),
{
    let one = pow2(1074) as int;
    let p = pow2(1021) as int;
    let k = (word / 2048) as int;
    let step = Binary64 { bits: UNIFORM_STEP };
    let leading = Binary64::of_integer(k);
    lemma2_to64();
    lemma2_to64_rest();
    lemma_pow2_pos(1021);
    law_constants();
    scoring_laws::law_constants();
    laws::law_small_integers_are_exact(k);
    let m = laws::lemma_whole_magnitude(k, 1021);
    assert(p * (k * one) == (k * p) * one) by (nonlinear_arith);
    laws::law_product_stays_in_bounds(step, leading, m, m);
    let fraction = step.times(leading);
    laws::lemma_composed(true, m);
    let minus = fraction.negated();
    let j = pow2(53) - k;
    let r = laws::lemma_whole_magnitude(j, 1021);
    let result = Binary64::compose(false, r);
    laws::lemma_composed(false, r);
    assert(one - k * p == j * p) by (nonlinear_arith)
        requires
            one == pow2(53) * p,
            j == pow2(53) - k,
    ;
    laws::law_sum_is_exact(Binary64 { bits: ONE }, minus, result);
    assert(0 < j * p <= pow2(53) * p) by (nonlinear_arith)
        requires
            0 < j <= pow2(53),
            p > 0,
    ;
}

/// Whether a number can be the natural logarithm of a uniform number: not
/// above zero, and not below -37 (the least uniform number is `2^-53`).
pub open spec fn is_log_of_uniform(ln_u: Binary64) -> bool {
    &&& ln_u.finite()
    &&& ln_u.negative() || ln_u.magnitude() == 0
    &&& -ln_u.value() <= 37 * pow2(1074)
}

proof fn lemma_micros(lambda: Binary64, ln_u: Binary64)
    requires
        rate_in_bounds(lambda),
        is_log_of_uniform(ln_u),
    ensures
        ({
            let a = Binary64::units(ln_u.magnitude());
            let q = Binary64::rounded(a * pow2(1074), lambda.value());
            let m = Binary64::rounded(
                Binary64::units(q) * (1_000_000 * pow2(1074)),
                pow2(1074) as int,
            );
            &&& a >= 0
            &&& lambda.value() > 0
            &&& 0 <= q < INFINITE
            &&& 0 <= m < INFINITE
            &&& Binary64::units(m) <= 370_000_000 * pow2(1074)
            &&& bayesian::exponential_micros(lambda, ln_u) == Binary64::units(m) / (pow2(
                1074,
            ) as int)
            &&& 0 <= Binary64::units(m) / (pow2(1074) as int) <= 370_000_000
        }),
{
    let one = pow2(1074) as int;
    law_constants();
    scoring_laws::law_constants();
    arith::lemma_units_zero(lambda.magnitude());
    arith::lemma_units_zero(ln_u.magnitude());
    arith::lemma_units_zero(0);
    convert::lemma_units_order(lambda.magnitude(), LAMBDA_MAX as int);
    laws::lemma_composed(!ln_u.negative(), ln_u.magnitude());
    let a = ln_u.negated();
    let au = Binary64::units(ln_u.magnitude());
    let l = lambda.value();
    let high = laws::lemma_whole_magnitude(370, 1074);
    assert(Binary64::units(0) * l <= au * one && au * one <= (370 * one) * l) by (nonlinear_arith)
        requires
            Binary64::units(0) == 0,
            0 <= au <= 37 * one,
            one <= 10 * l,
            one > 0,
    ;
    laws::law_quotient_stays_in_bounds(a, lambda, 0, high);
    let q = a.over(lambda);
    laws::lemma_nearest_exists(au * one, l);
    laws::lemma_composed(q.negative(), Binary64::rounded(au * one, l));
    assert(q.magnitude() == Binary64::rounded(au * one, l));
    convert::lemma_units_order(q.magnitude(), high);
    arith::lemma_units_zero(q.magnitude());
    let qu = Binary64::units(q.magnitude());
    let million = Binary64 { bits: MICROS_PER_SECOND };
    let top = laws::lemma_whole_magnitude(370_000_000, 1074);
    assert(Binary64::units(0) * one <= qu * (1_000_000 * one) && qu * (1_000_000 * one) <= (
    370_000_000 * one) * one) by (nonlinear_arith)
        requires
            Binary64::units(0) == 0,
            0 <= qu <= 370 * one,
            one > 0,
    ;
    laws::law_product_stays_in_bounds(q, million, 0, top);
    let micros = q.times(million);
    laws::lemma_nearest_exists(qu * (1_000_000 * one), one);
    laws::lemma_composed(
        micros.negative(),
        Binary64::rounded(qu * (1_000_000 * one), one),
    );
    convert::lemma_units_order(micros.magnitude(), top);
    arith::lemma_units_zero(micros.magnitude());
    let mu = Binary64::units(micros.magnitude());
    if ln_u.magnitude() == 0 {
        laws::law_rounding_keeps_numbers(0, l);
        laws::law_rounding_keeps_numbers(0, one);
        assert(Binary64::units(0) * l == 0 && au * one == 0 && Binary64::units(0) * (1_000_000
            * one) == 0 && Binary64::units(0) * one == 0) by (nonlinear_arith)
            requires
                Binary64::units(0) == 0,
                au == 0,
        ;
        assert(micros.magnitude() == 0);
    }
    // The clamp leaves the sample as it is.
    laws::law_small_integers_are_exact(370_000_000);
    laws::law_integers_keep_order(370_000_000, u64::MAX as int);
    let limit = Binary64::of_integer(u64::MAX as int);
    assert(micros.clamped(Binary64 { bits: ZERO }, limit) == micros);
    assert(0 <= mu / one <= 370_000_000) by (nonlinear_arith)
        requires
            0 <= mu <= 370_000_000 * one,
            one > 0,
    ;
    if micros.negative() {
        assert(micros.magnitude() == 0);
        assert(mu / one == 0) by (nonlinear_arith)
            requires
                mu == 0,
                one > 0,
        ;
    }
}

/// Law: a drawn delay is at most 370 seconds, so that the probe's conversion
/// to nanoseconds does not wrap around.
pub proof fn law_delay_is_bounded(lambda: Binary64, ln_u: Binary64)
    requires
        rate_in_bounds(lambda),
        is_log_of_uniform(ln_u),
    ensures
        bayesian::exponential_micros(lambda, ln_u) <= 370_000_000,
        bayesian::exponential_micros(lambda, ln_u) * crate::probe::NS_PER_US <= u64::MAX,
{
    lemma_micros(lambda, ln_u);
}

/// Law: a drawn delay is the exact sample, `-ln_u / lambda` seconds, cut to
/// whole microseconds. With what rounding adds, it is at most `2^-24` of a
/// microsecond longer, and less than `1 + 2^-24` microseconds shorter.
pub proof fn law_delay_is_near_the_sample(lambda: Binary64, ln_u: Binary64)
    requires
        rate_in_bounds(lambda),
        is_log_of_uniform(ln_u),
    ensures
        ({
            let delay = bayesian::exponential_micros(lambda, ln_u);
            let rate = lambda.value();
            let sample = 1_000_000 * -ln_u.value();
            &&& 0x100_0000 * (delay * rate - sample) <= rate
            &&& 0x100_0000 * (sample - delay * rate) < 0x100_0001 * rate
        }),
{
    let one = pow2(1074) as int;
    let a = Binary64::units(ln_u.magnitude());
    let l = lambda.value();
    law_constants();
    lemma_micros(lambda, ln_u);
    arith::lemma_units_zero(ln_u.magnitude());
    arith::lemma_units_zero(0);
    assert(-ln_u.value() == a);
    lemma2_to64();
    lemma2_to64_rest();
    lemma_pow2_adds(1074, 9);
    lemma_pow2_adds(1074, 29);
    let ao = a * one;
    let ol = one * l;
    // The quotient, in seconds.
    assert(0 <= ao <= 370 * ol && 0 < ol) by (nonlinear_arith)
        requires
            ao == a * one,
            ol == one * l,
            0 <= a <= 37 * one,
            one <= 10 * l,
            one > 0,
    ;
    assert((512 * one) * l == 512 * (one * l)) by (nonlinear_arith);
    laws::law_rounding_error(ao, l, 1083);
    let qu = Binary64::units(Binary64::rounded(ao, l));
    let ql = qu * l;
    // The product, in microseconds.
    let qm = 1_000_000 * qu;
    let num = qu * (1_000_000 * one);
    assert(num == qm * one) by (nonlinear_arith)
        requires
            num == qu * (1_000_000 * one),
            qm == 1_000_000 * qu,
    ;
    assert(0 <= qm * one && qm * one <= (0x2000_0000 * one) * one) by (nonlinear_arith)
        requires
            0 <= qm <= 0x2000_0000 * one,
            one > 0,
    ;
    laws::law_rounding_error(num, one, 1103);
    let mu = Binary64::units(Binary64::rounded(num, one));
    let dm = mu - qm;
    assert(mu * one - num == dm * one) by (nonlinear_arith)
        requires
            num == qm * one,
            dm == mu - qm,
    ;
    let t = pow2(54) as int;
    let limit = 0x2000_0000 * one;
    let tm = t * dm;
    assert(t * (dm * one) == tm * one) by (nonlinear_arith)
        requires
            tm == t * dm,
    ;
    assert(-limit <= tm <= limit) by (nonlinear_arith)
        requires
            -(limit * one) <= tm * one <= limit * one,
            one > 0,
    ;
    assert(-one <= 0x200_0000 * dm <= one);
    // Both errors together, for the rate times the delay.
    let dl = dm * l;
    assert(-ol <= 0x200_0000 * dl <= ol) by (nonlinear_arith)
        requires
            dl == dm * l,
            ol == one * l,
            -one <= 0x200_0000 * dm <= one,
            l > 0,
    ;
    let ml = mu * l;
    assert(ml == 1_000_000 * ql + dl) by (nonlinear_arith)
        requires
            ml == mu * l,
            ql == qu * l,
            dl == dm * l,
            dm == mu - 1_000_000 * qu,
    ;
    assert(-ol <= 0x2000_0000_0000 * (ql - ao) <= ol);
    let sample = 1_000_000 * ao;
    assert(-(2 * ol) <= 0x200_0000 * (ml - sample) <= 2 * ol);
    // The cut to whole microseconds.
    let delay = mu / one;
    assert(delay * one <= mu < delay * one + one) by (nonlinear_arith)
        requires
            delay == mu / one,
            one > 0,
    ;
    let d = delay * l;
    let cut = delay * one;
    assert(cut * l <= ml && ml < cut * l + ol) by (nonlinear_arith)
        requires
            ml == mu * l,
            ol == one * l,
            cut <= mu < cut + one,
            l > 0,
    ;
    assert(cut * l == d * one) by (nonlinear_arith)
        requires
            cut == delay * one,
            d == delay * l,
    ;
    let s = 1_000_000 * a;
    assert(sample == s * one) by (nonlinear_arith)
        requires
            sample == 1_000_000 * (a * one),
            s == 1_000_000 * a,
    ;
    let e = d - s;
    assert(d * one - s * one == e * one) by (nonlinear_arith)
        requires
            e == d - s,
    ;
    let x = 0x100_0000 * e;
    assert(x <= l && -x < 0x100_0001 * l) by (nonlinear_arith)
        requires
            x == 0x100_0000 * e,
            0x100_0000 * (e * one) <= one * l,
            -(0x100_0000 * (e * one)) < 0x100_0001 * (one * l),
            one > 0,
    ;
}

/// Law: a higher rate gives no longer a delay.
pub proof fn law_higher_rate_is_shorter(low: Binary64, high: Binary64, ln_u: Binary64)
    requires
        rate_in_bounds(low),
        rate_in_bounds(high),
        low.value() <= high.value(),
        is_log_of_uniform(ln_u),
    ensures
        bayesian::exponential_micros(high, ln_u) <= bayesian::exponential_micros(
            low,
            ln_u,
        ),
{
    let one = pow2(1074) as int;
    lemma_micros(low, ln_u);
    lemma_micros(high, ln_u);
    lemma_pow2_pos(1074);
    let num = Binary64::units(ln_u.magnitude()) * one;
    assert(num >= 0 && num * low.value() <= num * high.value()) by (nonlinear_arith)
        requires
            num == Binary64::units(ln_u.magnitude()) * one,
            Binary64::units(ln_u.magnitude()) >= 0,
            one > 0,
            low.value() <= high.value(),
    ;
    laws::law_rounding_is_monotone(num, high.value(), num, low.value());
    let q1 = Binary64::rounded(num, high.value());
    let q2 = Binary64::rounded(num, low.value());
    lemma_scaled_monotone(q1, q2);
}

/// Law: the less likely the uniform number, the longer the delay; the number
/// one gives none.
pub proof fn law_rarer_samples_are_longer(lambda: Binary64, a: Binary64, b: Binary64)
    requires
        rate_in_bounds(lambda),
        is_log_of_uniform(a),
        is_log_of_uniform(b),
        a.value() <= b.value(),
    ensures
        bayesian::exponential_micros(lambda, b) <= bayesian::exponential_micros(
            lambda,
            a,
        ),
        b.value() == 0 ==> bayesian::exponential_micros(lambda, b) == 0,
{
    let one = pow2(1074) as int;
    lemma_micros(lambda, a);
    lemma_micros(lambda, b);
    lemma_pow2_pos(1074);
    arith::lemma_units_zero(a.magnitude());
    arith::lemma_units_zero(b.magnitude());
    arith::lemma_units_zero(0);
    let l = lambda.value();
    let x = Binary64::units(b.magnitude());
    let y = Binary64::units(a.magnitude());
    assert(0 <= x * one && x * one <= y * one && (x * one) * l <= (y * one) * l) by (nonlinear_arith)
        requires
            0 <= x <= y,
            one > 0,
            l > 0,
    ;
    laws::law_rounding_is_monotone(x * one, l, y * one, l);
    lemma_scaled_monotone(Binary64::rounded(x * one, l), Binary64::rounded(y * one, l));
    if b.value() == 0 {
        laws::law_rounding_keeps_numbers(0, l);
        laws::law_rounding_keeps_numbers(0, one);
        assert(Binary64::units(0) * l == 0 && x * one == 0 && Binary64::units(0) * (1_000_000 * one)
            == 0 && Binary64::units(0) * one == 0) by (nonlinear_arith)
            requires
                Binary64::units(0) == 0,
                x == 0,
        ;
        assert(0int / one == 0) by (nonlinear_arith)
            requires
                one > 0,
        ;
    }
}

proof fn lemma_scaled_monotone(q1: int, q2: int)
    requires
        0 <= q1 <= q2,
    ensures
        ({
            let one = pow2(1074) as int;
            let m1 = Binary64::rounded(Binary64::units(q1) * (1_000_000 * one), one);
            let m2 = Binary64::rounded(Binary64::units(q2) * (1_000_000 * one), one);
            Binary64::units(m1) / one <= Binary64::units(m2) / one
        }),
{
    let one = pow2(1074) as int;
    lemma_pow2_pos(1074);
    arith::lemma_units_zero(q1);
    convert::lemma_units_order(q1, q2);
    let x = Binary64::units(q1) * (1_000_000 * one);
    let y = Binary64::units(q2) * (1_000_000 * one);
    assert(0 <= x <= y && x * one <= y * one) by (nonlinear_arith)
        requires
            x == Binary64::units(q1) * (1_000_000 * one),
            y == Binary64::units(q2) * (1_000_000 * one),
            0 <= Binary64::units(q1) <= Binary64::units(q2),
            one > 0,
    ;
    laws::law_rounding_is_monotone(x, one, y, one);
    let m1 = Binary64::rounded(x, one);
    let m2 = Binary64::rounded(y, one);
    convert::lemma_units_order(m1, m2);
    vstd::arithmetic::div_mod::lemma_div_is_ordered(
        Binary64::units(m1),
        Binary64::units(m2),
        one,
    );
}

/// The posterior of a session after the given scores.
pub open spec fn after_scores(scores: Seq<Binary64>) -> LambdaState
    decreases scores.len(),
{
    if scores.len() == 0 {
        LambdaState::prior()
    } else {
        after_scores(scores.drop_last()).updated(scores.last())
    }
}

/// Law: a posterior counts its scores, and stays sound.
pub proof fn law_posterior_counts_scores(scores: Seq<Binary64>)
    requires
        scores.len() < 0x20_0000_0000_0000,
        forall|i: int|
            0 <= i < scores.len() ==> scoring::in_unit_range(#[trigger] scores[i]),
    ensures
        after_scores(scores).sound(),
        after_scores(scores).alpha.value() == (scores.len() + 1) * pow2(1074),
    decreases scores.len(),
{
    let one = Binary64 { bits: ONE };
    let unit = pow2(1074) as int;
    scoring_laws::law_constants();
    lemma2_to64_rest();
    lemma_pow2_pos(1074);
    if scores.len() == 0 {
        law_prior_is_sound();
        assert(1 * unit == unit);
    } else {
        let before = after_scores(scores.drop_last());
        assert forall|i: int| 0 <= i < scores.len() - 1 implies scoring::in_unit_range(
            #[trigger] scores.drop_last()[i],
        ) by {
            assert(scoring::in_unit_range(scores[i]));
        }
        law_posterior_counts_scores(scores.drop_last());
        assert(scoring::in_unit_range(scores[scores.len() - 1]));
        law_posterior_stays_sound(before, scores.last());
        let count = scores.len() + 1;
        let m = laws::lemma_whole_magnitude(count as int, 1074);
        let result = Binary64::compose(false, m);
        laws::lemma_composed(false, m);
        assert((count - 1) * unit + unit == count * unit) by (nonlinear_arith);
        assert(count * unit > 0) by (nonlinear_arith)
            requires
                count > 0,
                unit > 0,
        ;
        laws::law_sum_is_exact(before.alpha, one, result);
    }
}

/// Law: whatever scores a session had, the next one is answered with an active
/// command whose rate and delay lie inside their bounds.
pub proof fn law_commands_are_bounded(
    scores: Seq<Binary64>,
    score: Binary64,
    ln_u: Binary64,
    dispatch: Dispatch,
)
    requires
        scores.len() < 0x20_0000_0000_0000,
        forall|i: int|
            0 <= i < scores.len() ==> scoring::in_unit_range(#[trigger] scores[i]),
        scoring::in_unit_range(score),
        is_log_of_uniform(ln_u),
        dispatch.answers(after_scores(scores), score, ln_u),
    ensures
        dispatch.command.active == 1,
        rate_in_bounds(dispatch.lambda),
        100 <= dispatch.command.lambda_scaled <= 50_000,
        dispatch.command.delay_us <= 370_000_000,
{
    law_posterior_counts_scores(scores);
    law_posterior_stays_sound(after_scores(scores), score);
    law_scaled_rate(dispatch.lambda);
    law_delay_is_bounded(dispatch.lambda, ln_u);
}

/// The posteriors after scores of several sessions, each with its session's key.
pub open spec fn posteriors_after(history: Seq<(u64, Binary64)>) -> Map<u64, LambdaState>
    decreases history.len(),
{
    if history.len() == 0 {
        Map::empty()
    } else {
        let before = posteriors_after(history.drop_last());
        let last = history.last();
        before.insert(
            last.0,
            bayesian::posterior_of(before, last.0).updated(last.1),
        )
    }
}

/// The scores of one session.
pub open spec fn scores_of(history: Seq<(u64, Binary64)>, pid_tgid: u64) -> Seq<Binary64>
    decreases history.len(),
{
    if history.len() == 0 {
        Seq::empty()
    } else {
        let before = scores_of(history.drop_last(), pid_tgid);
        if history.last().0 == pid_tgid {
            before.push(history.last().1)
        } else {
            before
        }
    }
}

/// Law: a session's posterior depends on its own scores alone.
pub proof fn law_posteriors_are_independent(history: Seq<(u64, Binary64)>, pid_tgid: u64)
    ensures
        bayesian::posterior_of(posteriors_after(history), pid_tgid) == after_scores(
            scores_of(history, pid_tgid),
        ),
    decreases history.len(),
{
    if history.len() > 0 {
        law_posteriors_are_independent(history.drop_last(), pid_tgid);
        let before = scores_of(history.drop_last(), pid_tgid);
        assert(before.push(history.last().1).drop_last() =~= before);
    }
}

} // verus!
