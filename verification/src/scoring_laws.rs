//! What the scoring keeps, whatever events come.

use crate::binary64::value::HIDDEN_BIT;
use crate::binary64::{arith, convert, laws, value, Binary64};
use crate::events::TtyEvent;
use crate::scoring::{
    self, ScoreError, ScoringAction, ScoringInput, SessionView, Verdict, WelfordState,
    ANOMALY_THRESHOLD, BIN_WIDTH_NS, ENTROPY_BINS, ENTROPY_RANGE_NS, HALF, MAX_ENTROPY, ONE,
    REFERENCE_VARIANCE, ZERO,
};
use crate::supervisor::TaskStop;
use crate::window::WINDOW_LEN;
use vstd::arithmetic::power2::*;
use vstd::prelude::*;

verus! {

/// The next magnitude stands for at most twice the number.
proof fn lemma_units_at_most_double(magnitude: int)
    requires
        magnitude >= 1,
    ensures
        Binary64::units(magnitude + 1) <= 2 * Binary64::units(magnitude),
{
    let h = HIDDEN_BIT as int;
    let e = magnitude / h;
    let f = magnitude % h;
    let (exponent, significand) = if e == 0 {
        (0int, f)
    } else {
        (e - 1, f + h)
    };
    assert(magnitude == exponent * h + significand && e >= 0) by (nonlinear_arith)
        requires
            e == magnitude / h,
            f == magnitude % h,
            h == 0x10_0000_0000_0000,
            magnitude >= 0,
            e == 0 ==> exponent == 0 && significand == f,
            e != 0 ==> exponent == e - 1 && significand == f + h,
    ;
    value::lemma_units_of_parts(exponent, significand);
    value::lemma_units_of_parts(exponent, significand + 1);
    let p = pow2(exponent as nat) as int;
    assert((significand + 1) * p <= 2 * (significand * p)) by (nonlinear_arith)
        requires
            significand >= 1,
            p >= 0,
    ;
}

/// The mean moves towards a sample and not beyond it.
pub proof fn law_mean_moves_towards_sample(x: Binary64, mean: Binary64, count: Binary64)
    requires
        x.finite(),
        !x.negative(),
        mean.finite(),
        !mean.negative(),
        count.finite(),
        !count.negative(),
        count.value() >= 2 * pow2(1074) || (count.value() >= pow2(1074) && mean.value() == 0),
    ensures
        ({
            let delta = x.minus(mean);
            let next = mean.plus(delta.over(count));
            &&& delta.finite()
            &&& delta.negative() == (x.value() < mean.value())
            &&& next.finite()
            &&& !next.negative()
            &&& x.value() >= mean.value() ==> mean.value() <= next.value() <= x.value()
            &&& x.value() < mean.value() ==> x.value() <= next.value() <= mean.value()
        }),
{
    let a = x.value();
    let m = mean.value();
    let minus = mean.negated();
    let delta = x.minus(mean);
    laws::lemma_composed(true, mean.magnitude());
    arith::lemma_units_zero(x.magnitude());
    arith::lemma_units_zero(mean.magnitude());
    arith::lemma_units_zero(count.magnitude());
    arith::lemma_units_zero(0);
    lemma_pow2_pos(1074);
    laws::law_sum_stays_in_bounds(x, minus, minus, x);
    let e = if a >= m {
        a - m
    } else {
        m - a
    };
    let dm = delta.magnitude();
    let one = pow2(1074) as int;
    let n = count.value();
    let h = if e == 0 {
        laws::lemma_composed(x.negative() && minus.negative(), 0);
        0
    } else {
        laws::lemma_nearest_exists(e, 1);
        laws::lemma_composed(a < m, Binary64::rounded(e, 1));
        assert(dm == Binary64::rounded(e, 1));
        if Binary64::units(dm) <= e {
            dm
        } else {
            if m == 0 {
                laws::law_rounding_keeps_numbers(x.magnitude(), 1);
                assert(Binary64::units(x.magnitude()) * 1 == e) by (nonlinear_arith)
                    requires
                        Binary64::units(x.magnitude()) == e,
                ;
            }
            assert(dm >= 1);
            value::lemma_units_of_parts(0, 1);
            lemma2_to64();
            assert(Binary64::units(1) == 1);
            assert(dm >= 2);
            let mid = Binary64::midpoint(dm - 1);
            assert(mid * 1 == mid) by (nonlinear_arith);
            dm - 1
        }
    };
    let hu = Binary64::units(h);
    let du = Binary64::units(dm);
    arith::lemma_units_zero(h);
    arith::lemma_units_zero(dm);
    assert(hu <= e);
    assert(du * one <= hu * n) by {
        if h == dm {
            assert(du * one <= hu * n) by (nonlinear_arith)
                requires
                    du == hu,
                    hu >= 0,
                    0 < one <= n,
            ;
        } else if e == 0 {
            assert(du * one == 0) by (nonlinear_arith)
                requires
                    du == 0,
            ;
            assert(hu * n >= 0) by (nonlinear_arith)
                requires
                    hu >= 0,
                    n >= 0,
            ;
        } else {
            lemma_units_at_most_double(dm - 1);
            assert(m != 0);
            assert(du * one <= hu * n) by (nonlinear_arith)
                requires
                    du <= 2 * hu,
                    hu >= 0,
                    one > 0,
                    n >= 2 * one,
            ;
        }
    }
    assert(Binary64::units(0) * n == 0) by (nonlinear_arith)
        requires
            Binary64::units(0) == 0,
    ;
    assert(du * one >= 0) by (nonlinear_arith)
        requires
            du >= 0,
            one > 0,
    ;
    laws::law_quotient_stays_in_bounds(delta, count, 0, h);
    let q = delta.over(count);
    arith::lemma_units_zero(q.magnitude());
    convert::lemma_units_order(q.magnitude(), h);
    if a >= m {
        laws::law_sum_stays_in_bounds(mean, q, mean, x);
    } else {
        laws::law_sum_stays_in_bounds(mean, q, x, mean);
    }
    let s = m + q.value();
    if s == 0 {
        laws::lemma_composed(false, 0);
    } else {
        laws::lemma_nearest_exists(s, 1);
        laws::lemma_composed(false, Binary64::rounded(s, 1));
    }
}

impl WelfordState {
    /// The mean is a finite number that deltas can have, the sum of squares is
    /// not negative, and neither is NaN.
    pub open spec fn sound(self) -> bool {
        &&& self.mean.finite()
        &&& !self.mean.negative()
        &&& self.mean.value() <= pow2(1138)
        &&& !self.m2.nan()
        &&& !self.m2.negative()
        &&& self.n == 0 ==> self.mean.value() == 0
    }
}

/// Law: a fresh session is sound, and an update keeps a session sound; the sum
/// of squares never becomes negative or NaN.
pub proof fn law_updates_stay_sound(state: WelfordState, delta_ns: u64)
    requires
        state.sound(),
        state.n < u64::MAX,
    ensures
        WelfordState::fresh().sound(),
        state.updated(delta_ns).sound(),
        state.updated(delta_ns).n == state.n + 1,
{
    lemma_fresh_is_sound();
    let next = state.updated(delta_ns);
    let x = Binary64::of_integer(delta_ns as int);
    let count = Binary64::of_integer(next.n as int);
    laws::lemma_words_are_finite(delta_ns as int);
    laws::lemma_words_are_finite(next.n as int);
    law_mean_moves_towards_sample(x, state.mean, count);
    let delta = x.minus(state.mean);
    let minus = next.mean.negated();
    let delta2 = x.minus(next.mean);
    laws::lemma_composed(true, next.mean.magnitude());
    arith::lemma_units_zero(x.magnitude());
    arith::lemma_units_zero(next.mean.magnitude());
    arith::lemma_units_zero(0);
    laws::law_sum_stays_in_bounds(x, minus, minus, x);
    let e = x.value() - next.mean.value();
    if e > 0 {
        laws::lemma_nearest_exists(e, 1);
        laws::lemma_composed(false, Binary64::rounded(e, 1));
    } else if e < 0 {
        laws::lemma_nearest_exists(-e, 1);
        laws::lemma_composed(true, Binary64::rounded(-e, 1));
    } else {
        laws::lemma_composed(false, 0);
    }
    laws::law_finite_products(delta, delta2);
    laws::law_non_negative_sums(state.m2, delta.times(delta2));
}

proof fn lemma_fresh_is_sound()
    ensures
        WelfordState::fresh().sound(),
{
    arith::lemma_units_zero(0);
    lemma_pow2_pos(1138);
}

/// Law: the constants are the numbers that they are named for. The threshold
/// is the number nearest to 0.72, the others are exact.
pub proof fn law_constants()
    ensures
        Binary64::rounded(72int * pow2(1074), 100) == ANOMALY_THRESHOLD,
        (Binary64 { bits: ZERO }).value() == 0,
        2 * (Binary64 { bits: HALF }).value() == pow2(1074),
        (Binary64 { bits: ONE }).value() == pow2(1074),
        (Binary64 { bits: MAX_ENTROPY }).value() == 4 * pow2(1074),
        (Binary64 { bits: REFERENCE_VARIANCE }).value() == (500_000 * 500_000) * pow2(1074),
        BIN_WIDTH_NS * ENTROPY_BINS == ENTROPY_RANGE_NS,
        pow2(4) == ENTROPY_BINS,
{
    lemma2_to64();
    lemma2_to64_rest();
    arith::lemma_units_zero(0);
    laws::lemma_decimal(72, 100, 1021, 0x17_0a3d_70a3_d70a);
    laws::lemma_whole_pattern(Binary64 { bits: ONE }, 1, 52);
    laws::lemma_whole_pattern(Binary64 { bits: MAX_ENTROPY }, 4, 50);
    assert(250_000_000_000 * pow2(15) == 0x1d_1a94_a200_0000);
    laws::lemma_whole_pattern(
        Binary64 { bits: REFERENCE_VARIANCE },
        250_000_000_000,
        15,
    );
    value::lemma_units_of_parts(1021, HIDDEN_BIT as int);
    lemma_pow2_adds(52, 1021);
    lemma_pow2_unfold(1074);
    assert(1 * pow2(1074) == pow2(1074)) by (nonlinear_arith);
}

/// Whether the entries for the shares of a window can be logarithms of them:
/// finite, and not above zero.
pub open spec fn is_log_table(log2s: Seq<Binary64>, window_len: int) -> bool {
    &&& log2s.len() > window_len
    &&& forall|c: int|
        1 <= c <= window_len ==> {
            &&& (#[trigger] log2s[c]).finite()
            &&& log2s[c].negative() || log2s[c].magnitude() == 0
        }
}

/// A non-negative number stays so when it is clamped to the unit range.
proof fn lemma_clamped_non_negative(x: Binary64)
    requires
        !x.nan(),
        !x.negative(),
    ensures
        ({
            let r = x.clamped(Binary64 { bits: ZERO }, Binary64 { bits: ONE });
            &&& scoring::in_unit_range(r)
            &&& !r.negative()
        }),
{
    scoring::lemma_clamped_to_unit(x);
}

/// A share of a total is a finite number, not negative.
proof fn lemma_share(count: int, total: int)
    requires
        0 <= count <= total <= u64::MAX,
        0 < total,
    ensures
        scoring::share(count, total).finite(),
        !scoring::share(count, total).negative(),
{
    let c = Binary64::of_integer(count);
    let t = Binary64::of_integer(total);
    laws::lemma_words_are_finite(count);
    laws::lemma_words_are_finite(total);
    laws::law_integers_keep_order(count, total);
    law_constants();
    lemma_pow2_pos(1074);
    arith::lemma_units_zero(0);
    arith::lemma_units_zero(t.magnitude());
    arith::lemma_units_zero(c.magnitude());
    let one = pow2(1074) as int;
    let cu = c.value();
    let tu = t.value();
    assert(cu * one <= one * tu && Binary64::units(0) * tu <= cu * one) by (nonlinear_arith)
        requires
            0 <= cu <= tu,
            one > 0,
            Binary64::units(0) == 0,
    ;
    laws::law_quotient_stays_in_bounds(c, t, 0, ONE as int);
}

/// The Shannon sum is a non-negative number, never NaN.
proof fn lemma_shannon_sum(window: Seq<u64>, log2s: Seq<Binary64>, bins: nat)
    requires
        0 < window.len() <= u32::MAX,
        is_log_table(log2s, window.len() as int),
        bins <= ENTROPY_BINS,
    ensures
        ({
            let h = scoring::shannon_sum(
                scoring::bin_counters(window),
                window.len() as int,
                log2s,
                bins,
            );
            !h.nan() && !h.negative()
        }),
    decreases bins,
{
    if bins > 0 {
        let counters = scoring::bin_counters(window);
        let total = window.len() as int;
        let b = bins - 1;
        lemma_shannon_sum(window, log2s, b as nat);
        scoring::lemma_bin_count_bound(window, b);
        let c = counters[b] as int;
        if c > 0 {
            let p = scoring::share(c, total);
            lemma_share(c, total);
            laws::law_finite_products(p, log2s[c]);
            let term = p.times(log2s[c]);
            laws::lemma_composed(!term.negative(), term.magnitude());
            let h = scoring::shannon_sum(counters, total, log2s, b as nat);
            laws::law_non_negative_sums(h, term.negated());
        }
    }
}

/// Law: the entropy of a window lies in the unit range, given a table of
/// logarithms.
pub proof fn law_entropy_is_normalised(window: Seq<u64>, log2s: Seq<Binary64>)
    requires
        window.len() <= u32::MAX,
        is_log_table(log2s, window.len() as int),
    ensures
        scoring::in_unit_range(scoring::relative_entropy(window, log2s)),
        !scoring::relative_entropy(window, log2s).negative(),
{
    law_constants();
    lemma_pow2_pos(1074);
    if window.len() > 0 {
        lemma_shannon_sum(window, log2s, ENTROPY_BINS as nat);
        let h = scoring::shannon_sum(
            scoring::bin_counters(window),
            window.len() as int,
            log2s,
            ENTROPY_BINS as nat,
        );
        let four = Binary64 { bits: MAX_ENTROPY };
        laws::law_non_negative_quotients(h, four);
        lemma_clamped_non_negative(h.over(four));
    }
}

/// Law: the entropy of a window depends on its histogram alone.
pub proof fn law_entropy_depends_on_histogram(w1: Seq<u64>, w2: Seq<u64>, log2s: Seq<Binary64>)
    requires
        w1.len() == w2.len(),
        forall|b: int|
            0 <= b < ENTROPY_BINS ==> #[trigger] scoring::bin_count(w1, b) == scoring::bin_count(
                w2,
                b,
            ),
    ensures
        scoring::relative_entropy(w1, log2s) == scoring::relative_entropy(w2, log2s),
{
    assert(scoring::bin_counters(w1) =~= scoring::bin_counters(w2));
}

/// Law: the order of a window's deltas does not matter to its entropy.
pub proof fn law_entropy_ignores_order(w1: Seq<u64>, w2: Seq<u64>, log2s: Seq<Binary64>)
    requires
        w1.to_multiset() == w2.to_multiset(),
    ensures
        scoring::relative_entropy(w1, log2s) == scoring::relative_entropy(w2, log2s),
{
    broadcast use vstd::seq_lib::group_to_multiset_ensures;

    assert(w1.len() == w1.to_multiset().len() && w2.len() == w2.to_multiset().len());
    assert forall|b: int| 0 <= b < ENTROPY_BINS implies #[trigger] scoring::bin_count(w1, b)
        == scoring::bin_count(w2, b) by {
        let count = |acc: nat, delta: u64|
            acc + (if scoring::bin_of(delta) == b {
                1nat
            } else {
                0nat
            });
        lemma_bin_count_is_fold(w1, b, count);
        lemma_bin_count_is_fold(w2, b, count);
        vstd::seq_lib::lemma_fold_left_permutation(w1, w2, count, 0nat);
    }
    law_entropy_depends_on_histogram(w1, w2, log2s);
}

proof fn lemma_bin_count_is_fold(window: Seq<u64>, bin: int, count: spec_fn(nat, u64) -> nat)
    requires
        forall|acc: nat, delta: u64| #[trigger]
            count(acc, delta) == acc + (if scoring::bin_of(delta) == bin {
                1nat
            } else {
                0nat
            }),
    ensures
        scoring::bin_count(window, bin) == window.fold_left(0nat, count),
    decreases window.len(),
{
    if window.len() > 0 {
        lemma_bin_count_is_fold(window.drop_last(), bin, count);
    }
}

/// The bin counts of two windows add up.
proof fn lemma_bin_count_of_both(w1: Seq<u64>, w2: Seq<u64>, bin: int)
    ensures
        scoring::bin_count(w1 + w2, bin) == scoring::bin_count(w1, bin) + scoring::bin_count(
            w2,
            bin,
        ),
    decreases w2.len(),
{
    if w2.len() == 0 {
        assert(w1 + w2 =~= w1);
    } else {
        lemma_bin_count_of_both(w1, w2.drop_last(), bin);
        assert((w1 + w2).drop_last() =~= w1 + w2.drop_last());
    }
}

/// Twice the count in twice the total is the same share.
proof fn lemma_share_of_doubled(count: int, total: int)
    requires
        0 <= count <= total,
        0 < total,
        2 * total <= u32::MAX,
    ensures
        scoring::share(2 * count, 2 * total) == scoring::share(count, total),
{
    let one = pow2(1074) as int;
    lemma_pow2_pos(1074);
    laws::law_small_integers_are_exact(count);
    laws::law_small_integers_are_exact(total);
    laws::law_small_integers_are_exact(2 * count);
    laws::law_small_integers_are_exact(2 * total);
    assert(count * one >= 0 && total * one > 0 && (count * one) * one >= 0 && (2 * count) * one == 2
        * (count * one) && (2 * total) * one == 2 * (total * one)) by (nonlinear_arith)
        requires
            count >= 0,
            total > 0,
            one > 0,
    ;
    let a = (count * one) * one;
    let b = total * one;
    assert((2 * (count * one)) * one == 2 * a) by (nonlinear_arith)
        requires
            a == (count * one) * one,
    ;
    assert((2 * a) * b == a * (2 * b)) by (nonlinear_arith);
    laws::law_rounding_is_monotone(2 * a, 2 * b, a, b);
    laws::law_rounding_is_monotone(a, b, 2 * a, 2 * b);
}

/// Law: a window that is repeated has the same entropy, given logarithms that
/// are equal for equal shares.
pub proof fn law_entropy_of_repeated_window(
    window: Seq<u64>,
    log2s: Seq<Binary64>,
    doubled: Seq<Binary64>,
)
    requires
        2 * window.len() <= u32::MAX,
        forall|c: int| 1 <= c <= window.len() ==> #[trigger] log2s[c] == doubled[2 * c],
    ensures
        scoring::relative_entropy(window + window, doubled) == scoring::relative_entropy(
            window,
            log2s,
        ),
{
    if window.len() > 0 {
        lemma_shannon_sum_of_repeated(window, log2s, doubled, ENTROPY_BINS as nat);
    }
}

proof fn lemma_shannon_sum_of_repeated(
    window: Seq<u64>,
    log2s: Seq<Binary64>,
    doubled: Seq<Binary64>,
    bins: nat,
)
    requires
        0 < window.len(),
        2 * window.len() <= u32::MAX,
        forall|c: int| 1 <= c <= window.len() ==> #[trigger] log2s[c] == doubled[2 * c],
        bins <= ENTROPY_BINS,
    ensures
        scoring::shannon_sum(
            scoring::bin_counters(window + window),
            (window + window).len() as int,
            doubled,
            bins,
        ) == scoring::shannon_sum(
            scoring::bin_counters(window),
            window.len() as int,
            log2s,
            bins,
        ),
    decreases bins,
{
    if bins > 0 {
        let b = bins - 1;
        lemma_shannon_sum_of_repeated(window, log2s, doubled, b as nat);
        lemma_bin_count_of_both(window, window, b);
        scoring::lemma_bin_count_bound(window, b);
        let c = scoring::bin_counters(window)[b] as int;
        assert(c == scoring::bin_count(window, b));
        assert(scoring::bin_counters(window + window)[b] == 2 * c);
        lemma_share_of_doubled(c, window.len() as int);
        if c > 0 {
            assert(log2s[c] == doubled[2 * c]);
        }
    }
}

/// Law: the variance of a sound session is not negative and not NaN, and its
/// signal lies in the unit range.
pub proof fn law_variance_is_not_negative(state: WelfordState)
    requires
        state.sound(),
    ensures
        !state.spread().nan(),
        !state.spread().negative(),
        scoring::in_unit_range(scoring::relative_variance(state)),
        !scoring::relative_variance(state).negative(),
{
    law_constants();
    lemma_pow2_pos(1074);
    if state.n > 0 {
        laws::lemma_words_are_finite(state.n as int);
        laws::law_non_negative_quotients(
            state.m2,
            Binary64::of_integer(state.n as int),
        );
    }
    let reference = Binary64 { bits: REFERENCE_VARIANCE };
    assert((500_000 * 500_000) * pow2(1074) > 0) by (nonlinear_arith)
        requires
            pow2(1074) > 0,
    ;
    laws::law_non_negative_quotients(state.spread(), reference);
    lemma_clamped_non_negative(state.spread().over(reference));
}

/// Law: the score of a session with sound statistics is a number in the unit
/// range.
pub proof fn law_score_is_normalised(stats: WelfordState, window: Seq<u64>, log2s: Seq<Binary64>)
    requires
        stats.sound(),
        window.len() <= WINDOW_LEN,
        is_log_table(log2s, WINDOW_LEN as int),
    ensures
        scoring::in_unit_range(scoring::normalised_score(stats, window, log2s)),
{
    let half = Binary64 { bits: HALF };
    let v = scoring::relative_variance(stats);
    let h = scoring::relative_entropy(window, log2s);
    law_variance_is_not_negative(stats);
    law_entropy_is_normalised(window, log2s);
    laws::law_finite_products(half, v);
    laws::law_finite_products(half, h);
    laws::law_non_negative_sums(half.times(v), half.times(h));
    lemma_clamped_non_negative(half.times(v).plus(half.times(h)));
}

/// The state of a session after the given deltas.
pub open spec fn after_deltas(deltas: Seq<u64>) -> WelfordState
    decreases deltas.len(),
{
    if deltas.len() == 0 {
        WelfordState::fresh()
    } else {
        after_deltas(deltas.drop_last()).updated(deltas.last())
    }
}

/// A session after events at the given times.
pub open spec fn after_events(times: Seq<u64>) -> SessionView
    decreases times.len(),
{
    if times.len() == 0 {
        SessionView::fresh()
    } else {
        after_events(times.drop_last()).advanced(times.last())
    }
}

/// The time of the last event; zero where there was none.
pub open spec fn last_time(times: Seq<u64>) -> u64 {
    if times.len() == 0 {
        0
    } else {
        times.last()
    }
}

/// The deltas between events at the given times, in their order. There is none
/// where the event before is missing or at time zero, and a clock that goes
/// backwards gives zero.
pub open spec fn deltas_of(times: Seq<u64>) -> Seq<u64>
    decreases times.len(),
{
    if times.len() == 0 {
        Seq::empty()
    } else {
        let before = times.drop_last();
        let prior = last_time(before);
        if prior == 0 {
            deltas_of(before)
        } else {
            deltas_of(before).push(
                if times.last() >= prior {
                    (times.last() - prior) as u64
                } else {
                    0
                },
            )
        }
    }
}

/// Whether no event came at time zero.
pub open spec fn past_zero(times: Seq<u64>) -> bool {
    forall|i: int| 0 <= i < times.len() ==> times[i] != 0
}

/// Law: a session holds the statistics of all its deltas, and its window is
/// the most recent sixteen of them.
pub proof fn law_session_holds_its_deltas(times: Seq<u64>)
    ensures
        after_events(times).stats == after_deltas(deltas_of(times)).stamped(last_time(times)),
        after_events(times).window == recent_deltas(times),
    decreases times.len(),
{
    if times.len() > 0 {
        let before = times.drop_last();
        law_session_holds_its_deltas(before);
        if last_time(before) != 0 {
            let deltas = deltas_of(before);
            let delta_ns = deltas_of(times).last();
            assert(deltas.push(delta_ns).drop_last() =~= deltas);
            crate::window::law_window_slides(deltas, delta_ns);
        }
    }
}

/// The most recent deltas between events at the given times.
pub open spec fn recent_deltas(times: Seq<u64>) -> Seq<u64> {
    crate::window::recent(deltas_of(times))
}

/// The number of deltas is below that of the events, by one where no event
/// came at time zero.
proof fn lemma_delta_count(times: Seq<u64>)
    ensures
        times.len() == 0 ==> deltas_of(times).len() == 0,
        times.len() > 0 ==> deltas_of(times).len() <= times.len() - 1,
        times.len() > 0 && past_zero(times) ==> deltas_of(times).len() == times.len() - 1,
    decreases times.len(),
{
    if times.len() > 0 {
        let before = times.drop_last();
        lemma_delta_count(before);
        if before.len() > 0 {
            assert(before.last() == times[times.len() - 2]);
            if past_zero(times) {
                assert forall|i: int| 0 <= i < before.len() implies before[i] != 0 by {
                    assert(times[i] != 0);
                }
            }
        }
    }
}

/// Law: statistics count their deltas and stay sound.
pub proof fn law_statistics_stay_sound(deltas: Seq<u64>)
    requires
        deltas.len() <= u64::MAX,
    ensures
        after_deltas(deltas).sound(),
        after_deltas(deltas).n == deltas.len(),
    decreases deltas.len(),
{
    if deltas.len() == 0 {
        lemma_fresh_is_sound();
    } else {
        law_statistics_stay_sound(deltas.drop_last());
        law_updates_stay_sound(after_deltas(deltas.drop_last()), deltas.last());
    }
}

/// Law: a session stays sound, counts its deltas, fewer than its events, and
/// keeps as many of them as its window takes.
pub proof fn law_sessions_stay_sound(times: Seq<u64>)
    requires
        times.len() <= u64::MAX,
    ensures
        after_events(times).stats.sound(),
        after_events(times).stats.n == deltas_of(times).len(),
        after_events(times).stats.last_timestamp_ns == last_time(times),
        after_events(times).window.len() == (if deltas_of(times).len() < WINDOW_LEN {
            deltas_of(times).len()
        } else {
            WINDOW_LEN as nat
        }),
        times.len() == 0 ==> after_events(times).stats.n == 0,
        times.len() > 0 ==> after_events(times).stats.n <= times.len() - 1,
        times.len() > 0 && past_zero(times) ==> after_events(times).stats.n == times.len() - 1,
{
    lemma_delta_count(times);
    law_session_holds_its_deltas(times);
    law_statistics_stay_sound(deltas_of(times));
    crate::window::law_window_slides(deltas_of(times), 0);
}

/// Law: no event ends in an error. The first event of a session gives no
/// delta, and a session is not scored before its seventeenth; where no event
/// came at time zero, the fifteen after the first only warm it up and every
/// later one is scored.
pub proof fn law_every_session_warms_up(
    times: Seq<u64>,
    timestamp_ns: u64,
    log2s: Seq<Binary64>,
    verdict: Result<Verdict, ScoreError>,
)
    requires
        times.len() < u64::MAX,
        is_log_table(log2s, WINDOW_LEN as int),
        after_events(times).judged(timestamp_ns, log2s, verdict),
    ensures
        verdict is Ok,
        verdict->Ok_0 is FirstEvent <==> last_time(times) == 0,
        times.len() == 0 ==> verdict->Ok_0 is FirstEvent,
        verdict->Ok_0 is Normal || verdict->Ok_0 is Anomalous ==> times.len() >= ENTROPY_BINS,
        past_zero(times) ==> {
            &&& verdict->Ok_0 is FirstEvent <==> times.len() == 0
            &&& verdict->Ok_0 is WarmingUp <==> 1 <= times.len() < ENTROPY_BINS
            &&& (verdict->Ok_0 is Normal || verdict->Ok_0 is Anomalous) <==> times.len()
                >= ENTROPY_BINS
        },
{
    law_sessions_stay_sound(times);
    let session = after_events(times);
    if last_time(times) != 0 {
        let delta = session.stats.elapsed(timestamp_ns);
        let next = session.advanced(timestamp_ns);
        law_updates_stay_sound(session.stats.stamped(timestamp_ns), delta);
        crate::window::law_window_slides(session.window, delta);
        crate::window::law_window_slides(session.window.push(delta), delta);
        law_score_is_normalised(next.stats, next.window, log2s);
    }
}

/// Law: what a session is scored by are the statistics of all its deltas and
/// the entropy of its sixteen most recent ones, the last event's included.
pub proof fn law_score_is_of_observed_deltas(
    times: Seq<u64>,
    timestamp_ns: u64,
    log2s: Seq<Binary64>,
    verdict: Result<Verdict, ScoreError>,
)
    requires
        times.len() < u64::MAX,
        after_events(times).judged(timestamp_ns, log2s, verdict),
    ensures
        ({
            let deltas = deltas_of(times.push(timestamp_ns));
            let stats = after_deltas(deltas).stamped(timestamp_ns);
            let window = crate::window::recent(deltas);
            let score = scoring::normalised_score(stats, window, log2s);
            match verdict {
                Ok(Verdict::Normal { score: s }) => {
                    s.score() == score && deltas.len() >= WINDOW_LEN && window.len() == WINDOW_LEN
                },
                Ok(Verdict::Anomalous { score: s }) => {
                    s.score() == score && deltas.len() >= WINDOW_LEN && window.len() == WINDOW_LEN
                },
                _ => true,
            }
        }),
{
    let all = times.push(timestamp_ns);
    assert(all.drop_last() =~= times);
    law_session_holds_its_deltas(all);
    law_sessions_stay_sound(all);
}

/// The sessions after events of several of them.
pub open spec fn sessions_after(events: Seq<TtyEvent>) -> Map<u64, SessionView>
    decreases events.len(),
{
    if events.len() == 0 {
        Map::empty()
    } else {
        let before = sessions_after(events.drop_last());
        let last = events.last();
        before.insert(
            last.pid_tgid,
            scoring::session_of(before, last.pid_tgid).advanced(last.timestamp_ns),
        )
    }
}

/// The times of one session's events.
pub open spec fn times_of(events: Seq<TtyEvent>, pid_tgid: u64) -> Seq<u64>
    decreases events.len(),
{
    if events.len() == 0 {
        Seq::empty()
    } else {
        let before = times_of(events.drop_last(), pid_tgid);
        if events.last().pid_tgid == pid_tgid {
            before.push(events.last().timestamp_ns)
        } else {
            before
        }
    }
}

/// Law: a session, its window included, depends on the times of its own events
/// alone.
pub proof fn law_sessions_are_independent(events: Seq<TtyEvent>, pid_tgid: u64)
    ensures
        scoring::session_of(sessions_after(events), pid_tgid) == after_events(
            times_of(events, pid_tgid),
        ),
        scoring::session_of(sessions_after(events), pid_tgid).window == recent_deltas(
            times_of(events, pid_tgid),
        ),
    decreases events.len(),
{
    law_session_holds_its_deltas(times_of(events, pid_tgid));
    if events.len() > 0 {
        law_sessions_are_independent(events.drop_last(), pid_tgid);
        let before = times_of(events.drop_last(), pid_tgid);
        assert(before.push(events.last().timestamp_ns).drop_last() =~= before);
    }
}

impl SessionView {
    /// Whether an event makes the session's score be sent on: it gives a delta,
    /// the session is past its warm-up, and the score reaches the threshold.
    pub open spec fn sends(self, timestamp_ns: u64, log2s: Seq<Binary64>) -> bool {
        let next = self.advanced(timestamp_ns);
        &&& self.stats.last_timestamp_ns != 0
        &&& next.stats.n >= ENTROPY_BINS
        &&& (Binary64 { bits: ANOMALY_THRESHOLD }).at_most(next.score(log2s))
    }
}

/// Law: a score is sent on exactly where the session is past its warm-up and
/// the score is a number that reaches the threshold; what is sent is that
/// score, normalised, under the session's own key.
pub proof fn law_only_anomalies_are_sent(
    session: SessionView,
    event: TtyEvent,
    log2s: Seq<Binary64>,
    verdict: Result<Verdict, ScoreError>,
)
    requires
        session.judged(event.timestamp_ns, log2s, verdict),
    ensures
        ({
            let action = scoring::action_for(event.pid_tgid, verdict);
            &&& action is Send <==> session.sends(event.timestamp_ns, log2s)
            &&& action matches ScoringAction::Send { pid_tgid, score: sent } ==> {
                &&& pid_tgid == event.pid_tgid
                &&& sent.score() == session.advanced(event.timestamp_ns).score(log2s)
                &&& scoring::in_unit_range(sent.score())
                &&& (Binary64 { bits: ANOMALY_THRESHOLD }).at_most(sent.score())
            }
        }),
{
}

/// Law: whatever events came before, an event is answered without an error,
/// given a table of logarithms. A score is sent on only past the warm-up and
/// lies between the threshold and one; past the warm-up, a score that reaches
/// the threshold is sent on.
pub proof fn law_every_event_is_answered(
    events: Seq<TtyEvent>,
    event: TtyEvent,
    log2s: Seq<Binary64>,
    verdict: Result<Verdict, ScoreError>,
)
    requires
        times_of(events, event.pid_tgid).len() < u64::MAX,
        is_log_table(log2s, WINDOW_LEN as int),
        scoring::session_of(sessions_after(events), event.pid_tgid).judged(
            event.timestamp_ns,
            log2s,
            verdict,
        ),
    ensures
        verdict is Ok,
        ({
            let threshold = Binary64 { bits: ANOMALY_THRESHOLD };
            let next = sessions_after(events.push(event))[event.pid_tgid];
            let action = scoring::action_for(event.pid_tgid, verdict);
            &&& action matches ScoringAction::Send { pid_tgid, score } ==> {
                &&& pid_tgid == event.pid_tgid
                &&& score.score() == next.score(log2s)
                &&& threshold.at_most(score.score())
                &&& score.score().at_most(Binary64 { bits: ONE })
                &&& next.stats.n >= ENTROPY_BINS
            }
            &&& next.stats.n >= ENTROPY_BINS && last_time(times_of(events, event.pid_tgid)) != 0
                && threshold.at_most(next.score(log2s)) ==> action is Send
        }),
{
    let times = times_of(events, event.pid_tgid);
    assert(events.push(event).drop_last() =~= events);
    law_sessions_are_independent(events, event.pid_tgid);
    law_every_session_warms_up(times, event.timestamp_ns, log2s, verdict);
    law_only_anomalies_are_sent(after_events(times), event, log2s, verdict);
    law_sessions_stay_sound(times);
}

/// Whether the scoring task goes through `states` and does `actions` on a
/// stream of events.
pub open spec fn scoring_steps(
    events: Seq<TtyEvent>,
    log2s: Seq<Binary64>,
    states: Seq<Map<u64, SessionView>>,
    actions: Seq<ScoringAction>,
) -> bool {
    &&& states.len() > events.len()
    &&& actions.len() >= events.len()
    &&& states[0] == Map::<u64, SessionView>::empty()
    &&& forall|i: int|
        #![trigger events[i]]
        0 <= i < events.len() ==> scoring::turn(
            states[i],
            ScoringInput::Event { event: events[i] },
            log2s,
            states[i + 1],
            actions[i],
        )
}

/// Whether the scoring task goes through `states` and does `actions` on a
/// stream of events that is then closed.
pub open spec fn scoring_run(
    events: Seq<TtyEvent>,
    log2s: Seq<Binary64>,
    states: Seq<Map<u64, SessionView>>,
    actions: Seq<ScoringAction>,
) -> bool {
    let n = events.len() as int;
    &&& scoring_steps(events, log2s, states, actions)
    &&& states.len() == n + 2
    &&& actions.len() == n + 1
    &&& scoring::turn(states[n], ScoringInput::ChannelClosed, log2s, states[n + 1], actions[n])
}

/// The scores that are sent on for one session, on the first `count` events.
pub open spec fn messages(actions: Seq<ScoringAction>, count: nat, pid_tgid: u64) -> Seq<Binary64>
    decreases count,
{
    if count == 0 {
        Seq::empty()
    } else {
        let before = messages(actions, (count - 1) as nat, pid_tgid);
        match actions[count - 1] {
            ScoringAction::Send { pid_tgid: key, score } => if key == pid_tgid {
                before.push(score.score())
            } else {
                before
            },
            _ => before,
        }
    }
}

/// The scores that are sent on for a session with events at the given times.
pub open spec fn session_messages(times: Seq<u64>, log2s: Seq<Binary64>) -> Seq<Binary64>
    decreases times.len(),
{
    if times.len() == 0 {
        Seq::empty()
    } else {
        let earlier = session_messages(times.drop_last(), log2s);
        if after_events(times.drop_last()).sends(times.last(), log2s) {
            earlier.push(after_events(times).score(log2s))
        } else {
            earlier
        }
    }
}

/// Law: what is sent on for a session is decided by the times of its own events
/// alone; with the stream closed, the task stops.
pub proof fn law_messages_of_a_session(
    events: Seq<TtyEvent>,
    log2s: Seq<Binary64>,
    states: Seq<Map<u64, SessionView>>,
    actions: Seq<ScoringAction>,
    pid_tgid: u64,
)
    requires
        scoring_run(events, log2s, states, actions),
    ensures
        messages(actions, events.len(), pid_tgid) == session_messages(
            times_of(events, pid_tgid),
            log2s,
        ),
        actions.last() == (ScoringAction::Stop { reason: TaskStop::ChannelClosed }),
{
    lemma_messages(events, log2s, states, actions, pid_tgid);
}

proof fn lemma_messages(
    events: Seq<TtyEvent>,
    log2s: Seq<Binary64>,
    states: Seq<Map<u64, SessionView>>,
    actions: Seq<ScoringAction>,
    pid_tgid: u64,
)
    requires
        scoring_steps(events, log2s, states, actions),
    ensures
        states[events.len() as int] == sessions_after(events),
        messages(actions, events.len(), pid_tgid) == session_messages(
            times_of(events, pid_tgid),
            log2s,
        ),
    decreases events.len(),
{
    if events.len() > 0 {
        let shorter = events.drop_last();
        let n = shorter.len() as int;
        assert forall|i: int| #![trigger shorter[i]] 0 <= i < n implies scoring::turn(
            states[i],
            ScoringInput::Event { event: shorter[i] },
            log2s,
            states[i + 1],
            actions[i],
        ) by {
            assert(events[i] == shorter[i]);
        }
        lemma_messages(shorter, log2s, states, actions, pid_tgid);
        let event = events[n];
        assert(event == events.last());
        let session = scoring::session_of(states[n], event.pid_tgid);
        let verdict = choose|verdict: Result<Verdict, ScoreError>|
            {
                &&& #[trigger] session.judged(event.timestamp_ns, log2s, verdict)
                &&& actions[n] == scoring::action_for(event.pid_tgid, verdict)
            };
        law_only_anomalies_are_sent(session, event, log2s, verdict);
        law_sessions_are_independent(shorter, event.pid_tgid);
        let times = times_of(shorter, event.pid_tgid);
        assert(times.push(event.timestamp_ns).drop_last() =~= times);
    }
}

/// Law: sessions do not influence each other. Two streams that agree on the
/// times of a session's events have the same scores sent on for it, in the
/// same order, whatever the other events are.
pub proof fn law_streams_agree_on_a_session(
    log2s: Seq<Binary64>,
    events1: Seq<TtyEvent>,
    states1: Seq<Map<u64, SessionView>>,
    actions1: Seq<ScoringAction>,
    events2: Seq<TtyEvent>,
    states2: Seq<Map<u64, SessionView>>,
    actions2: Seq<ScoringAction>,
    pid_tgid: u64,
)
    requires
        scoring_run(events1, log2s, states1, actions1),
        scoring_run(events2, log2s, states2, actions2),
        times_of(events1, pid_tgid) == times_of(events2, pid_tgid),
    ensures
        messages(actions1, events1.len(), pid_tgid) == messages(
            actions2,
            events2.len(),
            pid_tgid,
        ),
{
    law_messages_of_a_session(events1, log2s, states1, actions1, pid_tgid);
    law_messages_of_a_session(events2, log2s, states2, actions2, pid_tgid);
}

/// Law: nothing is sent on for a session with at most sixteen events: it takes
/// sixteen deltas, and so seventeen events, to score it.
pub proof fn law_short_sessions_send_nothing(
    events: Seq<TtyEvent>,
    log2s: Seq<Binary64>,
    states: Seq<Map<u64, SessionView>>,
    actions: Seq<ScoringAction>,
    pid_tgid: u64,
)
    requires
        scoring_run(events, log2s, states, actions),
        times_of(events, pid_tgid).len() <= ENTROPY_BINS,
    ensures
        messages(actions, events.len(), pid_tgid).len() == 0,
        actions.last() == (ScoringAction::Stop { reason: TaskStop::ChannelClosed }),
{
    law_messages_of_a_session(events, log2s, states, actions, pid_tgid);
    lemma_short_session(times_of(events, pid_tgid), log2s);
}

proof fn lemma_short_session(times: Seq<u64>, log2s: Seq<Binary64>)
    requires
        times.len() <= ENTROPY_BINS,
    ensures
        session_messages(times, log2s).len() == 0,
    decreases times.len(),
{
    if times.len() > 0 {
        lemma_short_session(times.drop_last(), log2s);
        law_sessions_stay_sound(times);
    }
}

/// Law: every score that is sent on lies between the threshold and one.
pub proof fn law_messages_reach_the_threshold(times: Seq<u64>, log2s: Seq<Binary64>, i: int)
    requires
        0 <= i < session_messages(times, log2s).len(),
    ensures
        scoring::in_unit_range(session_messages(times, log2s)[i]),
        (Binary64 { bits: ANOMALY_THRESHOLD }).at_most(session_messages(times, log2s)[i]),
    decreases times.len(),
{
    let before = times.drop_last();
    if i < session_messages(before, log2s).len() {
        law_messages_reach_the_threshold(before, log2s, i);
    } else {
        let next = after_events(times);
        scoring::lemma_clamped_to_unit(
            scoring::mixed_score(next.stats, next.window, log2s),
        );
    }
}

/// How many deltas of a window fall into the first `bins` bins.
pub open spec fn total_count(window: Seq<u64>, bins: nat) -> nat
    decreases bins,
{
    if bins == 0 {
        0
    } else {
        total_count(window, (bins - 1) as nat) + scoring::bin_count(window, bins - 1)
    }
}

proof fn lemma_total_count_of_empty(window: Seq<u64>, bins: nat)
    requires
        window.len() == 0,
    ensures
        total_count(window, bins) == 0,
    decreases bins,
{
    if bins > 0 {
        lemma_total_count_of_empty(window, (bins - 1) as nat);
    }
}

proof fn lemma_total_count_step(window: Seq<u64>, bins: nat)
    requires
        window.len() > 0,
    ensures
        total_count(window, bins) == total_count(window.drop_last(), bins) + (if scoring::bin_of(
            window.last(),
        ) < bins {
            1nat
        } else {
            0nat
        }),
    decreases bins,
{
    if bins > 0 {
        lemma_total_count_step(window, (bins - 1) as nat);
    }
}

/// Law: every delta of a window is counted in exactly one bin.
pub proof fn law_histogram_counts_every_delta(window: Seq<u64>)
    ensures
        total_count(window, ENTROPY_BINS as nat) == window.len(),
    decreases window.len(),
{
    if window.len() == 0 {
        lemma_total_count_of_empty(window, ENTROPY_BINS as nat);
    } else {
        law_histogram_counts_every_delta(window.drop_last());
        lemma_total_count_step(window, ENTROPY_BINS as nat);
    }
}

/// The state after `count` updates of a fresh session with one and the same
/// delta.
pub open spec fn after_repeats(delta_ns: u64, count: nat) -> WelfordState
    decreases count,
{
    if count == 0 {
        WelfordState::fresh()
    } else {
        after_repeats(delta_ns, (count - 1) as nat).updated(delta_ns)
    }
}

/// A number minus itself is zero, and zero changes no sum.
proof fn lemma_no_change(x: Binary64, count: Binary64)
    requires
        x.finite(),
        !x.negative(),
        count.finite(),
        !count.negative(),
        count.value() > 0,
    ensures
        x.minus(x) == (Binary64 { bits: ZERO }),
        (Binary64 { bits: ZERO }).over(count) == (Binary64 { bits: ZERO }),
        x.plus(Binary64 { bits: ZERO }) == x,
        (Binary64 { bits: ZERO }).times(Binary64 { bits: ZERO }) == (Binary64 { bits: ZERO }),
{
    let zero = Binary64 { bits: ZERO };
    arith::lemma_units_zero(0);
    arith::lemma_units_zero(x.magnitude());
    laws::lemma_composed(true, x.magnitude());
    lemma_pow2_pos(1074);
    laws::law_rounding_keeps_numbers(0, count.value());
    laws::law_rounding_keeps_numbers(0, pow2(1074) as int);
    laws::law_rounding_keeps_numbers(x.magnitude(), 1);
    assert(0 * pow2(1074) == 0 && Binary64::units(0) * count.value() == 0 && Binary64::units(0)
        * pow2(1074) == 0 && x.value() * 1 == x.value() && 0 * 0 == 0) by (nonlinear_arith)
        requires
            Binary64::units(0) == 0,
    ;
    if x.value() == 0 {
        assert(x.bits == 0);
    }
}

/// Law: a perfectly regular session has its delta as the mean and no variance.
pub proof fn law_regular_sessions_have_no_variance(delta_ns: u64, count: nat)
    requires
        1 <= count <= u64::MAX,
    ensures
        after_repeats(delta_ns, count).n == count,
        after_repeats(delta_ns, count).mean == Binary64::of_integer(delta_ns as int),
        after_repeats(delta_ns, count).m2 == (Binary64 { bits: ZERO }),
        after_repeats(delta_ns, count).spread() == (Binary64 { bits: ZERO }),
    decreases count,
{
    let x = Binary64::of_integer(delta_ns as int);
    let n = Binary64::of_integer(count as int);
    let zero = Binary64 { bits: ZERO };
    laws::lemma_words_are_finite(delta_ns as int);
    laws::lemma_words_are_finite(count as int);
    lemma_pow2_pos(1074);
    lemma_no_change(x, n);
    arith::lemma_units_zero(0);
    lemma_no_change(zero, n);
    if count == 1 {
        // The first sample becomes the mean.
        arith::lemma_units_zero(x.magnitude());
        laws::lemma_composed(true, 0);
        laws::law_rounding_keeps_numbers(x.magnitude(), 1);
        laws::law_small_integers_are_exact(1);
        assert(1 * pow2(1074) == pow2(1074) && x.value() * 1 == x.value()) by (nonlinear_arith);
        laws::law_rounding_keeps_numbers(x.magnitude(), n.value());
        assert(after_repeats(delta_ns, 0) == WelfordState::fresh());
        assert(x.minus(zero) == x);
        assert(x.over(n) == x);
        assert(zero.plus(x) == x);
    } else {
        law_regular_sessions_have_no_variance(delta_ns, (count - 1) as nat);
    }
}

/// Law: the mean lies between the deltas that it is the mean of.
pub proof fn law_mean_lies_among_deltas(deltas: Seq<u64>, low: u64, high: u64)
    requires
        1 <= deltas.len() <= u64::MAX,
        forall|i: int| 0 <= i < deltas.len() ==> low <= #[trigger] deltas[i] <= high,
    ensures
        after_deltas(deltas).n == deltas.len(),
        after_deltas(deltas).sound(),
        Binary64::of_integer(low as int).value() <= after_deltas(deltas).mean.value()
            <= Binary64::of_integer(high as int).value(),
    decreases deltas.len(),
{
    let delta_ns = deltas[deltas.len() - 1];
    let before = deltas.drop_last();
    laws::law_integers_keep_order(low as int, delta_ns as int);
    laws::law_integers_keep_order(delta_ns as int, high as int);
    if deltas.len() == 1 {
        law_regular_sessions_have_no_variance(delta_ns, 1);
        assert(after_repeats(delta_ns, 0) == WelfordState::fresh());
        assert(after_deltas(before) == WelfordState::fresh());
        lemma_fresh_is_sound();
        law_updates_stay_sound(WelfordState::fresh(), delta_ns);
    } else {
        assert forall|i: int| 0 <= i < before.len() implies low <= #[trigger] before[i] <= high by {
            assert(low <= deltas[i] <= high);
        }
        law_mean_lies_among_deltas(before, low, high);
        let state = after_deltas(before);
        law_updates_stay_sound(state, delta_ns);
        let x = Binary64::of_integer(delta_ns as int);
        let count = Binary64::of_integer(deltas.len() as int);
        laws::lemma_words_are_finite(delta_ns as int);
        laws::lemma_words_are_finite(deltas.len() as int);
        laws::law_small_integers_are_exact(2);
        laws::law_integers_keep_order(2, deltas.len() as int);
        law_mean_moves_towards_sample(x, state.mean, count);
    }
}

} // verus!
