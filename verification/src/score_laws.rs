//! What the score of a session is, in exact numbers: the variance of its
//! deltas, the signal that it gives, the entropy of a window, and their mean.

use crate::binary64::{arith, convert, laws, Binary64};
use crate::scoring::{
    self, ScoreError, ScoringAction, ScoringInput, Session, SessionView, Verdict,
    WelfordState, ENTROPY_BINS, HALF, MAX_ENTROPY, ONE, REFERENCE_VARIANCE, ZERO,
};
use crate::scoring_laws;
use crate::supervisor::TaskStop;
use crate::welford_error_laws;
use crate::welford_laws;
use crate::window::WINDOW_LEN;
use vstd::arithmetic::power2::*;
use vstd::prelude::*;

verus! {

/// Law: the variance of `n` deltas of at most `2^bits` nanoseconds is their mean
/// squared deviation from their average, to within `(3 n + 13) * 2^(2 bits -
/// 54)` square nanoseconds.
pub proof fn law_variance_of_deltas(deltas: Seq<u64>, bits: nat)
    requires
        1 <= deltas.len() <= 0x20_0000_0000_0000,
        bits <= 64,
        forall|i: int| 0 <= i < deltas.len() ==> #[trigger] deltas[i] <= pow2(bits),
    ensures
        ({
            let n = deltas.len() as int;
            let u = pow2(1074) as int;
            let p = pow2(1074 + bits) as int;
            let variance = scoring_laws::after_deltas(deltas).spread();
            let sum = welford_laws::total(deltas);
            let error = (n * n) * (variance.value() * u) - (n * welford_laws::squares(deltas) - sum
                * sum) * (u * u);
            let bound = ((n * n) * (3 * n + 13)) * (p * p);
            &&& variance.finite()
            &&& !variance.negative()
            &&& variance.value() <= pow2(1074 + 2 * bits)
            &&& -bound <= pow2(54) * error <= bound
        }),
{
    let n = deltas.len() as int;
    let t = pow2(54) as int;
    let u = pow2(1074) as int;
    let p = pow2(1074 + bits) as int;
    let pp = p * p;
    let p2 = pow2(1074 + 2 * bits) as int;
    let state = scoring_laws::after_deltas(deltas);
    let count = Binary64::of_integer(n);
    let v = state.spread();
    welford_error_laws::law_m2_is_near_the_deviations(deltas, bits);
    scoring_laws::law_statistics_stay_sound(deltas);
    scoring_laws::law_variance_is_not_negative(state);
    laws::law_small_integers_are_exact(n);
    lemma_pow2_pos(1074);
    lemma_pow2_pos(1074 + 2 * bits);
    lemma_pow2_adds(1074 + bits, 1074 + bits);
    lemma_pow2_adds(1074 + 2 * bits, 1074);
    assert(p2 * u == pp);
    let q = state.m2.value();
    let nu = n * u;
    assert(nu > 0) by (nonlinear_arith)
        requires
            nu == n * u,
            n >= 1,
            u > 0,
    ;
    arith::lemma_units_zero(state.m2.magnitude());
    arith::lemma_units_zero(count.magnitude());
    assert(q * u <= p2 * nu) by {
        let np = n * p2;
        assert(q * u <= np * u) by (nonlinear_arith)
            requires
                q <= np,
                u > 0,
        ;
        assert((n * p2) * u == p2 * (n * u)) by (nonlinear_arith);
    }
    laws::law_quotient_error(state.m2, count, 1074int + 2 * bits);
    // The quotient's error, with the unit taken out.
    let vv = v.value();
    let w = vv * n - q;
    let tw = t * w;
    let np = p2 * n;
    assert(-np <= tw <= np) by {
        assert(vv * (n * u) == (vv * n) * u) by (nonlinear_arith);
        let y = vv * n;
        assert(t * (y * u - q * u) == (t * (y - q)) * u) by (nonlinear_arith);
        assert(p2 * (n * u) == (p2 * n) * u) by (nonlinear_arith);
        assert(-np <= tw <= np) by (nonlinear_arith)
            requires
                -(np * u) <= tw * u <= np * u,
                u > 0,
        ;
    }
    // Counted as the sum of squared deviations is.
    let sum = welford_laws::total(deltas);
    let exact = (n * welford_laws::squares(deltas) - sum * sum) * (u * u);
    let e1 = n * (q * u) - exact;
    let nn = n * n;
    let error = nn * (vv * u) - exact;
    assert(error == nu * w + e1) by {
        assert((n * n) * (vv * u) == (n * u) * (vv * n)) by (nonlinear_arith);
        assert(n * (q * u) == (n * u) * q) by (nonlinear_arith);
        let y = vv * n;
        assert(nu * (y - q) == nu * y - nu * q) by (nonlinear_arith);
    }
    let a = nu * w;
    assert(t * (a + e1) == t * a + t * e1) by (nonlinear_arith);
    assert(t * (nu * w) == nu * (t * w)) by (nonlinear_arith);
    let b = nu * tw;
    assert(-(nu * np) <= b <= nu * np) by (nonlinear_arith)
        requires
            b == nu * tw,
            -np <= tw <= np,
            nu > 0,
    ;
    assert((n * u) * (p2 * n) == (n * n) * (p2 * u)) by (nonlinear_arith);
    let c1 = n * (3 * (n * n) + 12 * n);
    let c2 = nn * (3 * n + 13);
    assert(c1 + nn == c2) by (nonlinear_arith)
        requires
            nn == n * n,
            c1 == n * (3 * (n * n) + 12 * n),
            c2 == nn * (3 * n + 13),
    ;
    assert(c1 * pp + nn * pp == (c1 + nn) * pp) by (nonlinear_arith);
}

/// Law: the variance signal is the variance over the square of 500
/// microseconds, to within `2^-54`, and one from there on.
pub proof fn law_variance_signal(state: WelfordState)
    requires
        state.sound(),
    ensures
        ({
            let u = pow2(1074) as int;
            let variance = state.spread().value();
            let signal = scoring::relative_variance(state);
            let reference = 250_000_000_000 * u;
            &&& signal.finite()
            &&& 0 <= signal.value() <= u
            &&& variance >= reference ==> signal.value() == u
            &&& variance <= reference ==> -reference <= pow2(54) * (signal.value()
                * 250_000_000_000 - variance) <= reference
        }),
{
    let u = pow2(1074) as int;
    let v = state.spread();
    let reference = Binary64 { bits: REFERENCE_VARIANCE };
    let one = Binary64 { bits: ONE };
    let r = 250_000_000_000 * u;
    let t = pow2(54) as int;
    scoring_laws::law_constants();
    scoring_laws::law_variance_is_not_negative(state);
    lemma_pow2_pos(1074);
    arith::lemma_units_zero(v.magnitude());
    arith::lemma_units_zero(0);
    arith::lemma_units_zero(reference.magnitude());
    laws::law_non_negative_quotients(v, reference);
    scoring::lemma_clamped_to_unit(v.over(reference));
    let s = v.over(reference);
    if v.value() <= r {
        convert::lemma_units_order(v.magnitude(), REFERENCE_VARIANCE as int);
        assert(v.value() * u <= u * r) by (nonlinear_arith)
            requires
                v.value() <= r,
                u > 0,
        ;
        laws::law_quotient_error(v, reference, 1074);
        assert(!s.negative());
        assert(scoring::relative_variance(state) == s);
        let x = s.value();
        let y = 250_000_000_000 * x - v.value();
        let ty = t * y;
        assert(x * r - v.value() * u == y * u) by (nonlinear_arith)
            requires
                r == 250_000_000_000 * u,
                y == 250_000_000_000 * x - v.value(),
        ;
        assert(t * (y * u) == ty * u) by (nonlinear_arith)
            requires
                ty == t * y,
        ;
        assert(u * r == r * u) by (nonlinear_arith);
        assert(-r <= ty <= r) by (nonlinear_arith)
            requires
                -(r * u) <= ty * u <= r * u,
                u > 0,
        ;
    }
    if v.value() >= r {
        if v.finite() {
            let num = v.value() * u;
            assert(num >= u * r) by (nonlinear_arith)
                requires
                    num == v.value() * u,
                    v.value() >= r,
                    u > 0,
            ;
            assert(num >= 0) by (nonlinear_arith)
                requires
                    num == v.value() * u,
                    v.value() >= 0,
                    u > 0,
            ;
            laws::lemma_rounded_bounds(num, r, ONE as int);
            laws::lemma_composed(false, Binary64::rounded(num, r));
            convert::lemma_units_order(ONE as int, s.magnitude());
            arith::lemma_units_zero(s.magnitude());
            assert(!s.less(one));
        } else {
            laws::lemma_composed(false, crate::binary64::value::INFINITE as int);
            convert::lemma_units_order(ONE as int, crate::binary64::value::INFINITE as int);
        }
        if one.less(s) {
            assert(scoring::relative_variance(state) == one);
        } else {
            assert(s.value() == u);
        }
    }
}

/// Law: the more a session varies, the higher its variance signal.
pub proof fn law_variance_signal_is_monotone(a: WelfordState, b: WelfordState)
    requires
        a.sound(),
        b.sound(),
        a.spread().value() <= b.spread().value(),
    ensures
        scoring::relative_variance(a).value() <= scoring::relative_variance(b).value(),
{
    let u = pow2(1074) as int;
    let reference = Binary64 { bits: REFERENCE_VARIANCE };
    let r = reference.value();
    scoring_laws::law_constants();
    law_variance_signal(a);
    law_variance_signal(b);
    scoring_laws::law_variance_is_not_negative(a);
    scoring_laws::law_variance_is_not_negative(b);
    lemma_pow2_pos(1074);
    let v = a.spread();
    let w = b.spread();
    if w.value() < r {
        arith::lemma_units_zero(v.magnitude());
        arith::lemma_units_zero(w.magnitude());
        arith::lemma_units_zero(0);
        convert::lemma_units_order(v.magnitude(), REFERENCE_VARIANCE as int);
        convert::lemma_units_order(w.magnitude(), REFERENCE_VARIANCE as int);
        let x = v.value() * u;
        let y = w.value() * u;
        assert(0 <= x <= y && x * r <= y * r && y <= u * r && x <= u * r) by (nonlinear_arith)
            requires
                x == v.value() * u,
                y == w.value() * u,
                0 <= v.value() <= w.value(),
                w.value() <= r,
                u > 0,
        ;
        laws::law_rounding_is_monotone(x, r, y, r);
        laws::lemma_rounded_bounds(x, r, ONE as int);
        laws::lemma_rounded_bounds(y, r, ONE as int);
        laws::lemma_composed(false, Binary64::rounded(x, r));
        laws::lemma_composed(false, Binary64::rounded(y, r));
        let s = v.over(reference);
        let z = w.over(reference);
        convert::lemma_units_order(s.magnitude(), z.magnitude());
        convert::lemma_units_order(z.magnitude(), ONE as int);
        convert::lemma_units_order(s.magnitude(), ONE as int);
        arith::lemma_units_zero(s.magnitude());
        arith::lemma_units_zero(z.magnitude());
        assert(scoring::relative_variance(a) == s);
        assert(scoring::relative_variance(b) == z);
    }
}

/// Law: the score is half of the variance signal plus half of the entropy, to
/// within `2^-53`.
pub proof fn law_score_is_the_mean(stats: WelfordState, window: Seq<u64>, log2s: Seq<Binary64>)
    requires
        stats.sound(),
        window.len() <= WINDOW_LEN,
        scoring_laws::is_log_table(log2s, WINDOW_LEN as int),
    ensures
        ({
            let u = pow2(1074) as int;
            let score = scoring::normalised_score(stats, window, log2s).value();
            let signal = scoring::relative_variance(stats).value();
            let entropy = scoring::relative_entropy(window, log2s).value();
            &&& 0 <= score <= u
            &&& -(4 * u) <= pow2(54) * (2 * score - (signal + entropy)) <= 4 * u
        }),
{
    let u = pow2(1074) as int;
    let t = pow2(54) as int;
    let half = Binary64 { bits: HALF };
    let s = scoring::relative_variance(stats);
    let h = scoring::relative_entropy(window, log2s);
    scoring_laws::law_constants();
    scoring_laws::law_variance_is_not_negative(stats);
    scoring_laws::law_entropy_is_normalised(window, log2s);
    scoring_laws::law_score_is_normalised(stats, window, log2s);
    lemma_pow2_pos(1074);
    lemma_pow2_unfold(1074);
    arith::lemma_units_zero(half.magnitude());
    arith::lemma_units_zero(s.magnitude());
    arith::lemma_units_zero(h.magnitude());
    lemma_half(s);
    lemma_half(h);
    let a = half.times(s);
    let b = half.times(h);
    laws::law_sum_error(a, b, 1074);
    let c = a.plus(b);
    arith::lemma_units_zero(a.magnitude());
    arith::lemma_units_zero(b.magnitude());
    laws::law_non_negative_sums(a, b);
    arith::lemma_units_zero(c.magnitude());
    arith::lemma_units_zero(0);
    assert(scoring::normalised_score(stats, window, log2s) == c);
    let x = c.value() - (a.value() + b.value());
    let y = 2 * a.value() - s.value();
    let z = 2 * b.value() - h.value();
    assert(t * (2 * x + y + z) == 2 * (t * x) + t * y + t * z) by (nonlinear_arith);
}

/// Half of a number of the unit range.
proof fn lemma_half(x: Binary64)
    requires
        x.finite(),
        !x.negative(),
        0 <= x.value() <= pow2(1074),
    ensures
        ({
            let u = pow2(1074) as int;
            let a = (Binary64 { bits: HALF }).times(x);
            &&& a.finite()
            &&& !a.negative()
            &&& 0 <= 2 * a.value() <= u
            &&& -u <= pow2(54) * (2 * a.value() - x.value()) <= u
        }),
{
    let u = pow2(1074) as int;
    let t = pow2(54) as int;
    let half = Binary64 { bits: HALF };
    let p = pow2(1073) as int;
    scoring_laws::law_constants();
    lemma_pow2_pos(1074);
    lemma_pow2_unfold(1074);
    let v = x.value();
    let hv = half.value();
    assert(hv == p && u == 2 * p);
    assert(hv * v <= p * u) by (nonlinear_arith)
        requires
            hv == p,
            0 <= v <= u,
            p > 0,
    ;
    laws::law_product_error(half, x, 1073);
    laws::law_finite_products(half, x);
    let a = half.times(x);
    arith::lemma_units_zero(a.magnitude());
    let w = a.value();
    let y = 2 * w - v;
    let ty = t * y;
    assert(w * u - hv * v == p * y) by (nonlinear_arith)
        requires
            u == 2 * p,
            hv == p,
            y == 2 * w - v,
    ;
    assert(t * (p * y) == ty * p && p * u == u * p) by (nonlinear_arith)
        requires
            ty == t * y,
    ;
    assert(-u <= ty <= u) by (nonlinear_arith)
        requires
            -(u * p) <= ty * p <= u * p,
            p > 0,
    ;
}

/// How many deltas of a window lie in `[low, high)`.
pub open spec fn deltas_between(window: Seq<u64>, low: int, high: int) -> nat
    decreases window.len(),
{
    if window.len() == 0 {
        0
    } else {
        deltas_between(window.drop_last(), low, high) + (if low <= window.last() < high {
            1nat
        } else {
            0nat
        })
    }
}

/// How many deltas of a window lie in the given one of sixteen ranges of 62500
/// nanoseconds, the last of which has no end.
pub open spec fn deltas_in_range(window: Seq<u64>, range: int) -> nat {
    if range == 15 {
        deltas_between(window, 937_500, 0x1_0000_0000_0000_0000)
    } else {
        deltas_between(window, 62_500 * range, 62_500 * range + 62_500)
    }
}

/// The sum over the first ranges of `c * -log2(c / n)`, where `c` is how many
/// deltas lie in a range and the table gives the logarithm.
pub open spec fn entropy_sum(window: Seq<u64>, log2s: Seq<Binary64>, ranges: nat) -> int
    decreases ranges,
{
    if ranges == 0 {
        0
    } else {
        let c = deltas_in_range(window, ranges - 1) as int;
        entropy_sum(window, log2s, (ranges - 1) as nat) + (if c == 0 {
            0
        } else {
            c * -log2s[c].value()
        })
    }
}

/// Whether a table can hold the logarithms of the shares of up to `2^32`
/// deltas: none above zero, none below -32.
pub open spec fn is_bounded_log_table(log2s: Seq<Binary64>, window_len: int) -> bool {
    &&& scoring_laws::is_log_table(log2s, window_len)
    &&& forall|c: int|
        1 <= c <= window_len ==> -(32 * pow2(1074)) <= (#[trigger] log2s[c]).value()
}

proof fn lemma_bins_are_ranges(window: Seq<u64>, bin: int)
    requires
        0 <= bin < 16,
    ensures
        scoring::bin_count(window, bin) == deltas_in_range(window, bin),
    decreases window.len(),
{
    if window.len() > 0 {
        lemma_bins_are_ranges(window.drop_last(), bin);
        let d = window.last() as int;
        let q = d / 62_500;
        assert(62_500 * q <= d < 62_500 * q + 62_500);
        assert(scoring::bin_of(window.last()) == (if q < 16 {
            q
        } else {
            15
        }));
    }
}

/// One term of the sum: the share of a bin times its logarithm.
proof fn lemma_entropy_term(c: int, n: int, log2: Binary64)
    requires
        1 <= c <= n <= u32::MAX,
        log2.finite(),
        log2.negative() || log2.magnitude() == 0,
        -(32 * pow2(1074)) <= log2.value(),
    ensures
        ({
            let u = pow2(1074) as int;
            let term = scoring::share(c, n).times(log2);
            &&& term.finite()
            &&& -(32 * u) <= term.value() <= 0
            &&& term.negative() || term.magnitude() == 0
            &&& -(64 * (n * u)) <= pow2(54) * (n * term.value() - c * log2.value()) <= 64 * (n * u)
        }),
{
    let u = pow2(1074) as int;
    let t = pow2(54) as int;
    let p = scoring::share(c, n);
    let a = Binary64::of_integer(c);
    let b = Binary64::of_integer(n);
    let l = log2.value();
    lemma_pow2_pos(1074);
    lemma_pow2_adds(1074, 5);
    lemma2_to64();
    laws::law_small_integers_are_exact(c);
    laws::law_small_integers_are_exact(n);
    arith::lemma_units_zero(a.magnitude());
    arith::lemma_units_zero(b.magnitude());
    arith::lemma_units_zero(log2.magnitude());
    arith::lemma_units_zero(0);
    let cu = c * u;
    let nu = n * u;
    assert(0 < cu <= nu && cu * u <= u * nu) by (nonlinear_arith)
        requires
            cu == c * u,
            nu == n * u,
            1 <= c <= n,
            u > 0,
    ;
    laws::law_quotient_error(a, b, 1074);
    laws::lemma_nearest_exists(cu * u, nu);
    assert(cu * u >= 0) by (nonlinear_arith)
        requires
            cu > 0,
            u > 0,
    ;
    laws::lemma_composed(false, Binary64::rounded(cu * u, nu));
    arith::lemma_units_zero(p.magnitude());
    // The share, with the unit taken out.
    let v = p.value();
    let e1 = v * n - cu;
    let te1 = t * e1;
    assert(-nu <= te1 <= nu) by {
        assert(v * (n * u) == (v * n) * u) by (nonlinear_arith);
        let y = v * n;
        assert(t * (y * u - cu * u) == (t * (y - cu)) * u) by (nonlinear_arith);
        assert(u * nu == nu * u) by (nonlinear_arith);
        assert(-nu <= te1 <= nu) by (nonlinear_arith)
            requires
                -(nu * u) <= te1 * u <= nu * u,
                u > 0,
        ;
    }
    // The product.
    let lu = Binary64::units(log2.magnitude());
    let p32 = 32 * u;
    assert(v * lu <= p32 * u) by (nonlinear_arith)
        requires
            0 <= v <= u,
            0 <= lu <= p32,
    ;
    laws::law_product_error(p, log2, 1079);
    let term = p.times(log2);
    laws::law_finite_products(p, log2);
    arith::lemma_units_zero(term.magnitude());
    let w = term.value();
    let e2 = w * u - v * l;
    let te2 = t * e2;
    // n * w * u - c * l * u == n * e2 + l * e1
    let e = n * w - c * l;
    assert(e * u == n * e2 + l * e1) by {
        assert(n * (w * u - v * l) == n * (w * u) - n * (v * l)) by (nonlinear_arith);
        assert(l * (v * n - cu) == l * (v * n) - l * cu) by (nonlinear_arith);
        assert(n * (v * l) == l * (v * n)) by (nonlinear_arith);
        assert(n * (w * u) == (n * w) * u) by (nonlinear_arith);
        assert(l * (c * u) == (c * l) * u) by (nonlinear_arith);
        let x = n * w;
        let y = c * l;
        assert((x - y) * u == x * u - y * u) by (nonlinear_arith);
    }
    let te = t * e;
    let x = n * e2;
    let y = l * e1;
    assert(te * u == n * te2 + l * te1) by {
        assert((t * e) * u == t * (e * u)) by (nonlinear_arith);
        assert(t * (x + y) == t * x + t * y) by (nonlinear_arith);
        assert(t * (n * e2) == n * (t * e2)) by (nonlinear_arith);
        assert(t * (l * e1) == l * (t * e1)) by (nonlinear_arith);
    }
    let limit = p32 * u;
    assert(-(n * limit) <= n * te2 <= n * limit) by (nonlinear_arith)
        requires
            -limit <= te2 <= limit,
            n >= 1,
    ;
    assert(-(p32 * nu) <= l * te1 <= p32 * nu) by (nonlinear_arith)
        requires
            -nu <= te1 <= nu,
            -p32 <= l <= 0,
            nu > 0,
    ;
    assert(n * (p32 * u) == p32 * (n * u)) by (nonlinear_arith);
    assert((32 * u) * nu == 32 * (nu * u)) by (nonlinear_arith);
    let bound = 64 * nu;
    assert(bound * u == 64 * (nu * u)) by (nonlinear_arith)
        requires
            bound == 64 * nu,
    ;
    assert(-bound <= te <= bound) by (nonlinear_arith)
        requires
            -(bound * u) <= te * u <= bound * u,
            u > 0,
    ;
}

/// The Shannon sum is close to the exact one.
proof fn lemma_entropy_sum(window: Seq<u64>, log2s: Seq<Binary64>, bins: nat)
    requires
        0 < window.len() <= u32::MAX,
        is_bounded_log_table(log2s, window.len() as int),
        bins <= 16,
    ensures
        ({
            let n = window.len() as int;
            let u = pow2(1074) as int;
            let h = scoring::shannon_sum(scoring::bin_counters(window), n, log2s, bins);
            let error = n * h.value() - entropy_sum(window, log2s, bins);
            &&& h.finite()
            &&& !h.negative()
            &&& 0 <= h.value() <= (32 * bins) * u
            &&& -((576 * bins) * (n * u)) <= pow2(54) * error <= (576 * bins) * (n * u)
        }),
    decreases bins,
{
    let n = window.len() as int;
    let u = pow2(1074) as int;
    let t = pow2(54) as int;
    let nu = n * u;
    lemma_pow2_pos(1074);
    lemma_pow2_adds(1074, 9);
    lemma2_to64();
    arith::lemma_units_zero(0);
    assert(nu > 0) by (nonlinear_arith)
        requires
            nu == n * u,
            n >= 1,
            u > 0,
    ;
    if bins == 0 {
        assert((32 * 0) * u == 0 && (576 * 0) * nu == 0 && n * 0 == 0 && t * 0 == 0)
            by (nonlinear_arith);
    } else {
        let k = (bins - 1) as nat;
        let counters = scoring::bin_counters(window);
        lemma_entropy_sum(window, log2s, k);
        lemma_bins_are_ranges(window, k as int);
        scoring::lemma_bin_count_bound(window, k as int);
        let c = counters[k as int] as int;
        assert(c == scoring::bin_count(window, k as int));
        let h = scoring::shannon_sum(counters, n, log2s, k);
        let g = scoring::shannon_sum(counters, n, log2s, bins);
        assert((32 * bins) * u == (32 * k) * u + 32 * u) by (nonlinear_arith)
            requires
                bins == k + 1,
        ;
        assert((576 * bins) * nu == (576 * k) * nu + 576 * nu) by (nonlinear_arith)
            requires
                bins == k + 1,
        ;
        if c > 0 {
            let l = log2s[c];
            lemma_entropy_term(c, n, l);
            let term = scoring::share(c, n).times(l);
            let minus = term.negated();
            laws::lemma_composed(!term.negative(), term.magnitude());
            arith::lemma_units_zero(term.magnitude());
            let top = laws::lemma_whole_magnitude(32 * bins as int, 1074);
            laws::lemma_composed(false, top);
            laws::law_sum_stays_in_bounds(
                h,
                minus,
                Binary64 { bits: ZERO },
                Binary64::compose(false, top),
            );
            laws::law_non_negative_sums(h, minus);
            assert((32 * bins) * u <= 512 * u) by (nonlinear_arith)
                requires
                    bins <= 16,
                    u > 0,
            ;
            laws::law_sum_error(h, minus, 1083);
            let w = term.value();
            let lv = l.value();
            let e1 = g.value() - (h.value() - w);
            let te1 = t * e1;
            let e2 = n * w - c * lv;
            let before = n * h.value() - entropy_sum(window, log2s, k);
            let error = n * g.value() - entropy_sum(window, log2s, bins);
            assert(c * -lv == -(c * lv)) by (nonlinear_arith);
            assert(error == n * e1 - e2 + before) by {
                let hv = h.value();
                let gv = g.value();
                assert(n * (gv - (hv - w)) == n * gv - n * hv + n * w) by (nonlinear_arith);
            }
            let x = n * e1;
            assert(t * (x - e2 + before) == t * x - t * e2 + t * before) by (nonlinear_arith);
            assert(t * (n * e1) == n * (t * e1)) by (nonlinear_arith);
            assert(-(512 * nu) <= n * te1 <= 512 * nu) by (nonlinear_arith)
                requires
                    -(512 * u) <= te1 <= 512 * u,
                    nu == n * u,
                    n >= 1,
            ;
        }
    }
}

/// Law: the entropy of a window of `n` deltas is the sum over the sixteen ranges
/// of `(c / n) * -log2(c / n)`, with `c` deltas in a range, over the four bits
/// that it can be at most. The error of four times the entropy is at most `9728
/// * 2^-54` bits.
pub proof fn law_entropy_of_window(window: Seq<u64>, log2s: Seq<Binary64>)
    requires
        0 < window.len() <= u32::MAX,
        is_bounded_log_table(log2s, window.len() as int),
    ensures
        ({
            let n = window.len() as int;
            let u = pow2(1074) as int;
            let entropy = scoring::relative_entropy(window, log2s);
            let sum = entropy_sum(window, log2s, 16);
            let exact = if sum > 4 * (n * u) {
                4 * (n * u)
            } else {
                sum
            };
            &&& entropy.finite()
            &&& 0 <= entropy.value() <= u
            &&& -(9728 * (n * u)) <= pow2(54) * (4 * (n * entropy.value()) - exact) <= 9728 * (n
                * u)
        }),
{
    let n = window.len() as int;
    let u = pow2(1074) as int;
    let t = pow2(54) as int;
    let nu = n * u;
    let h = scoring::shannon_sum(
        scoring::bin_counters(window),
        n,
        log2s,
        ENTROPY_BINS as nat,
    );
    let four = Binary64 { bits: MAX_ENTROPY };
    let one = Binary64 { bits: ONE };
    let sum = entropy_sum(window, log2s, 16);
    scoring_laws::law_constants();
    lemma_pow2_pos(1074);
    lemma_pow2_adds(1074, 7);
    lemma2_to64();
    lemma_entropy_sum(window, log2s, 16);
    arith::lemma_units_zero(0);
    arith::lemma_units_zero(h.magnitude());
    arith::lemma_units_zero(four.magnitude());
    let hv = h.value();
    assert(hv * u <= (128 * u) * (4 * u)) by (nonlinear_arith)
        requires
            0 <= hv <= 512 * u,
            u > 0,
    ;
    laws::law_quotient_error(h, four, 1081);
    laws::law_non_negative_quotients(h, four);
    let q = h.over(four);
    arith::lemma_units_zero(q.magnitude());
    let qv = q.value();
    // The quotient, with the unit taken out.
    let e1 = 4 * qv - hv;
    let te1 = t * e1;
    assert(-(512 * u) <= te1 <= 512 * u) by {
        assert(qv * (4 * u) - hv * u == e1 * u) by (nonlinear_arith)
            requires
                e1 == 4 * qv - hv,
        ;
        assert(t * (e1 * u) == (t * e1) * u) by (nonlinear_arith);
        let b = 512 * u;
        assert((128 * u) * (4 * u) == b * u) by (nonlinear_arith)
            requires
                b == 512 * u,
        ;
        assert(-b <= te1 <= b) by (nonlinear_arith)
            requires
                -(b * u) <= te1 * u <= b * u,
                u > 0,
        ;
    }
    assert(nu > 0) by (nonlinear_arith)
        requires
            nu == n * u,
            n >= 1,
            u > 0,
    ;
    let nq = n * qv;
    let nh = n * hv;
    let before = nh - sum;
    let error = 4 * nq - sum;
    assert(n * (4 * qv - hv) == 4 * (n * qv) - n * hv) by (nonlinear_arith);
    let x = n * e1;
    assert(t * (x + before) == t * x + t * before) by (nonlinear_arith);
    assert(t * (n * e1) == n * (t * e1)) by (nonlinear_arith);
    assert(-(512 * nu) <= n * te1 <= 512 * nu) by (nonlinear_arith)
        requires
            -(512 * u) <= te1 <= 512 * u,
            nu == n * u,
            n >= 1,
    ;
    assert(error == x + before);
    assert(t * error == n * te1 + t * before);
    let bins = 16nat;
    assert((576 * bins) * nu == 9216 * nu) by (nonlinear_arith)
        requires
            bins == 16,
    ;
    assert(-(9216 * nu) <= t * before <= 9216 * nu);
    assert(-(9728 * nu) <= t * error <= 9728 * nu);
    scoring::lemma_clamped_to_unit(q);
    lemma_pow2_pos(54);
    if one.less(q) {
        // Cut at four bits: the exact sum is not far below.
        assert(nq >= nu) by (nonlinear_arith)
            requires
                nq == n * qv,
                nu == n * u,
                qv >= u,
                n >= 1,
        ;
        if sum < 4 * nu {
            let gap = 4 * nu - sum;
            assert(t * gap <= t * error) by (nonlinear_arith)
                requires
                    0 <= gap <= error,
                    t > 0,
            ;
            assert(t * gap >= 0) by (nonlinear_arith)
                requires
                    gap >= 0,
                    t > 0,
            ;
        } else {
            assert(t * 0 == 0);
        }
        assert(n * u == nu);
    } else {
        assert(scoring::relative_entropy(window, log2s) == q);
        if sum > 4 * nu {
            // The quotient is at most one, and the sum not far above four bits.
            assert(nq <= nu) by (nonlinear_arith)
                requires
                    nq == n * qv,
                    nu == n * u,
                    qv <= u,
                    n >= 1,
            ;
            let short = 4 * nq - 4 * nu;
            assert(t * error <= t * short <= 0) by (nonlinear_arith)
                requires
                    error <= short <= 0,
                    t > 0,
            ;
        }
    }
}

/// Law: the histogram of a window counts its deltas by ranges of 62500
/// nanoseconds, the last of which has no end.
pub proof fn law_histogram_counts_ranges(window: Seq<u64>, bin: int)
    requires
        0 <= bin < 16,
        window.len() <= u32::MAX,
    ensures
        scoring::bin_counters(window)[bin] == deltas_in_range(window, bin),
{
    lemma_bins_are_ranges(window, bin);
    scoring::lemma_bin_count_bound(window, bin);
}

/// Law: an empty window has no entropy.
pub proof fn law_empty_window_has_no_entropy(log2s: Seq<Binary64>)
    ensures
        scoring::relative_entropy(Seq::empty(), log2s).value() == 0,
{
    arith::lemma_units_zero(0);
}

/// Law: a share is the quotient of two whole numbers, to within `2^-54`.
pub proof fn law_share_is_the_quotient(count: int, whole: int)
    requires
        0 <= count <= whole <= 0x20_0000_0000_0000,
        1 <= whole,
    ensures
        ({
            let u = pow2(1074) as int;
            let share = scoring::share(count, whole);
            &&& share.finite()
            &&& 0 <= share.value() <= u
            &&& -(whole * u) <= pow2(54) * (share.value() * whole - count * u) <= whole * u
        }),
{
    let u = pow2(1074) as int;
    let t = pow2(54) as int;
    let a = Binary64::of_integer(count);
    let b = Binary64::of_integer(whole);
    lemma_pow2_pos(1074);
    laws::law_small_integers_are_exact(count);
    laws::law_small_integers_are_exact(whole);
    arith::lemma_units_zero(a.magnitude());
    arith::lemma_units_zero(b.magnitude());
    let cu = count * u;
    let nu = whole * u;
    assert(0 <= cu <= nu && 0 < nu && cu * u <= u * nu && cu * u >= 0) by (nonlinear_arith)
        requires
            cu == count * u,
            nu == whole * u,
            0 <= count <= whole,
            1 <= whole,
            u > 0,
    ;
    laws::law_quotient_error(a, b, 1074);
    laws::lemma_nearest_exists(cu * u, nu);
    laws::lemma_composed(false, Binary64::rounded(cu * u, nu));
    let p = scoring::share(count, whole);
    arith::lemma_units_zero(p.magnitude());
    let v = p.value();
    let e = v * whole - cu;
    let te = t * e;
    assert(v * (whole * u) == (v * whole) * u) by (nonlinear_arith);
    let y = v * whole;
    assert(t * (y * u - cu * u) == (t * (y - cu)) * u) by (nonlinear_arith);
    assert(u * nu == nu * u) by (nonlinear_arith);
    assert(-nu <= te <= nu) by (nonlinear_arith)
        requires
            -(nu * u) <= te * u <= nu * u,
            u > 0,
    ;
}

/// Law: the number of deltas of a session is one below that of its events, and
/// each is the difference of two consecutive times, where the clock moves on
/// from a time past zero.
pub proof fn law_deltas_are_differences(times: Seq<u64>)
    requires
        times.len() > 0,
        scoring_laws::past_zero(times),
        forall|i: int, j: int| 0 <= i <= j < times.len() ==> times[i] <= times[j],
    ensures
        scoring_laws::deltas_of(times).len() == times.len() - 1,
        forall|i: int|
            0 <= i < times.len() - 1 ==> #[trigger] scoring_laws::deltas_of(times)[i] == times[i
                + 1] - times[i],
    decreases times.len(),
{
    let before = times.drop_last();
    if before.len() > 0 {
        assert forall|i: int| 0 <= i < before.len() implies before[i] != 0 by {
            assert(times[i] != 0);
        }
        assert forall|i: int, j: int| 0 <= i <= j < before.len() implies before[i]
            <= before[j] by {
            assert(times[i] <= times[j]);
        }
        law_deltas_are_differences(before);
        assert(before.last() == times[times.len() - 2]);
        let deltas = scoring_laws::deltas_of(times);
        assert forall|i: int| 0 <= i < times.len() - 1 implies #[trigger] deltas[i] == times[i + 1]
            - times[i] by {
            if i < times.len() - 2 {
                assert(deltas[i] == scoring_laws::deltas_of(before)[i]);
                assert(before[i + 1] == times[i + 1] && before[i] == times[i]);
            }
        }
    } else {
        assert(scoring_laws::deltas_of(before).len() == 0);
    }
}

/// Law: a clock that goes backwards gives a delta of zero, and an event after
/// one at time zero, or after none, gives no delta.
pub proof fn law_other_deltas(times: Seq<u64>, timestamp_ns: u64)
    ensures
        times.len() == 0 || times.last() == 0 ==> scoring_laws::deltas_of(times.push(timestamp_ns))
            == scoring_laws::deltas_of(times),
        times.len() > 0 && times.last() > timestamp_ns ==> scoring_laws::deltas_of(
            times.push(timestamp_ns),
        ) == scoring_laws::deltas_of(times).push(0),
{
    assert(times.push(timestamp_ns).drop_last() =~= times);
}

/// Law: a session is judged by the number of its deltas, the last event's
/// included. An event without one before it, or after one at time zero, counts
/// as first; fifteen deltas only warm a session up. From the sixteenth on it is
/// scored by its last sixteen deltas and its statistics, and is anomalous
/// exactly where the score is at least the number nearest to 0.72.
pub proof fn law_verdict_by_numbers(
    times: Seq<u64>,
    timestamp_ns: u64,
    log2s: Seq<Binary64>,
    verdict: Result<Verdict, ScoreError>,
)
    requires
        times.len() < u64::MAX,
        scoring_laws::is_log_table(log2s, 16),
        scoring_laws::after_events(times).judged(timestamp_ns, log2s, verdict),
    ensures
        verdict is Ok,
        ({
            let deltas = scoring_laws::deltas_of(times.push(timestamp_ns));
            let stats = scoring_laws::after_deltas(deltas).stamped(timestamp_ns);
            let window = deltas.subrange(deltas.len() - 16, deltas.len() as int);
            let score = scoring::normalised_score(stats, window, log2s);
            let threshold = Binary64::units(Binary64::rounded(72int * pow2(1074), 100));
            if times.len() == 0 || times.last() == 0 {
                verdict->Ok_0 is FirstEvent
            } else if deltas.len() <= 15 {
                verdict->Ok_0 is WarmingUp
            } else {
                match verdict->Ok_0 {
                    Verdict::Normal { score: s } => {
                        s.score() == score && 0 <= s.score().value() < threshold
                    },
                    Verdict::Anomalous { score: s } => {
                        &&& s.score() == score
                        &&& threshold <= s.score().value() <= pow2(1074)
                    },
                    _ => false,
                }
            }
        }),
{
    let all = times.push(timestamp_ns);
    let deltas = scoring_laws::deltas_of(all);
    assert(all.drop_last() =~= times);
    scoring_laws::law_constants();
    scoring_laws::law_every_session_warms_up(times, timestamp_ns, log2s, verdict);
    scoring_laws::law_score_is_of_observed_deltas(times, timestamp_ns, log2s, verdict);
    scoring_laws::law_sessions_stay_sound(times);
    scoring_laws::law_sessions_stay_sound(all);
    if deltas.len() >= 16 {
        crate::window::law_recent_are_the_last(deltas);
        assert(crate::window::recent(deltas) =~= deltas.subrange(
            deltas.len() - 16,
            deltas.len() as int,
        ));
    }
}

/// Law: what a map of sessions holds are its sessions, with their statistics
/// and their deltas.
pub proof fn law_contents_are_the_sessions(sessions: Map<u64, Session>, key: u64)
    ensures
        scoring::contents(sessions).dom() == sessions.dom(),
        sessions.contains_key(key) ==> {
            &&& scoring::contents(sessions)[key].stats == sessions[key].stats
            &&& scoring::contents(sessions)[key].window == sessions[key].window@
        },
{
    assert(scoring::contents(sessions).dom() =~= sessions.dom());
}

/// Law: a number is a score exactly where it is finite and lies between zero
/// and one.
pub proof fn law_scores_lie_between_zero_and_one(value: Binary64)
    ensures
        scoring::in_unit_range(value) <==> value.finite() && 0 <= value.value() <= pow2(1074),
{
    scoring_laws::law_constants();
}

/// Law: the predicted window lies around the mean in steps of half a standard
/// deviation: twice an entry is, to within one, twice the mean plus `i - 7`
/// deviations, and zero where that is negative. The last entry is the current
/// delta.
pub proof fn law_predicted_window(state: WelfordState, current_delta: u64, i: int)
    requires
        0 <= i < 16,
        state.mean.truncated(u64::MAX as int) < 0x1000_0000_0000_0000,
        state.spread().root().truncated(u64::MAX as int) < 0x800_0000_0000_0000,
    ensures
        ({
            let mean = state.mean.truncated(u64::MAX as int);
            let sigma = state.spread().root().truncated(u64::MAX as int);
            let entry = scoring::expected_window(state, current_delta)[i];
            let twice = 2 * mean + (i - 7) * sigma;
            &&& i == 15 ==> entry == current_delta
            &&& i < 15 && twice >= 0 ==> -1 <= 2 * entry - twice <= 1
            &&& i < 15 && twice < 0 ==> entry == 0
        }),
{
    let mean = state.mean.truncated(u64::MAX as int);
    let sigma = state.spread().root().truncated(u64::MAX as int);
    lemma_truncated_is_natural(state.mean);
    lemma_truncated_is_natural(state.spread().root());
    if i < 15 {
        lemma_predicted_delta(mean, sigma, i - 7);
        assert(scoring::expected_window(state, current_delta)[i] == scoring::expected_delta(
            mean,
            sigma,
            i - 7,
        ));
    }
}

proof fn lemma_signed(x: int)
    requires
        -0x8000_0000_0000_0000 <= x < 0x8000_0000_0000_0000,
    ensures
        scoring::signed(x) == x,
{
}

proof fn lemma_predicted_delta(mean: int, sigma: int, step: int)
    requires
        0 <= mean < 0x1000_0000_0000_0000,
        0 <= sigma < 0x800_0000_0000_0000,
        -7 <= step <= 7,
    ensures
        ({
            let entry = scoring::expected_delta(mean, sigma, step);
            let twice = 2 * mean + step * sigma;
            &&& twice >= 0 ==> -1 <= 2 * entry - twice <= 1
            &&& twice < 0 ==> entry == 0
        }),
{
    let x = step * sigma;
    assert(-(7 * 0x800_0000_0000_0000) <= x <= 7 * 0x800_0000_0000_0000) by (nonlinear_arith)
        requires
            x == step * sigma,
            -7 <= step <= 7,
            0 <= sigma < 0x800_0000_0000_0000,
    ;
    lemma_signed(mean);
    lemma_signed(sigma);
    lemma_signed(x);
    let h = scoring::halved(x);
    assert(2 * h - 1 <= x <= 2 * h + 1);
    assert(x >= 0 ==> 2 * h <= x);
    assert(x < 0 ==> x <= 2 * h);
    lemma_signed(mean + h);
}

proof fn lemma_truncated_is_natural(x: Binary64)
    ensures
        0 <= x.truncated(u64::MAX as int) <= u64::MAX,
{
    lemma_pow2_pos(1074);
    arith::lemma_units_zero(x.magnitude());
    let v = Binary64::units(x.magnitude());
    let u = pow2(1074) as int;
    assert(v / u >= 0) by (nonlinear_arith)
        requires
            v >= 0,
            u > 0,
    ;
}

/// Law: the scoring task stops exactly where it is told to, with its sessions
/// as they were.
pub proof fn law_scoring_stops(
    before: Map<u64, SessionView>,
    input: ScoringInput,
    log2s: Seq<Binary64>,
    after: Map<u64, SessionView>,
    action: ScoringAction,
)
    requires
        scoring::turn(before, input, log2s, after, action),
    ensures
        action == (ScoringAction::Stop { reason: TaskStop::Cancelled }) <==> input is Cancelled,
        action == (ScoringAction::Stop { reason: TaskStop::ChannelClosed })
            <==> input is ChannelClosed,
        action is Stop ==> after == before,
{
}

} // verus!
