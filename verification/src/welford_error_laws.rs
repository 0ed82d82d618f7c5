//! How far rounding moves the running statistics from what they are without
//! it.

use crate::binary64::{arith, laws, Binary64};
use crate::scoring::WelfordState;
use crate::scoring_laws;
use crate::welford_laws;
use vstd::arithmetic::power2::*;
use vstd::prelude::*;

verus! {

/// The numbers of one update: the sample, its deviation from the mean, the
/// step of the mean, the new mean and the deviation from that.
struct UpdateNumbers {
    x: int,
    d: int,
    q: int,
    next: int,
    d2: int,
}

spec fn update_numbers(state: WelfordState, delta_ns: u64) -> UpdateNumbers {
    let next = state.updated(delta_ns);
    let x = Binary64::of_integer(delta_ns as int);
    let d = x.minus(state.mean);
    UpdateNumbers {
        x: x.value(),
        d: d.value(),
        q: d.over(Binary64::of_integer(next.n as int)).value(),
        next: next.mean.value(),
        d2: x.minus(next.mean).value(),
    }
}

/// Whether a number is at most `limit` away from zero.
spec fn within(x: int, limit: int) -> bool {
    -limit <= x <= limit
}

/// The errors of an update whose numbers are at most `2^bits`.
proof fn lemma_update_errors(state: WelfordState, delta_ns: u64, bits: nat)
    requires
        state.sound(),
        bits <= 64,
        delta_ns <= pow2(bits),
        state.mean.value() <= pow2(1074 + bits),
        state.n < 0x20_0000_0000_0000,
    ensures
        ({
            let p = pow2(1074 + bits) as int;
            let t = pow2(54) as int;
            let u = pow2(1074) as int;
            let n = state.n + 1;
            let m = state.mean.value();
            let v = update_numbers(state, delta_ns);
            &&& 0 <= v.x <= p
            &&& within(v.d, p)
            &&& within(v.d2, p)
            &&& 0 <= v.next <= p
            &&& within(t * (v.x - delta_ns * u), p)
            &&& within(t * (v.d - (v.x - m)), p)
            &&& within(t * (v.q * n - v.d), p * n)
            &&& within(t * (v.next - (m + v.q)), 2 * p)
            &&& within(t * (v.d2 - (v.x - v.next)), p)
            &&& Binary64::of_integer(delta_ns as int).minus(state.mean).finite()
            &&& Binary64::of_integer(delta_ns as int).minus(
                state.updated(delta_ns).mean,
            ).finite()
        }),
{
    let e = 1074 + bits as int;
    let p = pow2(1074 + bits) as int;
    let t = pow2(54) as int;
    let u = pow2(1074) as int;
    let n = state.n + 1;
    let m = state.mean.value();
    let next = state.updated(delta_ns);
    let x = Binary64::of_integer(delta_ns as int);
    let count = Binary64::of_integer(n);
    let d = x.minus(state.mean);
    let q = d.over(count);
    lemma_pow2_pos(1074);
    lemma_pow2_adds(1074, bits);
    lemma_pow2_adds(1, 1074 + bits);
    lemma2_to64();
    assert(delta_ns * u <= p) by (nonlinear_arith)
        requires
            delta_ns <= pow2(bits),
            p == u * pow2(bits),
            u > 0,
    ;
    laws::law_integer_error(delta_ns as int, e);
    arith::lemma_units_zero(state.mean.magnitude());
    laws::lemma_composed(true, state.mean.magnitude());
    laws::law_sum_error(x, state.mean.negated(), e);
    laws::law_small_integers_are_exact(n);
    assert(n * u >= u && (n >= 2 ==> n * u >= 2 * u)) by (nonlinear_arith)
        requires
            n >= 1,
            u > 0,
    ;
    arith::lemma_units_zero(count.magnitude());
    arith::lemma_units_zero(d.magnitude());
    let du = Binary64::units(d.magnitude());
    let nu = n * u;
    assert(du * u <= p * nu) by (nonlinear_arith)
        requires
            0 <= du <= p,
            nu >= u,
            u > 0,
    ;
    laws::law_quotient_error(d, count, e);
    // The quotient's error, with the unit taken out.
    let w = t * (q.value() * n - d.value());
    let qv = q.value();
    let dv = d.value();
    assert(qv * nu == (qv * n) * u && p * nu == (p * n) * u) by (nonlinear_arith)
        requires
            nu == n * u,
    ;
    let y = qv * n;
    assert(t * (y * u - dv * u) == (t * (y - dv)) * u) by (nonlinear_arith);
    let pn = p * n;
    assert(-pn <= w <= pn) by (nonlinear_arith)
        requires
            -(pn * u) <= w * u <= pn * u,
            u > 0,
    ;
    scoring_laws::law_mean_moves_towards_sample(x, state.mean, count);
    laws::law_sum_error(state.mean, q, e + 1);
    arith::lemma_units_zero(next.mean.magnitude());
    laws::lemma_composed(true, next.mean.magnitude());
    laws::law_sum_error(x, next.mean.negated(), e);
}

/// Law: rounding moves the mean little. For up to `2^53` deltas of at most
/// `2^bits` nanoseconds, the mean of `n` of them differs from their average by
/// at most `(2 n + 4) * 2^(bits - 54)` nanoseconds.
pub proof fn law_mean_is_near_the_average(deltas: Seq<u64>, bits: nat)
    requires
        deltas.len() <= 0x20_0000_0000_0000,
        bits <= 64,
        forall|i: int| 0 <= i < deltas.len() ==> #[trigger] deltas[i] <= pow2(bits),
    ensures
        ({
            let n = deltas.len() as int;
            let mean = scoring_laws::after_deltas(deltas).mean.value();
            let error = n * mean - welford_laws::total(deltas) * pow2(1074);
            let bound = (n * (2 * n + 4)) * pow2(1074 + bits);
            &&& 0 <= mean <= pow2(1074 + bits)
            &&& -bound <= pow2(54) * error <= bound
        }),
    decreases deltas.len(),
{
    let n = deltas.len() as int;
    let p = pow2(1074 + bits) as int;
    let t = pow2(54) as int;
    let u = pow2(1074) as int;
    lemma_pow2_pos(1074 + bits);
    lemma_pow2_pos(54);
    if n == 0 {
        arith::lemma_units_zero(0);
        assert(welford_laws::total(deltas) == 0);
        assert(0 * u == 0 && 0 * p == 0 && t * 0 == 0);
    } else {
        let shorter = deltas.drop_last();
        let state = scoring_laws::after_deltas(shorter);
        let x = deltas[n - 1];
        assert forall|i: int| 0 <= i < shorter.len() implies #[trigger] shorter[i] <= pow2(bits) by {
            assert(deltas[i] <= pow2(bits));
        }
        law_mean_is_near_the_average(shorter, bits);
        scoring_laws::law_statistics_stay_sound(shorter);
        welford_laws::lemma_totals_step(deltas);
        lemma_update_errors(state, x, bits);
        let v = update_numbers(state, x);
        let m = state.mean.value();
        let s = welford_laws::total(shorter);
        let k = n - 1;
        let e0 = v.x - x * u;
        let e1 = v.d - (v.x - m);
        let e2 = v.q * n - v.d;
        let e3 = v.next - (m + v.q);
        let before = k * m - s * u;
        let error = n * v.next - (s + x) * u;
        assert(error == n * e3 + e2 + e1 + e0 + before) by (nonlinear_arith)
            requires
                error == n * v.next - (s + x) * u,
                k == n - 1,
                e0 == v.x - x * u,
                e1 == v.d - (v.x - m),
                e2 == v.q * n - v.d,
                e3 == v.next - (m + v.q),
                before == k * m - s * u,
        ;
        assert(t * error == n * (t * e3) + t * e2 + t * e1 + t * e0 + t * before)
            by (nonlinear_arith)
            requires
                error == n * e3 + e2 + e1 + e0 + before,
        ;
        let z = t * e3;
        assert(-(2 * (p * n)) <= n * z <= 2 * (p * n)) by (nonlinear_arith)
            requires
                -(2 * p) <= z <= 2 * p,
                n >= 1,
        ;
        assert((k * (2 * k + 4)) * p + 3 * (p * n) + 2 * p <= (n * (2 * n + 4)) * p)
            by (nonlinear_arith)
            requires
                k == n - 1,
                n >= 1,
                p > 0,
        ;
    }
}

/// A product of two bounded numbers is bounded.
proof fn lemma_bounded_product(x: int, a: int, y: int, b: int)
    requires
        within(x, a),
        within(y, b),
    ensures
        within(x * y, a * b),
{
    assert(-(a * b) <= x * y <= a * b) by (nonlinear_arith)
        requires
            -a <= x <= a,
            -b <= y <= b,
    ;
}

/// The product of the two deviations of a step, each close to its exact value,
/// is close to the product of these.
proof fn lemma_deviation_product(n: int, t: int, p: int, a: int, d: int, d2: int)
    requires
        n >= 2,
        p > 0,
        within(d, p),
        within(a, (n - 1) * p),
        within(t * ((n - 1) * d - a), ((n - 1) * (2 * n + 4)) * p),
        within(t * (n * d2 - a), (n * (2 * n + 6)) * p),
    ensures
        within(t * ((n * (n - 1)) * (d * d2) - a * a), ((n * (n - 1)) * (4 * n + 8)) * (p * p)),
{
    let k = n - 1;
    let kd = k * d;
    let kp = k * p;
    assert(within(kd, kp)) by (nonlinear_arith)
        requires
            kd == k * d,
            kp == k * p,
            -p <= d <= p,
            k >= 1,
    ;
    let x = kd - a;
    let y = n * d2 - a;
    let tx = t * x;
    let ty = t * y;
    let bx = (k * (2 * n + 4)) * p;
    let bw = (n * (2 * n + 6)) * p;
    lemma_bounded_product(kd, kp, ty, bw);
    lemma_bounded_product(a, kp, tx, bx);
    let w = n * d2;
    assert((n * k) * (d * d2) == kd * w) by (nonlinear_arith)
        requires
            kd == k * d,
            w == n * d2,
    ;
    assert(kd * w - a * a == kd * y + a * x) by (nonlinear_arith)
        requires
            x == kd - a,
            y == w - a,
    ;
    let g = kd * y + a * x;
    assert(t * g == kd * ty + a * tx) by (nonlinear_arith)
        requires
            g == kd * y + a * x,
            tx == t * x,
            ty == t * y,
    ;
    let pp = p * p;
    let g1 = n * (2 * n + 6);
    let g2 = k * (2 * n + 4);
    assert((k * p) * (g1 * p) == (k * g1) * (p * p)) by (nonlinear_arith);
    assert((k * p) * (g2 * p) == (k * g2) * (p * p)) by (nonlinear_arith);
    let c1 = k * (n * (2 * n + 6));
    let c2 = k * (k * (2 * n + 4));
    let c = (n * k) * (4 * n + 8);
    let e = n * (2 * n + 6) + k * (2 * n + 4);
    assert(c1 + c2 == k * e) by (nonlinear_arith)
        requires
            c1 == k * (n * (2 * n + 6)),
            c2 == k * (k * (2 * n + 4)),
            e == n * (2 * n + 6) + k * (2 * n + 4),
    ;
    assert(e <= n * (4 * n + 8)) by (nonlinear_arith)
        requires
            e == n * (2 * n + 6) + k * (2 * n + 4),
            k == n - 1,
            n >= 2,
    ;
    let f = n * (4 * n + 8);
    assert(k * e <= k * f) by (nonlinear_arith)
        requires
            e <= f,
            k >= 1,
    ;
    assert(c == k * f) by (nonlinear_arith)
        requires
            c == (n * k) * (4 * n + 8),
            f == n * (4 * n + 8),
    ;
    assert(c1 * pp + c2 * pp <= c * pp) by (nonlinear_arith)
        requires
            c1 + c2 <= c,
            pp >= 0,
    ;
}

/// The sum of bounded deltas is bounded.
proof fn lemma_total_bound(deltas: Seq<u64>, limit: int)
    requires
        forall|i: int| 0 <= i < deltas.len() ==> #[trigger] deltas[i] <= limit,
    ensures
        0 <= welford_laws::total(deltas) <= deltas.len() * limit,
    decreases deltas.len(),
{
    if deltas.len() > 0 {
        let shorter = deltas.drop_last();
        assert forall|i: int| 0 <= i < shorter.len() implies #[trigger] shorter[i] <= limit by {
            assert(deltas[i] <= limit);
        }
        lemma_total_bound(shorter, limit);
        welford_laws::lemma_totals_step(deltas);
        let k = shorter.len();
        assert(deltas[deltas.len() - 1] <= limit);
        assert((k + 1) * limit == k * limit + limit) by (nonlinear_arith);
    } else {
        assert(0 * limit == 0);
    }
}

/// The deviations of the last step are close to their exact values.
proof fn lemma_step_deviations(deltas: Seq<u64>, bits: nat)
    requires
        2 <= deltas.len() <= 0x20_0000_0000_0000,
        bits <= 64,
        forall|i: int| 0 <= i < deltas.len() ==> #[trigger] deltas[i] <= pow2(bits),
    ensures
        ({
            let n = deltas.len() as int;
            let k = n - 1;
            let p = pow2(1074 + bits) as int;
            let t = pow2(54) as int;
            let shorter = deltas.drop_last();
            let x = deltas.last();
            let v = update_numbers(scoring_laws::after_deltas(shorter), x);
            let a = (k * x - welford_laws::total(shorter)) * pow2(1074);
            &&& within(v.d, p)
            &&& within(v.d2, p)
            &&& within(a, k * p)
            &&& within(t * (k * v.d - a), (k * (2 * n + 4)) * p)
            &&& within(t * (n * v.d2 - a), (n * (2 * n + 6)) * p)
        }),
{
    let n = deltas.len() as int;
    let k = n - 1;
    let p = pow2(1074 + bits) as int;
    let t = pow2(54) as int;
    let u = pow2(1074) as int;
    let shorter = deltas.drop_last();
    let x = deltas[n - 1] as int;
    let s = welford_laws::total(shorter);
    let state = scoring_laws::after_deltas(shorter);
    let limit = pow2(bits) as int;
    assert forall|i: int| 0 <= i < shorter.len() implies #[trigger] shorter[i] <= pow2(bits) by {
        assert(deltas[i] <= pow2(bits));
    }
    law_mean_is_near_the_average(shorter, bits);
    law_mean_is_near_the_average(deltas, bits);
    scoring_laws::law_statistics_stay_sound(shorter);
    lemma_update_errors(state, deltas.last(), bits);
    welford_laws::lemma_totals_step(deltas);
    lemma_total_bound(shorter, limit);
    lemma_pow2_pos(1074);
    lemma_pow2_adds(1074, bits);
    let v = update_numbers(state, deltas.last());
    let m = state.mean.value();
    let b = k * x - s;
    let a = b * u;
    let kl = k * limit;
    assert(0 <= k * x <= kl) by (nonlinear_arith)
        requires
            0 <= x <= limit,
            k >= 1,
            kl == k * limit,
    ;
    assert(k * p == kl * u) by (nonlinear_arith)
        requires
            p == u * limit,
            kl == k * limit,
    ;
    assert(-(kl * u) <= a <= kl * u) by (nonlinear_arith)
        requires
            a == b * u,
            -kl <= b <= kl,
            u > 0,
    ;
    let e0 = v.x - x * u;
    let e1 = v.d - (v.x - m);
    let e4 = v.d2 - (v.x - v.next);
    let before = k * m - s * u;
    let after = n * v.next - (s + x) * u;
    let xu = x * u;
    assert(a == k * xu - s * u) by (nonlinear_arith)
        requires
            a == (k * x - s) * u,
            xu == x * u,
    ;
    assert(k * v.d == k * e1 + k * e0 + k * xu - k * m) by (nonlinear_arith)
        requires
            e0 == v.x - xu,
            e1 == v.d - (v.x - m),
    ;
    assert(n * v.d2 == n * e4 + n * e0 + n * xu - n * v.next) by (nonlinear_arith)
        requires
            e0 == v.x - xu,
            e4 == v.d2 - (v.x - v.next),
    ;
    assert(n * xu == k * xu + xu && (s + x) * u == s * u + xu) by (nonlinear_arith)
        requires
            n == k + 1,
            xu == x * u,
    ;
    let y = k * v.d - a;
    let z = n * v.d2 - a;
    assert(y == k * e1 + k * e0 - before);
    assert(z == n * e4 + n * e0 - after);
    assert(t * y == k * (t * e1) + k * (t * e0) - t * before) by (nonlinear_arith)
        requires
            y == k * e1 + k * e0 - before,
    ;
    assert(t * z == n * (t * e4) + n * (t * e0) - t * after) by (nonlinear_arith)
        requires
            z == n * e4 + n * e0 - after,
    ;
    assert(within(k, k) && within(n, n));
    lemma_bounded_product(k, k, t * e1, p);
    lemma_bounded_product(k, k, t * e0, p);
    lemma_bounded_product(n, n, t * e4, p);
    lemma_bounded_product(n, n, t * e0, p);
    assert((k * (2 * k + 4)) * p + 2 * (k * p) == (k * (2 * n + 4)) * p) by (nonlinear_arith)
        requires
            k == n - 1,
    ;
    assert((n * (2 * n + 4)) * p + 2 * (n * p) == (n * (2 * n + 6)) * p) by (nonlinear_arith);
}

/// The algebra of the error of `m2` over one step. All numbers are counted in
/// squares of the unit.
proof fn lemma_m2_error(
    n: int,
    t: int,
    pp: int,
    q: int,
    v: int,
    aa: int,
    product: int,
    rounding: int,
    vn: int,
)
    requires
        n >= 2,
        pp >= 0,
        (n - 1) * vn == n * v + aa,
        within(
            t * ((n - 1) * q - v),
            ((n - 1) * (3 * ((n - 1) * (n - 1)) + 12 * (n - 1))) * pp,
        ),
        within(t * ((n * (n - 1)) * product - aa), ((n * (n - 1)) * (4 * n + 9)) * pp),
        within(t * rounding, (2 * n) * pp),
    ensures
        within(t * (n * (q + product + rounding) - vn), (n * (3 * (n * n) + 12 * n)) * pp),
{
    let k = n - 1;
    let nk = n * k;
    let f = k * q - v;
    let g = nk * product - aa;
    let y = n * (q + product + rounding) - vn;
    assert(k * y == n * f + g + nk * rounding) by {
        let sum = q + product + rounding;
        assert(k * (n * sum) == nk * sum && n * (k * q) == nk * q) by (nonlinear_arith)
            requires
                nk == n * k,
        ;
        assert(nk * sum == nk * q + nk * product + nk * rounding) by (nonlinear_arith)
            requires
                sum == q + product + rounding,
        ;
        let ns = n * sum;
        assert(k * (ns - vn) == k * ns - k * vn) by (nonlinear_arith);
        assert(n * f == n * (k * q) - n * v) by (nonlinear_arith)
            requires
                f == k * q - v,
        ;
    }
    let z = k * y;
    assert(t * z == n * (t * f) + t * g + nk * (t * rounding)) by {
        let a = n * f;
        let b = nk * rounding;
        assert(t * (a + g + b) == t * a + t * g + t * b) by (nonlinear_arith);
        assert(t * (n * f) == n * (t * f)) by (nonlinear_arith);
        assert(t * (nk * rounding) == nk * (t * rounding)) by (nonlinear_arith);
    }
    assert(k * (t * y) == t * z) by (nonlinear_arith)
        requires
            z == k * y,
    ;
    let c = 3 * (k * k) + 12 * k;
    assert(nk >= 0) by (nonlinear_arith)
        requires
            nk == n * k,
            n >= 2,
            k >= 1,
    ;
    assert(within(n, n) && within(nk, nk));
    lemma_bounded_product(n, n, t * f, (k * c) * pp);
    lemma_bounded_product(nk, nk, t * rounding, (2 * n) * pp);
    let kc = k * c;
    assert(n * (kc * pp) == (n * kc) * pp) by (nonlinear_arith);
    assert(n * (k * c) == (n * k) * c) by (nonlinear_arith);
    let n2 = 2 * n;
    assert(nk * (n2 * pp) == (nk * n2) * pp) by (nonlinear_arith);
    let h = 3 * (n * n) + 12 * n;
    assert(k * k == n * n - 2 * n + 1) by (nonlinear_arith)
        requires
            k == n - 1,
    ;
    let i = 4 * n + 9;
    assert(c + i + n2 == h);
    assert(nk * c + nk * i + nk * n2 == nk * (c + i + n2)) by (nonlinear_arith);
    let x1 = nk * c;
    let x2 = nk * i;
    let x3 = nk * n2;
    assert(x1 * pp + x2 * pp + x3 * pp == (x1 + x2 + x3) * pp) by (nonlinear_arith);
    let nh = n * h;
    let w = nh * pp;
    assert((n * k) * h == k * (n * h)) by (nonlinear_arith);
    assert((k * nh) * pp == k * (nh * pp)) by (nonlinear_arith);
    let ty = t * y;
    assert(-w <= ty <= w) by (nonlinear_arith)
        requires
            -(k * w) <= k * ty <= k * w,
            k >= 1,
    ;
}

/// The product and the sum that the update of `m2` takes, for numbers of at
/// most `2^bits` and up to `n` samples.
proof fn lemma_m2_update(state: WelfordState, delta_ns: u64, bits: nat)
    requires
        state.sound(),
        bits <= 64,
        delta_ns <= pow2(bits),
        state.mean.value() <= pow2(1074 + bits),
        state.n < 0x20_0000_0000_0000,
        state.m2.finite(),
        state.m2.value() <= state.n * pow2(1074 + 2 * bits),
    ensures
        ({
            let n = state.n + 1;
            let t = pow2(54) as int;
            let u = pow2(1074) as int;
            let p2 = pow2(1074 + 2 * bits) as int;
            let next = state.updated(delta_ns);
            let v = update_numbers(state, delta_ns);
            let x = Binary64::of_integer(delta_ns as int);
            let product = x.minus(state.mean).times(x.minus(next.mean)).value();
            &&& next.m2.finite()
            &&& 0 <= next.m2.value() <= n * p2
            &&& within(t * (product * u - v.d * v.d2), p2 * u)
            &&& within(t * (next.m2.value() - (state.m2.value() + product)), (2 * n) * p2)
        }),
{
    let n = state.n + 1;
    let k = state.n as int;
    let t = pow2(54) as int;
    let u = pow2(1074) as int;
    let p = pow2(1074 + bits) as int;
    let p2 = pow2(1074 + 2 * bits) as int;
    let next = state.updated(delta_ns);
    let x = Binary64::of_integer(delta_ns as int);
    let d = x.minus(state.mean);
    let d2 = x.minus(next.mean);
    let product = d.times(d2);
    lemma_update_errors(state, delta_ns, bits);
    scoring_laws::law_updates_stay_sound(state, delta_ns);
    lemma_pow2_pos(1074);
    lemma_pow2_pos(1074 + 2 * bits);
    lemma_pow2_adds(1074 + bits, 1074 + bits);
    lemma_pow2_adds(1074 + 2 * bits, 1074);
    arith::lemma_units_zero(d.magnitude());
    arith::lemma_units_zero(d2.magnitude());
    let du = Binary64::units(d.magnitude());
    let d2u = Binary64::units(d2.magnitude());
    assert(p * p == p2 * u);
    assert(du * d2u <= p * p) by (nonlinear_arith)
        requires
            0 <= du <= p,
            0 <= d2u <= p,
    ;
    laws::law_product_error(d, d2, 1074int + 2 * bits);
    // The sum stays below the exact number `n * 2^(2 * bits)`.
    let q = state.m2.value();
    arith::lemma_units_zero(state.m2.magnitude());
    let high = laws::lemma_whole_magnitude(n, 1074int + 2 * bits);
    let low = laws::lemma_whole_magnitude(1, 1074int + 2 * bits);
    laws::lemma_composed(false, high);
    laws::lemma_composed(true, low);
    assert(1 * p2 == p2 && n * p2 == k * p2 + p2) by (nonlinear_arith)
        requires
            n == k + 1,
    ;
    laws::law_sum_stays_in_bounds(
        state.m2,
        product,
        Binary64::compose(true, low),
        Binary64::compose(false, high),
    );
    arith::lemma_units_zero(next.m2.magnitude());
    // Its error, by the power of two above `n`.
    lemma2_to64_rest();
    let e = laws::lemma_leading_bit(n, 53);
    lemma_pow2_unfold((e + 1) as nat);
    let top = pow2((e + 1) as nat) as int;
    let exponent = e + 1 + 1074 + 2 * bits;
    lemma_pow2_adds((e + 1) as nat, 1074 + 2 * bits);
    let n2 = 2 * n;
    assert(p2 <= n * p2 && n * p2 <= top * p2 && top * p2 <= n2 * p2) by (nonlinear_arith)
        requires
            1 <= n <= top <= n2,
            p2 > 0,
    ;
    laws::law_sum_error(state.m2, product, exponent);
}

/// Law: rounding moves the sum of squared deviations little. For up to `2^53`
/// deltas of at most `2^bits` nanoseconds, `m2` of `n` of them differs from the
/// sum of their squared deviations from their average by at most
/// `(3 n^2 + 12 n) * 2^(2 bits - 54)` square nanoseconds.
pub proof fn law_m2_is_near_the_deviations(deltas: Seq<u64>, bits: nat)
    requires
        deltas.len() <= 0x20_0000_0000_0000,
        bits <= 64,
        forall|i: int| 0 <= i < deltas.len() ==> #[trigger] deltas[i] <= pow2(bits),
    ensures
        ({
            let n = deltas.len() as int;
            let u = pow2(1074) as int;
            let p = pow2(1074 + bits) as int;
            let m2 = scoring_laws::after_deltas(deltas).m2;
            let sum = welford_laws::total(deltas);
            let error = n * (m2.value() * u) - (n * welford_laws::squares(deltas) - sum * sum) * (u * u);
            let bound = (n * (3 * (n * n) + 12 * n)) * (p * p);
            &&& m2.finite()
            &&& 0 <= m2.value() <= n * pow2(1074 + 2 * bits)
            &&& -bound <= pow2(54) * error <= bound
        }),
    decreases deltas.len(),
{
    let n = deltas.len() as int;
    let t = pow2(54) as int;
    let u = pow2(1074) as int;
    let uu = u * u;
    let p = pow2(1074 + bits) as int;
    let pp = p * p;
    let p2 = pow2(1074 + 2 * bits) as int;
    arith::lemma_units_zero(0);
    lemma_pow2_pos(1074);
    lemma_pow2_pos(1074 + bits);
    lemma_pow2_pos(1074 + 2 * bits);
    assert(pp >= 0) by (nonlinear_arith)
        requires
            pp == p * p,
            p > 0,
    ;
    if n == 0 {
        assert(welford_laws::total(deltas) == 0 && welford_laws::squares(deltas) == 0);
        assert(0 * (0 * u) == 0 && (0 * 0 - 0 * 0) * uu == 0 && (0 * (3 * (0 * 0) + 12 * 0)) * pp
            == 0 && t * 0 == 0 && 0 * p2 == 0) by (nonlinear_arith);
    } else if n == 1 {
        let x = deltas[0];
        welford_laws::lemma_totals_step(deltas);
        assert(deltas.drop_last() =~= Seq::<u64>::empty());
        assert(scoring_laws::after_deltas(deltas.drop_last()) == WelfordState::fresh());
        scoring_laws::law_regular_sessions_have_no_variance(x, 1);
        assert(scoring_laws::after_repeats(x, 0) == WelfordState::fresh());
        assert(1 * welford_laws::squares(deltas) - x * x == 0);
        assert(1 * (0 * u) == 0 && 0 * uu == 0 && (1 * (3 * (1 * 1) + 12 * 1)) * pp >= 0 && t * 0
            == 0 && 1 * p2 >= 0) by (nonlinear_arith)
            requires
                pp >= 0,
                p2 > 0,
        ;
    } else {
        let k = n - 1;
        let shorter = deltas.drop_last();
        let state = scoring_laws::after_deltas(shorter);
        let x = deltas[n - 1];
        assert forall|i: int| 0 <= i < shorter.len() implies #[trigger] shorter[i] <= pow2(bits) by {
            assert(deltas[i] <= pow2(bits));
        }
        law_m2_is_near_the_deviations(shorter, bits);
        law_mean_is_near_the_average(shorter, bits);
        scoring_laws::law_statistics_stay_sound(shorter);
        welford_laws::lemma_totals_step(deltas);
        lemma_step_deviations(deltas, bits);
        lemma_m2_update(state, x, bits);
        let v = update_numbers(state, x);
        let next = state.updated(x);
        let xf = Binary64::of_integer(x as int);
        let product = xf.minus(state.mean).times(xf.minus(next.mean)).value();
        let s = welford_laws::total(shorter);
        let sq = welford_laws::squares(shorter);
        let b = k * x - s;
        let a = b * u;
        lemma_deviation_product(n, t, p, a, v.d, v.d2);
        let nk = n * k;
        let dd = v.d * v.d2;
        let aa = a * a;
        // The product that was rounded.
        lemma_pow2_adds(1074 + bits, 1074 + bits);
        lemma_pow2_adds(1074 + 2 * bits, 1074);
        assert(p2 * u == pp);
        let pu = product * u;
        let r = t * (pu - dd);
        assert(nk >= 1) by (nonlinear_arith)
            requires
                nk == n * k,
                n >= 2,
                k >= 1,
        ;
        assert(within(nk, nk));
        lemma_bounded_product(nk, nk, r, pp);
        assert(t * (nk * pu - aa) == nk * r + t * (nk * dd - aa)) by {
            assert(t * (pu - dd) == t * pu - t * dd) by (nonlinear_arith);
            let a1 = t * pu;
            let a2 = t * dd;
            assert(nk * (a1 - a2) == nk * a1 - nk * a2) by (nonlinear_arith);
            assert(nk * (t * pu) == t * (nk * pu)) by (nonlinear_arith);
            assert(nk * (t * dd) == t * (nk * dd)) by (nonlinear_arith);
            let y = nk * pu;
            let z = nk * dd;
            assert(t * (y - aa) == t * y - t * z + t * (z - aa)) by (nonlinear_arith);
        }
        let j = 4 * n + 8;
        let i = nk * j;
        assert(i * pp + nk * pp == (i + nk) * pp) by (nonlinear_arith);
        assert(nk * (j + 1) == nk * j + nk) by (nonlinear_arith);
        // The sum that was rounded.
        let q = state.m2.value();
        let qn = next.m2.value();
        let err = qn - (q + product);
        let te = t * err;
        assert(within(t * (err * u), (2 * n) * pp)) by {
            assert(t * (err * u) == (t * err) * u) by (nonlinear_arith);
            let c = (2 * n) * p2;
            assert(-(c * u) <= te * u <= c * u) by (nonlinear_arith)
                requires
                    -c <= te <= c,
                    u > 0,
            ;
            let n2 = 2 * n;
            assert((n2 * p2) * u == n2 * (p2 * u)) by (nonlinear_arith);
        }
        // The exact numbers step by the product of the exact deviations.
        let vk = k * sq - s * s;
        let vn = n * (sq + x * x) - (s + x) * (s + x);
        assert(k * vn == n * vk + b * b) by {
            welford_laws::lemma_exact_product(n, x as int, s, sq);
        }
        assert(k * (vn * uu) == n * (vk * uu) + aa) by {
            let w = b * b;
            assert((b * u) * (b * u) == (b * b) * (u * u)) by (nonlinear_arith);
            assert(k * (vn * uu) == (k * vn) * uu) by (nonlinear_arith);
            assert(n * (vk * uu) == (n * vk) * uu) by (nonlinear_arith);
            let y = n * vk;
            assert((y + w) * uu == y * uu + w * uu) by (nonlinear_arith);
        }
        lemma_m2_error(n, t, pp, q * u, vk * uu, aa, pu, err * u, vn * uu);
        assert((q + product + err) * u == q * u + product * u + err * u) by (nonlinear_arith);
    }
}

} // verus!
