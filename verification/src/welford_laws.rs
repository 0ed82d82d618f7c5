//! What the running statistics mean: without rounding they are the average of
//! the deltas and the sum of their squared deviations from it.

use crate::binary64::arith;
use crate::scoring::WelfordState;
use crate::scoring_laws;
use vstd::arithmetic::power2::*;
use vstd::prelude::*;

verus! {

/// The sum of some deltas.
pub open spec fn total(deltas: Seq<u64>) -> int {
    deltas.fold_left(0int, |sum: int, delta: u64| sum + delta)
}

/// The sum of the squares of some deltas.
pub open spec fn squares(deltas: Seq<u64>) -> int {
    deltas.fold_left(0int, |sum: int, delta: u64| sum + delta * delta)
}

/// The sum of the squared deviations of some deltas from a number; the number
/// is counted in fractions `1 / unit`, the sum in fractions `1 / unit^2`.
pub open spec fn deviations(deltas: Seq<u64>, unit: int, center: int) -> int
    decreases deltas.len(),
{
    if deltas.len() == 0 {
        0
    } else {
        let deviation = deltas.last() * unit - center;
        deviations(deltas.drop_last(), unit, center) + deviation * deviation
    }
}

/// Running statistics as exact numbers, counted in fractions `1 / unit`.
pub struct ExactStats {
    pub mean: int,
    pub m2: int,
}

impl ExactStats {
    /// Whether `next` follows by a Welford update in exact arithmetic, with `x`
    /// as the `n`-th sample.
    pub open spec fn steps_to(self, unit: int, n: int, x: int, next: ExactStats) -> bool {
        &&& n * (next.mean - self.mean) == x * unit - self.mean
        &&& (next.m2 - self.m2) * unit == (x * unit - self.mean) * (x * unit - next.mean)
    }
}

/// Whether `stats` are the statistics before and after each delta, in exact
/// arithmetic.
pub open spec fn exact_run(deltas: Seq<u64>, unit: int, stats: Seq<ExactStats>) -> bool {
    &&& unit > 0
    &&& stats.len() > deltas.len()
    &&& stats[0] == ExactStats { mean: 0, m2: 0 }
    &&& forall|i: int|
        #![trigger deltas[i]]
        0 <= i < deltas.len() ==> stats[i].steps_to(unit, i + 1, deltas[i] as int, stats[i + 1])
}

pub(crate) proof fn lemma_totals_step(deltas: Seq<u64>)
    requires
        deltas.len() > 0,
    ensures
        total(deltas) == total(deltas.drop_last()) + deltas.last(),
        squares(deltas) == squares(deltas.drop_last()) + deltas.last() * deltas.last(),
{
}

/// The algebra of one step, for the sums `s` and `t` of `n - 1` samples and of
/// their squares. Here `x`, `s` and `t` are counted as the statistics are.
proof fn lemma_exact_step(n: int, x: int, s: int, t: int, mean: int, q: int, next: int)
    requires
        n >= 1,
        (n - 1) * mean == s,
        (n - 1) * q == (n - 1) * t - s * s,
        n == 1 ==> s == 0 && t == 0 && q == 0 && mean == 0,
        n * (next - mean) == x - mean,
    ensures
        n * next == s + x,
        n * (q + (x - mean) * (x - next)) == n * (t + x * x) - (s + x) * (s + x),
{
    assert(n * next == s + x) by (nonlinear_arith)
        requires
            (n - 1) * mean == s,
            n * (next - mean) == x - mean,
    ;
    let k = n - 1;
    let p = (x - mean) * (x - next);
    let have = n * (q + p);
    let want = n * (t + x * x) - (s + x) * (s + x);
    let a = k * x - s;
    // Both deviations, cleared of their denominators.
    assert(k * (x - mean) == a) by (nonlinear_arith)
        requires
            k * mean == s,
            a == k * x - s,
    ;
    assert(n * (x - next) == a) by (nonlinear_arith)
        requires
            n * next == s + x,
            a == k * x - s,
            k == n - 1,
    ;
    assert((k * (x - mean)) * (n * (x - next)) == k * (n * p)) by (nonlinear_arith)
        requires
            p == (x - mean) * (x - next),
    ;
    assert(k * (n * q) == n * (k * t - s * s)) by (nonlinear_arith)
        requires
            k * q == k * t - s * s,
    ;
    assert(have == n * q + n * p && k * have == k * (n * q) + k * (n * p)) by (nonlinear_arith)
        requires
            have == n * (q + p),
    ;
    assert(n * (k * t - s * s) + a * a == k * want) by {
        lemma_exact_product(n, x, s, t);
    }
    if n == 1 {
        assert(next == x);
        assert(p == 0) by (nonlinear_arith)
            requires
                p == (x - mean) * (x - next),
                next == x,
        ;
        assert(want == 0) by (nonlinear_arith)
            requires
                want == n * (t + x * x) - (s + x) * (s + x),
                n == 1,
                s == 0,
                t == 0,
        ;
        assert(have == 0) by (nonlinear_arith)
            requires
                have == n * (q + p),
                q == 0,
                p == 0,
        ;
    } else {
        assert(have == want) by (nonlinear_arith)
            requires
                k * have == k * want,
                k >= 1,
        ;
    }
}

/// Law: in exact arithmetic the recurrence gives the average of the deltas and
/// the sum of their squared deviations from it.
pub proof fn law_welford_is_the_variance(deltas: Seq<u64>, unit: int, stats: Seq<ExactStats>)
    requires
        exact_run(deltas, unit, stats),
    ensures
        ({
            let n = deltas.len();
            let last = stats[n as int];
            let sum = total(deltas);
            &&& n * last.mean == sum * unit
            &&& n * last.m2 == (n * squares(deltas) - sum * sum) * unit
            &&& last.m2 * unit == deviations(deltas, unit, last.mean)
        }),
    decreases deltas.len(),
{
    let n = deltas.len() as int;
    let last = stats[n];
    let sum = total(deltas);
    if n > 0 {
        let shorter = deltas.drop_last();
        let before = stats[n - 1];
        let x = deltas[n - 1] as int;
        assert forall|i: int| #![trigger shorter[i]] 0 <= i < shorter.len() implies stats[i].steps_to(
            unit,
            i + 1,
            shorter[i] as int,
            stats[i + 1],
        ) by {
            assert(deltas[i] == shorter[i]);
        }
        law_welford_is_the_variance(shorter, unit, stats);
        lemma_totals_step(deltas);
        if n == 1 {
            assert(shorter =~= Seq::<u64>::empty());
        }
        assert(before.steps_to(unit, n, x, last));
        let s = total(shorter);
        let t = squares(shorter);
        let k = n - 1;
        // Everything in squares of the unit.
        let tu = t * (unit * unit);
        let qu = before.m2 * unit;
        assert(k * qu == k * tu - (s * unit) * (s * unit)) by {
            let uu = unit * unit;
            let w = k * t - s * s;
            let m = before.m2;
            assert(k * (m * unit) == (k * m) * unit) by (nonlinear_arith);
            assert((w * unit) * unit == w * uu) by (nonlinear_arith)
                requires
                    uu == unit * unit,
            ;
            assert(w * uu == (k * t) * uu - (s * s) * uu) by (nonlinear_arith)
                requires
                    w == k * t - s * s,
            ;
            assert((k * t) * uu == k * (t * uu)) by (nonlinear_arith);
            assert((s * s) * uu == (s * unit) * (s * unit)) by (nonlinear_arith)
                requires
                    uu == unit * unit,
            ;
        }
        assert(n == 1 ==> s * unit == 0 && tu == 0 && qu == 0) by (nonlinear_arith)
            requires
                n == 1 ==> s == 0 && t == 0 && before.m2 == 0,
                qu == before.m2 * unit,
                tu == t * (unit * unit),
        ;
        lemma_exact_step(n, x * unit, s * unit, tu, before.mean, qu, last.mean);
        assert(last.m2 * unit == qu + (x * unit - before.mean) * (x * unit - last.mean))
            by (nonlinear_arith)
            requires
                qu == before.m2 * unit,
                (last.m2 - before.m2) * unit == (x * unit - before.mean) * (x * unit - last.mean),
        ;
        assert(s * unit + x * unit == sum * unit) by (nonlinear_arith)
            requires
                sum == s + x,
        ;
        let t1 = squares(deltas);
        assert(tu + (x * unit) * (x * unit) == t1 * (unit * unit)) by (nonlinear_arith)
            requires
                tu == t * (unit * unit),
                t1 == t + x * x,
        ;
        let lu = last.m2 * unit;
        assert(n * lu == n * (t1 * (unit * unit)) - (sum * unit) * (sum * unit));
        let v = n * t1 - sum * sum;
        assert(n * (t1 * (unit * unit)) - (sum * unit) * (sum * unit) == (v * unit) * unit)
            by (nonlinear_arith)
            requires
                v == n * t1 - sum * sum,
        ;
        assert((n * last.m2) * unit == n * lu) by (nonlinear_arith)
            requires
                lu == last.m2 * unit,
        ;
        assert(n * last.m2 == v * unit) by (nonlinear_arith)
            requires
                (n * last.m2) * unit == (v * unit) * unit,
                unit > 0,
        ;
        let c = last.mean;
        let d = deviations(deltas, unit, c);
        lemma_deviations(deltas, unit, c);
        let tt = t1 * (unit * unit);
        let su = sum * unit;
        assert(n * (d - lu) == 0) by {
            assert(n * d == n * tt - 2 * (n * c * su) + (n * c) * (n * c)) by (nonlinear_arith)
                requires
                    d == tt - 2 * (c * su) + n * (c * c),
            ;
            assert(n * c * su == su * su && (n * c) * (n * c) == su * su) by (nonlinear_arith)
                requires
                    n * c == su,
            ;
            assert(n * (d - lu) == n * d - n * lu) by (nonlinear_arith);
        }
        assert(d == lu) by (nonlinear_arith)
            requires
                n * (d - lu) == 0,
                n >= 1,
        ;
    } else {
        assert(0 * last.mean == 0 && 0 * unit == 0 && 0 * last.m2 == 0) by (nonlinear_arith);
        assert(total(deltas) == 0 && squares(deltas) == 0);
    }
}

/// The squared deviations from a number, by the sums.
proof fn lemma_deviations(deltas: Seq<u64>, unit: int, c: int)
    ensures
        deviations(deltas, unit, c) == squares(deltas) * (unit * unit) - 2 * (c * (total(deltas)
            * unit)) + deltas.len() * (c * c),
    decreases deltas.len(),
{
    if deltas.len() > 0 {
        let shorter = deltas.drop_last();
        lemma_deviations(shorter, unit, c);
        lemma_totals_step(deltas);
        let x = deltas.last() as int;
        let s = total(shorter);
        let t = squares(shorter);
        let n = shorter.len();
        let xu = x * unit;
        assert((xu - c) * (xu - c) == xu * xu - 2 * (c * xu) + c * c) by (nonlinear_arith);
        assert((t + x * x) * (unit * unit) == t * (unit * unit) + xu * xu) by (nonlinear_arith)
            requires
                xu == x * unit,
        ;
        assert(c * ((s + x) * unit) == c * (s * unit) + c * xu) by (nonlinear_arith)
            requires
                xu == x * unit,
        ;
        assert((n + 1) * (c * c) == n * (c * c) + c * c) by (nonlinear_arith);
    } else {
        assert(total(deltas) == 0 && squares(deltas) == 0);
        assert(0 * (unit * unit) == 0 && c * (0 * unit) == 0 && 0 * (c * c) == 0)
            by (nonlinear_arith);
    }
}

/// Law: the order of the deltas does not matter to what exact arithmetic gives.
pub proof fn law_order_does_not_matter(
    unit: int,
    deltas1: Seq<u64>,
    stats1: Seq<ExactStats>,
    deltas2: Seq<u64>,
    stats2: Seq<ExactStats>,
)
    requires
        deltas1.to_multiset() == deltas2.to_multiset(),
        exact_run(deltas1, unit, stats1),
        exact_run(deltas2, unit, stats2),
    ensures
        stats1[deltas1.len() as int] == stats2[deltas2.len() as int],
{
    broadcast use vstd::seq_lib::group_to_multiset_ensures;

    assert(deltas1.len() == deltas1.to_multiset().len() && deltas2.len()
        == deltas2.to_multiset().len());
    vstd::seq_lib::lemma_fold_left_permutation(
        deltas1,
        deltas2,
        |sum: int, delta: u64| sum + delta,
        0int,
    );
    vstd::seq_lib::lemma_fold_left_permutation(
        deltas1,
        deltas2,
        |sum: int, delta: u64| sum + delta * delta,
        0int,
    );
    law_welford_is_the_variance(deltas1, unit, stats1);
    law_welford_is_the_variance(deltas2, unit, stats2);
    let n = deltas1.len() as int;
    let a = stats1[n];
    let b = stats2[n];
    if n > 0 {
        assert(a.mean == b.mean) by (nonlinear_arith)
            requires
                n * a.mean == n * b.mean,
                n >= 1,
        ;
        assert(a.m2 == b.m2) by (nonlinear_arith)
            requires
                n * a.m2 == n * b.m2,
                n >= 1,
        ;
    }
}

/// The exact numbers that statistics stand for, in units of `2^-1074`.
pub open spec fn numbers(state: WelfordState) -> ExactStats {
    ExactStats { mean: state.mean.value(), m2: state.m2.value() }
}

/// Whether an update of statistics does not round: they are finite and step as
/// exact numbers do.
pub open spec fn update_is_exact(state: WelfordState, delta_ns: u64) -> bool {
    let next = state.updated(delta_ns);
    &&& next.mean.finite()
    &&& next.m2.finite()
    &&& numbers(state).steps_to(
        pow2(1074) as int,
        next.n as int,
        delta_ns as int,
        numbers(next),
    )
}

/// Law: where no update rounds, the mean of a session is the average of its
/// deltas, and `m2` the sum of their squared deviations from it.
pub proof fn law_unrounded_statistics(deltas: Seq<u64>)
    requires
        deltas.len() <= u64::MAX,
        forall|i: int|
            0 <= i < deltas.len() ==> update_is_exact(
                #[trigger] scoring_laws::after_deltas(deltas.take(i)),
                deltas[i],
            ),
    ensures
        ({
            let n = deltas.len();
            let unit = pow2(1074) as int;
            let last = numbers(scoring_laws::after_deltas(deltas));
            let sum = total(deltas);
            &&& n * last.mean == sum * unit
            &&& n * last.m2 == (n * squares(deltas) - sum * sum) * unit
            &&& last.m2 * unit == deviations(deltas, unit, last.mean)
        }),
{
    let n = deltas.len();
    let stats = Seq::new(
        n + 1,
        |i: int| numbers(scoring_laws::after_deltas(deltas.take(i))),
    );
    let unit = pow2(1074) as int;
    lemma_pow2_pos(1074);
    assert(deltas.take(0) =~= Seq::<u64>::empty());
    assert(deltas.take(n as int) =~= deltas);
    arith::lemma_units_zero(0);
    assert forall|i: int| #![trigger deltas[i]] 0 <= i < n implies stats[i].steps_to(
        unit,
        i + 1,
        deltas[i] as int,
        stats[i + 1],
    ) by {
        let before = scoring_laws::after_deltas(deltas.take(i));
        assert(deltas.take(i + 1).drop_last() =~= deltas.take(i));
        assert(deltas.take(i + 1).last() == deltas[i]);
        scoring_laws::law_statistics_stay_sound(deltas.take(i));
        scoring_laws::law_statistics_stay_sound(deltas.take(i + 1));
        assert(update_is_exact(before, deltas[i]));
    }
    law_welford_is_the_variance(deltas, unit, stats);
}

/// How the exact sums step, cleared of denominators.
pub(crate) proof fn lemma_exact_product(n: int, x: int, s: int, t: int)
    ensures
        (n - 1) * (n * (t + x * x) - (s + x) * (s + x)) == n * ((n - 1) * t - s * s) + ((n - 1) * x
            - s) * ((n - 1) * x - s),
{
    let k = n - 1;
    let a = k * x - s;
    let want = n * (t + x * x) - (s + x) * (s + x);
    let xx = x * x;
    let ss = s * s;
    let sx = s * x;
    assert(a * a == (k * k) * xx - 2 * (k * sx) + ss) by (nonlinear_arith)
        requires
            a == k * x - s,
            xx == x * x,
            ss == s * s,
            sx == s * x,
    ;
    assert((s + x) * (s + x) == ss + 2 * sx + xx) by (nonlinear_arith)
        requires
            xx == x * x,
            ss == s * s,
            sx == s * x,
    ;
    assert(n * (k * t - ss) == k * (n * t) - k * ss - ss) by (nonlinear_arith)
        requires
            n == k + 1,
    ;
    assert(want == n * t + n * xx - ss - 2 * sx - xx) by (nonlinear_arith)
        requires
            want == n * (t + xx) - (ss + 2 * sx + xx),
    ;
    assert(k * want == k * (n * t) + k * (n * xx) - k * ss - 2 * (k * sx) - k * xx)
        by (nonlinear_arith)
        requires
            want == n * t + n * xx - ss - 2 * sx - xx,
    ;
    assert(k * (n * xx) == (k * k) * xx + k * xx) by (nonlinear_arith)
        requires
            n == k + 1,
    ;
}

} // verus!
