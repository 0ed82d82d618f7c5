//! What the rate of a session is, in exact numbers: the mean of the posterior
//! of its scores, held inside its bounds; and what its commands carry.

use crate::bayesian::{
    self, Dispatch, DispatcherAction, DispatcherInput, LambdaState, LambdaWarning, LAMBDA_MAX,
    LAMBDA_MIN, MICROS_PER_SECOND,
};
use crate::bayesian_laws;
use crate::binary64::value::INFINITE;
use crate::binary64::{arith, convert, laws, Binary64};
use crate::scoring::{self, ONE, ZERO};
use crate::scoring_laws;
use crate::supervisor::TaskStop;
use vstd::arithmetic::power2::*;
use vstd::prelude::*;

verus! {

/// Law: an update takes the mean of the posterior as the rate. Where it returns
/// no warning, the rate times `beta` is `alpha`, to within what one division
/// rounds. Where it returns one, the mean lies beyond a bound, and the rate is
/// that bound.
pub proof fn law_rate_is_the_posterior_mean(state: LambdaState, observation: Binary64)
    requires
        state.updated(observation).alpha.finite(),
        !state.updated(observation).alpha.negative(),
        state.updated(observation).beta.finite(),
        !state.updated(observation).beta.negative(),
        state.updated(observation).beta.value() > 0,
    ensures
        ({
            let u = pow2(1074) as int;
            let next = state.updated(observation);
            let alpha = next.alpha.value();
            let beta = next.beta.value();
            let rate = next.lambda.value();
            let least = (Binary64 { bits: LAMBDA_MIN }).value();
            match LambdaState::warning_for(state.raw_mean(observation)) {
                None => {
                    &&& least <= rate <= 50 * u
                    &&& -(64 * (u * beta)) <= pow2(54) * (rate * beta - alpha * u) <= 64 * (u
                        * beta)
                },
                Some(LambdaWarning::AboveMaximum { raw }) => {
                    &&& rate == 50 * u
                    &&& alpha > 50 * beta
                    &&& raw.value() > 50 * u
                },
                Some(LambdaWarning::BelowMinimum { raw }) => {
                    &&& rate == least
                    &&& alpha * u < least * beta
                    &&& raw.value() < least
                },
            }
        }),
        bayesian_laws::rate_in_bounds(state.updated(observation).lambda),
{
    let u = pow2(1074) as int;
    let next = state.updated(observation);
    let a = next.alpha;
    let b = next.beta;
    let alpha = a.value();
    let beta = b.value();
    let raw = state.raw_mean(observation);
    assert(raw == a.over(b));
    bayesian_laws::law_constants();
    lemma2_to64();
    arith::lemma_units_zero(a.magnitude());
    arith::lemma_units_zero(b.magnitude());
    let num = alpha * u;
    assert(num >= 0) by (nonlinear_arith)
        requires
            num == alpha * u,
            alpha >= 0,
            u > 0,
    ;
    let m = Binary64::rounded(num, beta);
    laws::lemma_nearest_exists(num, beta);
    laws::lemma_composed(false, m);
    let high = LAMBDA_MAX as int;
    let low = LAMBDA_MIN as int;
    laws::lemma_rounded_bounds(num, beta, high);
    laws::lemma_rounded_bounds(num, beta, low);
    convert::lemma_units_order(m, high);
    convert::lemma_units_order(m, low);
    convert::lemma_units_order(low, high);
    arith::lemma_units_zero(m);
    bayesian_laws::law_rate_is_clamped(state, observation);
    let max = 50 * u;
    if (Binary64 { bits: LAMBDA_MAX }).less(raw) {
        assert(m > high);
        assert(num > max * beta);
        assert(alpha > 50 * beta) by (nonlinear_arith)
            requires
                alpha * u > max * beta,
                max == 50 * u,
                u > 0,
        ;
    } else if raw.less(Binary64 { bits: LAMBDA_MIN }) {
        assert(m < low);
    } else {
        // Below 64, so that the error of one division is known.
        let limit = laws::lemma_whole_magnitude(64, 1074);
        lemma_pow2_adds(1074, 6);
        convert::lemma_units_order(limit, high);
        laws::lemma_rounded_bounds(num, beta, limit);
        let top = 64 * u;
        assert(num <= top * beta);
        laws::law_quotient_error(a, b, 1080);
        assert((64 * u) * beta == 64 * (u * beta)) by (nonlinear_arith);
    }
}

/// Law: an update adds one to `alpha` and the observation to `beta`, to within
/// what two sums of at most `2^e` units round.
pub proof fn law_update_adds_the_observation(state: LambdaState, observation: Binary64, e: int)
    requires
        state.alpha.finite(),
        state.beta.finite(),
        observation.finite(),
        53 <= e <= 2000,
        -pow2(e as nat) <= state.alpha.value() + pow2(1074) <= pow2(e as nat),
        -pow2(e as nat) <= state.beta.value() + observation.value() <= pow2(e as nat),
    ensures
        ({
            let next = state.updated(observation);
            let limit = pow2(e as nat) as int;
            let u = pow2(1074) as int;
            &&& next.alpha.finite()
            &&& next.beta.finite()
            &&& -limit <= pow2(54) * (next.alpha.value() - (state.alpha.value() + u)) <= limit
            &&& -limit <= pow2(54) * (next.beta.value() - (state.beta.value()
                + observation.value())) <= limit
        }),
{
    scoring_laws::law_constants();
    laws::law_sum_error(state.alpha, Binary64 { bits: ONE }, e);
    laws::law_sum_error(state.beta, observation, e);
}

/// The sum of some scores, in units of `2^-1074`.
pub open spec fn score_total(scores: Seq<Binary64>) -> int
    decreases scores.len(),
{
    if scores.len() == 0 {
        0
    } else {
        score_total(scores.drop_last()) + scores.last().value()
    }
}

/// Law: after `n` scores, `alpha` is `n + 1` and `beta` is one plus the sum of
/// the scores, to within `(n^2 + 3 n) * 2^-54`.
pub proof fn law_posterior_of_scores(scores: Seq<Binary64>)
    requires
        scores.len() < 0x1f_ffff_ffff_ffff,
        forall|i: int| 0 <= i < scores.len() ==> scoring::in_unit_range(#[trigger] scores[i]),
    ensures
        ({
            let n = scores.len() as int;
            let u = pow2(1074) as int;
            let state = bayesian_laws::after_scores(scores);
            let error = state.beta.value() - (u + score_total(scores));
            &&& state.sound()
            &&& state.alpha.value() == (n + 1) * u
            &&& 0 <= score_total(scores) <= n * u
            &&& -((n * n + 3 * n) * u) <= pow2(54) * error <= (n * n + 3 * n) * u
        }),
    decreases scores.len(),
{
    let n = scores.len() as int;
    let u = pow2(1074) as int;
    let t = pow2(54) as int;
    lemma_pow2_pos(1074);
    scoring_laws::law_constants();
    bayesian_laws::law_posterior_counts_scores(scores);
    if n == 0 {
        assert(0 * u == 0 && (0 * 0 + 3 * 0) * u == 0 && t * 0 == 0) by (nonlinear_arith);
    } else {
        let shorter = scores.drop_last();
        let score = scores[n - 1];
        let k = n - 1;
        assert forall|i: int| 0 <= i < shorter.len() implies scoring::in_unit_range(
            #[trigger] shorter[i],
        ) by {
            assert(scoring::in_unit_range(scores[i]));
        }
        law_posterior_of_scores(shorter);
        let state = bayesian_laws::after_scores(shorter);
        let beta = state.beta.value();
        let s = score.value();
        assert(scoring::in_unit_range(score));
        assert(n * u == k * u + u && (n + 1) * u == n * u + u) by (nonlinear_arith)
            requires
                n == k + 1,
        ;
        // The error of the sum, by the power of two above `n + 1`.
        lemma2_to64_rest();
        let e = laws::lemma_leading_bit(n + 1, 53);
        lemma_pow2_unfold((e + 1) as nat);
        lemma_pow2_adds((e + 1) as nat, 1074);
        let top = pow2((e + 1) as nat) as int;
        let c = n + 1;
        let c2 = 2 * c;
        assert(c * u <= top * u && top * u <= c2 * u) by (nonlinear_arith)
            requires
                c <= top <= c2,
                u > 0,
        ;
        laws::law_sum_error(state.beta, score, e + 1 + 1074);
        let next = bayesian_laws::after_scores(scores).beta.value();
        assert(next == state.beta.plus(score).value());
        let e1 = next - (beta + s);
        let e2 = beta - (u + score_total(shorter));
        assert(t * (e1 + e2) == t * e1 + t * e2) by (nonlinear_arith);
        let q = k * k + 3 * k;
        assert(n * n + 3 * n == q + c2) by (nonlinear_arith)
            requires
                n == k + 1,
                q == k * k + 3 * k,
                c2 == 2 * (n + 1),
        ;
        assert((q + c2) * u == q * u + c2 * u) by (nonlinear_arith);
    }
}

/// Law: after `n` scores the rate is `(n + 1) / (1 + sum of the scores)`, held
/// below 50. The error of the rate times one plus the sum is at most
/// `(50 n^2 + 214 n + 64) * 2^-54`.
pub proof fn law_rate_of_scores(scores: Seq<Binary64>)
    requires
        1 <= scores.len() < 0x1f_ffff_ffff_ffff,
        forall|i: int| 0 <= i < scores.len() ==> scoring::in_unit_range(#[trigger] scores[i]),
    ensures
        ({
            let n = scores.len() as int;
            let u = pow2(1074) as int;
            let rate = bayesian_laws::after_scores(scores).lambda.value();
            let whole = u + score_total(scores);
            let mean = ((n + 1) * u) * u;
            let most = (50 * u) * whole;
            let exact = if mean > most {
                most
            } else {
                mean
            };
            let bound = (50 * (n * n) + 214 * n + 64) * (u * u);
            &&& u <= rate <= 50 * u
            &&& -bound <= pow2(54) * (rate * whole - exact) <= bound
        }),
{
    let n = scores.len() as int;
    let u = pow2(1074) as int;
    let uu = u * u;
    let t = pow2(54) as int;
    let shorter = scores.drop_last();
    let score = scores[n - 1];
    assert forall|i: int| 0 <= i < shorter.len() implies scoring::in_unit_range(
        #[trigger] shorter[i],
    ) by {
        assert(scoring::in_unit_range(scores[i]));
    }
    assert(scoring::in_unit_range(score));
    law_posterior_of_scores(shorter);
    law_posterior_of_scores(scores);
    let before = bayesian_laws::after_scores(shorter);
    let state = bayesian_laws::after_scores(scores);
    assert(state == before.updated(score));
    bayesian_laws::law_posterior_stays_sound(before, score);
    bayesian_laws::law_constants();
    scoring_laws::law_constants();
    law_rate_is_the_posterior_mean(before, score);
    lemma_pow2_pos(54);
    let alpha = state.alpha.value();
    let beta = state.beta.value();
    let rate = state.lambda.value();
    let whole = u + score_total(scores);
    let mean = alpha * u;
    let most = (50 * u) * whole;
    let e = beta - whole;
    let q = n * n + 3 * n;
    let qu = q * u;
    let c = 50 * q;
    // What the rounding of `beta` does to the rate times `beta`.
    let te = t * e;
    let re = rate * te;
    assert(c * uu == 50 * (u * qu)) by (nonlinear_arith)
        requires
            c == 50 * q,
            qu == q * u,
            uu == u * u,
    ;
    assert(rate >= u) by {
        let raw = before.raw_mean(score);
        convert::lemma_units_order(LAMBDA_MIN as int, ONE as int);
    }
    assert(-(50 * (u * qu)) <= re <= 50 * (u * qu)) by (nonlinear_arith)
        requires
            re == rate * te,
            0 <= rate <= 50 * u,
            -qu <= te <= qu,
    ;
    let rb = rate * beta;
    let rw = rate * whole;
    assert(rate * (beta - whole) == rate * beta - rate * whole) by (nonlinear_arith);
    assert(t * (rate * e) == rate * (t * e)) by (nonlinear_arith);
    let bound = (50 * (n * n) + 214 * n + 64) * uu;
    let d = 64 * (n + 1);
    assert(50 * (n * n) + 214 * n + 64 == c + d) by (nonlinear_arith)
        requires
            c == 50 * (n * n + 3 * n),
            d == 64 * (n + 1),
    ;
    assert((c + d) * uu == c * uu + d * uu) by (nonlinear_arith);
    assert(d * uu >= 0 && c * uu >= 0) by (nonlinear_arith)
        requires
            d == 64 * (n + 1),
            c == 50 * (n * n + 3 * n),
            uu == u * u,
            n >= 1,
    ;
    assert(64 * (u * beta) <= d * uu) by {
        let top = (n + 1) * u;
        assert(u * beta <= u * top) by (nonlinear_arith)
            requires
                beta <= top,
                u > 0,
        ;
        assert(64 * (u * ((n + 1) * u)) == (64 * (n + 1)) * (u * u)) by (nonlinear_arith);
    }
    match LambdaState::warning_for(before.raw_mean(score)) {
        None => {
            let x = rb - mean;
            let y = rw - mean;
            assert(y == x - rate * e);
            let z = rate * e;
            assert(t * (x - z) == t * x - t * z) by (nonlinear_arith);
            assert(-bound <= t * y <= bound);
            if mean > most {
                // The rate is at most 50, so that the product is at most `most`.
                assert(rw <= most) by (nonlinear_arith)
                    requires
                        rw == rate * whole,
                        most == (50 * u) * whole,
                        rate <= 50 * u,
                        whole >= 0,
                ;
                let v = rw - most;
                assert(t * y <= t * v <= 0) by (nonlinear_arith)
                    requires
                        y <= v <= 0,
                        t > 0,
                ;
            }
        },
        Some(LambdaWarning::AboveMaximum { raw }) => {
            assert(rw == most);
            // The mean is not far below `most`.
            assert(mean > (50 * u) * beta) by (nonlinear_arith)
                requires
                    mean == alpha * u,
                    alpha > 50 * beta,
                    u > 0,
            ;
            assert(rb == (50 * u) * beta);
            if mean <= most {
                let v = rw - mean;
                let z = rate * e;
                assert(v < -z);
                assert(0 <= t * v && t * v <= t * (-z)) by (nonlinear_arith)
                    requires
                        0 <= v < -z,
                        t > 0,
                ;
                assert(t * (-z) == -(t * z)) by (nonlinear_arith);
            } else {
                assert(t * 0 == 0);
            }
        },
        Some(LambdaWarning::BelowMinimum { raw }) => {
            assert(false);
        },
    }
}

/// Law: the command for a session's next score carries what its posterior
/// gives. It is active, its rate in thousandths is off by less than one, and
/// its delay is `-ln_u` over the rate, in whole microseconds.
pub proof fn law_command_of_scores(
    scores: Seq<Binary64>,
    score: Binary64,
    ln_u: Binary64,
    dispatch: Dispatch,
)
    requires
        scores.len() + 1 < 0x1f_ffff_ffff_ffff,
        forall|i: int| 0 <= i < scores.len() ==> scoring::in_unit_range(#[trigger] scores[i]),
        scoring::in_unit_range(score),
        bayesian_laws::is_log_of_uniform(ln_u),
        dispatch.answers(bayesian_laws::after_scores(scores), score, ln_u),
    ensures
        ({
            let n = scores.len() + 1;
            let u = pow2(1074) as int;
            let rate = dispatch.lambda.value();
            let whole = u + score_total(scores) + score.value();
            let mean = ((n + 1) * u) * u;
            let most = (50 * u) * whole;
            let exact = if mean > most {
                most
            } else {
                mean
            };
            let bound = (50 * (n * n) + 214 * n + 64) * (u * u);
            let command = dispatch.command;
            let sample = 1_000_000 * -ln_u.value();
            &&& u <= rate <= 50 * u
            &&& -bound <= pow2(54) * (rate * whole - exact) <= bound
            &&& command.active == 1
            &&& 1000 * rate - u < command.lambda_scaled * u < 1000 * rate + u
            &&& 0x100_0000 * (command.delay_us * rate - sample) <= rate
            &&& 0x100_0000 * (sample - command.delay_us * rate) < 0x100_0001 * rate
            &&& command._pad[0] == 0 && command._pad[1] == 0 && command._pad[2] == 0
            &&& dispatch.warning is Some ==> rate == 50 * u && mean > most - bound
        }),
{
    let all = scores.push(score);
    assert(all.drop_last() =~= scores);
    assert forall|i: int| 0 <= i < all.len() implies scoring::in_unit_range(#[trigger] all[i]) by {
        if i < scores.len() {
            assert(scoring::in_unit_range(scores[i]));
        }
    }
    law_rate_of_scores(all);
    law_posterior_of_scores(scores);
    let before = bayesian_laws::after_scores(scores);
    bayesian_laws::law_posterior_stays_sound(before, score);
    law_rate_is_the_posterior_mean(before, score);
    bayesian_laws::law_scaled_rate(dispatch.lambda);
    bayesian_laws::law_delay_is_near_the_sample(dispatch.lambda, ln_u);
    assert(dispatch.command._pad@[0] == 0 && dispatch.command._pad@[1] == 0
        && dispatch.command._pad@[2] == 0);
    if dispatch.warning is Some {
        let n = scores.len() + 1;
        let u = pow2(1074) as int;
        let t = pow2(54) as int;
        let whole = u + score_total(scores) + score.value();
        let mean = ((n + 1) * u) * u;
        let most = (50 * u) * whole;
        let bound = (50 * (n * n) + 214 * n + 64) * (u * u);
        lemma2_to64_rest();
        assert(bound > 0) by (nonlinear_arith)
            requires
                bound == (50 * (n * n) + 214 * n + 64) * (u * u),
                n >= 1,
                u > 0,
        ;
        if mean <= most {
            let v = most - mean;
            assert(t * v <= bound);
            assert(v < bound) by (nonlinear_arith)
                requires
                    t * v <= bound,
                    t >= 2,
                    bound > 0,
            ;
        }
    }
}

/// Whether the dispatcher goes through `states` and does `actions` on scores.
pub open spec fn dispatcher_run(
    inputs: Seq<DispatcherInput>,
    states: Seq<Map<u64, LambdaState>>,
    actions: Seq<DispatcherAction>,
) -> bool {
    &&& states.len() > inputs.len()
    &&& actions.len() >= inputs.len()
    &&& states[0] == Map::<u64, LambdaState>::empty()
    &&& forall|i: int|
        #![trigger inputs[i]]
        0 <= i < inputs.len() ==> inputs[i] is Score && bayesian::turn(
            states[i],
            inputs[i],
            states[i + 1],
            actions[i],
        )
}

/// The scores of one session among the first `count` inputs.
pub open spec fn scores_among(
    inputs: Seq<DispatcherInput>,
    count: nat,
    pid_tgid: u64,
) -> Seq<Binary64>
    decreases count,
{
    if count == 0 {
        Seq::empty()
    } else {
        let before = scores_among(inputs, (count - 1) as nat, pid_tgid);
        match inputs[count - 1] {
            DispatcherInput::Score { pid_tgid: key, score, .. } => if key == pid_tgid {
                before.push(score.score())
            } else {
                before
            },
            _ => before,
        }
    }
}

/// Law: every score is answered with one command, under the key of its own
/// session, made from the scores of that session alone.
pub proof fn law_every_score_is_answered(
    inputs: Seq<DispatcherInput>,
    states: Seq<Map<u64, LambdaState>>,
    actions: Seq<DispatcherAction>,
    i: nat,
)
    requires
        dispatcher_run(inputs, states, actions),
        i < inputs.len(),
    ensures
        actions[i as int] is Write,
        actions[i as int]->Write_pid_tgid == inputs[i as int]->Score_pid_tgid,
        actions[i as int]->Write_dispatch.answers(
            bayesian_laws::after_scores(
                scores_among(inputs, i, inputs[i as int]->Score_pid_tgid),
            ),
            inputs[i as int]->Score_score.score(),
            inputs[i as int]->Score_ln_u,
        ),
{
    let input = inputs[i as int];
    lemma_posteriors(inputs, states, actions, i, input->Score_pid_tgid);
}

proof fn lemma_posteriors(
    inputs: Seq<DispatcherInput>,
    states: Seq<Map<u64, LambdaState>>,
    actions: Seq<DispatcherAction>,
    i: nat,
    pid_tgid: u64,
)
    requires
        dispatcher_run(inputs, states, actions),
        i <= inputs.len(),
    ensures
        bayesian::posterior_of(states[i as int], pid_tgid) == bayesian_laws::after_scores(
            scores_among(inputs, i, pid_tgid),
        ),
    decreases i,
{
    if i > 0 {
        let k = (i - 1) as nat;
        lemma_posteriors(inputs, states, actions, k, pid_tgid);
        let input = inputs[k as int];
        assert(bayesian::turn(states[k as int], input, states[i as int], actions[k as int]));
        let before = scores_among(inputs, k, pid_tgid);
        assert(before.push(input->Score_score.score()).drop_last() =~= before);
    }
}

/// Law: the dispatcher stops exactly where it is told to, with its posteriors
/// as they were.
pub proof fn law_dispatcher_stops(
    before: Map<u64, LambdaState>,
    input: DispatcherInput,
    after: Map<u64, LambdaState>,
    action: DispatcherAction,
)
    requires
        bayesian::turn(before, input, after, action),
    ensures
        action == (DispatcherAction::Stop { reason: TaskStop::Cancelled }) <==> input is Cancelled,
        action == (DispatcherAction::Stop { reason: TaskStop::ChannelClosed })
            <==> input is ChannelClosed,
        action is Stop ==> after == before,
{
}

/// What a drawn delay is made of, where the sample is at most `2^e` seconds.
proof fn lemma_sample(lambda: Binary64, ln_u: Binary64, e: nat)
    requires
        lambda.finite(),
        !lambda.negative(),
        lambda.value() > 0,
        ln_u.finite(),
        ln_u.value() <= 0,
        e <= 40,
        -ln_u.value() <= pow2(e) * lambda.value(),
    ensures
        ({
            let u = pow2(1074) as int;
            let l = lambda.value();
            let qu = Binary64::units(Binary64::rounded(-ln_u.value() * u, l));
            let mu = Binary64::units(Binary64::rounded(qu * (1_000_000 * u), u));
            &&& 0 <= qu <= pow2(1074 + e)
            &&& 0 <= mu <= pow2(1094 + e)
            &&& 0 <= mu / u <= u64::MAX
            &&& bayesian::exponential_micros(lambda, ln_u) == mu / u
        }),
{
    let u = pow2(1074) as int;
    let l = lambda.value();
    let a = -ln_u.value();
    bayesian_laws::law_constants();
    scoring_laws::law_constants();
    lemma_pow2_pos(1074);
    lemma_pow2_adds(1074, e);
    lemma_pow2_adds(20, 1074 + e);
    lemma2_to64();
    arith::lemma_units_zero(lambda.magnitude());
    arith::lemma_units_zero(ln_u.magnitude());
    arith::lemma_units_zero(0);
    laws::lemma_composed(!ln_u.negative(), ln_u.magnitude());
    let x = ln_u.negated();
    assert(Binary64::units(x.magnitude()) == a);
    let au = a * u;
    let top = pow2(1074 + e) as int;
    let limit = pow2(e) as int;
    assert(0 <= au <= top * l) by (nonlinear_arith)
        requires
            au == a * u,
            top == u * limit,
            0 <= a <= limit * l,
            u > 0,
    ;
    laws::law_quotient_error(x, lambda, 1074int + e);
    laws::law_rounding_error(au, l, 1074int + e);
    let q = x.over(lambda);
    laws::lemma_composed(x.negative(), Binary64::rounded(au, l));
    let qu = Binary64::units(q.magnitude());
    let million = Binary64 { bits: MICROS_PER_SECOND };
    let num = qu * (1_000_000 * u);
    let top2 = pow2(1094 + e) as int;
    assert(0 <= num <= top2 * u) by (nonlinear_arith)
        requires
            num == qu * (1_000_000 * u),
            0 <= qu <= top,
            top2 == 0x10_0000 * top,
            u > 0,
    ;
    laws::law_product_error(q, million, 1094int + e);
    laws::law_rounding_error(num, u, 1094int + e);
    let micros = q.times(million);
    laws::lemma_composed(micros.negative(), Binary64::rounded(num, u));
    let mu = Binary64::units(micros.magnitude());
    arith::lemma_units_zero(micros.magnitude());
    if x.negative() {
        // Only the logarithm zero has its sign set when it is negated.
        assert(a == 0 && au == 0) by (nonlinear_arith)
            requires
                au == a * u,
                a <= 0 <= a,
        ;
        laws::law_rounding_keeps_numbers(0, l);
        laws::law_rounding_keeps_numbers(0, u);
        assert(Binary64::units(0) * l == 0 && 0 * (1_000_000 * u) == 0 && Binary64::units(0) * u
            == 0) by (nonlinear_arith)
            requires
                Binary64::units(0) == 0,
        ;
        assert(micros.magnitude() == 0);
    }
    // The clamp leaves the sample as it is.
    let bound = laws::lemma_whole_magnitude(1, 1134);
    lemma_pow2_adds(60, 1074);
    if e < 40 {
        lemma_pow2_strictly_increases(1094 + e, 1134);
    }
    let max = u64::MAX as int;
    lemma2_to64_rest();
    assert(1 * pow2(1134) == pow2(1134));
    let mx = max * u;
    assert(mx >= pow2(60) * u) by (nonlinear_arith)
        requires
            mx == max * u,
            max >= pow2(60),
            u > 0,
    ;
    laws::lemma_words_are_finite(max);
    laws::lemma_rounded_bounds(mx, 1, bound);
    laws::lemma_nearest_exists(mx, 1);
    let cap = Binary64::of_integer(max);
    laws::lemma_composed(false, Binary64::rounded(mx, 1));
    convert::lemma_units_order(bound, cap.magnitude());
    assert(micros.clamped(Binary64 { bits: ZERO }, cap) == micros);
    assert(0 <= mu / u <= pow2(60)) by (nonlinear_arith)
        requires
            0 <= mu <= pow2(60) * u,
            u > 0,
    ;
    if micros.negative() {
        assert(mu / u == 0) by (nonlinear_arith)
            requires
                mu == 0,
                u > 0,
        ;
    }
}

/// Law: for any positive rate, a drawn delay is the exact sample, `-ln_u /
/// lambda` seconds, cut to whole microseconds. Where the sample is at most `2^e`
/// seconds, rounding adds at most `2^(e - 33)` microseconds either way.
pub proof fn law_delay_at_any_rate(lambda: Binary64, ln_u: Binary64, e: nat)
    requires
        lambda.finite(),
        !lambda.negative(),
        lambda.value() > 0,
        ln_u.finite(),
        ln_u.value() <= 0,
        e <= 40,
        -ln_u.value() <= pow2(e) * lambda.value(),
    ensures
        ({
            let delay = bayesian::exponential_micros(lambda, ln_u);
            let rate = lambda.value();
            let sample = 1_000_000 * -ln_u.value();
            &&& 0x2_0000_0000 * (delay * rate - sample) <= pow2(e) * rate
            &&& 0x2_0000_0000 * (sample - delay * rate) < (0x2_0000_0000 + pow2(e)) * rate
        }),
{
    let u = pow2(1074) as int;
    let l = lambda.value();
    let a = -ln_u.value();
    let k = pow2(e) as int;
    lemma_sample(lambda, ln_u, e);
    lemma_pow2_pos(1074);
    lemma_pow2_pos(e);
    lemma_pow2_adds(1074, e);
    lemma_pow2_adds(20, 1074 + e);
    lemma2_to64();
    lemma2_to64_rest();
    let t = pow2(54) as int;
    let ao = a * u;
    let ol = u * l;
    let kol = k * ol;
    let top = pow2(1074 + e) as int;
    assert(ol > 0 && kol > 0) by (nonlinear_arith)
        requires
            ol == u * l,
            kol == k * ol,
            u > 0,
            l > 0,
            k > 0,
    ;
    // The quotient, in seconds.
    assert(0 <= ao <= top * l) by (nonlinear_arith)
        requires
            ao == a * u,
            top == u * k,
            0 <= a <= k * l,
            u > 0,
    ;
    assert((u * k) * l == k * (u * l)) by (nonlinear_arith);
    laws::law_rounding_error(ao, l, 1074int + e);
    let qu = Binary64::units(Binary64::rounded(ao, l));
    let ql = qu * l;
    // The product, in microseconds.
    let qm = 1_000_000 * qu;
    let num = qu * (1_000_000 * u);
    assert(num == qm * u) by (nonlinear_arith)
        requires
            num == qu * (1_000_000 * u),
            qm == 1_000_000 * qu,
    ;
    let top2 = pow2(1094 + e) as int;
    assert(0 <= qm * u && qm * u <= top2 * u) by (nonlinear_arith)
        requires
            0 <= qm <= top2,
            u > 0,
    ;
    laws::law_rounding_error(num, u, 1094int + e);
    let mu = Binary64::units(Binary64::rounded(num, u));
    let dm = mu - qm;
    let tm = t * dm;
    assert(mu * u - num == dm * u) by (nonlinear_arith)
        requires
            num == qm * u,
            dm == mu - qm,
    ;
    assert(t * (dm * u) == (t * dm) * u) by (nonlinear_arith);
    assert(-top2 <= tm <= top2) by (nonlinear_arith)
        requires
            -(top2 * u) <= tm * u <= top2 * u,
            u > 0,
    ;
    let ku = k * u;
    assert(u * k == ku) by (nonlinear_arith)
        requires
            ku == k * u,
    ;
    assert(-ku <= 0x4_0000_0000 * dm <= ku);
    let dl = dm * l;
    assert(-(ku * l) <= 0x4_0000_0000 * dl <= ku * l) by (nonlinear_arith)
        requires
            dl == dm * l,
            -ku <= 0x4_0000_0000 * dm <= ku,
            l > 0,
    ;
    assert((k * u) * l == k * (u * l)) by (nonlinear_arith);
    let ml = mu * l;
    assert(ml == 1_000_000 * ql + dl) by (nonlinear_arith)
        requires
            ml == mu * l,
            ql == qu * l,
            dl == dm * l,
            dm == mu - 1_000_000 * qu,
    ;
    let sample = 1_000_000 * ao;
    assert(-kol <= 0x2_0000_0000 * (ml - sample) <= kol);
    // The cut to whole microseconds.
    let delay = mu / u;
    assert(delay * u <= mu < delay * u + u) by (nonlinear_arith)
        requires
            delay == mu / u,
            u > 0,
    ;
    let d = delay * l;
    let cut = delay * u;
    assert(cut * l <= ml && ml < cut * l + ol) by (nonlinear_arith)
        requires
            ml == mu * l,
            ol == u * l,
            cut <= mu < cut + u,
            l > 0,
    ;
    assert((delay * u) * l == (delay * l) * u) by (nonlinear_arith);
    let s = 1_000_000 * a;
    assert(1_000_000 * (a * u) == (1_000_000 * a) * u) by (nonlinear_arith);
    let f = d - s;
    assert((d - s) * u == d * u - s * u) by (nonlinear_arith);
    let x = 0x2_0000_0000 * f;
    let kl = k * l;
    let fu = f * u;
    assert(x * u == 0x2_0000_0000 * fu && kl * u == kol) by (nonlinear_arith)
        requires
            x == 0x2_0000_0000 * f,
            fu == f * u,
            kl == k * l,
            kol == k * (u * l),
    ;
    let y = 0x2_0000_0000 * l + kl;
    assert(y * u == 0x2_0000_0000 * ol + kol) by (nonlinear_arith)
        requires
            y == 0x2_0000_0000 * l + kl,
            kl * u == kol,
            ol == u * l,
    ;
    assert(x <= kl && -x < y) by (nonlinear_arith)
        requires
            x * u <= kl * u,
            -(x * u) < y * u,
            u > 0,
    ;
    assert((0x2_0000_0000 + k) * l == 0x2_0000_0000 * l + k * l) by (nonlinear_arith);
}

/// Law: a logarithm above zero, or that is no number, gives no delay; the
/// logarithm of zero gives the longest.
pub proof fn law_delay_of_other_logarithms(lambda: Binary64, ln_u: Binary64)
    requires
        lambda.finite(),
        !lambda.negative(),
        lambda.value() > 0,
    ensures
        ln_u.nan() ==> bayesian::exponential_micros(lambda, ln_u) == 0,
        !ln_u.nan() && ln_u.value() > 0 ==> bayesian::exponential_micros(lambda, ln_u) == 0,
        ln_u.infinite() && ln_u.negative() ==> bayesian::exponential_micros(lambda, ln_u)
            == u64::MAX,
{
    let u = pow2(1074) as int;
    bayesian_laws::law_constants();
    scoring_laws::law_constants();
    lemma_pow2_pos(1074);
    arith::lemma_units_zero(0);
    arith::lemma_units_zero(lambda.magnitude());
    arith::lemma_units_zero(ln_u.magnitude());
    let zero = Binary64 { bits: ZERO };
    let million = Binary64 { bits: MICROS_PER_SECOND };
    let max = u64::MAX as int;
    let cap = Binary64::of_integer(max);
    laws::lemma_words_are_finite(max);
    laws::law_integers_keep_order(0, max);
    let x = ln_u.negated();
    let q = x.over(lambda);
    let micros = q.times(million);
    arith::lemma_units_zero(million.magnitude());
    if !ln_u.nan() {
        laws::lemma_composed(!ln_u.negative(), ln_u.magnitude());
        let au = Binary64::units(x.magnitude()) * u;
        assert(au >= 0) by (nonlinear_arith)
            requires
                au == Binary64::units(x.magnitude()) * u,
                Binary64::units(x.magnitude()) >= 0,
                u > 0,
        ;
        laws::lemma_nearest_exists(au, lambda.value());
        laws::lemma_composed(x.negative(), Binary64::rounded(au, lambda.value()));
        laws::lemma_composed(x.negative(), INFINITE as int);
        arith::lemma_units_zero(q.magnitude());
        let qu = Binary64::units(q.magnitude());
        let num = qu * Binary64::units(million.magnitude());
        assert(num >= 0) by (nonlinear_arith)
            requires
                num == qu * Binary64::units(million.magnitude()),
                qu >= 0,
                Binary64::units(million.magnitude()) >= 0,
        ;
        laws::lemma_nearest_exists(num, u);
        laws::lemma_composed(x.negative(), Binary64::rounded(num, u));
        arith::lemma_units_zero(micros.magnitude());
    }
    if ln_u.infinite() && ln_u.negative() {
        assert(micros == Binary64::compose(false, INFINITE as int));
        convert::lemma_units_order(cap.magnitude(), INFINITE as int);
        assert(cap.less(micros));
        lemma_longest_delay();
    }
}

/// The number that stands for the longest delay is `2^64`.
proof fn lemma_longest_delay()
    ensures
        Binary64::of_integer(u64::MAX as int).value() == pow2(1138),
        Binary64::of_integer(u64::MAX as int).truncated(u64::MAX as int) == u64::MAX,
        Binary64::of_integer(u64::MAX as int).finite(),
{
    let u = pow2(1074) as int;
    let max = u64::MAX as int;
    let mx = max * u;
    lemma2_to64();
    lemma2_to64_rest();
    lemma_pow2_pos(1074);
    lemma_pow2_adds(64, 1074);
    let p = pow2(1138) as int;
    assert(mx == p - u && mx >= 0) by (nonlinear_arith)
        requires
            mx == max * u,
            max == 0xffff_ffff_ffff_ffff,
            p == 0x1_0000_0000_0000_0000 * u,
            u > 0,
    ;
    // The top of the binade, and the number just below it.
    let h = crate::binary64::value::HIDDEN_BIT as int;
    let top = 1086 * h + h;
    let g = pow2(1085) as int;
    lemma_pow2_adds(11, 1074);
    lemma_pow2_adds(1, 1085);
    lemma_pow2_adds(52, 1086);
    assert(g == 0x800 * u);
    crate::binary64::value::lemma_units_of_parts(1086, h);
    crate::binary64::value::lemma_units_of_parts(1085, 2 * h - 1);
    assert(top - 1 == 1085 * h + (2 * h - 1));
    crate::binary64::value::lemma_units_step(top);
    let low = Binary64::units(top - 1);
    assert((2 * h - 1) * g == p - g) by (nonlinear_arith)
        requires
            p == h * (2 * g),
    ;
    let mid1 = Binary64::midpoint(top - 1);
    let mid2 = Binary64::midpoint(top);
    assert(mid1 * 1 == mid1 && mid2 * 1 == mid2);
    assert(Binary64::nearest(mx, 1, top));
    crate::binary64::value::lemma_rounded(mx, 1, top);
    laws::lemma_composed(false, top);
    assert(p / u == 0x1_0000_0000_0000_0000) by (nonlinear_arith)
        requires
            p == 0x1_0000_0000_0000_0000 * u,
            u > 0,
    ;
}

} // verus!
