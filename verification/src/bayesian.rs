//! The Bayesian rate estimate per session, and the jitter commands drawn from
//! it.

use crate::binary64::Binary64;
use crate::events::JitterCommand;
use crate::scoring::{AnomalyScore, ONE, ZERO};
use crate::supervisor::TaskStop;
use rand::rngs::SmallRng;
use rand::Rng;
use std::collections::HashMap;
use vstd::prelude::*;

verus! {

/// Bit pattern of 0.1: the inclusive lower bound of the rate.
pub const LAMBDA_MIN: u64 = 0x3fb9_9999_9999_999a;

/// Bit pattern of 50.0: the inclusive upper bound of the rate.
pub const LAMBDA_MAX: u64 = 0x4049_0000_0000_0000;

/// Bit pattern of 1000.0: the scale of the rate in a command.
pub const LAMBDA_SCALE: u64 = 0x408f_4000_0000_0000;

/// Bit pattern of 1e6: microseconds in a second.
pub const MICROS_PER_SECOND: u64 = 0x412e_8480_0000_0000;

/// Bit pattern of two to the power -53: the distance between uniform samples.
pub const UNIFORM_STEP: u64 = 0x3ca0_0000_0000_0000;

/// Gamma-distributed posterior over a session's rate parameter.
///
/// An observation `x` takes `Gamma(alpha, beta)` to `Gamma(alpha + 1, beta +
/// x)`; the rate is the posterior mean `alpha / beta`, held inside
/// `[0.1, 50.0]`.
#[derive(Clone, Copy, Debug)]
pub struct LambdaState {
    pub lambda: Binary64,
    pub alpha: Binary64,
    pub beta: Binary64,
}

/// A posterior mean that had to be clamped.
#[derive(Clone, Copy, Debug)]
pub enum LambdaWarning {
    BelowMinimum { raw: Binary64 },
    AboveMaximum { raw: Binary64 },
}

impl LambdaState {
    /// The weakly informative prior: `Gamma(1, 1)`, rate 1.
    pub open spec fn prior() -> LambdaState {
        let one = Binary64 { bits: ONE };
        LambdaState { lambda: one, alpha: one, beta: one }
    }

    /// The posterior mean after an observation, before it is clamped.
    pub open spec fn raw_mean(self, observation: Binary64) -> Binary64 {
        self.alpha.plus(Binary64 { bits: ONE }).over(self.beta.plus(observation))
    }

    /// The posterior after an observation.
    pub open spec fn updated(self, observation: Binary64) -> LambdaState {
        LambdaState {
            lambda: self.raw_mean(observation).clamped(
                Binary64 { bits: LAMBDA_MIN },
                Binary64 { bits: LAMBDA_MAX },
            ),
            alpha: self.alpha.plus(Binary64 { bits: ONE }),
            beta: self.beta.plus(observation),
        }
    }

    /// The warning that is due for a posterior mean: exactly where clamping
    /// changes it.
    pub open spec fn warning_for(raw: Binary64) -> Option<LambdaWarning> {
        if raw.less(Binary64 { bits: LAMBDA_MIN }) {
            Some(LambdaWarning::BelowMinimum { raw })
        } else if (Binary64 { bits: LAMBDA_MAX }).less(raw) {
            Some(LambdaWarning::AboveMaximum { raw })
        } else {
            None
        }
    }

    pub fn new() -> (state: LambdaState)
        ensures
            state == LambdaState::prior(),
    {
        let one = Binary64 { bits: ONE };
        LambdaState { lambda: one, alpha: one, beta: one }
    }

    /// Posterior update from a score. The clamp is never silent: the warning
    /// that it owes is returned.
    pub fn update(&mut self, score: AnomalyScore) -> (warning: Option<LambdaWarning>)
        ensures
            *final(self) == old(self).updated(score.score()),
            warning == LambdaState::warning_for(old(self).raw_mean(score.score())),
    {
        let low = Binary64 { bits: LAMBDA_MIN };
        let high = Binary64 { bits: LAMBDA_MAX };
        self.alpha = self.alpha.sum(Binary64 { bits: ONE });
        self.beta = self.beta.sum(score.value());
        let raw = self.alpha.quotient(self.beta);
        let warning = if raw.lt(low) {
            Some(LambdaWarning::BelowMinimum { raw })
        } else if high.lt(raw) {
            Some(LambdaWarning::AboveMaximum { raw })
        } else {
            None
        };
        self.lambda = raw.clamp(low, high);
        warning
    }
}

impl Default for LambdaState {
    fn default() -> (state: Self)
        ensures
            state == LambdaState::prior(),
    {
        LambdaState::new()
    }
}

/// `rand::rngs::SmallRng`, the generator that jitter is drawn from.
#[verifier::external_type_specification]
#[verifier::external_body]
pub struct ExSmallRng(SmallRng);

/// Draws a word with `rand::Rng::gen::<u64>` from a `SmallRng`. Nothing is
/// claimed of the word: any is possible.
#[verifier::external_body]
fn random_word(rng: &mut SmallRng) -> (word: u64)
{
    rng.gen::<u64>()
}

/// The uniform number in `(0, 1]` that a random word stands for: one minus its
/// 53 leading bits as a fraction. That fraction is what the standard
/// distribution of `rand` makes of the word.
pub open spec fn uniform_of(word: u64) -> Binary64 {
    let leading = Binary64::of_integer((word / 2048) as int);
    (Binary64 { bits: ONE }).minus((Binary64 { bits: UNIFORM_STEP }).times(leading))
}

/// The uniform number in `(0, 1]` for a random word.
pub fn uniform_from_word(word: u64) -> (u: Binary64)
    ensures
        u == uniform_of(word),
{
    let leading = Binary64::from_u64(word / 2048);
    let fraction = Binary64 { bits: UNIFORM_STEP }.product(leading);
    Binary64 { bits: ONE }.difference(fraction)
}

/// Draws a uniform number in `(0, 1]`.
pub fn uniform_sample(rng: &mut SmallRng) -> (u: Binary64)
    ensures
        exists|word: u64| u == uniform_of(word),
{
    let word: u64 = random_word(rng);
    uniform_from_word(word)
}

/// The exponential sample, in whole microseconds, for the logarithm of a
/// uniform number.
pub open spec fn exponential_micros(lambda: Binary64, ln_u: Binary64) -> u64 {
    ln_u.negated().over(lambda).times(Binary64 { bits: MICROS_PER_SECOND }).clamped(
        Binary64 { bits: ZERO },
        Binary64::of_integer(u64::MAX as int),
    ).truncated(u64::MAX as int) as u64
}

/// One exponential sample with rate `lambda`, in microseconds, by inversion:
/// `ln_u` is the natural logarithm of a [`uniform_sample`].
pub fn jitter_sample(lambda: Binary64, ln_u: Binary64) -> (micros: u64)
    ensures
        micros == exponential_micros(lambda, ln_u),
{
    let micros = ln_u.negate().quotient(lambda).product(Binary64 { bits: MICROS_PER_SECOND });
    micros.clamp(Binary64 { bits: ZERO }, Binary64::from_u64(u64::MAX)).to_u64()
}

/// The rate in thousandths, as a command carries it.
pub open spec fn scaled_rate(lambda: Binary64) -> u32 {
    lambda.times(Binary64 { bits: LAMBDA_SCALE }).truncated(u32::MAX as int) as u32
}

/// A session's posterior; an unknown session has the prior.
pub open spec fn posterior_of(states: Map<u64, LambdaState>, key: u64) -> LambdaState {
    if states.contains_key(key) {
        states[key]
    } else {
        LambdaState::prior()
    }
}

/// What is dispatched for an anomalous session.
#[derive(Clone, Copy, Debug)]
pub struct Dispatch {
    /// To be written for the session's `pid_tgid`.
    pub command: JitterCommand,
    /// The rate that the command was drawn with.
    pub lambda: Binary64,
    /// To be logged, where the rate was clamped.
    pub warning: Option<LambdaWarning>,
}

impl Dispatch {
    /// Whether this is what a score calls for, in the posterior `before` it:
    /// an active command for the updated rate, zero-padded.
    pub open spec fn answers(self, before: LambdaState, score: Binary64, ln_u: Binary64) -> bool {
        let after = before.updated(score);
        &&& self.lambda == after.lambda
        &&& self.warning == LambdaState::warning_for(before.raw_mean(score))
        &&& self.command.delay_us == exponential_micros(after.lambda, ln_u)
        &&& self.command.lambda_scaled == scaled_rate(after.lambda)
        &&& self.command.active == 1
        &&& self.command._pad@ == seq![0u8, 0u8, 0u8]
    }
}

/// Updates a session's posterior with a score and makes its jitter command.
///
/// `ln_u` is the natural logarithm of a [`uniform_sample`].
pub fn dispatch(
    pid_tgid: u64,
    score: AnomalyScore,
    ln_u: Binary64,
    states: &mut HashMap<u64, LambdaState>,
) -> (r: Dispatch)
    ensures
        ({
            let before = posterior_of(old(states)@, pid_tgid);
            &&& final(states)@ == old(states)@.insert(pid_tgid, before.updated(score.score()))
            &&& r.answers(before, score.score(), ln_u)
        }),
{
    broadcast use vstd::std_specs::hash::group_hash_axioms;

    let mut state: LambdaState = match states.get(&pid_tgid) {
        Some(state) => *state,
        None => LambdaState::default(),
    };
    let warning = state.update(score);
    states.insert(pid_tgid, state);
    let lambda = state.lambda;
    let command = JitterCommand {
        delay_us: jitter_sample(lambda, ln_u),
        lambda_scaled: lambda.product(Binary64 { bits: LAMBDA_SCALE }).to_u32(),
        active: 1,
        _pad: [0; 3],
    };
    proof {
        assert(command._pad@ =~= seq![0u8, 0u8, 0u8]);
    }
    Dispatch { command, lambda, warning }
}

/// What the dispatcher is woken by.
#[derive(Clone, Copy)]
pub enum DispatcherInput {
    Cancelled,
    ChannelClosed,
    /// A score, and the logarithm of a [`uniform_sample`] drawn for it.
    Score { pid_tgid: u64, score: AnomalyScore, ln_u: Binary64 },
}

/// What the dispatcher does next.
#[derive(Clone, Copy)]
pub enum DispatcherAction {
    /// Leave the loop.
    Stop { reason: TaskStop },
    /// Write a command, and wait for the next score.
    Write { pid_tgid: u64, dispatch: Dispatch },
}

/// Whether a turn of the dispatcher's loop takes the posteriors `before` to
/// `after` and ends in `action`.
pub open spec fn turn(
    before: Map<u64, LambdaState>,
    input: DispatcherInput,
    after: Map<u64, LambdaState>,
    action: DispatcherAction,
) -> bool {
    match input {
        DispatcherInput::Cancelled => {
            &&& after == before
            &&& action == (DispatcherAction::Stop { reason: TaskStop::Cancelled })
        },
        DispatcherInput::ChannelClosed => {
            &&& after == before
            &&& action == (DispatcherAction::Stop { reason: TaskStop::ChannelClosed })
        },
        DispatcherInput::Score { pid_tgid, score, ln_u } => {
            let posterior = posterior_of(before, pid_tgid);
            &&& after == before.insert(pid_tgid, posterior.updated(score.score()))
            &&& action matches DispatcherAction::Write { pid_tgid: key, dispatch }
            &&& key == pid_tgid
            &&& dispatch.answers(posterior, score.score(), ln_u)
        },
    }
}

/// One turn of the dispatcher's loop.
pub fn run_step(
    input: DispatcherInput,
    states: &mut HashMap<u64, LambdaState>,
) -> (action: DispatcherAction)
    ensures
        turn(old(states)@, input, final(states)@, action),
{
    match input {
        DispatcherInput::Cancelled => DispatcherAction::Stop { reason: TaskStop::Cancelled },
        DispatcherInput::ChannelClosed => DispatcherAction::Stop {
            reason: TaskStop::ChannelClosed,
        },
        DispatcherInput::Score { pid_tgid, score, ln_u } => DispatcherAction::Write {
            pid_tgid,
            dispatch: dispatch(pid_tgid, score, ln_u, states),
        },
    }
}

} // verus!
