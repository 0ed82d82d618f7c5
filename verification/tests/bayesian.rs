use ghost_hunter::bayesian::{
    dispatch, jitter_sample, run_step, uniform_from_word, uniform_sample, DispatcherAction,
    DispatcherInput, LambdaState, LambdaWarning, LAMBDA_MAX, LAMBDA_MIN, LAMBDA_SCALE,
    MICROS_PER_SECOND, UNIFORM_STEP,
};
use ghost_hunter::binary64::Binary64;
use ghost_hunter::scoring::AnomalyScore;
use ghost_hunter::supervisor::TaskStop;
use rand::rngs::SmallRng;
use rand::{Rng, SeedableRng};
use std::collections::HashMap;

fn bits_of(x: f64) -> Binary64 {
    Binary64 { bits: x.to_bits() }
}

fn float(x: Binary64) -> f64 {
    f64::from_bits(x.bits)
}

fn anomaly(value: f64) -> AnomalyScore {
    match AnomalyScore::new(bits_of(value)) {
        Ok(score) => score,
        Err(e) => panic!("rejected: {:?}", e),
    }
}

fn micros(lambda: f64, ln_u: f64) -> u64 {
    let micros = (-ln_u / lambda) * 1_000_000.0;
    micros.clamp(0.0, u64::MAX as f64) as u64
}

#[test]
fn rate_constants_are_the_numbers_they_stand_for() {
    assert_eq!(LAMBDA_MIN, 0.1f64.to_bits());
    assert_eq!(LAMBDA_MAX, 50.0f64.to_bits());
    assert_eq!(LAMBDA_SCALE, 1000.0f64.to_bits());
    assert_eq!(MICROS_PER_SECOND, 1e6f64.to_bits());
    assert_eq!(UNIFORM_STEP, (1.0 / 9007199254740992.0f64).to_bits());
}

#[test]
fn prior_is_weakly_informative() {
    for state in [LambdaState::new(), LambdaState::default()] {
        assert_eq!(float(state.lambda), 1.0);
        assert_eq!(float(state.alpha), 1.0);
        assert_eq!(float(state.beta), 1.0);
    }
}

#[test]
fn update_takes_the_posterior_mean() {
    let mut state = LambdaState::new();
    assert!(state.update(anomaly(0.72)).is_none());
    assert_eq!(float(state.alpha), 2.0);
    assert_eq!(float(state.beta), 1.72);
    assert_eq!(float(state.lambda), 2.0 / 1.72);
    assert!(state.update(anomaly(1.0)).is_none());
    assert_eq!(float(state.beta), 1.72 + 1.0);
    assert_eq!(float(state.lambda), 3.0 / (1.72 + 1.0));
}

#[test]
fn updates_agree_with_hardware() {
    let mut state = LambdaState::new();
    let (mut alpha, mut beta) = (1.0f64, 1.0f64);
    for i in 0..500u32 {
        let score = (i % 29) as f64 / 28.0;
        let warning = state.update(anomaly(score));
        alpha += 1.0;
        beta += score;
        assert_eq!(state.alpha.bits, alpha.to_bits());
        assert_eq!(state.beta.bits, beta.to_bits());
        assert_eq!(state.lambda.bits, (alpha / beta).clamp(0.1, 50.0).to_bits());
        assert!(warning.is_none());
    }
    assert_eq!(float(state.alpha), 501.0);
}

#[test]
fn low_mean_is_raised_with_a_warning() {
    let mut state =
        LambdaState { lambda: bits_of(1.0), alpha: bits_of(1.0), beta: bits_of(99.5) };
    match state.update(anomaly(0.5)) {
        Some(LambdaWarning::BelowMinimum { raw }) => assert_eq!(float(raw), 0.02),
        other => panic!("{:?}", other),
    }
    assert_eq!(float(state.lambda), 0.1);
}

#[test]
fn high_mean_is_lowered_with_a_warning() {
    let mut state =
        LambdaState { lambda: bits_of(1.0), alpha: bits_of(99.0), beta: bits_of(0.5) };
    match state.update(anomaly(0.5)) {
        Some(LambdaWarning::AboveMaximum { raw }) => assert_eq!(float(raw), 100.0),
        other => panic!("{:?}", other),
    }
    assert_eq!(float(state.lambda), 50.0);
}

#[test]
fn bounds_themselves_give_no_warning() {
    let mut state =
        LambdaState { lambda: bits_of(1.0), alpha: bits_of(49.0), beta: bits_of(1.0) };
    assert!(state.update(anomaly(0.0)).is_none());
    assert_eq!(float(state.lambda), 50.0);
    let mut state =
        LambdaState { lambda: bits_of(1.0), alpha: bits_of(0.0), beta: bits_of(9.0) };
    assert!(state.update(anomaly(1.0)).is_none());
    assert_eq!(float(state.lambda), 0.1);
}

#[test]
fn uniform_numbers_lie_above_zero() {
    assert_eq!(float(uniform_from_word(0)), 1.0);
    assert_eq!(float(uniform_from_word(2047)), 1.0);
    assert_eq!(uniform_from_word(u64::MAX).bits, UNIFORM_STEP);
    assert_eq!(float(uniform_from_word(1 << 63)), 0.5);
    assert_eq!(float(uniform_from_word(3 << 62)), 0.25);
}

#[test]
fn uniform_samples_are_those_of_the_generator() {
    let mut ours = SmallRng::seed_from_u64(42);
    let mut theirs = SmallRng::seed_from_u64(42);
    let mut distinct = 0;
    let mut last = 0u64;
    for _ in 0..1000 {
        let u = uniform_sample(&mut ours);
        let expected: f64 = 1.0 - theirs.gen::<f64>();
        assert_eq!(u.bits, expected.to_bits());
        assert!(float(u) > 0.0 && float(u) <= 1.0);
        if u.bits != last {
            distinct += 1;
        }
        last = u.bits;
    }
    assert_eq!(distinct, 1000);
}

#[test]
fn delays_of_known_samples() {
    assert_eq!(jitter_sample(bits_of(1.0), bits_of(-1.0)), 1_000_000);
    assert_eq!(jitter_sample(bits_of(4.0), bits_of(-0.5)), 125_000);
    assert_eq!(jitter_sample(bits_of(0.1), bits_of(-36.0)), 360_000_000);
    // The logarithm of one.
    assert_eq!(jitter_sample(bits_of(2.0), bits_of(0.0)), 0);
    // Outside of what a uniform number gives.
    assert_eq!(jitter_sample(bits_of(1.0), bits_of(3.0)), 0);
    assert_eq!(jitter_sample(bits_of(1.0), bits_of(f64::NEG_INFINITY)), u64::MAX);
    assert_eq!(jitter_sample(bits_of(1.0), bits_of(f64::NAN)), 0);
}

#[test]
fn delays_agree_with_hardware_and_are_bounded() {
    let mut rng = SmallRng::seed_from_u64(7);
    for i in 0..1000u32 {
        let ln_u = float(uniform_sample(&mut rng)).ln();
        let lambda = 0.1 + (i as f64) * 0.0499;
        let delay = jitter_sample(bits_of(lambda), bits_of(ln_u));
        assert_eq!(delay, micros(lambda, ln_u));
        assert!(delay <= 370_000_000);
    }
    let longest = float(uniform_from_word(u64::MAX)).ln();
    assert_eq!(jitter_sample(bits_of(0.1), bits_of(longest)), micros(0.1, longest));
    assert!(micros(0.1, longest) <= 370_000_000);
}

#[test]
fn delays_are_the_samples_in_whole_microseconds() {
    // Rates and logarithms in thousandths, so that the exact sample is a ratio
    // of integers: 10^6 * ln / rate.
    for rate in [125u64, 500, 1_000, 3_000, 7_000, 48_125] {
        for ln in [0u64, 1, 250, 693, 1_000, 12_345, 36_000] {
            let delay =
                jitter_sample(bits_of(rate as f64 / 1e3), bits_of(-(ln as f64) / 1e3));
            let whole = ln * 1_000_000 / rate;
            assert!(delay == whole || delay + 1 == whole || delay == whole + 1);
            if ln * 1_000_000 % rate != 0 {
                assert_eq!(delay, whole);
            }
        }
    }
}

#[test]
fn delays_shrink_with_the_rate_and_grow_with_rarity() {
    let mut last = u64::MAX;
    for i in 1..=500u32 {
        let delay = jitter_sample(bits_of(i as f64 / 10.0), bits_of(-0.7));
        assert!(delay <= last);
        last = delay;
    }
    let mut last = 0;
    for i in 0..=370u32 {
        let delay = jitter_sample(bits_of(1.5), bits_of(-(i as f64) / 10.0));
        assert!(delay >= last);
        last = delay;
    }
}

#[test]
fn dispatch_makes_an_active_command() {
    let mut states = HashMap::new();
    let ln_u = -0.693;
    let made = dispatch(12, anomaly(0.75), bits_of(ln_u), &mut states);
    let lambda = 2.0 / 1.75;
    assert_eq!(float(made.lambda), lambda);
    assert!(made.warning.is_none());
    assert_eq!(made.command.delay_us, micros(lambda, ln_u));
    assert_eq!(made.command.lambda_scaled, (lambda * 1000.0) as u32);
    assert_eq!(made.command.lambda_scaled, 1142);
    assert_eq!(made.command.active, 1);
    assert_eq!(made.command._pad, [0; 3]);
    assert_eq!(states.len(), 1);
    assert_eq!(float(states[&12].alpha), 2.0);
}

#[test]
fn rate_of_quiet_scores_is_capped() {
    let mut states = HashMap::new();
    for i in 1..=60u32 {
        let made = dispatch(3, anomaly(0.0), bits_of(-1.0), &mut states);
        let raw = (i + 1) as f64;
        assert_eq!(float(made.lambda), raw.min(50.0));
        assert_eq!(made.command.lambda_scaled, (raw.min(50.0) * 1000.0) as u32);
        assert_eq!(made.warning.is_some(), raw > 50.0);
        assert_eq!(made.command.delay_us, micros(raw.min(50.0), -1.0));
    }
}

#[test]
fn posteriors_do_not_affect_each_other() {
    let mut states = HashMap::new();
    for i in 0..10u32 {
        dispatch(1, anomaly(0.8), bits_of(-0.5), &mut states);
        if i % 2 == 0 {
            dispatch(2, anomaly(1.0), bits_of(-0.5), &mut states);
        }
    }
    assert_eq!(float(states[&1].alpha), 11.0);
    assert_eq!(float(states[&2].alpha), 6.0);
    assert_eq!(float(states[&2].beta), 6.0);
    assert_eq!(float(states[&2].lambda), 1.0);
}

#[test]
fn dispatcher_writes_for_the_session_of_the_score() {
    let mut states = HashMap::new();
    let input =
        DispatcherInput::Score { pid_tgid: 99, score: anomaly(0.9), ln_u: bits_of(-2.0) };
    match run_step(input, &mut states) {
        DispatcherAction::Write { pid_tgid, dispatch } => {
            assert_eq!(pid_tgid, 99);
            assert_eq!(dispatch.command.delay_us, micros(2.0 / 1.9, -2.0));
        }
        _ => panic!("nothing written"),
    }
    assert!(states.contains_key(&99));
}

#[test]
fn dispatcher_stops_when_it_is_told() {
    let mut states = HashMap::new();
    let action = run_step(DispatcherInput::Cancelled, &mut states);
    assert!(matches!(action, DispatcherAction::Stop { reason: TaskStop::Cancelled }));
    let action = run_step(DispatcherInput::ChannelClosed, &mut states);
    assert!(matches!(action, DispatcherAction::Stop { reason: TaskStop::ChannelClosed }));
    assert!(states.is_empty());
}
