use ghost_hunter::binary64::Binary64;
use ghost_hunter::events::TtyEvent;
use ghost_hunter::scoring::{
    bin_share, entropy_score, histogram, process_event, run_step, synthetic_window, AnomalyScore,
    ScoreError, ScoringAction, ScoringInput, SessionMap, Verdict, WelfordState, ANOMALY_THRESHOLD,
    BIN_WIDTH_NS, ENTROPY_BINS, ENTROPY_RANGE_NS, MAX_ENTROPY, REFERENCE_VARIANCE,
};
use ghost_hunter::supervisor::TaskStop;
use ghost_hunter::window::{DeltaWindow, WINDOW_LEN};

fn pattern(x: f64) -> Binary64 {
    Binary64 { bits: x.to_bits() }
}

fn number(x: Binary64) -> f64 {
    f64::from_bits(x.bits)
}

/// The logarithms of the shares of `total`.
fn logarithms(total: u64) -> Vec<Binary64> {
    (0..=total).map(|c| pattern((c as f64 / total as f64).log2())).collect()
}

fn table() -> [Binary64; 17] {
    let mut table = [pattern(0.0); 17];
    table.copy_from_slice(&logarithms(16));
    table
}

fn tty_event(pid_tgid: u64, timestamp_ns: u64) -> TtyEvent {
    TtyEvent {
        timestamp_ns,
        pid_tgid,
        uid_gid: 0,
        fd: 1,
        byte_count: 1,
        kind_raw: 1,
        comm: [0; 16],
        _pad: [0; 12],
    }
}

/// The statistics in hardware arithmetic.
#[derive(Clone, Copy)]
struct Plain {
    n: u64,
    mean: f64,
    m2: f64,
}

impl Plain {
    fn update(&mut self, delta_ns: u64) {
        self.n += 1;
        let x = delta_ns as f64;
        let delta = x - self.mean;
        self.mean += delta / self.n as f64;
        let delta2 = x - self.mean;
        self.m2 += delta * delta2;
    }

    fn variance(&self) -> f64 {
        if self.n == 0 {
            0.0
        } else {
            self.m2 / self.n as f64
        }
    }

    fn window(&self, current: u64) -> [u64; 16] {
        let mean = self.mean.max(0.0) as u64;
        let sigma = self.variance().sqrt().max(0.0) as u64;
        let mut window = [0u64; 16];
        for (i, item) in window.iter_mut().enumerate().take(15) {
            let offset = (i as i64 - 7).wrapping_mul(sigma as i64) / 2;
            *item = (mean as i64).wrapping_add(offset).max(0) as u64;
        }
        window[15] = current;
        window
    }

    /// The score for the deltas so far, of which the last sixteen count for the
    /// entropy.
    fn score(&self, deltas: &[u64]) -> f64 {
        let variance = (self.variance() / (500_000.0 * 500_000.0)).clamp(0.0, 1.0);
        let entropy = plain_entropy(&deltas[deltas.len().saturating_sub(16)..]);
        (0.5 * variance + 0.5 * entropy).clamp(0.0, 1.0)
    }
}

fn plain_entropy(window: &[u64]) -> f64 {
    if window.is_empty() {
        return 0.0;
    }
    let mut counts = [0u32; 16];
    for &delta in window {
        counts[((delta / 62_500) as usize).min(15)] += 1;
    }
    let total = window.len() as f64;
    let mut h = 0.0f64;
    for &c in &counts {
        if c > 0 {
            let p = c as f64 / total;
            h -= p * p.log2();
        }
    }
    (h / 16f64.log2()).clamp(0.0, 1.0)
}

fn matches_plain(state: &WelfordState, plain: &Plain) {
    assert_eq!(state.n, plain.n);
    assert_eq!(state.mean.bits, plain.mean.to_bits());
    assert_eq!(state.m2.bits, plain.m2.to_bits());
}

/// Deltas of many sizes, the same on every run.
fn deltas(count: usize) -> Vec<u64> {
    let mut x: u64 = 0x9e37_79b9_7f4a_7c15;
    let mut out = Vec::new();
    for i in 0..count {
        x ^= x << 13;
        x ^= x >> 7;
        x ^= x << 17;
        out.push(x >> (20 + i % 40));
    }
    out
}

#[test]
fn constants_are_the_numbers_they_stand_for() {
    assert_eq!(ANOMALY_THRESHOLD, 0.72f64.to_bits());
    assert_eq!(MAX_ENTROPY, 16f64.log2().to_bits());
    assert_eq!(REFERENCE_VARIANCE, (500_000.0f64 * 500_000.0).to_bits());
    assert_eq!(ENTROPY_BINS, 16);
    assert_eq!(BIN_WIDTH_NS, ENTROPY_RANGE_NS / ENTROPY_BINS as u64);
}

#[test]
fn welford_updates_agree_with_hardware() {
    let mut state = WelfordState::default();
    let mut plain = Plain { n: 0, mean: 0.0, m2: 0.0 };
    for delta in deltas(300) {
        state.update(delta);
        plain.update(delta);
        matches_plain(&state, &plain);
        assert_eq!(state.variance().bits, plain.variance().to_bits());
    }
}

#[test]
fn welford_of_three_samples() {
    let mut state = WelfordState::default();
    for delta in [2u64, 4, 9] {
        state.update(delta);
    }
    assert_eq!(state.n, 3);
    assert_eq!(number(state.mean), 5.0);
    assert_eq!(number(state.m2), 26.0);
    assert_eq!(number(state.variance()), 26.0 / 3.0);
    assert_eq!(state.last_timestamp_ns, 0);
}

#[test]
fn mean_lies_among_the_deltas() {
    let mut state = WelfordState::default();
    let (mut low, mut high) = (u64::MAX, 0);
    for delta in deltas(300) {
        state.update(delta);
        low = low.min(delta);
        high = high.max(delta);
        assert!(low as f64 <= number(state.mean) && number(state.mean) <= high as f64);
    }
}

#[test]
fn variance_is_zero_without_samples() {
    let state = WelfordState { m2: pattern(5.0), ..WelfordState::default() };
    assert_eq!(state.variance().bits, 0);
}

#[test]
fn sample_count_wraps_around() {
    let mut state = WelfordState { n: u64::MAX, ..WelfordState::default() };
    state.update(0);
    assert_eq!(state.n, 0);
    // Zero over zero samples.
    assert!(state.mean.is_nan());
}

#[test]
fn scores_lie_between_zero_and_one() {
    for value in [0.0, -0.0, 0.25, 0.72, 1.0, f64::MIN_POSITIVE] {
        match AnomalyScore::new(pattern(value)) {
            Ok(score) => assert_eq!(score.value().bits, value.to_bits()),
            Err(e) => panic!("rejected: {:?}", e),
        }
    }
    for value in [-0.1, 1.0000000000000002, 2.0, f64::INFINITY, f64::NEG_INFINITY, f64::NAN] {
        match AnomalyScore::new(pattern(value)) {
            Ok(_) => panic!("accepted: {}", value),
            Err(ScoreError::OutOfRange { value: rejected }) => {
                assert_eq!(rejected.bits, value.to_bits())
            }
        }
    }
}

#[test]
fn histogram_counts_every_delta() {
    let counters = histogram(&[0, 62_499, 62_500, 999_999, 1_000_000, u64::MAX, 500_000]);
    let mut expected = [0u32; 16];
    expected[0] = 2;
    expected[1] = 1;
    expected[8] = 1;
    expected[15] = 3;
    assert_eq!(counters, expected);
    let window = deltas(200);
    assert_eq!(histogram(&window).iter().sum::<u32>(), 200);
    assert_eq!(histogram(&[]), [0; 16]);
}

#[test]
fn shares_are_quotients() {
    assert_eq!(number(bin_share(1, 16)), 0.0625);
    assert_eq!(number(bin_share(1, 3)), 1.0 / 3.0);
    assert_eq!(number(bin_share(0, 16)), 0.0);
}

#[test]
fn entropy_of_known_windows() {
    assert_eq!(entropy_score(&[], &logarithms(1)).bits, 0);
    assert_eq!(number(entropy_score(&[70_000], &logarithms(1))), 0.0);
    let even: Vec<u64> = (0..16).map(|i| i * 62_500).collect();
    assert_eq!(number(entropy_score(&even, &logarithms(16))), 1.0);
    assert_eq!(number(entropy_score(&[0, 500_000], &logarithms(2))), 0.25);
    assert_eq!(number(entropy_score(&[0, 62_500, 125_000, 187_500], &logarithms(4))), 0.5);
}

#[test]
fn entropy_agrees_with_hardware() {
    for count in [1usize, 2, 3, 7, 16, 33, 100] {
        let window = deltas(count);
        let ours = entropy_score(&window, &logarithms(count as u64));
        assert_eq!(ours.bits, plain_entropy(&window).to_bits());
        assert!(number(ours) >= 0.0 && number(ours) <= 1.0);
    }
}

#[test]
fn predicted_window_spreads_around_the_mean() {
    // Mean 1000, standard deviation 100.
    let state = WelfordState {
        n: 4,
        mean: pattern(1000.0),
        m2: pattern(40_000.0),
        last_timestamp_ns: 1,
    };
    assert_eq!(
        synthetic_window(&state, 5),
        [
            650, 700, 750, 800, 850, 900, 950, 1000, 1050, 1100, 1150, 1200, 1250, 1300, 1350, 5
        ]
    );
    // Odd products are halved towards zero, and nothing falls below zero.
    let state = WelfordState { m2: pattern(4.0 * 9.0), mean: pattern(4.0), ..state };
    assert_eq!(
        synthetic_window(&state, 9),
        [0, 0, 0, 0, 0, 1, 3, 4, 5, 7, 8, 10, 11, 13, 14, 9]
    );
}

#[test]
fn predicted_window_agrees_with_hardware() {
    for (mean, m2) in [
        (0.0, 0.0),
        (1e6, 1e13),
        (-5.0, 3.0),
        (1e19, 1e38),
        (1.9e19, 7e37),
        (f64::NAN, f64::NAN),
        (f64::INFINITY, f64::INFINITY),
        (123456.789, -1.0),
        (0.5, 1e300),
    ] {
        let state =
            WelfordState { n: 3, mean: pattern(mean), m2: pattern(m2), last_timestamp_ns: 0 };
        let plain = Plain { n: 3, mean, m2 };
        assert_eq!(synthetic_window(&state, 42), plain.window(42));
    }
}

#[test]
fn session_warms_up_before_it_is_scored() {
    let mut sessions = SessionMap::new();
    for i in 0..40u64 {
        let event = tty_event(9, 1_000 + i * 300_000);
        let verdict = process_event(&event, &mut sessions, &table());
        match (i, verdict) {
            (0, Ok(Verdict::FirstEvent)) => {}
            (1..=15, Ok(Verdict::WarmingUp)) => {}
            (16..=39, Ok(Verdict::Normal { .. })) => {}
            (i, v) => panic!("event {}: {:?}", i, v),
        }
        assert_eq!(sessions[&9].stats.n, i);
        assert_eq!(sessions[&9].stats.last_timestamp_ns, 1_000 + i * 300_000);
    }
}

#[test]
fn regular_session_scores_zero() {
    let mut sessions = SessionMap::new();
    let mut scored = 0;
    for i in 0..100u64 {
        let event = tty_event(9, 7 + i * 250_000);
        if let Ok(Verdict::Normal { score }) = process_event(&event, &mut sessions, &table()) {
            assert_eq!(number(score.value()), 0.0);
            scored += 1;
        }
    }
    assert_eq!(scored, 84);
    assert_eq!(number(sessions[&9].stats.variance()), 0.0);
    assert_eq!(number(sessions[&9].stats.mean), 250_000.0);
}

#[test]
fn scores_agree_with_hardware() {
    let mut sessions = SessionMap::new();
    let mut plain = Plain { n: 0, mean: 0.0, m2: 0.0 };
    let mut seen: Vec<u64> = Vec::new();
    let mut time: u64 = 1;
    process_event(&tty_event(5, time), &mut sessions, &table()).unwrap();
    for (i, raw) in deltas(200).iter().enumerate() {
        let delta = raw % 2_000_000;
        time += delta;
        let verdict = process_event(&tty_event(5, time), &mut sessions, &table());
        plain.update(delta);
        seen.push(delta);
        matches_plain(&sessions[&5].stats, &plain);
        assert_eq!(sessions[&5].window.as_slice(), &seen[seen.len().saturating_sub(16)..]);
        if i < 15 {
            assert!(matches!(verdict, Ok(Verdict::WarmingUp)));
            continue;
        }
        let expected = plain.score(&seen);
        match verdict {
            Ok(Verdict::Normal { score }) => {
                assert_eq!(score.value().bits, expected.to_bits());
                assert!(expected < 0.72);
            }
            Ok(Verdict::Anomalous { score }) => {
                assert_eq!(score.value().bits, expected.to_bits());
                assert!(expected >= 0.72);
            }
            other => panic!("{:?}", other),
        }
    }
}

/// Feeds a session with deltas and gives what the last event leads to.
fn last_action(deltas: &[u64], sessions: &mut SessionMap) -> ScoringAction {
    let mut time: u64 = 1;
    let event = tty_event(31, time);
    let mut last = run_step(ScoringInput::Event { event }, sessions, &table());
    for (i, delta) in deltas.iter().enumerate() {
        time += delta;
        let event = tty_event(31, time);
        last = run_step(ScoringInput::Event { event }, sessions, &table());
        if i < 15 {
            assert!(matches!(last, ScoringAction::Wait { .. }));
        }
    }
    last
}

#[test]
fn anomalous_session_is_sent_on() {
    // Sixteen deltas over nine bins, eight of them in the last: 2.5 bits of
    // four, and a variance above the reference.
    let spread: Vec<u64> = (0..16).map(|i| i * 125_000).collect();
    match last_action(&spread, &mut SessionMap::new()) {
        ScoringAction::Send { pid_tgid, score } => {
            assert_eq!(pid_tgid, 31);
            assert_eq!(number(score.value()), 0.8125);
        }
        _ => panic!("not sent"),
    }
}

#[test]
fn fifteen_deltas_are_not_scored() {
    let spread: Vec<u64> = (0..15).map(|i| i * 125_000).collect();
    let action = last_action(&spread, &mut SessionMap::new());
    assert!(matches!(action, ScoringAction::Wait { verdict: Verdict::WarmingUp }));
}

#[test]
fn entropy_is_that_of_the_observed_deltas() {
    // One late delta: the variance is at the reference, the window nearly even.
    let mut deltas = vec![750_000u64; 16];
    deltas.push(2_875_000);
    let mut sessions = SessionMap::new();
    let action = last_action(&deltas, &mut sessions);
    let mut plain = Plain { n: 0, mean: 0.0, m2: 0.0 };
    for &delta in &deltas {
        plain.update(delta);
    }
    match action {
        ScoringAction::Wait { verdict: Verdict::Normal { score } } => {
            assert_eq!(score.value().bits, plain.score(&deltas).to_bits());
            assert!(number(score.value()) > 0.54 && number(score.value()) < 0.55);
        }
        _ => panic!("not scored as normal"),
    }
    let mut window = vec![750_000u64; 15];
    window.push(2_875_000);
    assert_eq!(sessions[&31].window.as_slice(), window.as_slice());
}

#[test]
fn window_slides() {
    let mut window = DeltaWindow::new();
    assert!(window.as_slice().is_empty());
    let mut all: Vec<u64> = Vec::new();
    for delta in deltas(50) {
        window.push(delta);
        all.push(delta);
        assert_eq!(window.as_slice(), &all[all.len().saturating_sub(WINDOW_LEN)..]);
    }
    assert_eq!(WINDOW_LEN, ENTROPY_BINS);
}

#[test]
fn entropy_depends_on_the_histogram_alone() {
    let window = deltas(40);
    let mut turned = window.clone();
    turned.reverse();
    let score = entropy_score(&window, &logarithms(40));
    assert_eq!(entropy_score(&turned, &logarithms(40)).bits, score.bits);
    let mut twice = window.clone();
    twice.extend_from_slice(&window);
    assert_eq!(entropy_score(&twice, &logarithms(80)).bits, score.bits);
}

#[test]
fn statistics_are_those_of_the_deltas() {
    let mut state = WelfordState::default();
    let samples = deltas(400);
    for &delta in &samples {
        state.update(delta % 1_000_000_000);
    }
    let n = samples.len() as f64;
    let sum: u128 = samples.iter().map(|d| (d % 1_000_000_000) as u128).sum();
    let squares: u128 = samples.iter().map(|d| ((d % 1_000_000_000) as u128).pow(2)).sum();
    let average = sum as f64 / n;
    // (2 * 400 + 4) * 2^(30 - 54) nanoseconds.
    assert!((number(state.mean) - average).abs() <= 804.0 / 16_777_216.0);
    let exact = (400 * squares - sum * sum) as f64 / n;
    // (3 * 400^2 + 12 * 400) * 2^(2 * 30 - 54) square nanoseconds.
    assert!((number(state.m2) - exact).abs() <= 484_800.0 * 64.0);
    assert!((number(state.m2) - exact).abs() <= exact * 1e-12);
}

#[test]
fn short_sessions_send_nothing() {
    let mut sessions = SessionMap::new();
    for i in 0..16u64 {
        for key in 0..5u64 {
            let event = tty_event(key, 1 + key + i * i * 90_000);
            let action = run_step(ScoringInput::Event { event }, &mut sessions, &table());
            assert!(matches!(action, ScoringAction::Wait { .. }));
        }
    }
}

#[test]
fn clock_that_goes_backwards_gives_no_delta() {
    let mut sessions = SessionMap::new();
    process_event(&tty_event(1, 500), &mut sessions, &table()).unwrap();
    process_event(&tty_event(1, 400), &mut sessions, &table()).unwrap();
    assert_eq!(sessions[&1].stats.n, 1);
    assert_eq!(number(sessions[&1].stats.mean), 0.0);
    assert_eq!(sessions[&1].stats.last_timestamp_ns, 400);
    process_event(&tty_event(1, 500), &mut sessions, &table()).unwrap();
    assert_eq!(number(sessions[&1].stats.mean), 50.0);
}

#[test]
fn time_zero_means_no_prior_event() {
    let mut sessions = SessionMap::new();
    let first = process_event(&tty_event(1, 0), &mut sessions, &table());
    assert!(matches!(first, Ok(Verdict::FirstEvent)));
    let second = process_event(&tty_event(1, 100), &mut sessions, &table());
    assert!(matches!(second, Ok(Verdict::FirstEvent)));
    assert_eq!(sessions[&1].stats.n, 0);
}

#[test]
fn sessions_do_not_affect_each_other() {
    let mut together = SessionMap::new();
    let mut first = SessionMap::new();
    let mut second = SessionMap::new();
    let (mut a, mut b) = (1u64, 1u64);
    for delta in deltas(60) {
        a += delta % 700_000;
        b += delta % 1_300_000;
        process_event(&tty_event(1, a), &mut together, &table()).unwrap();
        process_event(&tty_event(2, b), &mut together, &table()).unwrap();
        process_event(&tty_event(1, a), &mut first, &table()).unwrap();
        process_event(&tty_event(2, b), &mut second, &table()).unwrap();
    }
    assert_eq!(together.len(), 2);
    for (key, alone) in [(1u64, first[&1]), (2, second[&2])] {
        let both = together[&key];
        assert_eq!(both.stats.n, alone.stats.n);
        assert_eq!(both.stats.mean.bits, alone.stats.mean.bits);
        assert_eq!(both.stats.m2.bits, alone.stats.m2.bits);
        assert_eq!(both.stats.last_timestamp_ns, alone.stats.last_timestamp_ns);
        assert_eq!(both.window.as_slice(), alone.window.as_slice());
    }
}

#[test]
fn score_that_is_no_number_is_reported() {
    let broken = [pattern(f64::NAN); 17];
    let mut sessions = SessionMap::new();
    for i in 0..16u64 {
        process_event(&tty_event(4, 1 + i * 10), &mut sessions, &broken).unwrap();
    }
    let event = tty_event(4, 161);
    match run_step(ScoringInput::Event { event }, &mut sessions, &broken) {
        ScoringAction::Warn { error: ScoreError::OutOfRange { value } } => {
            assert!(value.is_nan());
        }
        _ => panic!("not reported"),
    }
    assert_eq!(sessions[&4].stats.n, 16);
}

#[test]
fn scoring_stops_when_it_is_told() {
    let mut sessions = SessionMap::new();
    let action = run_step(ScoringInput::Cancelled, &mut sessions, &table());
    assert!(matches!(action, ScoringAction::Stop { reason: TaskStop::Cancelled }));
    let action = run_step(ScoringInput::ChannelClosed, &mut sessions, &table());
    assert!(matches!(action, ScoringAction::Stop { reason: TaskStop::ChannelClosed }));
    assert!(sessions.is_empty());
}
