//! Anomaly scoring: an online variance estimate and an entropy estimate per
//! session, combined into a score between zero and one.

use crate::binary64::{arith, convert, Binary64};
use crate::events::TtyEvent;
use crate::supervisor::TaskStop;
use crate::window::DeltaWindow;
use std::collections::HashMap;
use vstd::prelude::*;

verus! {

/// Bit pattern of 0.72: the score from which a session counts as anomalous.
pub const ANOMALY_THRESHOLD: u64 = 0x3fe7_0a3d_70a3_d70a;

/// Number of bins of the entropy histogram, and length of the delta window.
pub const ENTROPY_BINS: usize = 16;

/// The deltas, in nanoseconds, that the histogram resolves.
pub const ENTROPY_RANGE_NS: u64 = 1_000_000;

/// Width of a bin, in nanoseconds.
pub const BIN_WIDTH_NS: u64 = 62_500;

/// Bit pattern of 0.0.
pub const ZERO: u64 = 0;

/// Bit pattern of 0.5.
pub const HALF: u64 = 0x3fe0_0000_0000_0000;

/// Bit pattern of 1.0.
pub const ONE: u64 = 0x3ff0_0000_0000_0000;

/// Bit pattern of 4.0: the entropy, in bits, of sixteen equally full bins.
pub const MAX_ENTROPY: u64 = 0x4010_0000_0000_0000;

/// Bit pattern of 2.5e11, the square of 500 microseconds: the variance from
/// which the variance signal is at its maximum.
pub const REFERENCE_VARIANCE: u64 = 0x424d_1a94_a200_0000;

/// Running statistics of a session's inter-event deltas.
#[derive(Clone, Copy, Debug)]
pub struct WelfordState {
    pub n: u64,
    pub mean: Binary64,
    pub m2: Binary64,
    /// Timestamp of the most recent event; zero means that there was none.
    pub last_timestamp_ns: u64,
}

/// A session: its running statistics and its most recent deltas.
#[derive(Clone, Copy, Debug)]
pub struct Session {
    pub stats: WelfordState,
    pub window: DeltaWindow,
}

/// What a [`Session`] holds; the window's oldest delta stands first.
#[verifier::ext_equal]
pub struct SessionView {
    pub stats: WelfordState,
    pub window: Seq<u64>,
}

impl View for Session {
    type V = SessionView;

    open spec fn view(&self) -> SessionView {
        SessionView { stats: self.stats, window: self.window@ }
    }
}

/// Every session, by `pid_tgid`.
pub type SessionMap = HashMap<u64, Session>;

/// What a map of sessions holds.
pub open spec fn contents(sessions: Map<u64, Session>) -> Map<u64, SessionView> {
    sessions.map_values(|session: Session| session@)
}

impl WelfordState {
    /// A session without events.
    pub open spec fn fresh() -> WelfordState {
        WelfordState {
            n: 0,
            mean: Binary64 { bits: ZERO },
            m2: Binary64 { bits: ZERO },
            last_timestamp_ns: 0,
        }
    }

    /// One online update with a delta. The sample count is taken modulo `2^64`.
    pub open spec fn updated(self, delta_ns: u64) -> WelfordState {
        let n = (if self.n == u64::MAX {
            0
        } else {
            self.n + 1
        }) as u64;
        let x = Binary64::of_integer(delta_ns as int);
        let delta = x.minus(self.mean);
        let mean = self.mean.plus(delta.over(Binary64::of_integer(n as int)));
        let m2 = self.m2.plus(delta.times(x.minus(mean)));
        WelfordState { n, mean, m2, last_timestamp_ns: self.last_timestamp_ns }
    }

    /// Population variance; zero without samples.
    pub open spec fn spread(self) -> Binary64 {
        if self.n == 0 {
            Binary64 { bits: ZERO }
        } else {
            self.m2.over(Binary64::of_integer(self.n as int))
        }
    }

    /// Welford update with one delta.
    pub fn update(&mut self, delta_ns: u64)
        ensures
            *final(self) == old(self).updated(delta_ns),
    {
        let n: u64 = self.n.wrapping_add(1);
        let x = Binary64::from_u64(delta_ns);
        let delta = x.difference(self.mean);
        let mean = self.mean.sum(delta.quotient(Binary64::from_u64(n)));
        let delta2 = x.difference(mean);
        let m2 = self.m2.sum(delta.product(delta2));
        self.n = n;
        self.mean = mean;
        self.m2 = m2;
    }

    /// Population variance; zero until there is a sample.
    pub fn variance(&self) -> (r: Binary64)
        ensures
            r == self.spread(),
    {
        if self.n == 0 {
            Binary64 { bits: ZERO }
        } else {
            self.m2.quotient(Binary64::from_u64(self.n))
        }
    }
}

impl Default for WelfordState {
    fn default() -> (r: Self)
        ensures
            r == WelfordState::fresh(),
    {
        WelfordState {
            n: 0,
            mean: Binary64 { bits: ZERO },
            m2: Binary64 { bits: ZERO },
            last_timestamp_ns: 0,
        }
    }
}

/// Whether a number is finite and in `[0, 1]`.
pub open spec fn in_unit_range(value: Binary64) -> bool {
    &&& value.finite()
    &&& (Binary64 { bits: ZERO }).at_most(value)
    &&& value.at_most(Binary64 { bits: ONE })
}

/// A normalised anomaly score in `[0, 1]`.
#[derive(Clone, Copy, Debug)]
pub struct AnomalyScore {
    value: Binary64,
}

/// Why a number is no anomaly score.
#[derive(Clone, Copy, Debug)]
pub enum ScoreError {
    OutOfRange { value: Binary64 },
}

impl AnomalyScore {
    /// The score as a number.
    pub closed spec fn score(self) -> Binary64 {
        self.value
    }

    #[verifier::type_invariant]
    spec fn normalised(self) -> bool {
        in_unit_range(self.value)
    }

    pub fn new(value: Binary64) -> (r: Result<AnomalyScore, ScoreError>)
        ensures
            match r {
                Ok(score) => in_unit_range(value) && score.score() == value,
                Err(ScoreError::OutOfRange { value: rejected }) => {
                    &&& !in_unit_range(value)
                    &&& rejected == value
                },
            },
    {
        let zero = Binary64 { bits: ZERO };
        let one = Binary64 { bits: ONE };
        if value.is_finite() && zero.le(value) && value.le(one) {
            Ok(AnomalyScore { value })
        } else {
            Err(ScoreError::OutOfRange { value })
        }
    }

    pub fn value(self) -> (r: Binary64)
        ensures
            r == self.score(),
            in_unit_range(r),
    {
        proof {
            use_type_invariant(&self);
        }
        self.value
    }
}

/// The histogram bin of a delta; the last bin takes what lies beyond.
pub open spec fn bin_of(delta_ns: u64) -> int {
    let bin = delta_ns as int / BIN_WIDTH_NS as int;
    if bin < ENTROPY_BINS {
        bin
    } else {
        ENTROPY_BINS - 1
    }
}

/// How many deltas of a window fall into a bin.
pub open spec fn bin_count(window: Seq<u64>, bin: int) -> nat
    decreases window.len(),
{
    if window.len() == 0 {
        0
    } else {
        bin_count(window.drop_last(), bin) + (if bin_of(window.last()) == bin {
            1nat
        } else {
            0nat
        })
    }
}

/// The bin counters of a window; they count modulo `2^32`.
pub open spec fn bin_counters(window: Seq<u64>) -> Seq<u32> {
    Seq::new(ENTROPY_BINS as nat, |bin: int| (bin_count(window, bin) % 0x1_0000_0000) as u32)
}

/// The share of `count` in `total`.
pub open spec fn share(count: int, total: int) -> Binary64 {
    Binary64::of_integer(count).over(Binary64::of_integer(total))
}

/// The Shannon sum over the first `bins` counters, where `log2s[c]` stands for
/// the base-2 logarithm of the share of `c`.
pub open spec fn shannon_sum(
    counters: Seq<u32>,
    total: int,
    log2s: Seq<Binary64>,
    bins: nat,
) -> Binary64
    decreases bins,
{
    if bins == 0 {
        Binary64 { bits: ZERO }
    } else {
        let h = shannon_sum(counters, total, log2s, (bins - 1) as nat);
        let c = counters[bins - 1] as int;
        if c > 0 {
            h.minus(share(c, total).times(log2s[c]))
        } else {
            h
        }
    }
}

/// The entropy of a window's histogram relative to its maximum, in `[0, 1]`;
/// zero for an empty window.
pub open spec fn relative_entropy(window: Seq<u64>, log2s: Seq<Binary64>) -> Binary64 {
    if window.len() == 0 {
        Binary64 { bits: ZERO }
    } else {
        shannon_sum(bin_counters(window), window.len() as int, log2s, ENTROPY_BINS as nat).over(
            Binary64 { bits: MAX_ENTROPY },
        ).clamped(Binary64 { bits: ZERO }, Binary64 { bits: ONE })
    }
}

/// The share of `count` in `total`, whose logarithm the entropy needs.
pub fn bin_share(count: u64, total: u64) -> (r: Binary64)
    ensures
        r == share(count as int, total as int),
{
    Binary64::from_u64(count).quotient(Binary64::from_u64(total))
}

pub(crate) proof fn lemma_bin_count_bound(window: Seq<u64>, bin: int)
    ensures
        bin_count(window, bin) <= window.len(),
    decreases window.len(),
{
    if window.len() > 0 {
        lemma_bin_count_bound(window.drop_last(), bin);
    }
}

/// Counts the deltas of a window by bin.
pub fn histogram(window: &[u64]) -> (counters: [u32; 16])
    ensures
        counters@ == bin_counters(window@),
{
    let mut counters: [u32; 16] = [0; 16];
    let mut i: usize = 0;
    proof {
        assert(window@.take(0) =~= Seq::<u64>::empty());
    }
    while i < window.len()
        invariant
            i <= window.len(),
            forall|b: int|
                0 <= b < ENTROPY_BINS ==> #[trigger] counters@[b] == bin_count(
                    window@.take(i as int),
                    b,
                ) % 0x1_0000_0000,
        decreases window.len() - i,
    {
        let delta: u64 = window[i];
        let wide: u64 = delta / BIN_WIDTH_NS;
        let bin: usize = if wide < ENTROPY_BINS as u64 {
            wide as usize
        } else {
            ENTROPY_BINS - 1
        };
        let ghost before = counters@;
        counters[bin] = counters[bin].wrapping_add(1);
        proof {
            assert(window@.take(i + 1).drop_last() =~= window@.take(i as int));
            assert(window@.take(i + 1).last() == delta);
            assert(counters@ =~= before.update(bin as int, before[bin as int].wrapping_add(1)));
        }
        i = i + 1;
    }
    proof {
        assert(window@.take(window@.len() as int) =~= window@);
        assert(counters@ =~= bin_counters(window@));
    }
    counters
}

/// Shannon base-2 entropy of a window's histogram, normalised to `[0, 1]`.
///
/// `log2s[c]` is the base-2 logarithm of [`bin_share`]`(c, window.len())`.
pub fn entropy_score(window: &[u64], log2s: &[Binary64]) -> (r: Binary64)
    requires
        window@.len() < log2s@.len(),
    ensures
        r == relative_entropy(window@, log2s@),
{
    let zero = Binary64 { bits: ZERO };
    if window.len() == 0 {
        return zero;
    }
    let counters = histogram(window);
    let total: u64 = window.len() as u64;
    let mut h = zero;
    let mut i: usize = 0;
    while i < ENTROPY_BINS
        invariant
            i <= ENTROPY_BINS,
            total == window@.len(),
            window@.len() < log2s@.len(),
            counters@ == bin_counters(window@),
            h == shannon_sum(counters@, total as int, log2s@, i as nat),
        decreases ENTROPY_BINS - i,
    {
        let c: u32 = counters[i];
        proof {
            lemma_bin_count_bound(window@, i as int);
            assert(counters@[i as int] == bin_counters(window@)[i as int]);
        }
        if c > 0 {
            h = h.difference(bin_share(c as u64, total).product(log2s[c as usize]));
        }
        i = i + 1;
    }
    h.quotient(Binary64 { bits: MAX_ENTROPY }).clamp(zero, Binary64 { bits: ONE })
}

/// A number taken modulo `2^64` as a two's complement value.
pub open spec fn signed(x: int) -> int {
    let low = x % 0x1_0000_0000_0000_0000;
    if low < 0x8000_0000_0000_0000 {
        low
    } else {
        low - 0x1_0000_0000_0000_0000
    }
}

/// Half of a number, rounded towards zero.
pub open spec fn halved(x: int) -> int {
    if x >= 0 {
        x / 2
    } else {
        -((-x) / 2)
    }
}

/// A delta that lies `step` half deviations from the mean, not below zero.
/// The arithmetic is that of 64-bit two's complement.
pub open spec fn expected_delta(mean: int, sigma: int, step: int) -> u64 {
    let delta = signed(signed(mean) + halved(signed(step * signed(sigma))));
    (if delta > 0 {
        delta
    } else {
        0
    }) as u64
}

/// The window that a session's statistics predict: deltas spread around the
/// mean in steps of half a standard deviation, and the current one.
pub open spec fn expected_window(state: WelfordState, current_delta: u64) -> Seq<u64> {
    let mean = state.mean.truncated(u64::MAX as int);
    let sigma = state.spread().root().truncated(u64::MAX as int);
    Seq::new(
        ENTROPY_BINS as nat,
        |i: int|
            if i < ENTROPY_BINS - 1 {
                expected_delta(mean, sigma, i - 7)
            } else {
                current_delta
            },
    )
}

fn to_signed(x: u64) -> (r: i64)
    ensures
        r == signed(x as int),
{
    if x < 0x8000_0000_0000_0000 {
        x as i64
    } else {
        (x - 0x8000_0000_0000_0000) as i64 + i64::MIN
    }
}

fn halve(x: i64) -> (r: i64)
    ensures
        r == halved(x as int),
{
    if x >= 0 {
        x / 2
    } else if x % 2 == 0 {
        x / 2
    } else {
        (x + 1) / 2
    }
}

/// The window of deltas that the current statistics predict.
pub fn synthetic_window(state: &WelfordState, current_delta: u64) -> (window: [u64; 16])
    ensures
        window@ == expected_window(*state, current_delta),
{
    let mean: i64 = to_signed(state.mean.to_u64());
    let sigma: i64 = to_signed(state.variance().square_root().to_u64());
    let mut window: [u64; 16] = [0; 16];
    let mut i: usize = 0;
    while i < ENTROPY_BINS - 1
        invariant
            i <= ENTROPY_BINS - 1,
            mean == signed(state.mean.truncated(u64::MAX as int)),
            sigma == signed(state.spread().root().truncated(u64::MAX as int)),
            forall|k: int|
                0 <= k < i ==> window@[k] == expected_window(*state, current_delta)[k],
        decreases ENTROPY_BINS - i,
    {
        let step: i64 = i as i64 - 7;
        let offset: i64 = halve(step.wrapping_mul(sigma));
        let delta: i64 = mean.wrapping_add(offset);
        window[i] = if delta > 0 {
            delta as u64
        } else {
            0
        };
        i = i + 1;
    }
    window[ENTROPY_BINS - 1] = current_delta;
    proof {
        assert(window@ =~= expected_window(*state, current_delta));
    }
    window
}

/// The variance relative to the reference, in `[0, 1]`.
pub open spec fn relative_variance(state: WelfordState) -> Binary64 {
    state.spread().over(Binary64 { bits: REFERENCE_VARIANCE }).clamped(
        Binary64 { bits: ZERO },
        Binary64 { bits: ONE },
    )
}

/// The mean of the variance signal and the entropy of a window.
pub open spec fn mixed_score(
    state: WelfordState,
    window: Seq<u64>,
    log2s: Seq<Binary64>,
) -> Binary64 {
    let half = Binary64 { bits: HALF };
    half.times(relative_variance(state)).plus(half.times(relative_entropy(window, log2s)))
}

/// The score of a session with the given statistics and most recent deltas.
pub open spec fn normalised_score(
    stats: WelfordState,
    window: Seq<u64>,
    log2s: Seq<Binary64>,
) -> Binary64 {
    mixed_score(stats, window, log2s).clamped(Binary64 { bits: ZERO }, Binary64 { bits: ONE })
}

fn variance_signal(state: &WelfordState) -> (r: Binary64)
    ensures
        r == relative_variance(*state),
{
    state.variance().quotient(Binary64 { bits: REFERENCE_VARIANCE }).clamp(
        Binary64 { bits: ZERO },
        Binary64 { bits: ONE },
    )
}

fn combined_score(state: &WelfordState, window: &[u64], log2s: &[Binary64]) -> (r: Binary64)
    requires
        window@.len() < log2s@.len(),
    ensures
        r == mixed_score(*state, window@, log2s@),
{
    let half = Binary64 { bits: HALF };
    half.product(variance_signal(state)).sum(half.product(entropy_score(window, log2s)))
}

/// What an event says about its session.
#[derive(Clone, Copy, Debug)]
pub enum Verdict {
    /// The session's first event: there is no delta yet.
    FirstEvent,
    /// Too few deltas for a score.
    WarmingUp,
    /// Scored below the threshold.
    Normal { score: AnomalyScore },
    /// Scored at the threshold or above: to be dispatched.
    Anomalous { score: AnomalyScore },
}

impl WelfordState {
    /// The state with the timestamp of a new event.
    pub open spec fn stamped(self, timestamp_ns: u64) -> WelfordState {
        WelfordState { last_timestamp_ns: timestamp_ns, ..self }
    }

    /// The time since the last event; zero where the clock went backwards.
    pub open spec fn elapsed(self, timestamp_ns: u64) -> u64 {
        if timestamp_ns >= self.last_timestamp_ns {
            (timestamp_ns - self.last_timestamp_ns) as u64
        } else {
            0
        }
    }
}

impl SessionView {
    /// A session without events.
    pub open spec fn fresh() -> SessionView {
        SessionView { stats: WelfordState::fresh(), window: Seq::empty() }
    }

    /// The session after an event: the first event only leaves its timestamp,
    /// every other one adds a delta.
    pub open spec fn advanced(self, timestamp_ns: u64) -> SessionView {
        let stamped = self.stats.stamped(timestamp_ns);
        if self.stats.last_timestamp_ns == 0 {
            SessionView { stats: stamped, window: self.window }
        } else {
            let delta_ns = self.stats.elapsed(timestamp_ns);
            SessionView {
                stats: stamped.updated(delta_ns),
                window: crate::window::recent(self.window.push(delta_ns)),
            }
        }
    }

    /// The score of the session: the variance of all its deltas and the entropy
    /// of the most recent ones.
    pub open spec fn score(self, log2s: Seq<Binary64>) -> Binary64 {
        normalised_score(self.stats, self.window, log2s)
    }

    /// Whether a verdict is right for an event in this session.
    pub open spec fn judged(
        self,
        timestamp_ns: u64,
        log2s: Seq<Binary64>,
        verdict: Result<Verdict, ScoreError>,
    ) -> bool {
        let next = self.advanced(timestamp_ns);
        let score = next.score(log2s);
        let threshold = Binary64 { bits: ANOMALY_THRESHOLD };
        if self.stats.last_timestamp_ns == 0 {
            verdict == Ok::<Verdict, ScoreError>(Verdict::FirstEvent)
        } else if next.stats.n < ENTROPY_BINS {
            verdict == Ok::<Verdict, ScoreError>(Verdict::WarmingUp)
        } else {
            match verdict {
                Ok(Verdict::Anomalous { score: s }) => {
                    &&& in_unit_range(score)
                    &&& s.score() == score
                    &&& threshold.at_most(score)
                },
                Ok(Verdict::Normal { score: s }) => {
                    &&& in_unit_range(score)
                    &&& s.score() == score
                    &&& score.less(threshold)
                },
                Err(ScoreError::OutOfRange { value }) => score.nan() && value == score,
                _ => false,
            }
        }
    }
}

impl Session {
    /// Takes in an event of the session and judges it.
    pub fn observe(&mut self, timestamp_ns: u64, log2s: &[Binary64; 17]) -> (verdict: Result<
        Verdict,
        ScoreError,
    >)
        ensures
            final(self)@ == old(self)@.advanced(timestamp_ns),
            old(self)@.judged(timestamp_ns, log2s@, verdict),
    {
        let prior: u64 = self.stats.last_timestamp_ns;
        self.stats.last_timestamp_ns = timestamp_ns;
        if prior == 0 {
            return Ok(Verdict::FirstEvent);
        }
        let delta_ns: u64 = timestamp_ns.saturating_sub(prior);
        self.stats.update(delta_ns);
        self.window.push(delta_ns);
        if self.stats.n < ENTROPY_BINS as u64 {
            return Ok(Verdict::WarmingUp);
        }
        let raw = combined_score(&self.stats, self.window.as_slice(), log2s.as_slice());
        let value = raw.clamp(Binary64 { bits: ZERO }, Binary64 { bits: ONE });
        proof {
            lemma_clamped_to_unit(raw);
        }
        match AnomalyScore::new(value) {
            Ok(score) => {
                let threshold = Binary64 { bits: ANOMALY_THRESHOLD };
                if threshold.le(value) {
                    Ok(Verdict::Anomalous { score })
                } else {
                    Ok(Verdict::Normal { score })
                }
            },
            Err(e) => Err(e),
        }
    }
}

impl Default for Session {
    fn default() -> (session: Self)
        ensures
            session@ == SessionView::fresh(),
    {
        Session { stats: WelfordState::default(), window: DeltaWindow::new() }
    }
}

/// Clamping to the unit range gives a number of that range, unless it is NaN.
pub proof fn lemma_clamped_to_unit(raw: Binary64)
    ensures
        ({
            let value = raw.clamped(Binary64 { bits: ZERO }, Binary64 { bits: ONE });
            &&& value.nan() == raw.nan()
            &&& !raw.nan() ==> in_unit_range(value)
        }),
{
    let zero = Binary64 { bits: ZERO };
    let one = Binary64 { bits: ONE };
    convert::lemma_units_order(ZERO as int, ONE as int);
    arith::lemma_units_zero(0);
    convert::lemma_units_order(raw.magnitude(), ONE as int);
    arith::lemma_units_zero(raw.magnitude());
}

/// Takes in an event: updates its session and judges it.
///
/// `log2s[c]` is the base-2 logarithm of [`bin_share`]`(c, 16)`.
pub fn process_event(
    event: &TtyEvent,
    sessions: &mut SessionMap,
    log2s: &[Binary64; 17],
) -> (verdict: Result<Verdict, ScoreError>)
    ensures
        ({
            let before = contents(old(sessions)@);
            let session = session_of(before, event.pid_tgid);
            &&& contents(final(sessions)@) == before.insert(
                event.pid_tgid,
                session.advanced(event.timestamp_ns),
            )
            &&& session.judged(event.timestamp_ns, log2s@, verdict)
        }),
{
    broadcast use vstd::std_specs::hash::group_hash_axioms;

    let key: u64 = event.pid_tgid;
    let mut session: Session = match sessions.get(&key) {
        Some(session) => *session,
        None => Session::default(),
    };
    let verdict = session.observe(event.timestamp_ns, log2s);
    sessions.insert(key, session);
    proof {
        let before = contents(old(sessions)@);
        assert(contents(sessions@) =~= before.insert(
            key,
            session_of(before, key).advanced(event.timestamp_ns),
        ));
    }
    verdict
}

/// A session; an unknown one is fresh.
pub open spec fn session_of(sessions: Map<u64, SessionView>, key: u64) -> SessionView {
    if sessions.contains_key(key) {
        sessions[key]
    } else {
        SessionView::fresh()
    }
}

/// What the scoring task is woken by.
#[derive(Clone, Copy)]
pub enum ScoringInput {
    Cancelled,
    ChannelClosed,
    Event { event: TtyEvent },
}

/// What the scoring task does next.
#[derive(Clone, Copy)]
pub enum ScoringAction {
    /// Leave the loop.
    Stop { reason: TaskStop },
    /// Wait for the next event.
    Wait { verdict: Verdict },
    /// Log that an event could not be scored, and wait for the next.
    Warn { error: ScoreError },
    /// Send a score to the dispatcher, and wait for the next event.
    Send { pid_tgid: u64, score: AnomalyScore },
}

/// What a judged event makes the scoring task do: only anomalous sessions are
/// sent on.
pub open spec fn action_for(
    pid_tgid: u64,
    verdict: Result<Verdict, ScoreError>,
) -> ScoringAction {
    match verdict {
        Ok(Verdict::Anomalous { score }) => ScoringAction::Send { pid_tgid, score },
        Ok(other) => ScoringAction::Wait { verdict: other },
        Err(error) => ScoringAction::Warn { error },
    }
}

/// Whether a turn of the scoring task's loop takes the sessions `before` to
/// `after` and ends in `action`.
pub open spec fn turn(
    before: Map<u64, SessionView>,
    input: ScoringInput,
    log2s: Seq<Binary64>,
    after: Map<u64, SessionView>,
    action: ScoringAction,
) -> bool {
    match input {
        ScoringInput::Cancelled => {
            &&& after == before
            &&& action == (ScoringAction::Stop { reason: TaskStop::Cancelled })
        },
        ScoringInput::ChannelClosed => {
            &&& after == before
            &&& action == (ScoringAction::Stop { reason: TaskStop::ChannelClosed })
        },
        ScoringInput::Event { event } => {
            let session = session_of(before, event.pid_tgid);
            &&& after == before.insert(event.pid_tgid, session.advanced(event.timestamp_ns))
            &&& exists|verdict: Result<Verdict, ScoreError>|
                {
                    &&& #[trigger] session.judged(event.timestamp_ns, log2s, verdict)
                    &&& action == action_for(event.pid_tgid, verdict)
                }
        },
    }
}

/// One turn of the scoring task's loop.
pub fn run_step(
    input: ScoringInput,
    sessions: &mut SessionMap,
    log2s: &[Binary64; 17],
) -> (action: ScoringAction)
    ensures
        turn(contents(old(sessions)@), input, log2s@, contents(final(sessions)@), action),
{
    match input {
        ScoringInput::Cancelled => ScoringAction::Stop { reason: TaskStop::Cancelled },
        ScoringInput::ChannelClosed => ScoringAction::Stop { reason: TaskStop::ChannelClosed },
        ScoringInput::Event { event } => {
            let verdict = process_event(&event, sessions, log2s);
            match verdict {
                Ok(Verdict::Anomalous { score }) => ScoringAction::Send {
                    pid_tgid: event.pid_tgid,
                    score,
                },
                Ok(other) => ScoringAction::Wait { verdict: other },
                Err(error) => ScoringAction::Warn { error },
            }
        },
    }
}

} // verus!
