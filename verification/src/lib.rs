//! Host intrusion detection by timing: TTY reads and writes are scored per
//! session, and anomalous sessions are answered with random delays.
//!
//! * [`events`]: the records that cross the kernel/user boundary.
//! * [`probe`]: the handler of a tracepoint hit.
//! * [`loader`]: the setup, and the loop that drains the ring buffer.
//! * [`window`]: the sliding window of a session's most recent deltas.
//! * [`scoring`]: the anomaly score of a session; [`scoring_laws`],
//!   [`score_laws`], [`welford_laws`], [`welford_error_laws`].
//! * [`bayesian`]: the rate of a session and its delays; [`bayesian_laws`],
//!   [`rate_laws`].
//! * [`supervisor`]: the life of the analyzer.
//! * [`xtask`]: the build pipeline.
//! * [`binary64`]: binary floating point on bit patterns.

pub mod bayesian;
pub mod bayesian_laws;
pub mod binary64;
pub mod events;
pub mod loader;
pub mod probe;
pub mod rate_laws;
pub mod score_laws;
pub mod scoring;
pub mod scoring_laws;
pub mod supervisor;
pub mod welford_error_laws;
pub mod welford_laws;
pub mod window;
pub mod xtask;
