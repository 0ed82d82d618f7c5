# ghost_hunter

Host intrusion detection by timing, for Linux. A kernel probe records the TTY
reads and writes of every session. The analyzer scores each session by the
variance of its inter-event times and the entropy of the sixteen most recent
ones. A session whose score reaches 0.72 is answered with random delays, drawn
from an exponential distribution whose rate follows a Bayesian estimate.

`src/` is the verified library. It holds everything that decides or computes:

| Module | What it holds |
|---|---|
| `events` | The records that cross the kernel/user boundary, and reading one from bytes. |
| `probe` | The handler of a tracepoint hit, one kernel answer at a time. |
| `loader` | The order of the setup, and the loop that drains the ring buffer. |
| `window` | The sliding window of a session's most recent inter-event times. |
| `scoring` | Welford statistics, entropy, the anomaly score and its threshold. |
| `bayesian` | The rate of a session, the delays drawn from it, the commands. |
| `supervisor` | Which task starts when, and how the analyzer ends. |
| `xtask` | The build pipeline: its steps, commands and diagnoses. |
| `binary64` | IEEE 754 double arithmetic on bit patterns, proved correctly rounded. |

The public proof functions whose names start with `law_` state what holds of the
library as a whole; `scoring_laws`, `welford_laws`, `welford_error_laws` and
`bayesian_laws` hold those of their modules.

Numbers with a fraction are bit patterns in the library, and their arithmetic is
proved. Logarithms are the platform's: `app/` takes them and hands them in.

`app/` is the analyzer around the library: the eBPF programs, the Aya loader, the
Tokio tasks, logging, and the build pipeline's processes.
