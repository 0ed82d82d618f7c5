//! The tracepoint handler, as a state machine over the kernel's answers.
//!
//! The handler asks the kernel for one thing at a time ([`ProbeAction`]) and
//! moves on with the answer ([`ProbeInput`]).

use crate::events::{EventKind, JitterCommand, TtyEvent};
use vstd::prelude::*;

verus! {

/// Largest descriptor that is taken for a TTY: standard error.
pub const MAX_TTY_FD: u64 = 2;

/// Nanoseconds in a microsecond.
pub const NS_PER_US: u64 = 1_000;

/// The error of a hit whose arguments could not be read.
pub const UNREADABLE: i64 = 0;

/// How often the clock is read at most while jitter is injected.
pub const MAX_CLOCK_READS: u32 = 2_000;

/// A bound on the number of steps that one tracepoint hit can take.
pub const MAX_STEPS: u32 = 2_006;

/// What the handler waits for.
#[derive(Clone, Copy)]
pub enum ProbeState {
    /// The arguments of the system call.
    Arguments { kind: EventKind },
    /// The calling task and the time.
    Caller { kind: EventKind, fd: u64, count: u64 },
    /// A slot in the ring buffer.
    Slot { kind: EventKind, fd: u64, count: u64, pid_tgid: u64, now: u64 },
    /// The owner and the name of the task, for the slot that was reserved.
    Details { kind: EventKind, fd: u64, count: u64, pid_tgid: u64, now: u64 },
    /// The submission of the filled slot.
    Submission { event: TtyEvent },
    /// The command for the calling task.
    Command { pid_tgid: u64, now: u64 },
    /// The clock to reach the deadline.
    Clock { deadline: u64, reads: u32 },
    /// Nothing: the hit is handled, with this outcome.
    Done { outcome: Result<(), i64> },
}

/// What the handler asks the kernel for.
pub enum ProbeAction {
    ReadArguments,
    IdentifyCaller,
    ReserveSlot,
    ReadDetails,
    Submit { event: TtyEvent },
    LookUpCommand { pid_tgid: u64 },
    ReadClock,
    Finish { outcome: Result<(), i64> },
}

/// What the kernel answers.
pub enum ProbeInput {
    /// Descriptor and byte count, unless they could not be read.
    Arguments { values: Option<(u64, u64)> },
    Caller { pid_tgid: u64, now: u64 },
    /// Whether the ring buffer had room.
    Slot { reserved: bool },
    /// The task's name is missing where the kernel could not tell it.
    Details { uid_gid: u64, comm: Option<[u8; 16]> },
    Submitted,
    Command { command: Option<JitterCommand> },
    Clock { time: u64 },
}

/// The 32 low bits.
pub open spec fn low_half(x: u64) -> u32 {
    (x % 0x1_0000_0000) as u32
}

fn truncate(x: u64) -> (r: u32)
    ensures
        r == low_half(x),
{
    (x % 0x1_0000_0000) as u32
}

/// When the wait for a command ends: no wait for a missing or inactive one.
/// The delay in nanoseconds is taken modulo `2^64`, the deadline saturates.
pub open spec fn deadline_of(command: Option<JitterCommand>, now: u64) -> Option<u64> {
    match command {
        Some(c) => if c.active == 1 {
            let delay_ns = (c.delay_us * NS_PER_US) % 0x1_0000_0000_0000_0000;
            Some(
                if now + delay_ns > u64::MAX {
                    u64::MAX
                } else {
                    (now + delay_ns) as u64
                },
            )
        } else {
            None
        },
        None => None,
    }
}

fn deadline(command: Option<JitterCommand>, now: u64) -> (r: Option<u64>)
    ensures
        r == deadline_of(command, now),
{
    match command {
        Some(c) => {
            if c.active == 1 {
                let delay_ns: u64 = c.delay_us.wrapping_mul(NS_PER_US);
                proof {
                    lemma_wrapping_mul(c.delay_us, NS_PER_US);
                }
                Some(now.saturating_add(delay_ns))
            } else {
                None
            }
        },
        None => None,
    }
}

proof fn lemma_wrapping_mul(x: u64, y: u64)
    ensures
        x.wrapping_mul(y) == (x * y) % 0x1_0000_0000_0000_0000,
{
}

impl ProbeState {
    /// What the handler asks for in this state.
    pub open spec fn asks(self) -> ProbeAction {
        match self {
            ProbeState::Arguments { .. } => ProbeAction::ReadArguments,
            ProbeState::Caller { .. } => ProbeAction::IdentifyCaller,
            ProbeState::Slot { .. } => ProbeAction::ReserveSlot,
            ProbeState::Details { .. } => ProbeAction::ReadDetails,
            ProbeState::Submission { event } => ProbeAction::Submit { event },
            ProbeState::Command { pid_tgid, .. } => ProbeAction::LookUpCommand { pid_tgid },
            ProbeState::Clock { .. } => ProbeAction::ReadClock,
            ProbeState::Done { outcome } => ProbeAction::Finish { outcome },
        }
    }

    /// Whether an input answers what the state asks for.
    pub open spec fn accepts(self, input: ProbeInput) -> bool {
        match input {
            ProbeInput::Arguments { .. } => self is Arguments,
            ProbeInput::Caller { .. } => self is Caller,
            ProbeInput::Slot { .. } => self is Slot,
            ProbeInput::Details { .. } => self is Details,
            ProbeInput::Submitted => self is Submission,
            ProbeInput::Command { .. } => self is Command,
            ProbeInput::Clock { .. } => self is Clock,
        }
    }

    /// The number of steps that are left at most.
    pub open spec fn steps_left(self) -> int {
        match self {
            ProbeState::Arguments { .. } => MAX_CLOCK_READS + 6,
            ProbeState::Caller { .. } => MAX_CLOCK_READS + 5,
            ProbeState::Slot { .. } => MAX_CLOCK_READS + 4,
            ProbeState::Details { .. } => MAX_CLOCK_READS + 3,
            ProbeState::Submission { .. } => MAX_CLOCK_READS + 2,
            ProbeState::Command { .. } => MAX_CLOCK_READS + 1,
            ProbeState::Clock { reads, .. } => MAX_CLOCK_READS - reads,
            ProbeState::Done { .. } => 0,
        }
    }

    /// The clock is only asked for while reads are left.
    pub open spec fn valid(self) -> bool {
        self matches ProbeState::Clock { reads, .. } ==> reads < MAX_CLOCK_READS
    }

    /// The event that a hit is recorded as.
    pub open spec fn records(
        event: TtyEvent,
        kind: EventKind,
        fd: u64,
        count: u64,
        pid_tgid: u64,
        now: u64,
        uid_gid: u64,
        comm: Option<[u8; 16]>,
    ) -> bool {
        &&& event.timestamp_ns == now
        &&& event.pid_tgid == pid_tgid
        &&& event.uid_gid == uid_gid
        &&& event.fd == low_half(fd)
        &&& event.byte_count == low_half(count)
        &&& event.kind_raw == kind.discriminant()
        &&& event.comm@ == match comm {
            Some(name) => name@,
            None => Seq::new(16, |i: int| 0u8),
        }
        &&& event._pad@ == Seq::new(12, |i: int| 0u8)
    }

    /// Whether `next` follows this state on an accepted input.
    pub open spec fn follows(self, input: ProbeInput, next: ProbeState) -> bool {
        match (self, input) {
            (ProbeState::Arguments { kind }, ProbeInput::Arguments { values }) => next == match values {
                Some((fd, count)) => if fd > MAX_TTY_FD {
                    ProbeState::Done { outcome: Ok(()) }
                } else {
                    ProbeState::Caller { kind, fd, count }
                },
                None => ProbeState::Done { outcome: Err(UNREADABLE) },
            },
            (
                ProbeState::Caller { kind, fd, count },
                ProbeInput::Caller { pid_tgid, now },
            ) => next == ProbeState::Slot { kind, fd, count, pid_tgid, now },
            (
                ProbeState::Slot { kind, fd, count, pid_tgid, now },
                ProbeInput::Slot { reserved },
            ) => next == if reserved {
                ProbeState::Details { kind, fd, count, pid_tgid, now }
            } else {
                ProbeState::Done { outcome: Ok(()) }
            },
            (
                ProbeState::Details { kind, fd, count, pid_tgid, now },
                ProbeInput::Details { uid_gid, comm },
            ) => next matches ProbeState::Submission { event } && Self::records(
                event,
                kind,
                fd,
                count,
                pid_tgid,
                now,
                uid_gid,
                comm,
            ),
            (ProbeState::Submission { event }, ProbeInput::Submitted) => next
                == ProbeState::Command { pid_tgid: event.pid_tgid, now: event.timestamp_ns },
            (ProbeState::Command { now, .. }, ProbeInput::Command { command }) => next
                == match deadline_of(command, now) {
                Some(deadline) => ProbeState::Clock { deadline, reads: 0 },
                None => ProbeState::Done { outcome: Ok(()) },
            },
            (ProbeState::Clock { deadline, reads }, ProbeInput::Clock { time }) => next
                == if time >= deadline || reads + 1 >= MAX_CLOCK_READS {
                ProbeState::Done { outcome: Ok(()) }
            } else {
                ProbeState::Clock { deadline, reads: (reads + 1) as u32 }
            },
            _ => false,
        }
    }

    /// The state in which a tracepoint hit starts.
    pub fn enter(kind: EventKind) -> (state: ProbeState)
        ensures
            state == (ProbeState::Arguments { kind }),
            state.valid(),
            state.steps_left() == MAX_STEPS,
    {
        ProbeState::Arguments { kind }
    }

    /// What the handler asks for next.
    pub fn action(&self) -> (action: ProbeAction)
        ensures
            action == self.asks(),
    {
        match *self {
            ProbeState::Arguments { .. } => ProbeAction::ReadArguments,
            ProbeState::Caller { .. } => ProbeAction::IdentifyCaller,
            ProbeState::Slot { .. } => ProbeAction::ReserveSlot,
            ProbeState::Details { .. } => ProbeAction::ReadDetails,
            ProbeState::Submission { event } => ProbeAction::Submit { event },
            ProbeState::Command { pid_tgid, .. } => ProbeAction::LookUpCommand { pid_tgid },
            ProbeState::Clock { .. } => ProbeAction::ReadClock,
            ProbeState::Done { outcome } => ProbeAction::Finish { outcome },
        }
    }

    /// Moves on with the kernel's answer.
    pub fn step(self, input: ProbeInput) -> (next: ProbeState)
        requires
            self.valid(),
            self.accepts(input),
        ensures
            self.follows(input, next),
            next.valid(),
            0 <= next.steps_left() < self.steps_left(),
    {
        match (self, input) {
            (ProbeState::Arguments { kind }, ProbeInput::Arguments { values }) => match values {
                Some((fd, count)) => if fd > MAX_TTY_FD {
                    ProbeState::Done { outcome: Ok(()) }
                } else {
                    ProbeState::Caller { kind, fd, count }
                },
                None => ProbeState::Done { outcome: Err(UNREADABLE) },
            },
            (
                ProbeState::Caller { kind, fd, count },
                ProbeInput::Caller { pid_tgid, now },
            ) => ProbeState::Slot { kind, fd, count, pid_tgid, now },
            (ProbeState::Slot { kind, fd, count, pid_tgid, now }, ProbeInput::Slot { reserved }) => {
                if reserved {
                    ProbeState::Details { kind, fd, count, pid_tgid, now }
                } else {
                    ProbeState::Done { outcome: Ok(()) }
                }
            },
            (
                ProbeState::Details { kind, fd, count, pid_tgid, now },
                ProbeInput::Details { uid_gid, comm },
            ) => {
                let name: [u8; 16] = match comm {
                    Some(name) => name,
                    None => [0; 16],
                };
                let event = TtyEvent {
                    timestamp_ns: now,
                    pid_tgid,
                    uid_gid,
                    fd: truncate(fd),
                    byte_count: truncate(count),
                    kind_raw: kind.raw(),
                    comm: name,
                    _pad: [0; 12],
                };
                proof {
                    assert(comm is None ==> event.comm@ =~= Seq::new(16, |i: int| 0u8));
                    assert(event._pad@ =~= Seq::new(12, |i: int| 0u8));
                }
                ProbeState::Submission { event }
            },
            (ProbeState::Submission { event }, ProbeInput::Submitted) => ProbeState::Command {
                pid_tgid: event.pid_tgid,
                now: event.timestamp_ns,
            },
            (ProbeState::Command { now, .. }, ProbeInput::Command { command }) => {
                match deadline(command, now) {
                    Some(deadline) => ProbeState::Clock { deadline, reads: 0 },
                    None => ProbeState::Done { outcome: Ok(()) },
                }
            },
            (ProbeState::Clock { deadline, reads }, ProbeInput::Clock { time }) => {
                if time >= deadline || reads + 1 >= MAX_CLOCK_READS {
                    ProbeState::Done { outcome: Ok(()) }
                } else {
                    ProbeState::Clock { deadline, reads: reads + 1 }
                }
            },
            _ => ProbeState::Done { outcome: Ok(()) },
        }
    }
}

/// Whether `states` is what a valid state goes through on `inputs`.
pub open spec fn probe_run(states: Seq<ProbeState>, inputs: Seq<ProbeInput>) -> bool {
    &&& states.len() == inputs.len() + 1
    &&& states[0].valid()
    &&& forall|i: int|
        #![trigger inputs[i]]
        0 <= i < inputs.len() ==> states[i].accepts(inputs[i]) && states[i].follows(
            inputs[i],
            states[i + 1],
        )
}

/// How many of the inputs are clock readings.
pub open spec fn clock_reads(inputs: Seq<ProbeInput>) -> int
    decreases inputs.len(),
{
    if inputs.len() == 0 {
        0
    } else {
        clock_reads(inputs.drop_last()) + (if inputs.last() is Clock {
            1int
        } else {
            0int
        })
    }
}

spec fn clock_reads_left(state: ProbeState) -> int {
    match state {
        ProbeState::Clock { reads, .. } => MAX_CLOCK_READS - reads,
        ProbeState::Done { .. } => 0,
        _ => MAX_CLOCK_READS as int,
    }
}

proof fn lemma_run_prefix(states: Seq<ProbeState>, inputs: Seq<ProbeInput>)
    requires
        probe_run(states, inputs),
        inputs.len() > 0,
    ensures
        probe_run(states.drop_last(), inputs.drop_last()),
        states[states.len() - 2].accepts(inputs.last()),
        states[states.len() - 2].follows(inputs.last(), states.last()),
{
    let shorter = inputs.drop_last();
    assert forall|i: int| #![trigger shorter[i]] 0 <= i < shorter.len() implies states.drop_last()[i].accepts(
        shorter[i],
    ) && states.drop_last()[i].follows(shorter[i], states.drop_last()[i + 1]) by {
        assert(inputs[i] == shorter[i]);
    }
    assert(inputs[inputs.len() - 1] == inputs.last());
}

/// Law: a tracepoint hit is handled in a bounded number of steps, whatever the
/// kernel answers, and reads the clock a bounded number of times.
pub proof fn law_hit_is_bounded(states: Seq<ProbeState>, inputs: Seq<ProbeInput>)
    requires
        probe_run(states, inputs),
        states[0] is Arguments,
    ensures
        inputs.len() <= MAX_STEPS,
        clock_reads(inputs) <= MAX_CLOCK_READS,
        states.last().valid(),
{
    lemma_run_bounded(states, inputs);
}

proof fn lemma_run_bounded(states: Seq<ProbeState>, inputs: Seq<ProbeInput>)
    requires
        probe_run(states, inputs),
    ensures
        states.last().valid(),
        states.last().steps_left() >= 0,
        inputs.len() + states.last().steps_left() <= states[0].steps_left(),
        clock_reads_left(states.last()) >= 0,
        clock_reads(inputs) + clock_reads_left(states.last()) <= clock_reads_left(states[0]),
    decreases inputs.len(),
{
    if inputs.len() > 0 {
        lemma_run_prefix(states, inputs);
        lemma_run_bounded(states.drop_last(), inputs.drop_last());
    }
}

/// Whether an event records the hit that the kernel's first four answers
/// describe: a standard stream, and a slot that was reserved.
pub open spec fn recorded_from(event: TtyEvent, kind: EventKind, inputs: Seq<ProbeInput>) -> bool {
    &&& inputs[0] matches ProbeInput::Arguments { values: Some((fd, count)) }
    &&& inputs[1] matches ProbeInput::Caller { pid_tgid, now }
    &&& inputs[2] matches ProbeInput::Slot { reserved }
    &&& inputs[3] matches ProbeInput::Details { uid_gid, comm }
    &&& fd <= MAX_TTY_FD
    &&& reserved
    &&& ProbeState::records(event, kind, fd, count, pid_tgid, now, uid_gid, comm)
}

/// Law: an event is submitted only for a descriptor of the three standard
/// streams, and only into a slot that was reserved; it records the hit.
pub proof fn law_only_tty_hits_are_recorded(
    states: Seq<ProbeState>,
    inputs: Seq<ProbeInput>,
    i: int,
)
    requires
        probe_run(states, inputs),
        states[0] is Arguments,
        0 <= i < states.len(),
        states[i] is Submission,
    ensures
        i == 4,
        recorded_from(states[i]->Submission_event, states[0]->Arguments_kind, inputs),
{
    lemma_run_order(states, inputs, i);
    assert(states[3].follows(inputs[3], states[4]));
    assert(states[2].follows(inputs[2], states[3]));
    assert(states[1].follows(inputs[1], states[2]));
    assert(states[0].follows(inputs[0], states[1]));
}

/// Law: jitter is injected only after the event was submitted, and only where
/// the task has an active command; the wait is until that command's deadline.
pub proof fn law_jitter_follows_submission(
    states: Seq<ProbeState>,
    inputs: Seq<ProbeInput>,
    i: int,
)
    requires
        probe_run(states, inputs),
        states[0] is Arguments,
        0 <= i < states.len(),
        states[i] is Clock,
    ensures
        i >= 6,
        states[4] is Submission,
        inputs[5] matches ProbeInput::Command { command: Some(command) } && command.active == 1
            && deadline_of(Some(command), states[4]->Submission_event.timestamp_ns) == Some(
            states[i]->Clock_deadline,
        ),
{
    lemma_run_order(states, inputs, i);
    lemma_deadline_kept(states, inputs, i);
    lemma_run_order(states, inputs, 5);
    assert(states[5].follows(inputs[5], states[6]));
    assert(states[4].follows(inputs[4], states[5]));
}

/// Law: a hit fails exactly where its arguments could not be read; then it is
/// over at once, with nothing submitted and no wait. In every other case it
/// succeeds: another descriptor, a full ring, a missing name, any command.
pub proof fn law_outcome_of_a_hit(states: Seq<ProbeState>, inputs: Seq<ProbeInput>, i: int)
    requires
        probe_run(states, inputs),
        states[0] is Arguments,
        0 <= i < states.len(),
        states[i] is Done,
    ensures
        i >= 1,
        states[i]->Done_outcome == (if inputs[0] == (ProbeInput::Arguments { values: None }) {
            Err::<(), i64>(0)
        } else {
            Ok::<(), i64>(())
        }),
        states[i]->Done_outcome is Err ==> i == 1 && states.len() == 2,
{
    lemma_run_order(states, inputs, i);
    lemma_outcome(states, inputs, i);
    if i < inputs.len() {
        assert(states[i].accepts(inputs[i]));
    }
}

proof fn lemma_outcome(states: Seq<ProbeState>, inputs: Seq<ProbeInput>, i: int)
    requires
        probe_run(states, inputs),
        states[0] is Arguments,
        1 <= i < states.len(),
    ensures
        i > 1 ==> inputs[0] != (ProbeInput::Arguments { values: None }),
        states[i] matches ProbeState::Done { outcome } ==> outcome == (if inputs[0] == (
        ProbeInput::Arguments { values: None }) {
            Err::<(), i64>(0)
        } else {
            Ok::<(), i64>(())
        }),
    decreases i,
{
    assert(states[i - 1].accepts(inputs[i - 1]) && states[i - 1].follows(
        inputs[i - 1],
        states[i],
    ));
    lemma_run_order(states, inputs, i - 1);
    if i > 1 {
        lemma_outcome(states, inputs, i - 1);
    }
}

proof fn lemma_deadline_kept(states: Seq<ProbeState>, inputs: Seq<ProbeInput>, i: int)
    requires
        probe_run(states, inputs),
        states[0] is Arguments,
        0 <= i < states.len(),
        states[i] is Clock,
    ensures
        i >= 6,
        states[6] is Clock,
        states[6]->Clock_deadline == states[i]->Clock_deadline,
    decreases i,
{
    lemma_run_order(states, inputs, i);
    if i > 6 {
        lemma_run_order(states, inputs, i - 1);
        assert(states[i - 1].follows(inputs[i - 1], states[i]));
        lemma_deadline_kept(states, inputs, i - 1);
    }
}

/// The states of a hit come in one order.
proof fn lemma_run_order(states: Seq<ProbeState>, inputs: Seq<ProbeInput>, i: int)
    requires
        probe_run(states, inputs),
        states[0] is Arguments,
        0 <= i < states.len(),
    ensures
        states[i] is Arguments <==> i == 0,
        states[i] is Caller ==> i == 1,
        states[i] is Slot ==> i == 2,
        states[i] is Details ==> i == 3,
        states[i] is Submission ==> i == 4,
        states[i] is Command ==> i == 5,
        states[i] is Clock ==> i >= 6,
    decreases i,
{
    if i > 0 {
        lemma_run_order(states, inputs, i - 1);
        assert(states[i - 1].follows(inputs[i - 1], states[i]));
    }
}

/// Law: every hit on a standard stream is recorded, whatever its byte count,
/// where the ring has room. The caller is identified, a slot reserved and its
/// details read; then the event is submitted that holds what the kernel
/// answered, and the command of the calling task is looked up.
pub proof fn law_standard_streams_are_recorded(states: Seq<ProbeState>, inputs: Seq<ProbeInput>)
    requires
        probe_run(states, inputs),
        states[0] is Arguments,
        states.last() is Done,
        inputs[0] matches ProbeInput::Arguments { values: Some((fd, count)) } && fd <= 2,
        inputs.len() >= 3 ==> inputs[2] == (ProbeInput::Slot { reserved: true }),
    ensures
        inputs.len() >= 6,
        states[0].asks() == ProbeAction::ReadArguments,
        states[1].asks() == ProbeAction::IdentifyCaller,
        states[2].asks() == ProbeAction::ReserveSlot,
        states[3].asks() == ProbeAction::ReadDetails,
        inputs[1] is Caller,
        inputs[2] is Slot,
        inputs[3] is Details,
        inputs[4] == ProbeInput::Submitted,
        inputs[5] is Command,
        states[4] is Submission,
        ({
            let kind = states[0]->Arguments_kind;
            let (fd, count) = inputs[0]->Arguments_values->Some_0;
            let event = states[4]->Submission_event;
            &&& states[4].asks() == (ProbeAction::Submit { event })
            &&& event.timestamp_ns == inputs[1]->Caller_now
            &&& event.pid_tgid == inputs[1]->Caller_pid_tgid
            &&& event.uid_gid == inputs[3]->Details_uid_gid
            &&& event.fd == fd
            &&& event.byte_count == count % 0x1_0000_0000
            &&& kind is Invalid ==> event.kind_raw == 0
            &&& kind is TtyWrite ==> event.kind_raw == 1
            &&& kind is TtyRead ==> event.kind_raw == 2
            &&& forall|i: int| #![auto]
                0 <= i < 16 ==> event.comm[i] == match inputs[3]->Details_comm {
                    Some(name) => name[i],
                    None => 0,
                }
            &&& forall|i: int| #![auto] 0 <= i < 12 ==> event._pad[i] == 0
        }),
        states[5].asks() == (ProbeAction::LookUpCommand {
            pid_tgid: inputs[1]->Caller_pid_tgid,
        }),
{
    assert(states[0].accepts(inputs[0]) && states[0].follows(inputs[0], states[1]));
    assert(inputs.len() > 1);
    assert(states[1].accepts(inputs[1]) && states[1].follows(inputs[1], states[2]));
    assert(inputs.len() > 2);
    assert(states[2].accepts(inputs[2]) && states[2].follows(inputs[2], states[3]));
    assert(inputs.len() > 3);
    assert(states[3].accepts(inputs[3]) && states[3].follows(inputs[3], states[4]));
    assert(inputs.len() > 4);
    assert(states[4].accepts(inputs[4]) && states[4].follows(inputs[4], states[5]));
    assert(inputs.len() > 5);
    assert(states[5].accepts(inputs[5]));
    let event = states[4]->Submission_event;
    assert forall|i: int| #![auto] 0 <= i < 16 implies event.comm[i] == match inputs[3]->Details_comm {
        Some(name) => name[i],
        None => 0,
    } by {
        match inputs[3]->Details_comm {
            Some(name) => assert(event.comm@[i] == name@[i]),
            None => assert(event.comm@[i] == 0),
        }
    }
    assert forall|i: int| #![auto] 0 <= i < 12 implies event._pad[i] == 0 by {
        assert(event._pad@[i] == 0);
    }
}

/// Law: a hit is passed over only for a reason. One that ends before its event
/// is submitted had arguments that could not be read, another descriptor than
/// the three standard ones, or found no room in the ring.
pub proof fn law_hits_are_passed_over_for_a_reason(
    states: Seq<ProbeState>,
    inputs: Seq<ProbeInput>,
)
    requires
        probe_run(states, inputs),
        states[0] is Arguments,
        states.last() is Done,
        forall|i: int| 0 <= i < states.len() ==> !(#[trigger] states[i] is Submission),
    ensures
        ({
            ||| inputs.len() == 1 && inputs[0] == (ProbeInput::Arguments { values: None })
            ||| inputs.len() == 1 && inputs[0]->Arguments_values->Some_0.0 > 2
            ||| inputs.len() == 3 && inputs[2] == (ProbeInput::Slot { reserved: false })
        }),
{
    assert(states[0].accepts(inputs[0]) && states[0].follows(inputs[0], states[1]));
    if inputs.len() > 1 {
        assert(states[1].accepts(inputs[1]) && states[1].follows(inputs[1], states[2]));
        assert(inputs.len() > 2);
        assert(states[2].accepts(inputs[2]) && states[2].follows(inputs[2], states[3]));
        if inputs.len() > 3 {
            assert(states[3].accepts(inputs[3]) && states[3].follows(inputs[3], states[4]));
            assert(states[4] is Submission);
        }
    }
}

/// How a wait goes on: while it lasts, every reading lay before the deadline.
proof fn lemma_wait(states: Seq<ProbeState>, inputs: Seq<ProbeInput>, deadline: u64, i: int)
    requires
        probe_run(states, inputs),
        states.len() > 6,
        states[6] == (ProbeState::Clock { deadline, reads: 0 }),
        6 <= i < states.len(),
    ensures
        forall|j: int| 6 <= j < i ==> #[trigger] inputs[j] is Clock,
        forall|j: int| 6 <= j < i - 1 ==> (#[trigger] inputs[j])->Clock_time < deadline,
        states[i] matches ProbeState::Clock { deadline: d, reads } ==> {
            &&& d == deadline
            &&& reads == i - 6 < MAX_CLOCK_READS
            &&& i > 6 ==> inputs[i - 1]->Clock_time < deadline
        },
        states[i] is Clock || states[i] is Done,
        states[i] is Done ==> {
            &&& i == inputs.len()
            &&& 1 <= i - 6 <= MAX_CLOCK_READS
            &&& inputs[i - 1]->Clock_time >= deadline || i - 6 == MAX_CLOCK_READS
        },
    decreases i,
{
    if i > 6 {
        lemma_wait(states, inputs, deadline, i - 1);
        assert(states[i - 1].accepts(inputs[i - 1]) && states[i - 1].follows(
            inputs[i - 1],
            states[i],
        ));
        if i < inputs.len() && states[i] is Done {
            assert(states[i].accepts(inputs[i]));
        }
    }
}

/// Law: a task with an active command is held for its delay. A hit at `now`
/// goes on reading the clock until a reading reaches `now` plus the delay, or
/// until it has read it 2000 times, and is released by that reading. The delay
/// in nanoseconds is taken modulo `2^64`, and the sum ends at `2^64 - 1`.
pub proof fn law_calls_are_held_for_the_delay(
    states: Seq<ProbeState>,
    inputs: Seq<ProbeInput>,
    command: JitterCommand,
)
    requires
        probe_run(states, inputs),
        states[0] is Arguments,
        states.last() is Done,
        inputs.len() >= 6,
        inputs[5] == (ProbeInput::Command { command: Some(command) }),
        command.active == 1,
    ensures
        inputs[1] is Caller,
        7 <= inputs.len() <= 2006,
        forall|j: int| 6 <= j < inputs.len() ==> #[trigger] inputs[j] is Clock,
        ({
            let wanted = inputs[1]->Caller_now + (1000 * command.delay_us)
                % 0x1_0000_0000_0000_0000;
            let end = if wanted > u64::MAX {
                u64::MAX as int
            } else {
                wanted
            };
            &&& inputs.last()->Clock_time >= end || inputs.len() == 2006
            &&& forall|j: int|
                6 <= j < inputs.len() - 1 ==> (#[trigger] inputs[j])->Clock_time < end
        }),
        inputs[1]->Caller_now + 1000 * command.delay_us <= u64::MAX ==> {
            let end = inputs[1]->Caller_now + 1000 * command.delay_us;
            &&& inputs.last()->Clock_time >= end || inputs.len() == 2006
            &&& forall|j: int|
                6 <= j < inputs.len() - 1 ==> (#[trigger] inputs[j])->Clock_time < end
        },
{
    lemma_first_six(states, inputs);
    assert(states[5].accepts(inputs[5]) && states[5].follows(inputs[5], states[6]));
    assert(command.delay_us * NS_PER_US == 1000 * command.delay_us) by (nonlinear_arith)
        requires
            NS_PER_US == 1000,
    ;
    let deadline = states[6]->Clock_deadline;
    lemma_wait(states, inputs, deadline, states.len() - 1);
}

/// Law: a task without a command, or with one that is not active, is not held.
pub proof fn law_other_calls_are_not_held(
    states: Seq<ProbeState>,
    inputs: Seq<ProbeInput>,
    command: Option<JitterCommand>,
)
    requires
        probe_run(states, inputs),
        states[0] is Arguments,
        inputs.len() >= 6,
        inputs[5] == (ProbeInput::Command { command }),
        command matches Some(c) ==> c.active != 1,
    ensures
        inputs.len() == 6,
        states[6].asks() == (ProbeAction::Finish { outcome: Ok(()) }),
{
    lemma_first_six(states, inputs);
    assert(states[5].accepts(inputs[5]) && states[5].follows(inputs[5], states[6]));
    if inputs.len() > 6 {
        assert(states[6].accepts(inputs[6]));
    }
}

/// A hit that comes to its sixth answer has gone through all states before.
proof fn lemma_first_six(states: Seq<ProbeState>, inputs: Seq<ProbeInput>)
    requires
        probe_run(states, inputs),
        states[0] is Arguments,
        inputs.len() >= 6,
    ensures
        inputs[1] is Caller,
        states[5] == (ProbeState::Command {
            pid_tgid: inputs[1]->Caller_pid_tgid,
            now: inputs[1]->Caller_now,
        }),
{
    assert(states[0].accepts(inputs[0]) && states[0].follows(inputs[0], states[1]));
    assert(states[1].accepts(inputs[1]) && states[1].follows(inputs[1], states[2]));
    assert(states[2].accepts(inputs[2]) && states[2].follows(inputs[2], states[3]));
    assert(states[3].accepts(inputs[3]) && states[3].follows(inputs[3], states[4]));
    assert(states[4].accepts(inputs[4]) && states[4].follows(inputs[4], states[5]));
}

/// Law: what is asked for is what the answer is awaited for, and a hit is
/// finished exactly where no answer is awaited.
pub proof fn law_questions_and_answers_agree(state: ProbeState, input: ProbeInput)
    requires
        state.accepts(input),
    ensures
        state.asks() is ReadArguments <==> input is Arguments,
        state.asks() is IdentifyCaller <==> input is Caller,
        state.asks() is ReserveSlot <==> input is Slot,
        state.asks() is ReadDetails <==> input is Details,
        state.asks() is Submit <==> input is Submitted,
        state.asks() is LookUpCommand <==> input is Command,
        state.asks() is ReadClock <==> input is Clock,
        !(state.asks() is Finish),
{
}

} // verus!
