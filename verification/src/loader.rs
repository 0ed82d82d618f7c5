//! The loader: its setup, and the loop that drains the ring buffer.

use crate::events::{cast_event, CastError, TtyEvent, TTY_EVENT_ALIGN, TTY_EVENT_SIZE};
use vstd::prelude::*;

verus! {

/// A step of the setup.
#[derive(Clone, Copy, Debug, PartialEq, Eq, Structural)]
pub enum SetupStep {
    LoadObject,
    AttachWrite,
    AttachRead,
    FindEvents,
    OpenEvents,
    WatchEvents,
    FindCommands,
    OpenCommands,
    HandOverCommands,
}

/// Where the loader stands.
#[derive(Clone, Copy, Debug, PartialEq, Eq, Structural)]
pub enum SetupState {
    Running { step: SetupStep },
    /// The command map was handed over: the loop may start.
    Ready,
    Failed { step: SetupStep },
}

impl SetupStep {
    /// The position of a step in the setup.
    pub open spec fn position(self) -> int {
        match self {
            SetupStep::LoadObject => 0,
            SetupStep::AttachWrite => 1,
            SetupStep::AttachRead => 2,
            SetupStep::FindEvents => 3,
            SetupStep::OpenEvents => 4,
            SetupStep::WatchEvents => 5,
            SetupStep::FindCommands => 6,
            SetupStep::OpenCommands => 7,
            SetupStep::HandOverCommands => 8,
        }
    }

    /// The step that stands at a position.
    pub open spec fn at(position: int) -> SetupStep {
        if position <= 0 {
            SetupStep::LoadObject
        } else if position == 1 {
            SetupStep::AttachWrite
        } else if position == 2 {
            SetupStep::AttachRead
        } else if position == 3 {
            SetupStep::FindEvents
        } else if position == 4 {
            SetupStep::OpenEvents
        } else if position == 5 {
            SetupStep::WatchEvents
        } else if position == 6 {
            SetupStep::FindCommands
        } else if position == 7 {
            SetupStep::OpenCommands
        } else {
            SetupStep::HandOverCommands
        }
    }

    /// What is reported where the step fails.
    pub open spec fn failure(self) -> Seq<char> {
        match self {
            SetupStep::LoadObject => "failed to load gh-probe.o"@,
            SetupStep::AttachWrite => "failed to attach gh_enter_write"@,
            SetupStep::AttachRead => "failed to attach gh_enter_read"@,
            SetupStep::FindEvents => "map GHOST_EVENTS not found in probe object"@,
            SetupStep::OpenEvents => "failed to create RingBuf from GHOST_EVENTS"@,
            SetupStep::WatchEvents => "failed to wrap RingBuf in AsyncFd"@,
            SetupStep::FindCommands => "map JITTER_CMDS not found in probe object"@,
            SetupStep::OpenCommands => "failed to create HashMap from JITTER_CMDS"@,
            SetupStep::HandOverCommands => "main.rs dropped map_rx before loader could send JitterCmdsMap"@,
        }
    }

    /// What is reported where the step fails.
    pub fn context(self) -> (r: &'static str)
        ensures
            r@ == self.failure(),
    {
        match self {
            SetupStep::LoadObject => "failed to load gh-probe.o",
            SetupStep::AttachWrite => "failed to attach gh_enter_write",
            SetupStep::AttachRead => "failed to attach gh_enter_read",
            SetupStep::FindEvents => "map GHOST_EVENTS not found in probe object",
            SetupStep::OpenEvents => "failed to create RingBuf from GHOST_EVENTS",
            SetupStep::WatchEvents => "failed to wrap RingBuf in AsyncFd",
            SetupStep::FindCommands => "map JITTER_CMDS not found in probe object",
            SetupStep::OpenCommands => "failed to create HashMap from JITTER_CMDS",
            SetupStep::HandOverCommands => "main.rs dropped map_rx before loader could send JitterCmdsMap",
        }
    }
}

impl SetupState {
    /// The state after a step: the next step, or the end of the setup.
    pub open spec fn after(step: SetupStep, succeeded: bool) -> SetupState {
        if !succeeded {
            SetupState::Failed { step }
        } else if step is HandOverCommands {
            SetupState::Ready
        } else {
            SetupState::Running { step: SetupStep::at(step.position() + 1) }
        }
    }

    /// The setup before its first step.
    pub fn start() -> (state: SetupState)
        ensures
            state == (SetupState::Running { step: SetupStep::at(0) }),
    {
        SetupState::Running { step: SetupStep::LoadObject }
    }

    /// The state after a step.
    pub fn advance(step: SetupStep, succeeded: bool) -> (state: SetupState)
        ensures
            state == Self::after(step, succeeded),
    {
        if !succeeded {
            return SetupState::Failed { step };
        }
        let next: SetupStep = match step {
            SetupStep::LoadObject => SetupStep::AttachWrite,
            SetupStep::AttachWrite => SetupStep::AttachRead,
            SetupStep::AttachRead => SetupStep::FindEvents,
            SetupStep::FindEvents => SetupStep::OpenEvents,
            SetupStep::OpenEvents => SetupStep::WatchEvents,
            SetupStep::WatchEvents => SetupStep::FindCommands,
            SetupStep::FindCommands => SetupStep::OpenCommands,
            SetupStep::OpenCommands => SetupStep::HandOverCommands,
            SetupStep::HandOverCommands => return SetupState::Ready,
        };
        SetupState::Running { step: next }
    }
}

/// The state of the setup once its first steps went as given.
pub open spec fn setup(results: Seq<bool>) -> SetupState
    decreases results.len(),
{
    if results.len() == 0 {
        SetupState::Running { step: SetupStep::at(0) }
    } else {
        match setup(results.drop_last()) {
            SetupState::Running { step } => SetupState::after(step, results.last()),
            ended => ended,
        }
    }
}

/// Law: the ring buffer is drained only after every step succeeded, the hand
/// over of the command map last; otherwise the first failure ends the setup.
pub proof fn law_setup_sequence(results: Seq<bool>)
    ensures
        match setup(results) {
            SetupState::Running { step } => {
                &&& step.position() == results.len()
                &&& forall|i: int| 0 <= i < results.len() ==> results[i]
            },
            SetupState::Ready => {
                &&& results.len() >= 9
                &&& forall|i: int| 0 <= i < 9 ==> results[i]
            },
            SetupState::Failed { step } => {
                &&& step.position() < results.len()
                &&& !results[step.position()]
                &&& forall|i: int| 0 <= i < step.position() ==> results[i]
            },
        },
    decreases results.len(),
{
    if results.len() > 0 {
        let shorter = results.drop_last();
        law_setup_sequence(shorter);
        assert forall|i: int| 0 <= i < shorter.len() implies results[i] == shorter[i] by {}
    }
}

/// What the drain loop waits for.
#[derive(Clone, Copy)]
pub enum RingState {
    /// Cancellation or data.
    Idle,
    /// The next record; `forwarded` events were sent since the wake-up.
    Draining { forwarded: usize },
    /// The event channel to take an event.
    Sending { forwarded: usize, event: TtyEvent },
    /// The ready flag to be cleared.
    Clearing { forwarded: usize },
    /// Nothing: the loop is left.
    Stopped { reason: RingStop },
}

/// Why the drain loop is left.
#[derive(Clone, Copy, Debug, PartialEq, Eq, Structural)]
pub enum RingStop {
    Cancelled,
    /// Waiting for data failed: the one reason that is an error.
    WaitFailed,
    ChannelClosed,
}

/// What the drain loop is told.
pub enum RingInput<'a> {
    Cancelled,
    WaitFailed,
    Readable,
    /// A record and the address at which it lies.
    Record { bytes: &'a [u8], address: usize },
    NoRecord,
    Sent,
    ChannelClosed,
    Cleared,
}

impl RingState {
    /// Whether an input answers what the state waits for.
    pub open spec fn accepts(self, input: RingInput<'_>) -> bool {
        match input {
            RingInput::Cancelled | RingInput::WaitFailed | RingInput::Readable => self is Idle,
            RingInput::Record { .. } | RingInput::NoRecord => self is Draining,
            RingInput::Sent | RingInput::ChannelClosed => self is Sending,
            RingInput::Cleared => self is Clearing,
        }
    }

    /// Whether bytes at an address are an event record.
    pub open spec fn is_record(bytes: Seq<u8>, address: usize) -> bool {
        bytes.len() == TTY_EVENT_SIZE && address % TTY_EVENT_ALIGN == 0
    }

    /// Whether `next` and `warning` follow on an accepted input: a record that
    /// is an event is sent on, any other is skipped with a warning.
    pub open spec fn follows(
        self,
        input: RingInput<'_>,
        next: RingState,
        warning: Option<CastError>,
    ) -> bool {
        match (self, input) {
            (RingState::Idle, RingInput::Cancelled) => {
                &&& next == RingState::Stopped { reason: RingStop::Cancelled }
                &&& warning is None
            },
            (RingState::Idle, RingInput::WaitFailed) => {
                &&& next == RingState::Stopped { reason: RingStop::WaitFailed }
                &&& warning is None
            },
            (RingState::Idle, RingInput::Readable) => {
                &&& next == RingState::Draining { forwarded: 0 }
                &&& warning is None
            },
            (RingState::Draining { forwarded }, RingInput::Record { bytes, address }) => {
                if Self::is_record(bytes@, address) {
                    &&& next matches RingState::Sending { forwarded: f, event }
                    &&& f == forwarded
                    &&& event.held_by(bytes@)
                    &&& warning is None
                } else {
                    &&& next == self
                    &&& warning == Some(
                        if bytes@.len() != TTY_EVENT_SIZE {
                            CastError::SizeMismatch {
                                got: bytes@.len() as usize,
                                expected: TTY_EVENT_SIZE,
                            }
                        } else {
                            CastError::Misaligned { address, align: TTY_EVENT_ALIGN }
                        },
                    )
                }
            },
            (RingState::Draining { forwarded }, RingInput::NoRecord) => {
                &&& next == RingState::Clearing { forwarded }
                &&& warning is None
            },
            (RingState::Sending { forwarded, .. }, RingInput::Sent) => {
                &&& next == RingState::Draining {
                    forwarded: if forwarded == usize::MAX {
                        0
                    } else {
                        (forwarded + 1) as usize
                    },
                }
                &&& warning is None
            },
            (RingState::Sending { .. }, RingInput::ChannelClosed) => {
                &&& next == RingState::Stopped { reason: RingStop::ChannelClosed }
                &&& warning is None
            },
            (RingState::Clearing { .. }, RingInput::Cleared) => {
                &&& next == RingState::Idle
                &&& warning is None
            },
            _ => false,
        }
    }

    /// Moves on with an input; a record that is no event gives a warning.
    pub fn step(self, input: RingInput<'_>) -> (r: (RingState, Option<CastError>))
        requires
            self.accepts(input),
        ensures
            self.follows(input, r.0, r.1),
    {
        match (self, input) {
            (RingState::Idle, RingInput::Cancelled) => (
                RingState::Stopped { reason: RingStop::Cancelled },
                None,
            ),
            (RingState::Idle, RingInput::WaitFailed) => (
                RingState::Stopped { reason: RingStop::WaitFailed },
                None,
            ),
            (RingState::Idle, RingInput::Readable) => (RingState::Draining { forwarded: 0 }, None),
            (RingState::Draining { forwarded }, RingInput::Record { bytes, address }) => {
                match cast_event(bytes, address) {
                    Ok(event) => (RingState::Sending { forwarded, event }, None),
                    Err(e) => (RingState::Draining { forwarded }, Some(e)),
                }
            },
            (RingState::Draining { forwarded }, RingInput::NoRecord) => (
                RingState::Clearing { forwarded },
                None,
            ),
            (RingState::Sending { forwarded, .. }, RingInput::Sent) => (
                RingState::Draining { forwarded: forwarded.wrapping_add(1) },
                None,
            ),
            (RingState::Sending { .. }, RingInput::ChannelClosed) => (
                RingState::Stopped { reason: RingStop::ChannelClosed },
                None,
            ),
            (RingState::Clearing { .. }, RingInput::Cleared) => (RingState::Idle, None),
            _ => (self, None),
        }
    }
}

/// Whether `states` and `warnings` are what the loop goes through on `inputs`.
pub open spec fn ring_run(
    states: Seq<RingState>,
    inputs: Seq<RingInput<'_>>,
    warnings: Seq<Option<CastError>>,
) -> bool {
    &&& states.len() == inputs.len() + 1
    &&& warnings.len() == inputs.len()
    &&& states[0] == RingState::Idle
    &&& forall|i: int|
        #![trigger inputs[i]]
        0 <= i < inputs.len() ==> states[i].accepts(inputs[i]) && states[i].follows(
            inputs[i],
            states[i + 1],
            warnings[i],
        )
}

/// The event records among the inputs.
pub open spec fn records_read(inputs: Seq<RingInput<'_>>) -> Seq<Seq<u8>>
    decreases inputs.len(),
{
    if inputs.len() == 0 {
        Seq::empty()
    } else {
        let before = records_read(inputs.drop_last());
        match inputs.last() {
            RingInput::Record { bytes, address } => if RingState::is_record(bytes@, address) {
                before.push(bytes@)
            } else {
                before
            },
            _ => before,
        }
    }
}

/// The events that the channel took, in a run through `states` on `inputs`.
pub open spec fn events_sent(states: Seq<RingState>, inputs: Seq<RingInput<'_>>) -> Seq<TtyEvent>
    decreases inputs.len(),
{
    if inputs.len() == 0 {
        Seq::empty()
    } else {
        let before = events_sent(states, inputs.drop_last());
        match inputs.last() {
            RingInput::Sent => before.push(states[inputs.len() - 1]->Sending_event),
            _ => before,
        }
    }
}

/// Law: no event record is lost, repeated or reordered. What the channel took
/// are the events that the records held, one for one and in their order, but
/// for the last where it is being sent or found the channel closed.
pub proof fn law_records_are_forwarded(
    states: Seq<RingState>,
    inputs: Seq<RingInput<'_>>,
    warnings: Seq<Option<CastError>>,
)
    requires
        ring_run(states, inputs, warnings),
    ensures
        records_read(inputs).len() == events_sent(states, inputs).len() + match states.last() {
            RingState::Sending { .. } => 1nat,
            RingState::Stopped { reason: RingStop::ChannelClosed } => 1nat,
            _ => 0nat,
        },
        forall|k: int|
            0 <= k < events_sent(states, inputs).len() ==> #[trigger] events_sent(
                states,
                inputs,
            )[k].held_by(records_read(inputs)[k]),
        states.last() matches RingState::Sending { event, .. } ==> event.held_by(
            records_read(inputs).last(),
        ),
    decreases inputs.len(),
{
    if inputs.len() > 0 {
        let shorter = inputs.drop_last();
        let before = states.drop_last();
        let earlier = warnings.drop_last();
        assert forall|i: int| #![trigger shorter[i]] 0 <= i < shorter.len() implies before[i].accepts(
            shorter[i],
        ) && before[i].follows(shorter[i], before[i + 1], earlier[i]) by {
            assert(inputs[i] == shorter[i]);
        }
        law_records_are_forwarded(before, shorter, earlier);
        lemma_events_sent_prefix(states, before, shorter);
        let n = inputs.len() - 1;
        assert(states[n].follows(inputs[n], states[n + 1], warnings[n]));
        assert(before.last() == states[n]);
    }
}

/// Only the states up to the last input count.
proof fn lemma_events_sent_prefix(
    states: Seq<RingState>,
    before: Seq<RingState>,
    inputs: Seq<RingInput<'_>>,
)
    requires
        before.len() >= inputs.len(),
        forall|i: int| 0 <= i < inputs.len() ==> before[i] == states[i],
    ensures
        events_sent(states, inputs) == events_sent(before, inputs),
    decreases inputs.len(),
{
    if inputs.len() > 0 {
        lemma_events_sent_prefix(states, before, inputs.drop_last());
    }
}

/// Law: every record of 64 bytes at an address that is a multiple of eight is
/// taken as an event and sent on, its fields as they stand in the record. Any
/// other record is skipped: draining goes on, with a warning that says what is
/// wrong, the size before the alignment.
pub proof fn law_every_record_is_taken(
    states: Seq<RingState>,
    inputs: Seq<RingInput<'_>>,
    warnings: Seq<Option<CastError>>,
    i: int,
)
    requires
        ring_run(states, inputs, warnings),
        0 <= i < inputs.len(),
        inputs[i] is Record,
    ensures
        ({
            let bytes = inputs[i]->Record_bytes@;
            let address = inputs[i]->Record_address;
            &&& states[i] is Draining
            &&& bytes.len() == 64 && address % 8 == 0 ==> {
                let event = states[i + 1]->Sending_event;
                &&& states[i + 1] is Sending
                &&& states[i + 1]->Sending_forwarded == states[i]->Draining_forwarded
                &&& warnings[i] is None
                &&& event.held_by(bytes)
            }
            &&& bytes.len() != 64 ==> {
                &&& states[i + 1] == states[i]
                &&& warnings[i] == Some(
                    CastError::SizeMismatch { got: bytes.len() as usize, expected: 64 },
                )
            }
            &&& bytes.len() == 64 && address % 8 != 0 ==> {
                &&& states[i + 1] == states[i]
                &&& warnings[i] == Some(CastError::Misaligned { address, align: 8 })
            }
        }),
{
    assert(states[i].accepts(inputs[i]) && states[i].follows(
        inputs[i],
        states[i + 1],
        warnings[i],
    ));
}

/// Law: the loop waits again after every wake-up and goes on after every event.
/// It is left only where it was cancelled, where waiting failed, or where the
/// channel was closed, for that reason, and is then over.
pub proof fn law_ring_goes_on(
    states: Seq<RingState>,
    inputs: Seq<RingInput<'_>>,
    warnings: Seq<Option<CastError>>,
    i: int,
)
    requires
        ring_run(states, inputs, warnings),
        0 <= i < inputs.len(),
    ensures
        states[i + 1] == (RingState::Stopped { reason: RingStop::Cancelled }) <==> inputs[i]
            is Cancelled,
        states[i + 1] == (RingState::Stopped { reason: RingStop::WaitFailed }) <==> inputs[i]
            is WaitFailed,
        states[i + 1] == (RingState::Stopped { reason: RingStop::ChannelClosed }) <==> inputs[i]
            is ChannelClosed,
        states[i + 1] is Stopped ==> i + 1 == inputs.len(),
        inputs[i] is Readable ==> states[i + 1] is Draining,
        inputs[i] is Sent ==> states[i + 1] is Draining,
        inputs[i] is NoRecord <==> states[i + 1] is Clearing,
        inputs[i] is Cleared <==> states[i + 1] is Idle,
        warnings[i] is Some ==> inputs[i] is Record,
{
    assert(states[i].accepts(inputs[i]) && states[i].follows(
        inputs[i],
        states[i + 1],
        warnings[i],
    ));
    if i + 1 < inputs.len() {
        assert(states[i + 1].accepts(inputs[i + 1]));
    }
}

/// How many events were sent since the last wake-up, by the first `count`
/// inputs.
pub open spec fn sent_since_wake_up(inputs: Seq<RingInput<'_>>, count: nat) -> nat
    decreases count,
{
    if count == 0 || inputs[count - 1] is Readable {
        0
    } else {
        sent_since_wake_up(inputs, (count - 1) as nat) + (if inputs[count - 1] is Sent {
            1nat
        } else {
            0nat
        })
    }
}

/// Law: the loop counts the events that it sent since the last wake-up.
pub proof fn law_ring_counts_its_events(
    states: Seq<RingState>,
    inputs: Seq<RingInput<'_>>,
    warnings: Seq<Option<CastError>>,
    i: nat,
)
    requires
        ring_run(states, inputs, warnings),
        i < states.len() <= u32::MAX,
    ensures
        sent_since_wake_up(inputs, i) <= i,
        match states[i as int] {
            RingState::Draining { forwarded } => forwarded == sent_since_wake_up(inputs, i),
            RingState::Sending { forwarded, .. } => forwarded == sent_since_wake_up(inputs, i),
            RingState::Clearing { forwarded } => forwarded == sent_since_wake_up(inputs, i),
            _ => true,
        },
    decreases i,
{
    if i > 0 {
        let k = (i - 1) as nat;
        law_ring_counts_its_events(states, inputs, warnings, k);
        assert(states[k as int].accepts(inputs[k as int]) && states[k as int].follows(
            inputs[k as int],
            states[i as int],
            warnings[k as int],
        ));
    }
}

/// Law: the setup takes its steps in one order, and each failure has a message
/// of its own.
pub proof fn law_setup_steps(step: SetupStep)
    ensures
        SetupState::after(step, false) == (SetupState::Failed { step }),
        SetupState::after(SetupStep::HandOverCommands, true) == SetupState::Ready,
        step !is HandOverCommands ==> {
            let next = SetupState::after(step, true);
            &&& next is Running
            &&& next->Running_step.position() == step.position() + 1
        },
        0 <= step.position() <= 8,
        SetupStep::at(step.position()) == step,
{
}

} // verus!
