use ghost_hunter::events::CastError;
use ghost_hunter::loader::{RingInput, RingState, RingStop, SetupState, SetupStep};

fn setup_steps() -> [SetupStep; 9] {
    [
        SetupStep::LoadObject,
        SetupStep::AttachWrite,
        SetupStep::AttachRead,
        SetupStep::FindEvents,
        SetupStep::OpenEvents,
        SetupStep::WatchEvents,
        SetupStep::FindCommands,
        SetupStep::OpenCommands,
        SetupStep::HandOverCommands,
    ]
}

#[test]
fn setup_runs_its_steps_in_order() {
    let steps = setup_steps();
    let mut state = SetupState::start();
    for step in steps {
        assert_eq!(state, SetupState::Running { step });
        state = SetupState::advance(step, true);
    }
    assert_eq!(state, SetupState::Ready);
}

#[test]
fn failed_step_ends_the_setup() {
    for step in setup_steps() {
        assert_eq!(SetupState::advance(step, false), SetupState::Failed { step });
    }
}

#[test]
fn setup_steps_name_their_failures() {
    let contexts = [
        "failed to load gh-probe.o",
        "failed to attach gh_enter_write",
        "failed to attach gh_enter_read",
        "map GHOST_EVENTS not found in probe object",
        "failed to create RingBuf from GHOST_EVENTS",
        "failed to wrap RingBuf in AsyncFd",
        "map JITTER_CMDS not found in probe object",
        "failed to create HashMap from JITTER_CMDS",
        "main.rs dropped map_rx before loader could send JitterCmdsMap",
    ];
    for (step, context) in setup_steps().iter().zip(contexts) {
        assert_eq!(step.context(), context);
    }
}

fn timed_record(timestamp_ns: u64) -> Vec<u8> {
    let mut bytes = vec![0u8; 64];
    bytes[..8].copy_from_slice(&timestamp_ns.to_le_bytes());
    bytes
}

#[test]
fn records_are_forwarded_in_order() {
    let times = [7u64, 3, 3, 900, 0];
    let mut sent = Vec::new();
    let (mut state, _) = RingState::Idle.step(RingInput::Readable);
    for time in times {
        assert!(matches!(state, RingState::Draining { .. }));
        let record = timed_record(time);
        let (next, warning) = state.step(RingInput::Record { bytes: &record, address: 64 });
        assert_eq!(warning, None);
        match next {
            RingState::Sending { event, .. } => sent.push(event.timestamp_ns),
            _ => panic!("not sent"),
        }
        state = next.step(RingInput::Sent).0;
    }
    assert_eq!(sent, times);
    let (state, warning) = state.step(RingInput::NoRecord);
    assert_eq!(warning, None);
    assert!(matches!(state, RingState::Clearing { forwarded: 5 }));
    assert!(matches!(state.step(RingInput::Cleared).0, RingState::Idle));
}

#[test]
fn other_records_are_skipped_with_a_warning() {
    let state = RingState::Draining { forwarded: 2 };
    let short = [0u8; 10];
    let (next, warning) = state.step(RingInput::Record { bytes: &short, address: 64 });
    assert!(matches!(next, RingState::Draining { forwarded: 2 }));
    assert_eq!(warning, Some(CastError::SizeMismatch { got: 10, expected: 64 }));
    let record = timed_record(1);
    let (next, warning) = state.step(RingInput::Record { bytes: &record, address: 65 });
    assert!(matches!(next, RingState::Draining { forwarded: 2 }));
    assert_eq!(warning, Some(CastError::Misaligned { address: 65, align: 8 }));
}

#[test]
fn drain_loop_is_left_for_three_reasons() {
    let (state, _) = RingState::Idle.step(RingInput::Cancelled);
    assert!(matches!(state, RingState::Stopped { reason: RingStop::Cancelled }));
    let (state, _) = RingState::Idle.step(RingInput::WaitFailed);
    assert!(matches!(state, RingState::Stopped { reason: RingStop::WaitFailed }));
    let record = timed_record(1);
    let (state, _) = RingState::Draining { forwarded: 0 }
        .step(RingInput::Record { bytes: &record, address: 0 });
    let (state, _) = state.step(RingInput::ChannelClosed);
    assert!(matches!(state, RingState::Stopped { reason: RingStop::ChannelClosed }));
}
