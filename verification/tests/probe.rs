use ghost_hunter::events::{EventKind, JitterCommand, TtyEvent};
use ghost_hunter::probe::{
    ProbeAction, ProbeInput, ProbeState, MAX_CLOCK_READS, MAX_STEPS, UNREADABLE,
};

/// What the kernel answers in the course of a hit.
struct Kernel {
    arguments: Option<(u64, u64)>,
    pid_tgid: u64,
    now: u64,
    room: bool,
    uid_gid: u64,
    comm: Option<[u8; 16]>,
    command: Option<JitterCommand>,
    /// How far the clock moves with each reading.
    tick: u64,
}

struct Hit {
    submitted: Vec<TtyEvent>,
    looked_up: Vec<u64>,
    clock_reads: u32,
    steps: u32,
    outcome: Result<(), i64>,
}

fn kernel() -> Kernel {
    Kernel {
        arguments: Some((1, 80)),
        pid_tgid: (77 << 32) | 78,
        now: 5_000_000,
        room: true,
        uid_gid: (1000 << 32) | 1001,
        comm: Some(*b"bash\0\0\0\0\0\0\0\0\0\0\0\0"),
        command: None,
        tick: 1,
    }
}

fn handle(kind: EventKind, kernel: &Kernel) -> Hit {
    let mut hit = Hit {
        submitted: Vec::new(),
        looked_up: Vec::new(),
        clock_reads: 0,
        steps: 0,
        outcome: Err(-1),
    };
    let mut clock = kernel.now;
    let mut state = ProbeState::enter(kind);
    loop {
        let input = match state.action() {
            ProbeAction::ReadArguments => ProbeInput::Arguments { values: kernel.arguments },
            ProbeAction::IdentifyCaller => {
                ProbeInput::Caller { pid_tgid: kernel.pid_tgid, now: kernel.now }
            }
            ProbeAction::ReserveSlot => ProbeInput::Slot { reserved: kernel.room },
            ProbeAction::ReadDetails => {
                ProbeInput::Details { uid_gid: kernel.uid_gid, comm: kernel.comm }
            }
            ProbeAction::Submit { event } => {
                hit.submitted.push(event);
                ProbeInput::Submitted
            }
            ProbeAction::LookUpCommand { pid_tgid } => {
                hit.looked_up.push(pid_tgid);
                ProbeInput::Command { command: kernel.command }
            }
            ProbeAction::ReadClock => {
                hit.clock_reads += 1;
                clock = clock.saturating_add(kernel.tick);
                ProbeInput::Clock { time: clock }
            }
            ProbeAction::Finish { outcome } => {
                hit.outcome = outcome;
                return hit;
            }
        };
        state = state.step(input);
        hit.steps += 1;
        assert!(hit.steps <= MAX_STEPS);
    }
}

fn command(delay_us: u64, active: u8) -> Option<JitterCommand> {
    Some(JitterCommand { delay_us, lambda_scaled: 1000, active, _pad: [0; 3] })
}

#[test]
fn hit_on_a_standard_stream_is_recorded() {
    for fd in 0..3u64 {
        let kernel = Kernel { arguments: Some((fd, 0x1_0000_0050)), ..kernel() };
        let hit = handle(EventKind::TtyRead, &kernel);
        assert_eq!(hit.submitted.len(), 1);
        let event = hit.submitted[0];
        assert_eq!(event.timestamp_ns, 5_000_000);
        assert_eq!(event.pid_tgid, (77 << 32) | 78);
        assert_eq!(event.uid_gid, (1000 << 32) | 1001);
        assert_eq!(event.fd as u64, fd);
        assert_eq!(event.byte_count, 0x50);
        assert_eq!(event.kind(), EventKind::TtyRead);
        assert_eq!(&event.comm, b"bash\0\0\0\0\0\0\0\0\0\0\0\0");
        assert_eq!(event._pad, [0; 12]);
        assert_eq!(hit.looked_up, vec![(77u64 << 32) | 78]);
        assert_eq!(hit.clock_reads, 0);
        assert_eq!(hit.steps, 6);
    }
}

#[test]
fn write_is_recorded_as_a_write() {
    let hit = handle(EventKind::TtyWrite, &kernel());
    assert_eq!(hit.submitted[0].kind_raw, 1);
}

#[test]
fn other_descriptors_are_passed_over() {
    for fd in [3u64, 4, 0x1_0000_0000, u64::MAX] {
        let kernel =
            Kernel { arguments: Some((fd, 1)), command: command(1_000, 1), ..kernel() };
        let hit = handle(EventKind::TtyWrite, &kernel);
        assert!(hit.submitted.is_empty());
        assert!(hit.looked_up.is_empty());
        assert_eq!(hit.clock_reads, 0);
        assert_eq!(hit.steps, 1);
    }
}

#[test]
fn unreadable_arguments_end_the_hit() {
    let kernel = Kernel { arguments: None, command: command(1_000, 1), ..kernel() };
    let hit = handle(EventKind::TtyWrite, &kernel);
    assert!(hit.submitted.is_empty());
    assert_eq!(hit.clock_reads, 0);
    assert_eq!(hit.steps, 1);
    assert_eq!(hit.outcome, Err(0));
    assert_eq!(hit.outcome, Err(UNREADABLE));
}

#[test]
fn full_ring_drops_the_event_and_the_jitter() {
    let kernel = Kernel { room: false, command: command(1_000, 1), ..kernel() };
    let hit = handle(EventKind::TtyWrite, &kernel);
    assert!(hit.submitted.is_empty());
    assert!(hit.looked_up.is_empty());
    assert_eq!(hit.clock_reads, 0);
}

#[test]
fn missing_name_stays_zeroed() {
    let hit = handle(EventKind::TtyWrite, &Kernel { comm: None, ..kernel() });
    assert_eq!(hit.submitted[0].comm, [0; 16]);
}

#[test]
fn inactive_command_gives_no_jitter() {
    for active in [0u8, 2, 255] {
        let kernel = Kernel { command: command(1_000, active), ..kernel() };
        let hit = handle(EventKind::TtyWrite, &kernel);
        assert_eq!(hit.submitted.len(), 1);
        assert_eq!(hit.clock_reads, 0);
    }
}

#[test]
fn jitter_waits_for_the_deadline() {
    // 30 microseconds in ticks of 1000 ns: the 30th reading reaches it.
    let kernel = Kernel { command: command(30, 1), tick: 1_000, ..kernel() };
    let hit = handle(EventKind::TtyWrite, &kernel);
    assert_eq!(hit.submitted.len(), 1);
    assert_eq!(hit.clock_reads, 30);
    assert_eq!(hit.steps, 36);
    // No delay: one reading.
    let kernel = Kernel { command: command(0, 1), tick: 0, ..kernel };
    assert_eq!(handle(EventKind::TtyWrite, &kernel).clock_reads, 1);
}

#[test]
fn clock_is_read_a_bounded_number_of_times() {
    let kernel = Kernel { command: command(1_000_000, 1), tick: 0, ..kernel() };
    let hit = handle(EventKind::TtyWrite, &kernel);
    assert_eq!(hit.clock_reads, MAX_CLOCK_READS);
    assert_eq!(hit.clock_reads, 2_000);
    assert_eq!(hit.steps, MAX_STEPS);
}

#[test]
fn deadline_saturates() {
    let kernel =
        Kernel { command: command(10, 1), now: u64::MAX - 5, tick: 3, ..kernel() };
    let hit = handle(EventKind::TtyWrite, &kernel);
    assert_eq!(hit.clock_reads, 2);
}

#[test]
fn delay_in_nanoseconds_wraps_around() {
    // 2^61 microseconds are 1000 * 2^61 ns, a multiple of 2^64: no delay.
    let kernel = Kernel { command: command(1 << 61, 1), tick: 0, ..kernel() };
    assert_eq!(handle(EventKind::TtyWrite, &kernel).clock_reads, 1);
}

#[test]
fn every_hit_with_arguments_succeeds() {
    for kernel in [
        kernel(),
        Kernel { arguments: Some((3, 1)), ..kernel() },
        Kernel { room: false, ..kernel() },
        Kernel { comm: None, ..kernel() },
        Kernel { command: command(5, 1), ..kernel() },
        Kernel { command: command(5, 0), ..kernel() },
        Kernel { command: command(1_000_000, 1), tick: 0, ..kernel() },
    ] {
        assert_eq!(handle(EventKind::TtyRead, &kernel).outcome, Ok(()));
    }
}
