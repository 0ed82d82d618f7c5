//! The event and command records that cross the kernel/user boundary.

use vstd::prelude::*;

verus! {

/// Size of a [`TtyEvent`] record, in bytes.
pub const TTY_EVENT_SIZE: usize = 64;

/// Alignment of a [`TtyEvent`] record, in bytes.
pub const TTY_EVENT_ALIGN: usize = 8;

/// Size of a [`JitterCommand`] record, in bytes.
pub const JITTER_COMMAND_SIZE: usize = 16;

/// Alignment of a [`JitterCommand`] record, in bytes.
pub const JITTER_COMMAND_ALIGN: usize = 8;

/// Discriminant for every event that the probe emits.
///
/// `Invalid` is the sentinel: a zeroed record is recognised as no event.
#[derive(Clone, Copy, Debug, PartialEq, Eq, Structural)]
pub enum EventKind {
    Invalid,
    TtyWrite,
    TtyRead,
}

impl EventKind {
    /// The discriminant as it stands in a record.
    pub open spec fn discriminant(self) -> u32 {
        match self {
            EventKind::Invalid => 0,
            EventKind::TtyWrite => 1,
            EventKind::TtyRead => 2,
        }
    }

    /// The discriminant as it stands in a record.
    pub fn raw(self) -> (r: u32)
        ensures
            r == self.discriminant(),
    {
        match self {
            EventKind::Invalid => 0,
            EventKind::TtyWrite => 1,
            EventKind::TtyRead => 2,
        }
    }
}

/// A single TTY read or write, as the probe records it.
///
/// In memory a record is 64 bytes, little-endian, without implicit padding:
///
/// ```text
/// offset  0  timestamp_ns (8)
/// offset  8  pid_tgid     (8)
/// offset 16  uid_gid      (8)
/// offset 24  fd           (4)
/// offset 28  byte_count   (4)
/// offset 32  kind_raw     (4)
/// offset 36  comm         (16)
/// offset 52  _pad         (12)
/// ```
#[derive(Clone, Copy, Debug)]
pub struct TtyEvent {
    /// Monotonic kernel timestamp in nanoseconds.
    pub timestamp_ns: u64,
    /// `(tgid << 32) | pid`.
    pub pid_tgid: u64,
    /// `(gid << 32) | uid`.
    pub uid_gid: u64,
    /// File descriptor of the operation.
    pub fd: u32,
    /// Number of bytes transferred.
    pub byte_count: u32,
    /// Raw event discriminant; see [`TtyEvent::kind`].
    pub kind_raw: u32,
    /// Process name, NUL-padded.
    pub comm: [u8; 16],
    /// Explicit padding, zeroed.
    pub _pad: [u8; 12],
}

/// A command that user space writes to control jitter injection.
///
/// In memory a record is 16 bytes, little-endian, without implicit padding:
///
/// ```text
/// offset  0  delay_us      (8)
/// offset  8  lambda_scaled (4)
/// offset 12  active        (1)
/// offset 13  _pad          (3)
/// ```
#[derive(Clone, Copy, Debug)]
pub struct JitterCommand {
    /// Base delay to inject, in microseconds.
    pub delay_us: u64,
    /// The rate parameter in thousandths.
    pub lambda_scaled: u32,
    /// `1` injects jitter, `0` passes through.
    pub active: u8,
    /// Explicit padding, zeroed.
    pub _pad: [u8; 3],
}

/// The number that bytes stand for, the least significant byte first.
pub open spec fn little_endian(bytes: Seq<u8>) -> int
    decreases bytes.len(),
{
    if bytes.len() == 0 {
        0
    } else {
        bytes[0] + 256 * little_endian(bytes.drop_first())
    }
}

/// The first `width` bytes of a number, the least significant first.
pub open spec fn le_bytes(x: int, width: nat) -> Seq<u8>
    decreases width,
{
    if width == 0 {
        Seq::empty()
    } else {
        seq![(x % 256) as u8] + le_bytes(x / 256, (width - 1) as nat)
    }
}

impl TtyEvent {
    /// The record as it lies in memory.
    pub open spec fn layout(self) -> Seq<u8> {
        le_bytes(self.timestamp_ns as int, 8) + le_bytes(self.pid_tgid as int, 8) + le_bytes(
            self.uid_gid as int,
            8,
        ) + le_bytes(self.fd as int, 4) + le_bytes(self.byte_count as int, 4) + le_bytes(
            self.kind_raw as int,
            4,
        ) + self.comm@ + self._pad@
    }

    /// Whether this is the event that the bytes hold, field by field.
    pub open spec fn held_by(self, bytes: Seq<u8>) -> bool {
        &&& self.timestamp_ns == little_endian(bytes.subrange(0, 8))
        &&& self.pid_tgid == little_endian(bytes.subrange(8, 16))
        &&& self.uid_gid == little_endian(bytes.subrange(16, 24))
        &&& self.fd == little_endian(bytes.subrange(24, 28))
        &&& self.byte_count == little_endian(bytes.subrange(28, 32))
        &&& self.kind_raw == little_endian(bytes.subrange(32, 36))
        &&& self.comm@ == bytes.subrange(36, 52)
        &&& self._pad@ == bytes.subrange(52, 64)
    }

    /// The kind that a raw discriminant stands for.
    pub open spec fn kind_of(raw: u32) -> EventKind {
        if raw == 1 {
            EventKind::TtyWrite
        } else if raw == 2 {
            EventKind::TtyRead
        } else {
            EventKind::Invalid
        }
    }

    /// Converts the raw discriminant to a typed kind.
    pub fn kind(&self) -> (r: EventKind)
        ensures
            r == Self::kind_of(self.kind_raw),
    {
        match self.kind_raw {
            1 => EventKind::TtyWrite,
            2 => EventKind::TtyRead,
            _ => EventKind::Invalid,
        }
    }
}

impl JitterCommand {
    /// The record as it lies in memory.
    pub open spec fn layout(self) -> Seq<u8> {
        le_bytes(self.delay_us as int, 8) + le_bytes(self.lambda_scaled as int, 4) + seq![
            self.active,
        ] + self._pad@
    }

    /// Whether this is the command that the bytes hold, field by field.
    pub open spec fn held_by(self, bytes: Seq<u8>) -> bool {
        &&& self.delay_us == little_endian(bytes.subrange(0, 8))
        &&& self.lambda_scaled == little_endian(bytes.subrange(8, 12))
        &&& self.active == bytes[12]
        &&& self._pad@ == bytes.subrange(13, 16)
    }
}

/// Why bytes are not an event record.
#[derive(Clone, Copy, Debug, PartialEq, Eq, Structural)]
pub enum CastError {
    SizeMismatch { got: usize, expected: usize },
    Misaligned { address: usize, align: usize },
}

/// The little-endian number in `width` bytes from `start`.
fn read_number(bytes: &[u8], start: usize, width: usize) -> (r: u64)
    requires
        start + width <= bytes.len(),
        width <= 8,
    ensures
        r == little_endian(bytes@.subrange(start as int, start + width)),
        width == 4 ==> r <= u32::MAX,
{
    let mut value: u64 = 0;
    let mut i: usize = width;
    proof {
        lemma_powers_of_256();
        assert(bytes@.subrange(start + width, start + width) =~= Seq::<u8>::empty());
    }
    while i > 0
        invariant
            i <= width <= 8,
            start + width <= bytes.len(),
            value == little_endian(bytes@.subrange(start + i, start + width)),
            value < vstd::arithmetic::power::pow(256, (width - i) as nat),
        decreases i,
    {
        let ghost tail = bytes@.subrange(start + i, start + width);
        let ghost longer = bytes@.subrange(start + i - 1, start + width);
        proof {
            assert(longer.drop_first() =~= tail);
            lemma_powers_of_256();
            reveal_with_fuel(vstd::arithmetic::power::pow, 9);
        }
        i = i - 1;
        value = value * 256 + bytes[start + i] as u64;
    }
    proof {
        lemma_powers_of_256();
    }
    value
}

proof fn lemma_powers_of_256()
    ensures
        vstd::arithmetic::power::pow(256, 0) == 1,
        vstd::arithmetic::power::pow(256, 1) == 0x100,
        vstd::arithmetic::power::pow(256, 2) == 0x1_0000,
        vstd::arithmetic::power::pow(256, 3) == 0x100_0000,
        vstd::arithmetic::power::pow(256, 4) == 0x1_0000_0000,
        vstd::arithmetic::power::pow(256, 5) == 0x100_0000_0000,
        vstd::arithmetic::power::pow(256, 6) == 0x1_0000_0000_0000,
        vstd::arithmetic::power::pow(256, 7) == 0x100_0000_0000_0000,
        vstd::arithmetic::power::pow(256, 8) == 0x1_0000_0000_0000_0000,
{
    reveal(vstd::arithmetic::power::pow);
    reveal_with_fuel(vstd::arithmetic::power::pow, 9);
}

/// Reads the event record that starts at `address`.
///
/// The record must have the exact size of an event and be aligned; its size
/// is looked at first.
pub fn cast_event(bytes: &[u8], address: usize) -> (r: Result<TtyEvent, CastError>)
    ensures
        match r {
            Ok(event) => {
                &&& bytes@.len() == TTY_EVENT_SIZE
                &&& address % TTY_EVENT_ALIGN == 0
                &&& event.held_by(bytes@)
            },
            Err(CastError::SizeMismatch { got, expected }) => {
                &&& bytes@.len() != TTY_EVENT_SIZE
                &&& got == bytes@.len()
                &&& expected == TTY_EVENT_SIZE
            },
            Err(CastError::Misaligned { address: at, align }) => {
                &&& bytes@.len() == TTY_EVENT_SIZE
                &&& address % TTY_EVENT_ALIGN != 0
                &&& at == address
                &&& align == TTY_EVENT_ALIGN
            },
        },
{
    if bytes.len() != TTY_EVENT_SIZE {
        return Err(CastError::SizeMismatch { got: bytes.len(), expected: TTY_EVENT_SIZE });
    }
    if address % TTY_EVENT_ALIGN != 0 {
        return Err(CastError::Misaligned { address, align: TTY_EVENT_ALIGN });
    }
    let mut comm: [u8; 16] = [0; 16];
    let mut i: usize = 0;
    while i < 16
        invariant
            i <= 16,
            bytes@.len() == TTY_EVENT_SIZE,
            forall|k: int| 0 <= k < i ==> comm@[k] == bytes@[36 + k],
        decreases 16 - i,
    {
        comm[i] = bytes[36 + i];
        i = i + 1;
    }
    let mut pad: [u8; 12] = [0; 12];
    let mut j: usize = 0;
    while j < 12
        invariant
            j <= 12,
            bytes@.len() == TTY_EVENT_SIZE,
            forall|k: int| 0 <= k < j ==> pad@[k] == bytes@[52 + k],
        decreases 12 - j,
    {
        pad[j] = bytes[52 + j];
        j = j + 1;
    }
    let event = TtyEvent {
        timestamp_ns: read_number(bytes, 0, 8),
        pid_tgid: read_number(bytes, 8, 8),
        uid_gid: read_number(bytes, 16, 8),
        fd: read_number(bytes, 24, 4) as u32,
        byte_count: read_number(bytes, 28, 4) as u32,
        kind_raw: read_number(bytes, 32, 4) as u32,
        comm,
        _pad: pad,
    };
    proof {
        assert(event.comm@ =~= bytes@.subrange(36, 52));
        assert(event._pad@ =~= bytes@.subrange(52, 64));
    }
    Ok(event)
}

/// Reading back what `le_bytes` wrote gives the number.
proof fn lemma_number_read_back(x: int, width: nat)
    requires
        0 <= x < vstd::arithmetic::power::pow(256, width),
    ensures
        le_bytes(x, width).len() == width,
        little_endian(le_bytes(x, width)) == x,
    decreases width,
{
    reveal(vstd::arithmetic::power::pow);
    if width > 0 {
        let rest = le_bytes(x / 256, (width - 1) as nat);
        assert(vstd::arithmetic::power::pow(256, width) == 256 * vstd::arithmetic::power::pow(
            256,
            (width - 1) as nat,
        ));
        lemma_number_read_back(x / 256, (width - 1) as nat);
        assert(le_bytes(x, width).drop_first() =~= rest);
    }
}

/// Law: a record takes 64 bytes, a multiple of eight, and is read back as the
/// event that was laid out.
pub proof fn law_layout_read_back(event: TtyEvent)
    ensures
        event.layout().len() == TTY_EVENT_SIZE,
        TTY_EVENT_SIZE % TTY_EVENT_ALIGN == 0,
        event.held_by(event.layout()),
{
    lemma_powers_of_256();
    lemma_number_read_back(event.timestamp_ns as int, 8);
    lemma_number_read_back(event.pid_tgid as int, 8);
    lemma_number_read_back(event.uid_gid as int, 8);
    lemma_number_read_back(event.fd as int, 4);
    lemma_number_read_back(event.byte_count as int, 4);
    lemma_number_read_back(event.kind_raw as int, 4);
    let bytes = event.layout();
    assert(bytes.subrange(0, 8) =~= le_bytes(event.timestamp_ns as int, 8));
    assert(bytes.subrange(8, 16) =~= le_bytes(event.pid_tgid as int, 8));
    assert(bytes.subrange(16, 24) =~= le_bytes(event.uid_gid as int, 8));
    assert(bytes.subrange(24, 28) =~= le_bytes(event.fd as int, 4));
    assert(bytes.subrange(28, 32) =~= le_bytes(event.byte_count as int, 4));
    assert(bytes.subrange(32, 36) =~= le_bytes(event.kind_raw as int, 4));
    assert(bytes.subrange(36, 52) =~= event.comm@);
    assert(bytes.subrange(52, 64) =~= event._pad@);
}

/// Law: a command takes 16 bytes, a multiple of eight, and is read back as the
/// command that was laid out; bytes hold at most one command.
pub proof fn law_command_read_back(command: JitterCommand, other: JitterCommand)
    ensures
        command.layout().len() == JITTER_COMMAND_SIZE,
        JITTER_COMMAND_SIZE % JITTER_COMMAND_ALIGN == 0,
        command.held_by(command.layout()),
        other.held_by(command.layout()) ==> other == command,
{
    lemma_powers_of_256();
    lemma_number_read_back(command.delay_us as int, 8);
    lemma_number_read_back(command.lambda_scaled as int, 4);
    let bytes = command.layout();
    assert(bytes.subrange(0, 8) =~= le_bytes(command.delay_us as int, 8));
    assert(bytes.subrange(8, 12) =~= le_bytes(command.lambda_scaled as int, 4));
    assert(bytes.subrange(13, 16) =~= command._pad@);
    if other.held_by(bytes) {
        assert(other._pad =~= command._pad);
    }
}

/// Law: every field of a command stands at its offset in the record, the least
/// significant byte first.
pub proof fn law_command_fields_stand_at_their_offsets(command: JitterCommand, bytes: Seq<u8>)
    requires
        bytes.len() == 16,
        command.held_by(bytes),
    ensures
        command.delay_us == bytes[0] + 0x100 * bytes[1] + 0x1_0000 * bytes[2] + 0x100_0000
            * bytes[3] + 0x1_0000_0000 * bytes[4] + 0x100_0000_0000 * bytes[5] + 0x1_0000_0000_0000
            * bytes[6] + 0x100_0000_0000_0000 * bytes[7],
        command.lambda_scaled == bytes[8] + 0x100 * bytes[9] + 0x1_0000 * bytes[10] + 0x100_0000
            * bytes[11],
        command.active == bytes[12],
        command._pad@[0] == bytes[13] && command._pad@[1] == bytes[14] && command._pad@[2]
            == bytes[15],
{
    lemma_eight_bytes(bytes.subrange(0, 8));
    lemma_four_bytes(bytes.subrange(8, 12));
}

/// Law: bytes hold at most one event.
pub proof fn law_one_event_per_record(bytes: Seq<u8>, a: TtyEvent, b: TtyEvent)
    requires
        a.held_by(bytes),
        b.held_by(bytes),
    ensures
        a == b,
{
    assert(a.comm =~= b.comm);
    assert(a._pad =~= b._pad);
}

/// Law: every field of an event stands at its offset in the record, the least
/// significant byte first.
pub proof fn law_fields_stand_at_their_offsets(event: TtyEvent, bytes: Seq<u8>)
    requires
        bytes.len() == 64,
        event.held_by(bytes),
    ensures
        event.timestamp_ns == bytes[0] + 0x100 * bytes[1] + 0x1_0000 * bytes[2] + 0x100_0000
            * bytes[3] + 0x1_0000_0000 * bytes[4] + 0x100_0000_0000 * bytes[5] + 0x1_0000_0000_0000
            * bytes[6] + 0x100_0000_0000_0000 * bytes[7],
        event.pid_tgid == bytes[8] + 0x100 * bytes[9] + 0x1_0000 * bytes[10] + 0x100_0000
            * bytes[11] + 0x1_0000_0000 * bytes[12] + 0x100_0000_0000 * bytes[13]
            + 0x1_0000_0000_0000 * bytes[14] + 0x100_0000_0000_0000 * bytes[15],
        event.uid_gid == bytes[16] + 0x100 * bytes[17] + 0x1_0000 * bytes[18] + 0x100_0000
            * bytes[19] + 0x1_0000_0000 * bytes[20] + 0x100_0000_0000 * bytes[21]
            + 0x1_0000_0000_0000 * bytes[22] + 0x100_0000_0000_0000 * bytes[23],
        event.fd == bytes[24] + 0x100 * bytes[25] + 0x1_0000 * bytes[26] + 0x100_0000 * bytes[27],
        event.byte_count == bytes[28] + 0x100 * bytes[29] + 0x1_0000 * bytes[30] + 0x100_0000
            * bytes[31],
        event.kind_raw == bytes[32] + 0x100 * bytes[33] + 0x1_0000 * bytes[34] + 0x100_0000
            * bytes[35],
        forall|i: int| 0 <= i < 16 ==> #[trigger] event.comm@[i] == bytes[36 + i],
        forall|i: int| 0 <= i < 12 ==> #[trigger] event._pad@[i] == bytes[52 + i],
{
    lemma_eight_bytes(bytes.subrange(0, 8));
    lemma_eight_bytes(bytes.subrange(8, 16));
    lemma_eight_bytes(bytes.subrange(16, 24));
    lemma_four_bytes(bytes.subrange(24, 28));
    lemma_four_bytes(bytes.subrange(28, 32));
    lemma_four_bytes(bytes.subrange(32, 36));
}

proof fn lemma_four_bytes(b: Seq<u8>)
    requires
        b.len() == 4,
    ensures
        little_endian(b) == b[0] + 0x100 * b[1] + 0x1_0000 * b[2] + 0x100_0000 * b[3],
{
    reveal_with_fuel(little_endian, 5);
}

proof fn lemma_eight_bytes(b: Seq<u8>)
    requires
        b.len() == 8,
    ensures
        little_endian(b) == b[0] + 0x100 * b[1] + 0x1_0000 * b[2] + 0x100_0000 * b[3]
            + 0x1_0000_0000 * b[4] + 0x100_0000_0000 * b[5] + 0x1_0000_0000_0000 * b[6]
            + 0x100_0000_0000_0000 * b[7],
{
    reveal_with_fuel(little_endian, 9);
}

/// Law: the kinds have the numbers zero, one and two, and every other number
/// stands for no event.
pub proof fn law_kinds_by_number(raw: u32)
    ensures
        EventKind::Invalid.discriminant() == 0,
        EventKind::TtyWrite.discriminant() == 1,
        EventKind::TtyRead.discriminant() == 2,
        TtyEvent::kind_of(1) == EventKind::TtyWrite,
        TtyEvent::kind_of(2) == EventKind::TtyRead,
        raw != 1 && raw != 2 ==> TtyEvent::kind_of(raw) == EventKind::Invalid,
{
}

/// Law: every kind is read back from its discriminant, and zeroed memory is
/// recognised as no event.
pub proof fn law_kind_read_back(kind: EventKind)
    ensures
        TtyEvent::kind_of(kind.discriminant()) == kind,
        TtyEvent::kind_of(0) == EventKind::Invalid,
{
}

} // verus!
