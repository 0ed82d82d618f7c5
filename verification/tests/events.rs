use ghost_hunter::events::{
    cast_event, CastError, EventKind, TtyEvent, TTY_EVENT_ALIGN, TTY_EVENT_SIZE,
};

fn record(event: &TtyEvent) -> Vec<u8> {
    let mut bytes = Vec::new();
    bytes.extend_from_slice(&event.timestamp_ns.to_le_bytes());
    bytes.extend_from_slice(&event.pid_tgid.to_le_bytes());
    bytes.extend_from_slice(&event.uid_gid.to_le_bytes());
    bytes.extend_from_slice(&event.fd.to_le_bytes());
    bytes.extend_from_slice(&event.byte_count.to_le_bytes());
    bytes.extend_from_slice(&event.kind_raw.to_le_bytes());
    bytes.extend_from_slice(&event.comm);
    bytes.extend_from_slice(&event._pad);
    bytes
}

fn sample() -> TtyEvent {
    TtyEvent {
        timestamp_ns: 0x0102_0304_0506_0708,
        pid_tgid: 0x1112_1314_1516_1718,
        uid_gid: 0xfffe_fdfc_fbfa_f9f8,
        fd: 0x2122_2324,
        byte_count: 0xff31_3233,
        kind_raw: 2,
        comm: *b"bash\0\0\0\0\0\0\0\0\0\0\0z",
        _pad: [1, 2, 3, 4, 5, 6, 7, 8, 9, 10, 11, 12],
    }
}

#[test]
fn record_is_read_back_field_by_field() {
    let bytes = record(&sample());
    assert_eq!(bytes.len(), TTY_EVENT_SIZE);
    let event = match cast_event(&bytes, 4096) {
        Ok(event) => event,
        Err(e) => panic!("rejected: {:?}", e),
    };
    assert_eq!(event.timestamp_ns, 0x0102_0304_0506_0708);
    assert_eq!(event.pid_tgid, 0x1112_1314_1516_1718);
    assert_eq!(event.uid_gid, 0xfffe_fdfc_fbfa_f9f8);
    assert_eq!(event.fd, 0x2122_2324);
    assert_eq!(event.byte_count, 0xff31_3233);
    assert_eq!(event.kind_raw, 2);
    assert_eq!(&event.comm, b"bash\0\0\0\0\0\0\0\0\0\0\0z");
    assert_eq!(event._pad, [1, 2, 3, 4, 5, 6, 7, 8, 9, 10, 11, 12]);
    assert_eq!(record(&event), bytes);
}

#[test]
fn records_of_another_size_are_rejected() {
    let bytes = record(&sample());
    for got in [0usize, 1, 63, 65, 128] {
        let mut other = bytes.clone();
        other.resize(got, 0);
        assert_eq!(
            cast_event(&other, 4096).err(),
            Some(CastError::SizeMismatch { got, expected: 64 })
        );
    }
}

#[test]
fn misaligned_records_are_rejected() {
    let bytes = record(&sample());
    for address in [1usize, 4, 4097, 4100, 4103] {
        assert_eq!(
            cast_event(&bytes, address).err(),
            Some(CastError::Misaligned { address, align: 8 })
        );
    }
    assert!(cast_event(&bytes, 0).is_ok());
    assert!(cast_event(&bytes, 8).is_ok());
    assert_eq!(TTY_EVENT_SIZE % TTY_EVENT_ALIGN, 0);
}

#[test]
fn size_is_looked_at_before_alignment() {
    assert_eq!(
        cast_event(&[0; 3], 1).err(),
        Some(CastError::SizeMismatch { got: 3, expected: 64 })
    );
}

#[test]
fn kinds_follow_their_discriminants() {
    for (raw, kind) in [
        (0u32, EventKind::Invalid),
        (1, EventKind::TtyWrite),
        (2, EventKind::TtyRead),
        (3, EventKind::Invalid),
        (u32::MAX, EventKind::Invalid),
    ] {
        let event = TtyEvent { kind_raw: raw, ..sample() };
        assert_eq!(event.kind(), kind);
    }
    for kind in [EventKind::Invalid, EventKind::TtyWrite, EventKind::TtyRead] {
        let event = TtyEvent { kind_raw: kind.raw(), ..sample() };
        assert_eq!(event.kind(), kind);
    }
    assert_eq!(EventKind::TtyWrite.raw(), 1);
    assert_eq!(EventKind::TtyRead.raw(), 2);
}

#[test]
fn zeroed_record_is_no_event() {
    let event = match cast_event(&[0; 64], 64) {
        Ok(event) => event,
        Err(e) => panic!("rejected: {:?}", e),
    };
    assert_eq!(event.kind(), EventKind::Invalid);
}
