use memtrack::artifacts::{MemtrackEvent, MemtrackEventKind};
use memtrack::bindings::{
    EVENT_SIZE, EVENT_TYPE_ALIGNED_ALLOC, EVENT_TYPE_BRK, EVENT_TYPE_CALLOC, EVENT_TYPE_EXEC,
    EVENT_TYPE_EXIT, EVENT_TYPE_FORK, EVENT_TYPE_FREE, EVENT_TYPE_MALLOC, EVENT_TYPE_MMAP,
    EVENT_TYPE_MUNMAP, EVENT_TYPE_REALLOC, EVENT_TYPE_RMAP, EVENT_TYPE_RSS, STACK_HEADER_SIZE,
    STACK_REG_COUNT,
};
use memtrack::events::{
    fp_chain, has_known_event_type, parse_event, parse_stack, stack_trace_key, AttachRequest,
};

/// The bytes of an event record with the given payload words.
fn event_bytes(event_type: u8, pid: u32, payload: &[u64]) -> Vec<u8> {
    let mut bytes = vec![event_type, 0, 0, 0, 0, 0, 0, 0];
    bytes.extend_from_slice(&12345678_u64.to_ne_bytes());
    bytes.extend_from_slice(&pid.to_ne_bytes());
    bytes.extend_from_slice(&2000_u32.to_ne_bytes());
    for word in payload {
        bytes.extend_from_slice(&word.to_ne_bytes());
    }
    bytes.resize(EVENT_SIZE, 0);
    bytes
}

/// A payload word whose first four bytes are a 32-bit field.
fn first_half(value: u32) -> u64 {
    let mut bytes = [0; 8];
    bytes[0..4].copy_from_slice(&value.to_ne_bytes());
    u64::from_ne_bytes(bytes)
}

#[test]
fn test_parse_realloc_event() {
    let bytes = event_bytes(EVENT_TYPE_REALLOC, 1000, &[0x1000, 0x2000, 256, 0xbeef]);

    let parsed = parse_event(&bytes).unwrap();
    assert_eq!(parsed.pid, 1000);
    assert_eq!(parsed.tid, 2000);
    assert_eq!(parsed.timestamp, 12345678);
    assert_eq!(parsed.addr, 0x2000);

    match parsed.kind {
        MemtrackEventKind::Realloc {
            old_addr,
            size,
            stack_hash,
        } => {
            assert_eq!(old_addr, Some(0x1000));
            assert_eq!(size, 256);
            assert_eq!(stack_hash, 0xbeef);
        }
        _ => panic!("Expected Realloc event kind"),
    }
}

#[test]
fn test_parse_malloc_event() {
    let bytes = event_bytes(EVENT_TYPE_MALLOC, 1000, &[0x1000, 128, 0x1234]);

    let parsed = parse_event(&bytes).unwrap();
    assert_eq!(parsed.pid, 1000);
    assert_eq!(parsed.tid, 2000);
    assert_eq!(parsed.timestamp, 12345678);
    assert_eq!(parsed.addr, 0x1000);

    match parsed.kind {
        MemtrackEventKind::Malloc { size, stack_hash } => {
            assert_eq!(size, 128);
            assert_eq!(stack_hash, 0x1234);
        }
        _ => panic!("Expected Malloc event kind"),
    }
}

#[test]
fn test_parse_rss_event() {
    let bytes = event_bytes(EVENT_TYPE_RSS, 1000, &[first_half(1), 4096 * 10]);

    let parsed = parse_event(&bytes).unwrap();
    assert_eq!(parsed.pid, 1000);
    assert_eq!(parsed.addr, 0);

    match parsed.kind {
        MemtrackEventKind::Rss { member, size } => {
            assert_eq!(member, 1);
            assert_eq!(size, 4096 * 10);
        }
        _ => panic!("Expected Rss event kind"),
    }
}

#[test]
fn test_parse_rmap_event() {
    let bytes = event_bytes(EVENT_TYPE_RMAP, 1000, &[first_half(3), 8, 0x7f00]);

    let parsed = parse_event(&bytes).unwrap();
    assert_eq!(parsed.pid, 1000);
    assert_eq!(parsed.addr, 0x7f00);

    match parsed.kind {
        MemtrackEventKind::Rmap { member, delta } => {
            assert_eq!(member, 3);
            assert_eq!(delta, 8);
        }
        _ => panic!("Expected Rmap event kind"),
    }
}

#[test]
fn test_parse_fork_event() {
    let bytes = event_bytes(EVENT_TYPE_FORK, 1001, &[first_half(1000)]);

    let parsed = parse_event(&bytes).unwrap();
    assert_eq!(parsed.pid, 1001);

    match parsed.kind {
        MemtrackEventKind::Fork { parent_pid } => {
            assert_eq!(parent_pid, 1000);
        }
        _ => panic!("Expected Fork event kind"),
    }
}

#[test]
fn every_other_event_type_is_decoded() {
    let words = [0x10, 0x20, 0x30, 0x40];
    let cases = [
        (
            EVENT_TYPE_FREE,
            0x10,
            MemtrackEventKind::Free { stack_hash: 0x20 },
        ),
        (
            EVENT_TYPE_CALLOC,
            0x10,
            MemtrackEventKind::Calloc {
                size: 0x20,
                stack_hash: 0x30,
            },
        ),
        (
            EVENT_TYPE_ALIGNED_ALLOC,
            0x10,
            MemtrackEventKind::AlignedAlloc {
                size: 0x20,
                stack_hash: 0x30,
            },
        ),
        (EVENT_TYPE_MMAP, 0x10, MemtrackEventKind::Mmap { size: 0x20 }),
        (
            EVENT_TYPE_MUNMAP,
            0x10,
            MemtrackEventKind::Munmap { size: 0x20 },
        ),
        (EVENT_TYPE_BRK, 0x10, MemtrackEventKind::Brk { size: 0x20 }),
        (EVENT_TYPE_EXEC, 0, MemtrackEventKind::Exec),
        (EVENT_TYPE_EXIT, 0, MemtrackEventKind::Exit),
    ];
    for (event_type, addr, kind) in cases {
        assert_eq!(
            parse_event(&event_bytes(event_type, 1000, &words)),
            Some(MemtrackEvent {
                pid: 1000,
                tid: 2000,
                timestamp: 12345678,
                addr,
                kind,
            })
        );
    }
}

#[test]
fn negative_fields_are_decoded() {
    let bytes = event_bytes(
        EVENT_TYPE_RMAP,
        u32::MAX,
        &[first_half(u32::MAX), u64::MAX, 0x7f00],
    );
    let parsed = parse_event(&bytes).unwrap();
    assert_eq!(parsed.pid, -1);
    assert_eq!(
        parsed.kind,
        MemtrackEventKind::Rmap {
            member: -1,
            delta: -1
        }
    );
}

#[test]
fn a_truncated_event_is_none_and_an_unknown_one_is_told() {
    let bytes = event_bytes(EVENT_TYPE_EXEC, 1, &[]);
    assert!(parse_event(&bytes[..EVENT_SIZE - 1]).is_none());
    assert!(parse_event(&bytes).is_some());

    assert!(has_known_event_type(&bytes));
    assert!(has_known_event_type(&[]));
    assert!(!has_known_event_type(&event_bytes(0, 1, &[])));
    assert!(!has_known_event_type(&event_bytes(14, 1, &[])));
}

/// The bytes of a stack record.
fn encode(copy_len: u32, payload: &[u8]) -> Vec<u8> {
    let mut data = Vec::new();
    data.extend_from_slice(&0x0123_4567_89ab_cdef_u64.to_ne_bytes());
    data.extend_from_slice(&987_654_321_u64.to_ne_bytes());
    data.extend_from_slice(&(-17_i64).to_ne_bytes());
    data.extend_from_slice(&0x7fff_1234_5000_u64.to_ne_bytes());
    data.extend_from_slice(&41_u32.to_ne_bytes());
    data.extend_from_slice(&42_u32.to_ne_bytes());
    data.extend_from_slice(&copy_len.to_ne_bytes());
    data.extend_from_slice(&[1, 0, 0, 0]);
    for index in 0..STACK_REG_COUNT {
        data.extend_from_slice(&(0x1000 + index as u64).to_ne_bytes());
    }
    assert_eq!(data.len(), STACK_HEADER_SIZE);
    data.extend_from_slice(payload);
    data
}

#[test]
fn events_well_formed_record_round_trips_every_field() {
    let payload = [1, 2, 3, 4, 5];

    let (event, stackid) = parse_stack(&encode(5, &payload)).unwrap();
    assert_eq!(event.pid, 41);
    assert_eq!(event.tid, 42);
    assert_eq!(event.timestamp, 987_654_321);
    assert_eq!(event.addr, 0);
    assert_eq!(stackid, -17);

    let MemtrackEventKind::Stack { record } = event.kind else {
        panic!("expected Stack event");
    };

    assert_eq!(record.hash, 0x0123_4567_89ab_cdef);
    assert_eq!(record.sp, 0x7fff_1234_5000);
    let regs: Vec<u64> = (0..STACK_REG_COUNT as u64).map(|i| 0x1000 + i).collect();
    assert_eq!(record.regs, regs);
    assert_eq!(record.bytes, payload);
    assert!(record.fp_chain.is_empty());
    assert!(record.truncated);
}

#[test]
fn events_truncated_buffer_returns_none() {
    let data = vec![0; STACK_HEADER_SIZE - 1];
    assert!(parse_stack(&data).is_none());
}

#[test]
fn missing_payload_returns_none() {
    assert!(parse_stack(&encode(4, &[1, 2, 3])).is_none());
}

#[test]
fn bytes_behind_a_stack_record_are_ignored() {
    let (event, _) = parse_stack(&encode(2, &[1, 2, 3])).unwrap();
    let MemtrackEventKind::Stack { record } = event.kind else {
        panic!("expected Stack event");
    };
    assert_eq!(record.bytes, [1, 2]);
}

fn words(values: &[u64]) -> Vec<u8> {
    let mut bytes = Vec::new();
    for value in values {
        bytes.extend_from_slice(&value.to_ne_bytes());
    }
    bytes
}

#[test]
fn a_frame_pointer_walk_ends_at_the_first_zero() {
    let value = words(&[0x10, 0x20, 0, 0x30]);
    assert_eq!(fp_chain(3, Some(&value)), vec![0x10, 0x20]);

    let full = words(&[1, 2, 3]);
    assert_eq!(fp_chain(0, Some(&full)), vec![1, 2, 3]);
    assert_eq!(fp_chain(0, Some(&full[..23])), vec![1, 2]);
    assert_eq!(fp_chain(0, Some(&[])), vec![]);
}

#[test]
fn a_missing_walk_is_empty() {
    let value = words(&[0x10]);
    assert_eq!(fp_chain(3, None), vec![]);
    assert_eq!(fp_chain(-14, Some(&value)), vec![]);
    assert_eq!(fp_chain(1 << 32, Some(&value)), vec![]);
}

#[test]
fn stack_ids_that_are_errors_have_no_key() {
    assert_eq!(stack_trace_key(0), Some(0));
    assert_eq!(stack_trace_key(4_294_967_295), Some(u32::MAX));
    assert_eq!(stack_trace_key(4_294_967_296), None);
    assert_eq!(stack_trace_key(-1), None);
}

#[test]
fn an_attach_request_is_decoded() {
    let mut bytes = Vec::new();
    bytes.extend_from_slice(&7_u32.to_ne_bytes());
    bytes.extend_from_slice(&[0; 4]);
    bytes.extend_from_slice(&0x1_0002_u64.to_ne_bytes());
    bytes.extend_from_slice(&4242_u64.to_ne_bytes());

    assert_eq!(
        AttachRequest::parse(&bytes),
        Some(AttachRequest {
            pid: 7,
            dev: 0x1_0002,
            ino: 4242
        })
    );
    assert_eq!(AttachRequest::parse(&bytes[..23]), None);
}
