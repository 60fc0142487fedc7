use memtrack::artifacts::{MemtrackEvent, MemtrackEventKind};
use memtrack::bytes::{read_u16, read_u32, read_u64};
use memtrack::cpus::CpuListError;
use memtrack::perf_mappings::parse_mmap2;
use memtrack::perf_open::{ring_attr, ring_plan, OpenStep, RingPlan, StartError, StartStep};
use memtrack::perf_ring::{
    copy_from_ring, drain, handle_record, ring_mapping_len, unread_spans, RingError, RingGeometry,
    UnreadSpans,
};
use perf_event_open_sys::bindings::{
    perf_event_mmap_page, PERF_RECORD_LOST, PERF_RECORD_MMAP2,
};

/// An mmap2 record for `path`, which is NUL-terminated.
fn mmap2(path: &[u8], prot: u32, timestamp: u64) -> Vec<u8> {
    let mut record = vec![0; 72 + path.len() + 16];
    record[0..4].copy_from_slice(&PERF_RECORD_MMAP2.to_ne_bytes());
    let size = record.len() as u16;
    record[6..8].copy_from_slice(&size.to_ne_bytes());
    record[8..12].copy_from_slice(&7_u32.to_ne_bytes());
    record[12..16].copy_from_slice(&8_u32.to_ne_bytes());
    record[16..24].copy_from_slice(&0x4000_u64.to_ne_bytes());
    record[24..32].copy_from_slice(&0x2000_u64.to_ne_bytes());
    record[32..40].copy_from_slice(&0x1000_u64.to_ne_bytes());
    record[40..44].copy_from_slice(&1_u32.to_ne_bytes());
    record[44..48].copy_from_slice(&2_u32.to_ne_bytes());
    record[48..56].copy_from_slice(&42_u64.to_ne_bytes());
    record[64..68].copy_from_slice(&prot.to_ne_bytes());
    record[72..72 + path.len()].copy_from_slice(path);
    let time_offset = record.len() - 8;
    record[time_offset..].copy_from_slice(&timestamp.to_ne_bytes());
    record
}

fn event(path: &str, timestamp: u64) -> MemtrackEvent {
    MemtrackEvent {
        pid: 7,
        tid: 8,
        timestamp,
        addr: 0x4000,
        kind: MemtrackEventKind::Mapping {
            path: path.into(),
            dev: (1 << 20) | 2,
            ino: 42,
            file_offset: 0x1000,
            len: 0x2000,
        },
    }
}

#[test]
fn parses_executable_mmap2() {
    let path = b"/tmp/module.so\0";
    let mut record = vec![0; 72 + path.len() + 16];
    record[0..4].copy_from_slice(&PERF_RECORD_MMAP2.to_ne_bytes());
    let size = record.len() as u16;
    record[6..8].copy_from_slice(&size.to_ne_bytes());
    record[8..12].copy_from_slice(&7_u32.to_ne_bytes());
    record[12..16].copy_from_slice(&8_u32.to_ne_bytes());
    record[16..24].copy_from_slice(&0x4000_u64.to_ne_bytes());
    record[24..32].copy_from_slice(&0x2000_u64.to_ne_bytes());
    record[32..40].copy_from_slice(&0x1000_u64.to_ne_bytes());
    record[40..44].copy_from_slice(&1_u32.to_ne_bytes());
    record[44..48].copy_from_slice(&2_u32.to_ne_bytes());
    record[48..56].copy_from_slice(&42_u64.to_ne_bytes());
    record[64..68].copy_from_slice(&(libc::PROT_EXEC as u32).to_ne_bytes());
    record[72..72 + path.len()].copy_from_slice(path);
    let timestamp = 99_u64;
    let time_offset = record.len() - 8;
    record[time_offset..].copy_from_slice(&timestamp.to_ne_bytes());

    assert_eq!(
        parse_mmap2(&record),
        Some(MemtrackEvent {
            pid: 7,
            tid: 8,
            timestamp,
            addr: 0x4000,
            kind: MemtrackEventKind::Mapping {
                path: "/tmp/module.so".into(),
                dev: (1 << 20) | 2,
                ino: 42,
                file_offset: 0x1000,
                len: 0x2000,
            },
        })
    );
}

#[test]
fn other_mmap2_records_are_none() {
    let exec = libc::PROT_EXEC as u32;
    // Not executable.
    assert_eq!(parse_mmap2(&mmap2(b"/a\0", libc::PROT_READ as u32, 1)), None);
    // No absolute path.
    assert_eq!(parse_mmap2(&mmap2(b"[vdso]\0", exec, 1)), None);
    assert_eq!(parse_mmap2(&mmap2(b"\0", exec, 1)), None);
    // No terminator.
    assert_eq!(parse_mmap2(&mmap2(b"/abc", exec, 1)), None);
    // Not UTF-8.
    assert_eq!(parse_mmap2(&mmap2(b"/\xff\0", exec, 1)), None);
    // Another type, another size, cut short.
    let mut other = mmap2(b"/a\0", exec, 1);
    other[0..4].copy_from_slice(&PERF_RECORD_LOST.to_ne_bytes());
    assert_eq!(parse_mmap2(&other), None);
    let mut sized = mmap2(b"/a\0", exec, 1);
    sized[6..8].copy_from_slice(&90_u16.to_ne_bytes());
    assert_eq!(parse_mmap2(&sized), None);
    assert_eq!(parse_mmap2(&mmap2(b"/a\0", exec, 1)[..87]), None);
}

#[test]
fn the_path_ends_at_the_first_nul() {
    let record = mmap2("/caf\u{e9}\0\0\0".as_bytes(), libc::PROT_EXEC as u32, 5);
    assert_eq!(parse_mmap2(&record), Some(event("/caf\u{e9}", 5)));
}

#[test]
fn integers_are_read_within_bounds_only() {
    let bytes = 0x0102_0304_0506_0708_u64.to_ne_bytes();
    assert_eq!(read_u64(&bytes, 0), Some(0x0102_0304_0506_0708));
    assert_eq!(read_u64(&bytes, 1), None);
    assert_eq!(
        read_u32(&bytes, 4),
        Some(u32::from_ne_bytes([bytes[4], bytes[5], bytes[6], bytes[7]]))
    );
    assert_eq!(read_u32(&bytes, 5), None);
    assert_eq!(
        read_u16(&bytes, 6),
        Some(u16::from_ne_bytes([bytes[6], bytes[7]]))
    );
    assert_eq!(read_u16(&bytes, 7), None);
    assert_eq!(read_u16(&[], 0), None);
    assert_eq!(read_u16(&bytes, usize::MAX), None);
}

#[test]
fn the_ring_wraps() {
    let data = [0, 1, 2, 3, 4, 5, 6, 7];
    assert_eq!(copy_from_ring(&data, 0, 8), vec![0, 1, 2, 3, 4, 5, 6, 7]);
    assert_eq!(copy_from_ring(&data, 14, 4), vec![6, 7, 0, 1]);
    assert_eq!(copy_from_ring(&data, u64::MAX, 2), vec![7, 0]);
}

#[test]
fn ring_mappings_are_sized_by_pages() {
    assert_eq!(ring_mapping_len(4096), Ok(65 * 4096));
    assert_eq!(ring_mapping_len(usize::MAX), Err(RingError::MappingSizeOverflow));
    assert_eq!(ring_mapping_len(16), Err(RingError::MappingTooSmall));
    assert_eq!(ring_mapping_len(0), Err(RingError::MappingTooSmall));
    assert_eq!(std::mem::size_of::<perf_event_mmap_page>(), 1088);
    assert_eq!(ring_mapping_len(17), Ok(1105));
}

#[test]
fn ring_geometry_is_checked() {
    let len = 65 * 4096;
    let ring = RingGeometry::new(4096, len, 4096, 64 * 4096).unwrap();
    assert_eq!(ring.data_offset(), 4096);
    assert_eq!(ring.data_size(), 64 * 4096);

    let check = |offset, size| RingGeometry::new(4096, len, offset, size).unwrap_err();
    assert_eq!(check(0, 4096), RingError::InvalidDataOffset);
    assert_eq!(check(5000, 4096), RingError::InvalidDataOffset);
    assert_eq!(check(4096, 0), RingError::InvalidDataSize);
    assert_eq!(check(4096, 6144), RingError::InvalidDataSize);
    assert_eq!(check(4096, 3 * 4096), RingError::InvalidDataSize);
    assert_eq!(check(4096, 128 * 4096), RingError::OutsideMapping);
    assert_eq!(
        check(1 << 63, 1 << 63),
        RingError::DataRangeOverflow
    );
}

#[test]
fn records_are_handled_by_type() {
    let mut mappings = Vec::new();
    let mut lost = u64::MAX;

    handle_record(
        &mmap2(b"/a\0", libc::PROT_EXEC as u32, 3),
        &mut mappings,
        &mut lost,
    );
    assert_eq!(mappings, vec![event("/a", 3)]);
    assert_eq!(lost, u64::MAX);

    let mut loss = vec![0; 24];
    loss[0..4].copy_from_slice(&PERF_RECORD_LOST.to_ne_bytes());
    loss[16..24].copy_from_slice(&5_u64.to_ne_bytes());
    handle_record(&loss, &mut mappings, &mut lost);
    assert_eq!(lost, 4);
    handle_record(&loss[..23], &mut mappings, &mut lost);
    assert_eq!(lost, 5);

    handle_record(&[1, 2, 3], &mut mappings, &mut lost);
    handle_record(&[0; 40], &mut mappings, &mut lost);
    assert_eq!(mappings.len(), 1);
    assert_eq!(lost, 5);
}

/// A ring of `size` bytes with `bytes` written from position `tail` on.
fn ring_with(size: usize, tail: u64, bytes: &[u8]) -> Vec<u8> {
    let mut data = vec![0xaa; size];
    for (i, byte) in bytes.iter().enumerate() {
        data[(tail.wrapping_add(i as u64) % size as u64) as usize] = *byte;
    }
    data
}

#[test]
fn every_record_in_the_ring_is_delivered() {
    let exec = libc::PROT_EXEC as u32;
    let mut stream = mmap2(b"/a\0", exec, 1);
    stream.extend(mmap2(b"[vdso]\0", exec, 2));
    let mut loss = vec![0; 24];
    loss[0..4].copy_from_slice(&PERF_RECORD_LOST.to_ne_bytes());
    loss[6..8].copy_from_slice(&24_u16.to_ne_bytes());
    loss[16..24].copy_from_slice(&9_u64.to_ne_bytes());
    stream.extend(loss);
    stream.extend(mmap2(b"/b\0", exec, 3));

    for tail in [0, 500, u64::MAX - 100] {
        let head = tail.wrapping_add(stream.len() as u64);
        let data = ring_with(512, tail, &stream);
        let mut mappings = vec![event("/before", 0)];
        let mut lost = 1;
        assert_eq!(drain(&data, head, tail, &mut mappings, &mut lost), head);
        assert_eq!(
            mappings,
            vec![event("/before", 0), event("/a", 1), event("/b", 3)]
        );
        assert_eq!(lost, 10);
    }
}

#[test]
fn an_empty_ring_yields_nothing() {
    let data = vec![0xaa; 64];
    let mut mappings = Vec::new();
    let mut lost = 0;
    assert_eq!(drain(&data, 17, 17, &mut mappings, &mut lost), 17);
    assert!(mappings.is_empty());
    assert_eq!(lost, 0);
}

#[test]
fn a_lapped_ring_is_one_loss() {
    let exec = libc::PROT_EXEC as u32;
    let data = ring_with(128, 0, &mmap2(b"/a\0", exec, 1));
    let mut mappings = Vec::new();
    let mut lost = 0;
    assert_eq!(drain(&data, 129, 0, &mut mappings, &mut lost), 129);
    assert!(mappings.is_empty());
    assert_eq!(lost, 1);
}

#[test]
fn a_corrupt_record_ends_the_pass() {
    let exec = libc::PROT_EXEC as u32;
    let good = mmap2(b"/a\0", exec, 1);
    for (tail_bytes, size) in [(4, 0), (16, 7_u16), (16, 17), (16, 0)] {
        let mut stream = good.clone();
        let mut broken = vec![0; tail_bytes];
        if tail_bytes >= 8 {
            broken[6..8].copy_from_slice(&size.to_ne_bytes());
        }
        stream.extend(broken);
        let data = ring_with(256, 0, &stream);
        let mut mappings = Vec::new();
        let mut lost = 0;
        let head = stream.len() as u64;
        assert_eq!(drain(&data, head, 0, &mut mappings, &mut lost), head);
        assert_eq!(mappings, vec![event("/a", 1)]);
        assert_eq!(lost, 1);
    }
}

#[test]
fn rings_ask_for_mappings_with_process_and_time() {
    let attr = ring_attr();
    assert_eq!(attr.type_, 1);
    assert_eq!(attr.config, 9);
    assert_eq!(attr.sample_type, 2 | 4);
    assert_eq!(attr.read_format, 0);
    assert_eq!(attr.wakeup_events, 1);
    assert_eq!(attr.clockid, libc::CLOCK_MONOTONIC);
    assert!(attr.disabled && attr.inherit && attr.mmap);
    assert!(attr.sample_id_all && attr.mmap2 && attr.use_clockid);
}

#[test]
fn a_failed_opening_releases_what_it_holds() {
    assert_eq!(OpenStep::OpenEvent.next(false), OpenStep::Failed);
    assert_eq!(OpenStep::OpenEvent.next(true), OpenStep::MapRing);
    assert_eq!(OpenStep::MapRing.next(false), OpenStep::CloseEvent);
    assert_eq!(OpenStep::MapRing.next(true), OpenStep::CheckRing);
    assert_eq!(OpenStep::CheckRing.next(false), OpenStep::UnmapRing);
    assert_eq!(OpenStep::CheckRing.next(true), OpenStep::Ready);
    assert_eq!(OpenStep::UnmapRing.next(true), OpenStep::CloseEvent);
    assert_eq!(OpenStep::CloseEvent.next(true), OpenStep::Failed);
}

#[test]
fn rings_are_planned_for_every_online_cpu() {
    assert_eq!(
        ring_plan(4096, Some("0-1,3\n")),
        Ok(RingPlan {
            page_size: 4096,
            cpus: vec![0, 1, 3]
        })
    );
    assert_eq!(ring_plan(0, Some("0")), Err(StartError::PageSize));
    assert_eq!(ring_plan(-1, None), Err(StartError::PageSize));
    assert_eq!(ring_plan(4096, None), Err(StartError::OnlineCpus));
    assert_eq!(
        ring_plan(4096, Some("\n")),
        Err(StartError::CpuList(CpuListError::EmptyRange))
    );
}

/// The steps in which `rings` rings are brought up, until `bad` fails.
fn start(rings: usize, bad: Option<StartStep>) -> Vec<StartStep> {
    let mut steps = vec![StartStep::Open(0)];
    loop {
        let step = *steps.last().unwrap();
        if step == StartStep::Running || step == StartStep::Failed {
            return steps;
        }
        steps.push(step.next(rings, Some(step) != bad));
    }
}

#[test]
fn every_ring_is_opened_before_one_is_enabled() {
    assert_eq!(
        start(2, None),
        vec![
            StartStep::Open(0),
            StartStep::Open(1),
            StartStep::Enable(0),
            StartStep::Enable(1),
            StartStep::Running,
        ]
    );
    for bad in [
        StartStep::Open(0),
        StartStep::Open(1),
        StartStep::Enable(0),
        StartStep::Enable(1),
    ] {
        let steps = start(2, Some(bad));
        assert_eq!(steps[steps.len() - 2..], [bad, StartStep::Failed]);
    }
}

#[test]
fn the_unread_bytes_lie_in_at_most_two_spans() {
    let spans = |start, first, second| UnreadSpans {
        start,
        first,
        second,
    };
    assert_eq!(unread_spans(64, 10, 10), spans(10, 0, 0));
    assert_eq!(unread_spans(64, 30, 10), spans(10, 20, 0));
    assert_eq!(unread_spans(64, 80, 50), spans(50, 14, 16));
    assert_eq!(unread_spans(64, 64, 0), spans(0, 64, 0));
    assert_eq!(unread_spans(64, 5, u64::MAX - 4), spans(59, 5, 5));
    assert_eq!(unread_spans(64, 75, 10), spans(10, 0, 0));
}

#[test]
fn only_unread_bytes_matter() {
    let record = mmap2(b"/a\0", libc::PROT_EXEC as u32, 1);
    let tail = 100;
    let head = tail + record.len() as u64;
    let data = ring_with(128, tail, &record);
    let spans = unread_spans(128, head, tail);
    let mut copy = vec![0; 128];
    let first = spans.start..spans.start + spans.first;
    copy[first.clone()].copy_from_slice(&data[first]);
    copy[..spans.second].copy_from_slice(&data[..spans.second]);
    assert_ne!(copy, data);

    let (mut from_data, mut from_copy) = (Vec::new(), Vec::new());
    let mut lost = 0;
    drain(&data, head, tail, &mut from_data, &mut lost);
    drain(&copy, head, tail, &mut from_copy, &mut lost);
    assert_eq!(from_data, vec![event("/a", 1)]);
    assert_eq!(from_copy, from_data);
    assert_eq!(lost, 0);
}
