use memtrack::mapping_records::{resolve_mappings, MappingRecord};
use std::collections::HashMap;

#[test]
fn records_well_formed_record_round_trips_every_field() {
    let mut bytes = Vec::new();
    for word in [
        0x1_0002_u64,
        4242,
        0x2000,
        0x5555_5555_0000,
        0x5555_5556_0000,
        987_654_321,
    ] {
        bytes.extend_from_slice(&word.to_ne_bytes());
    }
    bytes.extend_from_slice(&7_u32.to_ne_bytes());
    bytes.extend_from_slice(&0_u32.to_ne_bytes());

    assert_eq!(
        MappingRecord::parse(&bytes),
        Some(MappingRecord {
            pid: 7,
            dev: 0x1_0002,
            ino: 4242,
            file_offset: 0x2000,
            start: 0x5555_5555_0000,
            end: 0x5555_5556_0000,
            timestamp: 987_654_321,
        })
    );
}

#[test]
fn records_truncated_buffer_returns_none() {
    assert!(MappingRecord::parse(&[0u8; 8]).is_none());
}

fn record(dev: u64, ino: u64) -> MappingRecord {
    MappingRecord {
        pid: 5,
        dev,
        ino,
        file_offset: 0x1000,
        start: 0x4000,
        end: 0x8000,
        timestamp: 42,
    }
}

#[test]
fn resolves_records_against_the_path_cache() {
    let paths = HashMap::from([((1, 2), "/lib/libc.so.6".to_string())]);

    let mappings = resolve_mappings(vec![record(1, 2)], &paths);

    assert_eq!(mappings.len(), 1);
    assert_eq!(mappings[0].path, "/lib/libc.so.6");
    assert_eq!(mappings[0].avma_range, 0x4000..0x8000);
    assert_eq!(mappings[0].file_offset, 0x1000);
    assert_eq!(mappings[0].pid, 5);
}

/// A module we cannot name is a module we cannot read, so it must not reach
/// the artifact as an empty path.
#[test]
fn drops_records_without_a_resolved_path() {
    assert!(resolve_mappings(vec![record(9, 9)], &HashMap::new()).is_empty());
}

#[test]
fn resolved_records_keep_their_order() {
    let paths = HashMap::from([
        ((1, 1), "/a".to_string()),
        ((1, 3), "/c".to_string()),
        ((3, 1), "/d".to_string()),
    ]);
    let mappings = resolve_mappings(
        vec![record(1, 3), record(1, 2), record(3, 1), record(1, 1)],
        &paths,
    );
    let names: Vec<&str> = mappings.iter().map(|m| m.path.as_str()).collect();
    assert_eq!(names, vec!["/c", "/d", "/a"]);
    assert_eq!(mappings[1].dev, 3);
    assert_eq!(mappings[1].ino, 1);
    assert_eq!(mappings[1].timestamp, 42);
}
