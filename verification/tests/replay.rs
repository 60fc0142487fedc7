use memtrack::artifacts::{MemtrackEvent, MemtrackEventKind, ProcessMapping};
use memtrack::replay::read_mappings_from_artifact;

#[test]
fn extracts_all_mapping_events_from_a_streamed_artifact() {
    const FIRST_MODULE: &str = "first-module.so";
    const SECOND_MODULE: &str = "second-module.so";
    let events = vec![
        MemtrackEvent {
            pid: 1,
            tid: 1,
            timestamp: 10,
            addr: 0,
            kind: MemtrackEventKind::Malloc {
                size: 64,
                stack_hash: 0,
            },
        },
        MemtrackEvent {
            pid: 7,
            tid: 8,
            timestamp: 11,
            addr: 0x1000,
            kind: MemtrackEventKind::Mapping {
                path: FIRST_MODULE.to_string(),
                dev: 0x12_3456,
                ino: 0x789,
                file_offset: 0x5_2000,
                len: 0x2000,
            },
        },
        MemtrackEvent {
            pid: 9,
            tid: 10,
            timestamp: 12,
            addr: 0x4000,
            kind: MemtrackEventKind::Mapping {
                path: SECOND_MODULE.to_string(),
                dev: 0x65_4321,
                ino: 0xabc,
                file_offset: 0x7_000,
                len: 0x3000,
            },
        },
        MemtrackEvent {
            pid: 99,
            tid: 99,
            timestamp: 99,
            addr: u64::MAX,
            kind: MemtrackEventKind::Mapping {
                path: "overflow-module.so".to_string(),
                dev: 3,
                ino: 3,
                file_offset: 0,
                len: 1,
            },
        },
        MemtrackEvent {
            pid: 1,
            tid: 1,
            timestamp: 13,
            addr: 0x2000,
            kind: MemtrackEventKind::Free { stack_hash: 0 },
        },
    ];

    assert_eq!(
        read_mappings_from_artifact(events),
        vec![
            ProcessMapping {
                pid: 7,
                path: FIRST_MODULE.to_string(),
                dev: 0x12_3456,
                ino: 0x789,
                file_offset: 0x5_2000,
                avma_range: 0x1000..0x3000,
                timestamp: 11,
            },
            ProcessMapping {
                pid: 9,
                path: SECOND_MODULE.to_string(),
                dev: 0x65_4321,
                ino: 0xabc,
                file_offset: 0x7_000,
                avma_range: 0x4000..0x7000,
                timestamp: 12,
            },
        ]
    );
}

fn mapping_event(pid: i32, timestamp: u64, addr: u64, path: &str) -> MemtrackEvent {
    MemtrackEvent {
        pid,
        tid: pid,
        timestamp,
        addr,
        kind: MemtrackEventKind::Mapping {
            path: path.to_string(),
            dev: 1,
            ino: 1,
            file_offset: 0,
            len: 0x1000,
        },
    }
}

fn fork_event(child_pid: i32, parent_pid: i32, timestamp: u64) -> MemtrackEvent {
    MemtrackEvent {
        pid: child_pid,
        tid: child_pid,
        timestamp,
        addr: 0,
        kind: MemtrackEventKind::Fork { parent_pid },
    }
}

fn exec_event(pid: i32, timestamp: u64) -> MemtrackEvent {
    MemtrackEvent {
        pid,
        tid: pid,
        timestamp,
        addr: 0,
        kind: MemtrackEventKind::Exec,
    }
}

fn mapping_summary(mappings: &[ProcessMapping]) -> Vec<(i32, &str, u64)> {
    mappings
        .iter()
        .map(|mapping| (mapping.pid, mapping.path.as_str(), mapping.timestamp))
        .collect()
}

#[test]
fn fork_without_exec_inherits_only_mappings_before_fork() {
    let mappings = read_mappings_from_artifact(vec![
        mapping_event(100, 10, 0x1000, "before-fork.so"),
        fork_event(200, 100, 20),
        mapping_event(100, 30, 0x2000, "after-fork.so"),
    ]);

    assert_eq!(
        mapping_summary(&mappings),
        vec![
            (100, "before-fork.so", 10),
            (200, "before-fork.so", 20),
            (100, "after-fork.so", 30),
        ]
    );
}

#[test]
fn exec_stops_inheriting_parent_mappings() {
    let mappings = read_mappings_from_artifact(vec![
        mapping_event(100, 10, 0x1000, "before-fork.so"),
        fork_event(200, 100, 20),
        exec_event(200, 30),
        mapping_event(100, 40, 0x2000, "after-fork.so"),
        mapping_event(200, 50, 0x3000, "after-exec.so"),
    ]);

    assert_eq!(
        mapping_summary(&mappings),
        vec![
            (100, "before-fork.so", 10),
            (200, "before-fork.so", 20),
            (100, "after-fork.so", 40),
            (200, "after-exec.so", 50),
        ]
    );
}

#[test]
fn grandchild_inherits_transitively_from_forked_child() {
    let mappings = read_mappings_from_artifact(vec![
        mapping_event(100, 10, 0x1000, "root.so"),
        fork_event(200, 100, 20),
        mapping_event(200, 25, 0x2000, "child.so"),
        fork_event(300, 200, 30),
    ]);

    assert_eq!(
        mapping_summary(&mappings),
        vec![
            (100, "root.so", 10),
            (200, "root.so", 20),
            (200, "child.so", 25),
            (300, "root.so", 30),
            (300, "child.so", 30),
        ]
    );
}

#[test]
fn equal_timestamp_events_follow_exec_mapping_fork_rank() {
    let mappings = read_mappings_from_artifact(vec![
        mapping_event(100, 10, 0x1000, "before-exec.so"),
        fork_event(200, 100, 20),
        mapping_event(100, 20, 0x2000, "after-exec.so"),
        exec_event(100, 20),
    ]);

    assert_eq!(
        mapping_summary(&mappings),
        vec![
            (100, "before-exec.so", 10),
            (100, "after-exec.so", 20),
            (200, "after-exec.so", 20),
        ]
    );
}

#[test]
fn a_child_forked_after_an_exec_inherits_nothing_from_before() {
    let mappings = read_mappings_from_artifact(vec![
        mapping_event(100, 10, 0x1000, "old.so"),
        exec_event(100, 20),
        fork_event(200, 100, 30),
    ]);
    assert_eq!(mapping_summary(&mappings), vec![(100, "old.so", 10)]);
}

#[test]
fn a_reused_pid_starts_with_what_its_parent_has() {
    let mappings = read_mappings_from_artifact(vec![
        mapping_event(200, 5, 0x1000, "earlier-200.so"),
        fork_event(200, 100, 10),
        fork_event(300, 200, 20),
    ]);
    assert_eq!(mapping_summary(&mappings), vec![(200, "earlier-200.so", 5)]);
}

#[test]
fn the_order_of_the_stream_does_not_matter() {
    let forwards = vec![
        mapping_event(100, 10, 0x1000, "a.so"),
        mapping_event(100, 15, 0x3000, "b.so"),
        fork_event(200, 100, 20),
        exec_event(100, 25),
        fork_event(300, 200, 30),
    ];
    let mut backwards = forwards.clone();
    backwards.reverse();
    let expected = read_mappings_from_artifact(forwards);
    assert_eq!(
        mapping_summary(&expected),
        vec![
            (100, "a.so", 10),
            (100, "b.so", 15),
            (200, "a.so", 20),
            (200, "b.so", 20),
            (300, "a.so", 30),
            (300, "b.so", 30),
        ]
    );
    assert_eq!(read_mappings_from_artifact(backwards), expected);
}

#[test]
fn an_end_that_just_fits_is_kept() {
    let mut event = mapping_event(1, 1, 0, "top.so");
    event.addr = u64::MAX - 0x1000;
    let mappings = read_mappings_from_artifact(vec![event]);
    assert_eq!(mappings[0].avma_range, u64::MAX - 0x1000..u64::MAX);
    assert!(read_mappings_from_artifact(vec![]).is_empty());
}
