use memtrack::artifacts::{MemtrackEvent, MemtrackEventKind, ProcessMapping};
use memtrack::module_artifacts::{is_mapping_artifact, names_mapped_file, read_mappings, FileId};

fn mapping_for(path: &str, dev: u64, ino: u64) -> ProcessMapping {
    ProcessMapping {
        pid: 42,
        path: path.to_string(),
        dev,
        ino,
        file_offset: 0,
        avma_range: 0x1000..0x2000,
        timestamp: 7,
    }
}

/// What the metadata of the running executable could say.
fn current_exe() -> FileId {
    FileId {
        dev: libc::makedev(0x1_2345, 0xa_bcde),
        ino: 131_074,
    }
}

fn s_dev_of(file: FileId) -> (u64, u64) {
    let dev = u64::from(libc::major(file.dev)) << 20 | u64::from(libc::minor(file.dev));
    (dev, file.ino)
}

/// The recorded s_dev encoding and `st_dev` differ, so the check has to
/// decompose both or it rejects every module that did not change.
#[test]
fn accepts_a_file_that_still_has_the_recorded_inode() {
    let path = "/proc/self/exe";
    let (dev, ino) = s_dev_of(current_exe());
    assert_ne!(dev, current_exe().dev);

    assert!(names_mapped_file(
        &mapping_for(path, dev, ino),
        Some(current_exe())
    ));
}

#[test]
fn rejects_a_file_whose_inode_changed() {
    let path = "/proc/self/exe";
    let (dev, _) = s_dev_of(current_exe());

    assert!(!names_mapped_file(
        &mapping_for(path, dev, 0),
        Some(current_exe())
    ));
}

#[test]
fn rejects_a_path_that_no_longer_exists() {
    let path = "/nonexistent/module.so";

    assert!(!names_mapped_file(&mapping_for(path, 1, 2), None));
}

#[test]
fn rejects_a_file_on_another_device() {
    let (dev, ino) = s_dev_of(current_exe());
    assert!(!names_mapped_file(
        &mapping_for("/a", dev + 1, ino),
        Some(current_exe())
    ));
    assert!(!names_mapped_file(
        &mapping_for("/a", dev + (1 << 20), ino),
        Some(current_exe())
    ));
}

#[test]
fn sorts_interleaved_mapping_artifacts_by_pid_and_timestamp() {
    // Separate streams model records drained from different per-CPU rings.
    let names = ["cpu1.MemtrackArtifact.msgpack", "cpu0.MemtrackArtifact.msgpack"];
    assert!(names.iter().all(|name| is_mapping_artifact(name)));
    let cpu1 = vec![
        MemtrackEvent {
            pid: 42,
            tid: 42,
            timestamp: 20,
            addr: 0x2000,
            kind: MemtrackEventKind::Mapping {
                path: "second-module.so".to_string(),
                dev: 2,
                ino: 2,
                file_offset: 0x2000,
                len: 0x1000,
            },
        },
        MemtrackEvent {
            pid: 7,
            tid: 7,
            timestamp: 30,
            addr: 0x7000,
            kind: MemtrackEventKind::Mapping {
                path: "child-module.so".to_string(),
                dev: 3,
                ino: 3,
                file_offset: 0x3000,
                len: 0x1000,
            },
        },
    ];
    let cpu0 = vec![MemtrackEvent {
        pid: 42,
        tid: 42,
        timestamp: 10,
        addr: 0x1000,
        kind: MemtrackEventKind::Mapping {
            path: "first-module.so".to_string(),
            dev: 1,
            ino: 1,
            file_offset: 0x1000,
            len: 0x1000,
        },
    }];

    let swapped = read_mappings(vec![cpu0.clone(), cpu1.clone()]);
    let mappings = read_mappings(vec![cpu1, cpu0]);
    assert_eq!(
        mappings
            .iter()
            .map(|mapping| (mapping.pid, mapping.timestamp))
            .collect::<Vec<_>>(),
        vec![(7, 30), (42, 10), (42, 20)]
    );
    assert_eq!(mappings[0].path, "child-module.so");
    assert_eq!(mappings[1].path, "first-module.so");
    assert_eq!(mappings[2].path, "second-module.so");
    assert_eq!(swapped, mappings);
}

#[test]
fn artifacts_are_known_by_their_names() {
    assert!(is_mapping_artifact("1234.MemtrackArtifact.msgpack"));
    assert!(is_mapping_artifact(".MemtrackArtifact.msgpack"));
    assert!(!is_mapping_artifact("MemtrackArtifact.msgpack"));
    assert!(!is_mapping_artifact("1234.MemtrackArtifact.msgpack.tmp"));
    assert!(!is_mapping_artifact("1234.ExecutionTimestamps.msgpack"));
    assert!(!is_mapping_artifact(""));
}
