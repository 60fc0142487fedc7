use memtrack::artifacts::{MemtrackEvent, MemtrackEventKind, ProcessMapping};
use memtrack::metadata::ProcessUnwindData;
use memtrack::module_artifacts::FileId;
use memtrack::module_scan::{
    save_module_artifacts, LoadedModule, ModuleScan, ModuleUnwindData, PathKey, ScanReply,
    ScanRequest,
};

fn mapping(pid: i32, path: &str, start: u64, timestamp: u64) -> ProcessMapping {
    ProcessMapping {
        pid,
        path: path.to_string(),
        dev: 0,
        ino: 5,
        file_offset: 0,
        avma_range: start..start + 0x1000,
        timestamp,
    }
}

/// What there is to know about a file; `None` where it cannot be read.
struct Files {
    ino: u64,
    load_bias: Option<u64>,
    symbols: Option<&'static str>,
    unwind: Option<u64>,
}

const GOOD: Files = Files {
    ino: 5,
    load_bias: Some(0x100),
    symbols: Some("symbols"),
    unwind: Some(0x400),
};

type Scan = ModuleScan<&'static str, u8>;

/// Runs a scan, and counts how often symbols and unwind data are loaded.
fn run(
    mut scan: Scan,
    files: impl Fn(&ProcessMapping) -> Files,
) -> (Vec<LoadedModule<&'static str, u8>>, usize, usize) {
    let (mut symbols, mut unwinds) = (0, 0);
    loop {
        let Some(current) = scan.current() else {
            assert_eq!(scan.request(), ScanRequest::Done);
            return (scan.into_modules(), symbols, unwinds);
        };
        let file = files(current);
        let reply = match scan.request() {
            ScanRequest::FileId => ScanReply::FileId(Some(FileId {
                dev: 0,
                ino: file.ino,
            })),
            ScanRequest::LoadBias => ScanReply::LoadBias(file.load_bias),
            ScanRequest::Symbols => {
                symbols += 1;
                ScanReply::Symbols(file.symbols)
            }
            ScanRequest::UnwindData(load_bias) => {
                unwinds += 1;
                ScanReply::UnwindData(file.unwind.map(|base_svma| {
                    (
                        ModuleUnwindData { base_svma, data: 1 },
                        ProcessUnwindData {
                            timestamp: None,
                            avma_range: current.avma_range.start..current.avma_range.end,
                            base_avma: base_svma + load_bias,
                        },
                    )
                }))
            }
            ScanRequest::Done => unreachable!(),
        };
        scan.answer(reply);
    }
}

#[test]
fn a_module_is_loaded_once_and_shared() {
    let scan = Scan::new(vec![
        mapping(1, "/lib/a.so", 0x1000, 10),
        mapping(2, "/lib/a.so", 0x9000, 20),
        mapping(2, "/lib//./a.so/", 0xb000, 30),
    ]);
    let (modules, symbols, unwinds) = run(scan, |_| GOOD);
    assert_eq!((symbols, unwinds), (1, 1));
    assert_eq!(modules.len(), 1);
    let module = &modules[0];
    assert_eq!(module.path, "/lib/a.so");
    assert_eq!(module.module_symbols, Some("symbols"));
    assert_eq!(module.unwind_data.as_ref().unwrap().base_svma, 0x400);
    assert_eq!(module.process_loaded_modules.len(), 2);

    let first = &module.process_loaded_modules[&1];
    assert_eq!(first.symbols_load_bias, Some(0x100));
    assert_eq!(
        first.process_unwind_data,
        Some(ProcessUnwindData {
            timestamp: Some(10),
            avma_range: 0x1000..0x2000,
            base_avma: 0x500,
        })
    );
    // The later mapping of the same process stands.
    assert_eq!(
        module.process_loaded_modules[&2].process_unwind_data,
        Some(ProcessUnwindData {
            timestamp: Some(30),
            avma_range: 0xb000..0xc000,
            base_avma: 0x500,
        })
    );
}

#[test]
fn the_base_address_wraps() {
    let scan = Scan::new(vec![
        mapping(1, "/a", 0x1000, 1),
        mapping(2, "/a", 0x2000, 2),
    ]);
    let (modules, _, _) = run(scan, |m| Files {
        load_bias: Some(if m.pid == 1 { 0 } else { u64::MAX }),
        ..GOOD
    });
    let second = &modules[0].process_loaded_modules[&2];
    assert_eq!(second.process_unwind_data.as_ref().unwrap().base_avma, 0x3ff);
}

#[test]
fn a_changed_file_is_skipped() {
    let scan = Scan::new(vec![mapping(1, "/a", 0, 1), mapping(1, "/b", 0, 2)]);
    let (modules, symbols, unwinds) = run(scan, |m| Files {
        ino: if m.path == "/a" { 6 } else { 5 },
        ..GOOD
    });
    assert_eq!((symbols, unwinds), (1, 1));
    assert_eq!(modules.len(), 1);
    assert_eq!(modules[0].path, "/b");
}

#[test]
fn an_unreadable_file_is_skipped() {
    let mut scan = Scan::new(vec![mapping(1, "/a", 0, 1)]);
    assert_eq!(scan.request(), ScanRequest::FileId);
    scan.answer(ScanReply::FileId(None));
    assert_eq!(scan.request(), ScanRequest::Done);
    assert!(scan.into_modules().is_empty());
}

#[test]
fn a_mapping_without_load_bias_leaves_no_module() {
    let scan = Scan::new(vec![mapping(1, "/a", 0, 1)]);
    let (modules, symbols, unwinds) = run(scan, |_| Files {
        load_bias: None,
        ..GOOD
    });
    assert_eq!((symbols, unwinds), (0, 0));
    assert!(modules.is_empty());
}

#[test]
fn what_could_not_be_loaded_is_tried_again() {
    let scan = Scan::new(vec![
        mapping(1, "/a", 0x1000, 1),
        mapping(1, "/a", 0x3000, 2),
        mapping(2, "/a", 0x5000, 3),
    ]);
    let (modules, symbols, unwinds) = run(scan, |m| Files {
        symbols: if m.timestamp < 3 { None } else { Some("late") },
        unwind: if m.timestamp < 2 { None } else { Some(7) },
        ..GOOD
    });
    assert_eq!((symbols, unwinds), (3, 2));
    let module = &modules[0];
    assert_eq!(module.module_symbols, Some("late"));
    let first = module.process_loaded_modules[&1].process_unwind_data.as_ref();
    assert_eq!(first.unwrap().timestamp, Some(2));
}

#[test]
fn a_failed_load_keeps_what_a_process_had() {
    let mut scan = Scan::new(vec![mapping(1, "/a", 0x1000, 1)]);
    scan.answer(ScanReply::FileId(Some(FileId { dev: 0, ino: 5 })));
    scan.answer(ScanReply::LoadBias(Some(9)));
    scan.answer(ScanReply::Symbols(None));
    // A reply to something else changes nothing.
    scan.answer(ScanReply::LoadBias(None));
    assert_eq!(scan.request(), ScanRequest::UnwindData(9));
    scan.answer(ScanReply::UnwindData(None));
    let modules = scan.into_modules();
    assert!(modules[0].module_symbols.is_none());
    assert!(modules[0].unwind_data.is_none());
    let process = &modules[0].process_loaded_modules[&1];
    assert_eq!(process.symbols_load_bias, Some(9));
    assert!(process.process_unwind_data.is_none());
}

#[test]
fn paths_are_compared_by_their_components() {
    let same = |a: &str, b: &str| PathKey::new(a).same(&PathKey::new(b));
    assert!(same("/a/b", "/a//b/"));
    assert!(same("/a/b", "/a/./b/."));
    assert!(same("a/./b", "a/b"));
    assert!(same("/", "//"));
    assert!(same("/./a", "/a"));
    assert!(!same("./a", "a"));
    assert!(!same("/a", "a"));
    assert!(!same("/a/../b", "/b"));
    assert!(!same("/a/b", "/a/c"));
    assert!(!same("/ab", "/a/b"));
    assert!(!same("/", ""));
}

#[test]
fn nothing_is_saved_where_no_mapping_was_recorded() {
    let event = |kind| MemtrackEvent {
        pid: 1,
        tid: 1,
        timestamp: 5,
        addr: 0x1000,
        kind,
    };
    assert!(save_module_artifacts::<&str, u8>(vec![]).is_none());
    assert!(save_module_artifacts::<&str, u8>(vec![vec![event(MemtrackEventKind::Exec)]]).is_none());
    let scan = save_module_artifacts::<&str, u8>(vec![vec![event(MemtrackEventKind::Mapping {
        path: "/a".to_string(),
        dev: 0,
        ino: 5,
        file_offset: 0,
        len: 1,
    })]]);
    assert_eq!(scan.unwrap().current().unwrap().path, "/a");
}
