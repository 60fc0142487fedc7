//! The events and mappings that a tracking run leaves behind.

use core::ops::Range;
use vstd::prelude::*;

verus! {

/// One captured call stack: registers, a copy of the top of the user stack and
/// the frame-pointer walk.
#[derive(Debug, Clone, PartialEq, Eq)]
pub struct StackRecord {
    pub hash: u64,
    pub sp: u64,
    pub regs: Vec<u64>,
    pub bytes: Vec<u8>,
    pub fp_chain: Vec<u64>,
    pub truncated: bool,
}

/// What a [`StackRecord`] holds.
#[verifier::ext_equal]
pub struct StackRecordView {
    pub hash: u64,
    pub sp: u64,
    pub regs: Seq<u64>,
    pub bytes: Seq<u8>,
    pub fp_chain: Seq<u64>,
    pub truncated: bool,
}

impl View for StackRecord {
    type V = StackRecordView;

    open spec fn view(&self) -> StackRecordView {
        StackRecordView {
            hash: self.hash,
            sp: self.sp,
            regs: self.regs@,
            bytes: self.bytes@,
            fp_chain: self.fp_chain@,
            truncated: self.truncated,
        }
    }
}

/// What happened, with the details that belong to it.
#[derive(Debug, Clone, PartialEq, Eq)]
pub enum MemtrackEventKind {
    Malloc { size: u64, stack_hash: u64 },
    Free { stack_hash: u64 },
    Realloc { old_addr: Option<u64>, size: u64, stack_hash: u64 },
    Calloc { size: u64, stack_hash: u64 },
    AlignedAlloc { size: u64, stack_hash: u64 },
    Mmap { size: u64 },
    Munmap { size: u64 },
    Brk { size: u64 },
    Fork { parent_pid: i32 },
    Exec,
    Exit,
    Rss { member: i32, size: u64 },
    Rmap { member: i32, delta: i64 },
    /// An executable mapping of the file `path`, `len` bytes long.
    Mapping { path: String, dev: u64, ino: u64, file_offset: u64, len: u64 },
    Stack { record: Box<StackRecord> },
}

/// What a [`MemtrackEventKind`] holds.
#[verifier::ext_equal]
pub enum EventKindView {
    Malloc { size: u64, stack_hash: u64 },
    Free { stack_hash: u64 },
    Realloc { old_addr: Option<u64>, size: u64, stack_hash: u64 },
    Calloc { size: u64, stack_hash: u64 },
    AlignedAlloc { size: u64, stack_hash: u64 },
    Mmap { size: u64 },
    Munmap { size: u64 },
    Brk { size: u64 },
    Fork { parent_pid: i32 },
    Exec,
    Exit,
    Rss { member: i32, size: u64 },
    Rmap { member: i32, delta: i64 },
    Mapping { path: Seq<char>, dev: u64, ino: u64, file_offset: u64, len: u64 },
    Stack { record: StackRecordView },
}

impl View for MemtrackEventKind {
    type V = EventKindView;

    open spec fn view(&self) -> EventKindView {
        match *self {
            MemtrackEventKind::Malloc { size, stack_hash } => EventKindView::Malloc {
                size,
                stack_hash,
            },
            MemtrackEventKind::Free { stack_hash } => EventKindView::Free { stack_hash },
            MemtrackEventKind::Realloc { old_addr, size, stack_hash } => EventKindView::Realloc {
                old_addr,
                size,
                stack_hash,
            },
            MemtrackEventKind::Calloc { size, stack_hash } => EventKindView::Calloc {
                size,
                stack_hash,
            },
            MemtrackEventKind::AlignedAlloc { size, stack_hash } => EventKindView::AlignedAlloc {
                size,
                stack_hash,
            },
            MemtrackEventKind::Mmap { size } => EventKindView::Mmap { size },
            MemtrackEventKind::Munmap { size } => EventKindView::Munmap { size },
            MemtrackEventKind::Brk { size } => EventKindView::Brk { size },
            MemtrackEventKind::Fork { parent_pid } => EventKindView::Fork { parent_pid },
            MemtrackEventKind::Exec => EventKindView::Exec,
            MemtrackEventKind::Exit => EventKindView::Exit,
            MemtrackEventKind::Rss { member, size } => EventKindView::Rss { member, size },
            MemtrackEventKind::Rmap { member, delta } => EventKindView::Rmap { member, delta },
            MemtrackEventKind::Mapping { path, dev, ino, file_offset, len } =>
                EventKindView::Mapping { path: path@, dev, ino, file_offset, len },
            MemtrackEventKind::Stack { record } => EventKindView::Stack { record: (*record)@ },
        }
    }
}

/// One entry of the event stream.
#[derive(Debug, Clone, PartialEq, Eq)]
pub struct MemtrackEvent {
    pub pid: i32,
    pub tid: i32,
    /// CLOCK_MONOTONIC nanoseconds.
    pub timestamp: u64,
    pub addr: u64,
    pub kind: MemtrackEventKind,
}

/// What a [`MemtrackEvent`] holds.
#[verifier::ext_equal]
pub struct EventView {
    pub pid: i32,
    pub tid: i32,
    pub timestamp: u64,
    pub addr: u64,
    pub kind: EventKindView,
}

impl View for MemtrackEvent {
    type V = EventView;

    open spec fn view(&self) -> EventView {
        EventView {
            pid: self.pid,
            tid: self.tid,
            timestamp: self.timestamp,
            addr: self.addr,
            kind: self.kind@,
        }
    }
}

/// What a list of events holds.
pub open spec fn event_views(events: Seq<MemtrackEvent>) -> Seq<EventView> {
    events.map_values(|e: MemtrackEvent| e@)
}

/// One executable mapping of one file into one process, as `PERF_RECORD_MMAP2`
/// would describe it.
#[derive(Debug, PartialEq, Eq)]
pub struct ProcessMapping {
    pub pid: i32,
    /// Resolved in-kernel at mmap time, so it is correct for the mapping
    /// process's mount namespace even if the process is already gone.
    pub path: String,
    /// Kernel `s_dev` encoding: `(major << 20) | minor`. With `ino`, proves at
    /// analysis time that the path still names the file that was mapped.
    pub dev: u64,
    pub ino: u64,
    /// Offset of the mapping's first byte in the file. In bytes, matching
    /// `PERF_RECORD_MMAP2`'s `pgoff` and the load-bias computation.
    pub file_offset: u64,
    pub avma_range: Range<u64>,
    /// CLOCK_MONOTONIC nanoseconds, the same clock the events carry. The
    /// mapping is valid from here until a later mapping covers the range.
    pub timestamp: u64,
}

/// What a [`ProcessMapping`] holds.
#[verifier::ext_equal]
pub struct MappingView {
    pub pid: i32,
    pub path: Seq<char>,
    pub dev: u64,
    pub ino: u64,
    pub file_offset: u64,
    pub start: u64,
    pub end: u64,
    pub timestamp: u64,
}

impl View for ProcessMapping {
    type V = MappingView;

    open spec fn view(&self) -> MappingView {
        MappingView {
            pid: self.pid,
            path: self.path@,
            dev: self.dev,
            ino: self.ino,
            file_offset: self.file_offset,
            start: self.avma_range.start,
            end: self.avma_range.end,
            timestamp: self.timestamp,
        }
    }
}

/// What a list of mappings holds.
pub open spec fn mapping_views(mappings: Seq<ProcessMapping>) -> Seq<MappingView> {
    mappings.map_values(|m: ProcessMapping| m@)
}

impl Clone for ProcessMapping {
    fn clone(&self) -> (r: ProcessMapping)
        ensures
            r@ == self@,
    {
        ProcessMapping {
            pid: self.pid,
            path: self.path.clone(),
            dev: self.dev,
            ino: self.ino,
            file_offset: self.file_offset,
            avma_range: self.avma_range.start..self.avma_range.end,
            timestamp: self.timestamp,
        }
    }
}

/// The file-backed mappings the tracked process tree loaded, recorded as they
/// happened. Companion to the event stream: allocation stacks are raw
/// addresses, and these are what turns them back into modules.
///
/// Kept out of the event stream so a consumer that only needs the module set
/// does not have to decode millions of allocation events.
#[derive(Debug, Clone)]
pub struct MemtrackMappings {
    pub mappings: Vec<ProcessMapping>,
}

impl Default for MemtrackMappings {
    fn default() -> (r: MemtrackMappings)
        ensures
            r.mappings@.len() == 0,
    {
        MemtrackMappings { mappings: Vec::new() }
    }
}

/// A mapping shows every field of it, and a list of mappings shows each of them
/// at its place.
pub proof fn law_a_mapping_shows_every_field(mappings: Seq<ProcessMapping>, i: int)
    requires
        0 <= i < mappings.len(),
    ensures
        mapping_views(mappings).len() == mappings.len(),
        ({
            let (shown, m) = (mapping_views(mappings)[i], mappings[i]);
            &&& shown.pid == m.pid
            &&& shown.path == m.path@
            &&& shown.dev == m.dev
            &&& shown.ino == m.ino
            &&& shown.file_offset == m.file_offset
            &&& shown.start == m.avma_range.start
            &&& shown.end == m.avma_range.end
            &&& shown.timestamp == m.timestamp
        }),
{
}

/// An event shows every field of it, and a list of events shows each of them at
/// its place.
pub proof fn law_an_event_shows_every_field(events: Seq<MemtrackEvent>, i: int)
    requires
        0 <= i < events.len(),
    ensures
        event_views(events).len() == events.len(),
        ({
            let (shown, e) = (event_views(events)[i], events[i]);
            &&& shown.pid == e.pid
            &&& shown.tid == e.tid
            &&& shown.timestamp == e.timestamp
            &&& shown.addr == e.addr
            &&& shown.kind == e.kind@
        }),
{
}

/// A kind of event shows which it is, and every detail that belongs to it.
pub proof fn law_a_kind_shows_every_detail(kind: MemtrackEventKind)
    ensures
        match kind {
            MemtrackEventKind::Malloc { size, stack_hash } => kind@ == (EventKindView::Malloc {
                size,
                stack_hash,
            }),
            MemtrackEventKind::Free { stack_hash } => kind@ == (EventKindView::Free { stack_hash }),
            MemtrackEventKind::Realloc { old_addr, size, stack_hash } => kind@ == (
            EventKindView::Realloc { old_addr, size, stack_hash }),
            MemtrackEventKind::Calloc { size, stack_hash } => kind@ == (EventKindView::Calloc {
                size,
                stack_hash,
            }),
            MemtrackEventKind::AlignedAlloc { size, stack_hash } => kind@ == (
            EventKindView::AlignedAlloc { size, stack_hash }),
            MemtrackEventKind::Mmap { size } => kind@ == (EventKindView::Mmap { size }),
            MemtrackEventKind::Munmap { size } => kind@ == (EventKindView::Munmap { size }),
            MemtrackEventKind::Brk { size } => kind@ == (EventKindView::Brk { size }),
            MemtrackEventKind::Fork { parent_pid } => kind@ == (EventKindView::Fork { parent_pid }),
            MemtrackEventKind::Exec => kind@ is Exec,
            MemtrackEventKind::Exit => kind@ is Exit,
            MemtrackEventKind::Rss { member, size } => kind@ == (EventKindView::Rss {
                member,
                size,
            }),
            MemtrackEventKind::Rmap { member, delta } => kind@ == (EventKindView::Rmap {
                member,
                delta,
            }),
            MemtrackEventKind::Mapping { path, dev, ino, file_offset, len } => kind@ == (
            EventKindView::Mapping { path: path@, dev, ino, file_offset, len }),
            MemtrackEventKind::Stack { record } => {
                &&& kind@ matches EventKindView::Stack { record: shown }
                &&& shown.hash == record.hash
                &&& shown.sp == record.sp
                &&& shown.regs == record.regs@
                &&& shown.bytes == record.bytes@
                &&& shown.fp_chain == record.fp_chain@
                &&& shown.truncated == record.truncated
            },
        },
{
}

} // verus!
