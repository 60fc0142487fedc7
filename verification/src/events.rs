//! Decoding of the records that the BPF programs write to their ring buffers.

use crate::artifacts::{
    EventKindView, EventView, MemtrackEvent, MemtrackEventKind, StackRecord, StackRecordView,
};
use crate::bindings::{
    ALLOC_ADDR, ALLOC_SIZE, ALLOC_STACK_HASH, ATTACH_DEV, ATTACH_INO, ATTACH_PID,
    ATTACH_REQUEST_SIZE, EVENT_PID, EVENT_SIZE, EVENT_TID, EVENT_TIMESTAMP, EVENT_TYPE,
    EVENT_TYPE_ALIGNED_ALLOC, EVENT_TYPE_BRK, EVENT_TYPE_CALLOC, EVENT_TYPE_EXEC, EVENT_TYPE_EXIT,
    EVENT_TYPE_FORK, EVENT_TYPE_FREE, EVENT_TYPE_MALLOC, EVENT_TYPE_MMAP, EVENT_TYPE_MUNMAP,
    EVENT_TYPE_REALLOC, EVENT_TYPE_RMAP, EVENT_TYPE_RSS, FORK_PARENT_PID, FREE_ADDR,
    FREE_STACK_HASH, MMAP_ADDR, MMAP_SIZE, REALLOC_NEW_ADDR, REALLOC_OLD_ADDR, REALLOC_SIZE,
    REALLOC_STACK_HASH, RMAP_ADDR, RMAP_DELTA, RMAP_MEMBER, RSS_MEMBER, RSS_SIZE, STACK_COPY_LEN,
    STACK_HASH, STACK_HEADER_SIZE, STACK_ID, STACK_PID, STACK_REGS, STACK_REG_COUNT, STACK_SP,
    STACK_TID, STACK_TIMESTAMP, STACK_TRUNCATED,
};
use crate::bytes::{get_u32, get_u64, u32_at, u64_at};
use vstd::prelude::*;
use vstd::slice::{slice_subrange, slice_to_vec};

verus! {

/// Whether `code` is the code of an event.
pub open spec fn is_event_type(code: u8) -> bool {
    EVENT_TYPE_MALLOC <= code <= EVENT_TYPE_RMAP
}

/// The address that an event record is about; 0 for events that have none.
pub open spec fn event_addr(data: Seq<u8>) -> u64 {
    let code = data[EVENT_TYPE as int];
    if code == EVENT_TYPE_MALLOC || code == EVENT_TYPE_CALLOC || code == EVENT_TYPE_ALIGNED_ALLOC {
        u64_at(data, ALLOC_ADDR as int)
    } else if code == EVENT_TYPE_FREE {
        u64_at(data, FREE_ADDR as int)
    } else if code == EVENT_TYPE_REALLOC {
        u64_at(data, REALLOC_NEW_ADDR as int)
    } else if code == EVENT_TYPE_MMAP || code == EVENT_TYPE_MUNMAP || code == EVENT_TYPE_BRK {
        u64_at(data, MMAP_ADDR as int)
    } else if code == EVENT_TYPE_RMAP {
        u64_at(data, RMAP_ADDR as int)
    } else {
        0
    }
}

/// What an event record says happened.
pub open spec fn event_kind(data: Seq<u8>) -> EventKindView {
    let code = data[EVENT_TYPE as int];
    if code == EVENT_TYPE_MALLOC {
        EventKindView::Malloc {
            size: u64_at(data, ALLOC_SIZE as int),
            stack_hash: u64_at(data, ALLOC_STACK_HASH as int),
        }
    } else if code == EVENT_TYPE_FREE {
        EventKindView::Free { stack_hash: u64_at(data, FREE_STACK_HASH as int) }
    } else if code == EVENT_TYPE_CALLOC {
        EventKindView::Calloc {
            size: u64_at(data, ALLOC_SIZE as int),
            stack_hash: u64_at(data, ALLOC_STACK_HASH as int),
        }
    } else if code == EVENT_TYPE_REALLOC {
        EventKindView::Realloc {
            old_addr: Some(u64_at(data, REALLOC_OLD_ADDR as int)),
            size: u64_at(data, REALLOC_SIZE as int),
            stack_hash: u64_at(data, REALLOC_STACK_HASH as int),
        }
    } else if code == EVENT_TYPE_ALIGNED_ALLOC {
        EventKindView::AlignedAlloc {
            size: u64_at(data, ALLOC_SIZE as int),
            stack_hash: u64_at(data, ALLOC_STACK_HASH as int),
        }
    } else if code == EVENT_TYPE_MMAP {
        EventKindView::Mmap { size: u64_at(data, MMAP_SIZE as int) }
    } else if code == EVENT_TYPE_MUNMAP {
        EventKindView::Munmap { size: u64_at(data, MMAP_SIZE as int) }
    } else if code == EVENT_TYPE_BRK {
        EventKindView::Brk { size: u64_at(data, MMAP_SIZE as int) }
    } else if code == EVENT_TYPE_FORK {
        EventKindView::Fork { parent_pid: u32_at(data, FORK_PARENT_PID as int) as i32 }
    } else if code == EVENT_TYPE_EXEC {
        EventKindView::Exec
    } else if code == EVENT_TYPE_EXIT {
        EventKindView::Exit
    } else if code == EVENT_TYPE_RSS {
        EventKindView::Rss {
            member: u32_at(data, RSS_MEMBER as int) as i32,
            size: u64_at(data, RSS_SIZE as int),
        }
    } else {
        EventKindView::Rmap {
            member: u32_at(data, RMAP_MEMBER as int) as i32,
            delta: u64_at(data, RMAP_DELTA as int) as i64,
        }
    }
}

/// The event in an event record.
pub open spec fn event_at(data: Seq<u8>) -> EventView {
    EventView {
        pid: u32_at(data, EVENT_PID as int) as i32,
        tid: u32_at(data, EVENT_TID as int) as i32,
        timestamp: u64_at(data, EVENT_TIMESTAMP as int),
        addr: event_addr(data),
        kind: event_kind(data),
    }
}

/// Whether [`parse_event`] can decode `data`: bytes that hold a whole event
/// record must hold one of a known type.
pub open spec fn is_parsable(data: Seq<u8>) -> bool {
    data.len() >= EVENT_SIZE ==> is_event_type(data[EVENT_TYPE as int])
}

/// Whether `data` holds no event record, or one of a known type.
pub fn has_known_event_type(data: &[u8]) -> (r: bool)
    ensures
        r == is_parsable(data@),
{
    if data.len() < EVENT_SIZE {
        return true;
    }
    let code = data[EVENT_TYPE];
    EVENT_TYPE_MALLOC <= code && code <= EVENT_TYPE_RMAP
}

/// Parse an event from raw bytes. Bytes behind the record are ignored.
pub fn parse_event(data: &[u8]) -> (r: Option<MemtrackEvent>)
    requires
        is_parsable(data@),
    ensures
        r is Some <==> data@.len() >= EVENT_SIZE,
        r matches Some(event) ==> event@ == event_at(data@),
{
    if data.len() < EVENT_SIZE {
        return None;
    }
    let pid: i32 = get_u32(data, EVENT_PID) as i32;
    let tid: i32 = get_u32(data, EVENT_TID) as i32;
    let timestamp: u64 = get_u64(data, EVENT_TIMESTAMP);
    let code: u8 = data[EVENT_TYPE];
    let (addr, kind): (u64, MemtrackEventKind) = if code == EVENT_TYPE_MALLOC {
        (
            get_u64(data, ALLOC_ADDR),
            MemtrackEventKind::Malloc {
                size: get_u64(data, ALLOC_SIZE),
                stack_hash: get_u64(data, ALLOC_STACK_HASH),
            },
        )
    } else if code == EVENT_TYPE_FREE {
        (
            get_u64(data, FREE_ADDR),
            MemtrackEventKind::Free { stack_hash: get_u64(data, FREE_STACK_HASH) },
        )
    } else if code == EVENT_TYPE_CALLOC {
        (
            get_u64(data, ALLOC_ADDR),
            MemtrackEventKind::Calloc {
                size: get_u64(data, ALLOC_SIZE),
                stack_hash: get_u64(data, ALLOC_STACK_HASH),
            },
        )
    } else if code == EVENT_TYPE_REALLOC {
        (
            get_u64(data, REALLOC_NEW_ADDR),
            MemtrackEventKind::Realloc {
                old_addr: Some(get_u64(data, REALLOC_OLD_ADDR)),
                size: get_u64(data, REALLOC_SIZE),
                stack_hash: get_u64(data, REALLOC_STACK_HASH),
            },
        )
    } else if code == EVENT_TYPE_ALIGNED_ALLOC {
        (
            get_u64(data, ALLOC_ADDR),
            MemtrackEventKind::AlignedAlloc {
                size: get_u64(data, ALLOC_SIZE),
                stack_hash: get_u64(data, ALLOC_STACK_HASH),
            },
        )
    } else if code == EVENT_TYPE_MMAP {
        (get_u64(data, MMAP_ADDR), MemtrackEventKind::Mmap { size: get_u64(data, MMAP_SIZE) })
    } else if code == EVENT_TYPE_MUNMAP {
        (get_u64(data, MMAP_ADDR), MemtrackEventKind::Munmap { size: get_u64(data, MMAP_SIZE) })
    } else if code == EVENT_TYPE_BRK {
        (get_u64(data, MMAP_ADDR), MemtrackEventKind::Brk { size: get_u64(data, MMAP_SIZE) })
    } else if code == EVENT_TYPE_FORK {
        (0, MemtrackEventKind::Fork { parent_pid: get_u32(data, FORK_PARENT_PID) as i32 })
    } else if code == EVENT_TYPE_EXEC {
        (0, MemtrackEventKind::Exec)
    } else if code == EVENT_TYPE_EXIT {
        (0, MemtrackEventKind::Exit)
    } else if code == EVENT_TYPE_RSS {
        (
            0,
            MemtrackEventKind::Rss {
                member: get_u32(data, RSS_MEMBER) as i32,
                size: get_u64(data, RSS_SIZE),
            },
        )
    } else {
        (
            get_u64(data, RMAP_ADDR),
            MemtrackEventKind::Rmap {
                member: get_u32(data, RMAP_MEMBER) as i32,
                delta: get_u64(data, RMAP_DELTA) as i64,
            },
        )
    };
    Some(MemtrackEvent { pid, tid, timestamp, addr, kind })
}

/// The length of a whole stack record, by the header at the start of `data`.
pub open spec fn stack_record_len(data: Seq<u8>) -> int {
    STACK_HEADER_SIZE + u32_at(data, STACK_COPY_LEN as int)
}

/// Whether `data` starts with a whole stack record.
pub open spec fn holds_stack_record(data: Seq<u8>) -> bool {
    data.len() >= STACK_HEADER_SIZE && data.len() >= stack_record_len(data)
}

/// The stack in a stack record, without its frame-pointer walk.
pub open spec fn stack_at(data: Seq<u8>) -> StackRecordView {
    StackRecordView {
        hash: u64_at(data, STACK_HASH as int),
        sp: u64_at(data, STACK_SP as int),
        regs: Seq::new(STACK_REG_COUNT as nat, |i: int| u64_at(data, STACK_REGS + 8 * i)),
        bytes: data.subrange(STACK_HEADER_SIZE as int, stack_record_len(data)),
        fp_chain: Seq::empty(),
        truncated: data[STACK_TRUNCATED as int] != 0,
    }
}

/// The event in a stack record.
pub open spec fn stack_event_at(data: Seq<u8>) -> EventView {
    EventView {
        pid: u32_at(data, STACK_PID as int) as i32,
        tid: u32_at(data, STACK_TID as int) as i32,
        timestamp: u64_at(data, STACK_TIMESTAMP as int),
        addr: 0,
        kind: EventKindView::Stack { record: stack_at(data) },
    }
}

/// Decode one stack record from the ring buffer, returning it alongside the
/// `bpf_get_stackid()` result its frame-pointer chain is stored under.
pub fn parse_stack(data: &[u8]) -> (r: Option<(MemtrackEvent, i64)>)
    ensures
        r is Some <==> holds_stack_record(data@),
        r matches Some((event, stackid)) ==> {
            &&& event@ == stack_event_at(data@)
            &&& stackid == u64_at(data@, STACK_ID as int) as i64
        },
{
    if data.len() < STACK_HEADER_SIZE {
        return None;
    }
    let copy_len: usize = get_u32(data, STACK_COPY_LEN) as usize;
    if data.len() - STACK_HEADER_SIZE < copy_len {
        return None;
    }
    let mut regs: Vec<u64> = Vec::new();
    for i in 0..STACK_REG_COUNT
        invariant
            data@.len() >= STACK_HEADER_SIZE,
            regs@ == Seq::new(i as nat, |k: int| u64_at(data@, STACK_REGS + 8 * k)),
    {
        regs.push(get_u64(data, STACK_REGS + 8 * i));
        assert(regs@ =~= Seq::new((i + 1) as nat, |k: int| u64_at(data@, STACK_REGS + 8 * k)));
    }
    let record = StackRecord {
        hash: get_u64(data, STACK_HASH),
        sp: get_u64(data, STACK_SP),
        regs,
        bytes: slice_to_vec(
            slice_subrange(data, STACK_HEADER_SIZE, STACK_HEADER_SIZE + copy_len),
        ),
        fp_chain: Vec::new(),
        truncated: data[STACK_TRUNCATED] != 0,
    };
    assert(record@ =~= stack_at(data@));
    let event = MemtrackEvent {
        pid: get_u32(data, STACK_PID) as i32,
        tid: get_u32(data, STACK_TID) as i32,
        timestamp: get_u64(data, STACK_TIMESTAMP),
        addr: 0,
        kind: MemtrackEventKind::Stack { record: Box::new(record) },
    };
    Some((event, get_u64(data, STACK_ID) as i64))
}

/// The key under which the map of stack traces holds the walk for `stackid`;
/// a negative `stackid` is an error code, and no walk was recorded.
pub fn stack_trace_key(stackid: i64) -> (r: Option<u32>)
    ensures
        r == (if 0 <= stackid <= u32::MAX {
            Some(stackid as u32)
        } else {
            None
        }),
{
    if 0 <= stackid && stackid <= 0xffff_ffff {
        Some(stackid as u32)
    } else {
        None
    }
}

/// The addresses in a stored walk: 8-byte words up to the first zero word, or
/// up to the last whole word.
pub open spec fn walk(value: Seq<u8>) -> Seq<u64>
    decreases value.len(),
{
    if value.len() < 8 || u64_at(value, 0) == 0 {
        Seq::empty()
    } else {
        seq![u64_at(value, 0)] + walk(value.skip(8))
    }
}

/// Reads a stored walk. The map value is a fixed-depth array zero-padded past
/// the last frame.
fn read_walk(value: &[u8]) -> (r: Vec<u64>)
    ensures
        r@ == walk(value@),
{
    let mut chain: Vec<u64> = Vec::new();
    let mut at: usize = 0;
    assert(value@.skip(0) =~= value@);
    assert(chain@ + walk(value@) =~= walk(value@));
    while value.len() - at >= 8
        invariant
            at <= value@.len(),
            chain@ + walk(value@.skip(at as int)) == walk(value@),
        decreases value@.len() - at,
    {
        let ghost rest = value@.skip(at as int);
        let address: u64 = get_u64(value, at);
        assert(rest.subrange(0, 8) =~= value@.subrange(at as int, at + 8));
        if address == 0 {
            assert(chain@ + walk(rest) =~= chain@);
            return chain;
        }
        let ghost before = chain@;
        chain.push(address);
        at = at + 8;
        assert(rest.skip(8) =~= value@.skip(at as int));
        assert(chain@ + walk(rest.skip(8)) =~= before + walk(rest));
    }
    assert(chain@ + walk(value@.skip(at as int)) =~= chain@);
    chain
}

/// The frame-pointer walk recorded under `stackid`, innermost frame first;
/// `value` is what the map of stack traces holds under its key, if that could
/// be read. Best effort: a missing chain costs the fallback for one stack, not
/// the run.
pub fn fp_chain(stackid: i64, value: Option<&[u8]>) -> (r: Vec<u64>)
    ensures
        r@ == (match value {
            Some(bytes) => if 0 <= stackid <= u32::MAX {
                walk(bytes@)
            } else {
                Seq::empty()
            },
            None => Seq::empty(),
        }),
{
    match (stack_trace_key(stackid), value) {
        (Some(_), Some(bytes)) => read_walk(bytes),
        _ => Vec::new(),
    }
}

/// A request from the exec-mapping watcher to attach allocator probes.
#[derive(Debug, Clone, Copy, PartialEq, Eq)]
pub struct AttachRequest {
    pub pid: u32,
    pub dev: u64,
    pub ino: u64,
}

impl AttachRequest {
    /// The request in the bytes of an attach request record.
    pub open spec fn decoded(data: Seq<u8>) -> AttachRequest {
        AttachRequest {
            pid: u32_at(data, ATTACH_PID as int),
            dev: u64_at(data, ATTACH_DEV as int),
            ino: u64_at(data, ATTACH_INO as int),
        }
    }

    /// Parse an attach request from raw ring buffer bytes.
    pub fn parse(data: &[u8]) -> (r: Option<AttachRequest>)
        ensures
            r == (if data@.len() >= ATTACH_REQUEST_SIZE {
                Some(AttachRequest::decoded(data@))
            } else {
                None
            }),
    {
        if data.len() < ATTACH_REQUEST_SIZE {
            return None;
        }
        Some(
            AttachRequest {
                pid: get_u32(data, ATTACH_PID),
                dev: get_u64(data, ATTACH_DEV),
                ino: get_u64(data, ATTACH_INO),
            },
        )
    }
}

/// An event record is decoded if and only if all 56 bytes of it are there, and
/// its type is one of the thirteen.
pub proof fn law_which_event_records_are_decoded(data: Seq<u8>)
    ensures
        is_parsable(data) <==> data.len() < 56 || 1 <= data[0] <= 13,
        EVENT_SIZE == 56,
{
}

/// The fields that every event record has, whatever else stands in it.
pub proof fn law_where_the_header_of_an_event_is(data: Seq<u8>)
    ensures
        event_at(data).timestamp == u64_at(data, 8),
        event_at(data).pid == u32_at(data, 16) as i32,
        event_at(data).tid == u32_at(data, 20) as i32,
{
}

/// What each type of event record says, field by field from its place, whatever
/// stands in the bytes that the type does not use.
pub proof fn law_what_each_event_type_says(data: Seq<u8>)
    ensures
        ({
            let e = event_at(data);
            &&& data[0] == 1 ==> e.addr == u64_at(data, 24) && e.kind == (EventKindView::Malloc {
                size: u64_at(data, 32),
                stack_hash: u64_at(data, 40),
            })
            &&& data[0] == 2 ==> e.addr == u64_at(data, 24) && e.kind == (EventKindView::Free {
                stack_hash: u64_at(data, 32),
            })
            &&& data[0] == 3 ==> e.addr == u64_at(data, 24) && e.kind == (EventKindView::Calloc {
                size: u64_at(data, 32),
                stack_hash: u64_at(data, 40),
            })
            &&& data[0] == 4 ==> e.addr == u64_at(data, 32) && e.kind == (EventKindView::Realloc {
                old_addr: Some(u64_at(data, 24)),
                size: u64_at(data, 40),
                stack_hash: u64_at(data, 48),
            })
            &&& data[0] == 5 ==> e.addr == u64_at(data, 24) && e.kind == (
            EventKindView::AlignedAlloc { size: u64_at(data, 32), stack_hash: u64_at(data, 40) })
            &&& data[0] == 6 ==> e.addr == u64_at(data, 24) && e.kind == (EventKindView::Mmap {
                size: u64_at(data, 32),
            })
            &&& data[0] == 7 ==> e.addr == u64_at(data, 24) && e.kind == (EventKindView::Munmap {
                size: u64_at(data, 32),
            })
            &&& data[0] == 8 ==> e.addr == u64_at(data, 24) && e.kind == (EventKindView::Brk {
                size: u64_at(data, 32),
            })
            &&& data[0] == 9 ==> e.addr == 0 && e.kind == (EventKindView::Fork {
                parent_pid: u32_at(data, 24) as i32,
            })
            &&& data[0] == 10 ==> e.addr == 0 && e.kind is Exec
            &&& data[0] == 11 ==> e.addr == 0 && e.kind is Exit
            &&& data[0] == 12 ==> e.addr == 0 && e.kind == (EventKindView::Rss {
                member: u32_at(data, 24) as i32,
                size: u64_at(data, 32),
            })
            &&& data[0] == 13 ==> e.addr == u64_at(data, 40) && e.kind == (EventKindView::Rmap {
                member: u32_at(data, 24) as i32,
                delta: u64_at(data, 32) as i64,
            })
        }),
{
}

/// A stack record is decoded if and only if its header of 312 bytes and as many
/// bytes of stack as the header announces are there; what it holds comes field by
/// field from its place.
pub proof fn law_what_a_stack_record_says(data: Seq<u8>)
    ensures
        holds_stack_record(data) <==> data.len() >= 312 && data.len() >= 312 + u32_at(data, 40),
        STACK_ID == 16,
        ({
            let e = stack_event_at(data);
            &&& e.pid == u32_at(data, 32) as i32
            &&& e.tid == u32_at(data, 36) as i32
            &&& e.timestamp == u64_at(data, 8)
            &&& e.addr == 0
            &&& e.kind matches EventKindView::Stack { record }
            &&& record.hash == u64_at(data, 0)
            &&& record.sp == u64_at(data, 24)
            &&& record.regs.len() == 33
            &&& forall|i: int|
                0 <= i < 33 ==> #[trigger] record.regs[i] == u64_at(data, 48 + 8 * i)
            &&& record.bytes == data.subrange(312, 312 + u32_at(data, 40))
            &&& record.fp_chain.len() == 0
            &&& record.truncated == (data[44] != 0)
        }),
{
}

/// A walk is read word by word: it ends before the first zero, and where no
/// whole word is left.
pub proof fn law_a_walk_is_read_word_by_word(value: Seq<u8>)
    ensures
        value.len() < 8 ==> walk(value).len() == 0,
        value.len() >= 8 && u64_at(value, 0) == 0 ==> walk(value).len() == 0,
        value.len() >= 8 && u64_at(value, 0) != 0 ==> {
            &&& walk(value).len() == walk(value.skip(8)).len() + 1
            &&& walk(value)[0] == u64_at(value, 0)
            &&& walk(value).skip(1) == walk(value.skip(8))
        },
{
    if value.len() >= 8 && u64_at(value, 0) != 0 {
        assert(walk(value).skip(1) =~= walk(value.skip(8)));
    }
}

/// Where the fields of an attach request are.
pub proof fn law_where_the_fields_of_a_request_are(data: Seq<u8>)
    ensures
        AttachRequest::decoded(data).pid == u32_at(data, 0),
        AttachRequest::decoded(data).dev == u64_at(data, 8),
        AttachRequest::decoded(data).ino == u64_at(data, 16),
        ATTACH_REQUEST_SIZE == 24,
{
}

} // verus!
