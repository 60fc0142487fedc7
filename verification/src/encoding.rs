//! The bytes of the records that the kernel side writes, and that every record
//! is read back.

use crate::artifacts::{EventKindView, EventView, StackRecordView};
use crate::bindings::{
    ATTACH_REQUEST_SIZE, EVENT_SIZE, EVENT_TYPE_ALIGNED_ALLOC, EVENT_TYPE_BRK, EVENT_TYPE_CALLOC,
    EVENT_TYPE_EXEC, EVENT_TYPE_EXIT, EVENT_TYPE_FORK, EVENT_TYPE_FREE, EVENT_TYPE_MALLOC,
    EVENT_TYPE_MMAP, EVENT_TYPE_MUNMAP, EVENT_TYPE_REALLOC, EVENT_TYPE_RMAP, EVENT_TYPE_RSS,
    STACK_HEADER_SIZE, STACK_ID, STACK_REGS, STACK_REG_COUNT,
};
use crate::bytes::{
    law_u16_reads_back, law_u32_reads_back, law_u64_reads_back, le_value, lemma_stored_len,
    ne_bytes, u32_at, u64_at,
};
use crate::events::{
    event_at, holds_stack_record, is_parsable, stack_at, stack_event_at, stack_record_len,
    walk, AttachRequest,
};
use crate::perf_mappings::{
    c_string, mmap2_event, prot_exec, record_mmap2, s_dev, MMAP2_FIXED_END, SAMPLE_ID_SIZE,
};
use crate::perf_ring::is_framed;
use vstd::prelude::*;
use vstd::utf8::{
    char_is_scalar, char_u32_cast, encode_scalar, encode_utf8, encode_utf8_decode_utf8, encode_utf8_valid_utf8,
    is_scalar,
};

verus! {

/// `n` zero bytes.
pub open spec fn zeros(n: nat) -> Seq<u8> {
    Seq::new(n, |i: int| 0u8)
}

/// The 8 bytes of a `u64`.
pub open spec fn word(x: u64) -> Seq<u8> {
    ne_bytes(x as nat, 8)
}

/// The 4 bytes of a `u32`.
pub open spec fn half(x: u32) -> Seq<u8> {
    ne_bytes(x as nat, 4)
}

/// Whether the BPF programs write such an event as an event record: stacks and
/// mappings have records of their own, a reallocation knows its old address,
/// and lifecycle and RSS events have no address.
pub open spec fn is_recordable(e: EventView) -> bool {
    match e.kind {
        EventKindView::Realloc { old_addr, .. } => old_addr is Some,
        EventKindView::Fork { .. } | EventKindView::Exec | EventKindView::Exit
        | EventKindView::Rss { .. } => e.addr == 0,
        EventKindView::Mapping { .. } | EventKindView::Stack { .. } => false,
        _ => true,
    }
}

/// The code of an event.
pub open spec fn event_code(kind: EventKindView) -> u8 {
    match kind {
        EventKindView::Malloc { .. } => EVENT_TYPE_MALLOC,
        EventKindView::Free { .. } => EVENT_TYPE_FREE,
        EventKindView::Calloc { .. } => EVENT_TYPE_CALLOC,
        EventKindView::Realloc { .. } => EVENT_TYPE_REALLOC,
        EventKindView::AlignedAlloc { .. } => EVENT_TYPE_ALIGNED_ALLOC,
        EventKindView::Mmap { .. } => EVENT_TYPE_MMAP,
        EventKindView::Munmap { .. } => EVENT_TYPE_MUNMAP,
        EventKindView::Brk { .. } => EVENT_TYPE_BRK,
        EventKindView::Fork { .. } => EVENT_TYPE_FORK,
        EventKindView::Exec => EVENT_TYPE_EXEC,
        EventKindView::Exit => EVENT_TYPE_EXIT,
        EventKindView::Rss { .. } => EVENT_TYPE_RSS,
        _ => EVENT_TYPE_RMAP,
    }
}

/// The 32 bytes of an event record behind its header.
pub open spec fn event_payload(addr: u64, kind: EventKindView) -> Seq<u8> {
    match kind {
        EventKindView::Malloc { size, stack_hash } | EventKindView::Calloc { size, stack_hash }
        | EventKindView::AlignedAlloc { size, stack_hash } => word(addr) + word(size) + word(
            stack_hash,
        ) + zeros(8),
        EventKindView::Free { stack_hash } => word(addr) + word(stack_hash) + zeros(16),
        EventKindView::Realloc { old_addr, size, stack_hash } => word(old_addr->0) + word(addr)
            + word(size) + word(stack_hash),
        EventKindView::Mmap { size } | EventKindView::Munmap { size }
        | EventKindView::Brk { size } => word(addr) + word(size) + zeros(16),
        EventKindView::Fork { parent_pid } => half(parent_pid as u32) + zeros(28),
        EventKindView::Rss { member, size } => half(member as u32) + zeros(4) + word(size) + zeros(
            16,
        ),
        EventKindView::Rmap { member, delta } => half(member as u32) + zeros(4) + word(
            delta as u64,
        ) + word(addr) + zeros(8),
        _ => zeros(32),
    }
}

/// The bytes of an event record that holds `e`.
pub open spec fn encoded_event(e: EventView) -> Seq<u8> {
    seq![event_code(e.kind)] + zeros(7) + word(e.timestamp) + half(e.pid as u32) + half(
        e.tid as u32,
    ) + event_payload(e.addr, e.kind)
}

proof fn lemma_i32_reads_back(x: i32)
    ensures
        (x as u32) as i32 == x,
{
    assert((x as u32) as i32 == x) by (bit_vector);
}

proof fn lemma_i64_reads_back(x: i64)
    ensures
        (x as u64) as i64 == x,
{
    assert((x as u64) as i64 == x) by (bit_vector);
}

/// A word that stands at `at` is read back.
proof fn lemma_word(s: Seq<u8>, at: int, x: u64)
    requires
        s.subrange(at, at + 8) =~= word(x),
    ensures
        u64_at(s, at) == x,
{
    law_u64_reads_back(s, at, x);
}

/// A half word that stands at `at` is read back.
proof fn lemma_half(s: Seq<u8>, at: int, x: u32)
    requires
        s.subrange(at, at + 4) =~= half(x),
    ensures
        u32_at(s, at) == x,
{
    law_u32_reads_back(s, at, x);
}

/// The header of an event record is read back, and the payload follows it.
proof fn lemma_event_header(e: EventView, rest: Seq<u8>)
    ensures
        ({
            let data = encoded_event(e) + rest;
            &&& data[0] == event_code(e.kind)
            &&& u64_at(data, 8) == e.timestamp
            &&& u32_at(data, 16) as i32 == e.pid
            &&& u32_at(data, 20) as i32 == e.tid
            &&& data.skip(24) == event_payload(e.addr, e.kind) + rest
            &&& data.len() == 24 + event_payload(e.addr, e.kind).len() + rest.len()
        }),
{
    let data = encoded_event(e) + rest;
    lemma_stored_len(e.timestamp, e.pid as u32, 0);
    lemma_stored_len(0, e.tid as u32, 0);
    lemma_word(data, 8, e.timestamp);
    lemma_half(data, 16, e.pid as u32);
    lemma_half(data, 20, e.tid as u32);
    lemma_i32_reads_back(e.pid);
    lemma_i32_reads_back(e.tid);
    assert(data.skip(24) =~= event_payload(e.addr, e.kind) + rest);
}

/// A word of the payload of an event record is read back.
proof fn lemma_payload_word(data: Seq<u8>, payload: Seq<u8>, at: int, x: u64)
    requires
        data.len() >= 24 + payload.len(),
        data.skip(24).take(payload.len() as int) == payload,
        0 <= at <= payload.len() - 8,
        payload.subrange(at, at + 8) =~= word(x),
    ensures
        u64_at(data, 24 + at) == x,
{
    assert(data.subrange(24 + at, 24 + at + 8) =~= data.skip(24).take(
        payload.len() as int,
    ).subrange(at, at + 8));
    lemma_word(data, 24 + at, x);
}

/// A half word of the payload of an event record is read back.
proof fn lemma_payload_half(data: Seq<u8>, payload: Seq<u8>, at: int, x: u32)
    requires
        data.len() >= 24 + payload.len(),
        data.skip(24).take(payload.len() as int) == payload,
        0 <= at <= payload.len() - 4,
        payload.subrange(at, at + 4) =~= half(x),
    ensures
        u32_at(data, 24 + at) == x,
{
    assert(data.subrange(24 + at, 24 + at + 4) =~= data.skip(24).take(
        payload.len() as int,
    ).subrange(at, at + 4));
    lemma_half(data, 24 + at, x);
}

/// Every event that is written as an event record is read back from it, field
/// by field, whatever stands behind the record.
pub proof fn law_event_reads_back(e: EventView, rest: Seq<u8>)
    requires
        is_recordable(e),
    ensures
        encoded_event(e).len() == EVENT_SIZE,
        is_parsable(encoded_event(e) + rest),
        event_at(encoded_event(e) + rest) == e,
{
    let data = encoded_event(e) + rest;
    let payload = event_payload(e.addr, e.kind);
    lemma_event_header(e, rest);
    lemma_stored_len(e.addr, 0, 0);
    assert(data.skip(24).take(payload.len() as int) =~= payload);
    assert(encoded_event(e).len() == 24 + payload.len()) by {
        lemma_event_header(e, Seq::empty());
        assert(encoded_event(e) + Seq::<u8>::empty() =~= encoded_event(e));
    }
    match e.kind {
        EventKindView::Malloc { size, stack_hash } | EventKindView::Calloc { size, stack_hash }
        | EventKindView::AlignedAlloc { size, stack_hash } => {
            lemma_stored_len(size, 0, 0);
            lemma_stored_len(stack_hash, 0, 0);
            lemma_payload_word(data, payload, 0, e.addr);
            lemma_payload_word(data, payload, 8, size);
            lemma_payload_word(data, payload, 16, stack_hash);
        },
        EventKindView::Free { stack_hash } => {
            lemma_stored_len(stack_hash, 0, 0);
            lemma_payload_word(data, payload, 0, e.addr);
            lemma_payload_word(data, payload, 8, stack_hash);
        },
        EventKindView::Realloc { old_addr, size, stack_hash } => {
            lemma_stored_len(old_addr->0, 0, 0);
            lemma_stored_len(size, 0, 0);
            lemma_stored_len(stack_hash, 0, 0);
            lemma_payload_word(data, payload, 0, old_addr->0);
            lemma_payload_word(data, payload, 8, e.addr);
            lemma_payload_word(data, payload, 16, size);
            lemma_payload_word(data, payload, 24, stack_hash);
        },
        EventKindView::Mmap { size } | EventKindView::Munmap { size }
        | EventKindView::Brk { size } => {
            lemma_stored_len(size, 0, 0);
            lemma_payload_word(data, payload, 0, e.addr);
            lemma_payload_word(data, payload, 8, size);
        },
        EventKindView::Fork { parent_pid } => {
            lemma_stored_len(0, parent_pid as u32, 0);
            lemma_payload_half(data, payload, 0, parent_pid as u32);
            lemma_i32_reads_back(parent_pid);
        },
        EventKindView::Rss { member, size } => {
            lemma_stored_len(size, member as u32, 0);
            lemma_payload_half(data, payload, 0, member as u32);
            lemma_payload_word(data, payload, 8, size);
            lemma_i32_reads_back(member);
        },
        EventKindView::Rmap { member, delta } => {
            lemma_stored_len(delta as u64, member as u32, 0);
            lemma_payload_half(data, payload, 0, member as u32);
            lemma_payload_word(data, payload, 8, delta as u64);
            lemma_payload_word(data, payload, 16, e.addr);
            lemma_i32_reads_back(member);
            lemma_i64_reads_back(delta);
        },
        _ => {},
    }
}

/// The bytes of an attach request.
pub open spec fn encoded_request(request: AttachRequest) -> Seq<u8> {
    half(request.pid) + zeros(4) + word(request.dev) + word(request.ino)
}

/// An attach request is read back field by field, whatever stands behind it.
pub proof fn law_attach_request_reads_back(request: AttachRequest, rest: Seq<u8>)
    ensures
        encoded_request(request).len() == ATTACH_REQUEST_SIZE,
        AttachRequest::decoded(encoded_request(request) + rest) == request,
{
    let data = encoded_request(request) + rest;
    lemma_stored_len(request.dev, request.pid, 0);
    lemma_stored_len(request.ino, 0, 0);
    lemma_half(data, 0, request.pid);
    lemma_word(data, 8, request.dev);
    lemma_word(data, 16, request.ino);
}

/// The words, one behind the other.
pub open spec fn words(values: Seq<u64>) -> Seq<u8>
    decreases values.len(),
{
    if values.len() == 0 {
        Seq::empty()
    } else {
        words(values.drop_last()) + word(values.last())
    }
}

proof fn lemma_words(values: Seq<u64>, i: int)
    requires
        0 <= i < values.len(),
    ensures
        words(values).len() == 8 * values.len(),
        words(values).subrange(8 * i, 8 * i + 8) == word(values[i]),
    decreases values.len(),
{
    let front = values.drop_last();
    lemma_stored_len(values.last(), 0, 0);
    if front.len() > 0 {
        lemma_words(front, if i < front.len() {
            i
        } else {
            0
        });
    }
    assert(words(front).len() == 8 * front.len());
    if i < front.len() {
        assert(words(values).subrange(8 * i, 8 * i + 8) =~= words(front).subrange(
            8 * i,
            8 * i + 8,
        ));
    } else {
        assert(words(values).subrange(8 * i, 8 * i + 8) =~= word(values[i]));
    }
}

/// The bytes of a stack record.
pub open spec fn encoded_stack(
    pid: i32,
    tid: i32,
    timestamp: u64,
    stackid: i64,
    stack: StackRecordView,
) -> Seq<u8> {
    word(stack.hash) + word(timestamp) + word(stackid as u64) + word(stack.sp) + half(pid as u32)
        + half(tid as u32) + half(stack.bytes.len() as u32) + seq![
        if stack.truncated {
            1u8
        } else {
            0u8
        },
    ] + zeros(3) + words(stack.regs) + stack.bytes
}

/// A stack record is read back field by field, whatever stands behind it; its
/// frame-pointer walk is not part of it.
pub proof fn law_stack_reads_back(
    pid: i32,
    tid: i32,
    timestamp: u64,
    stackid: i64,
    stack: StackRecordView,
    rest: Seq<u8>,
)
    requires
        stack.regs.len() == STACK_REG_COUNT,
        stack.bytes.len() <= u32::MAX,
        stack.fp_chain.len() == 0,
    ensures
        ({
            let data = encoded_stack(pid, tid, timestamp, stackid, stack) + rest;
            &&& holds_stack_record(data)
            &&& stack_event_at(data) == (EventView {
                pid,
                tid,
                timestamp,
                addr: 0,
                kind: EventKindView::Stack { record: stack },
            })
            &&& u64_at(data, STACK_ID as int) as i64 == stackid
        }),
{
    let data = encoded_stack(pid, tid, timestamp, stackid, stack) + rest;
    lemma_stored_len(stack.hash, pid as u32, 0);
    lemma_stored_len(timestamp, tid as u32, 0);
    lemma_stored_len(stackid as u64, stack.bytes.len() as u32, 0);
    lemma_stored_len(stack.sp, 0, 0);
    lemma_words(stack.regs, 0);
    lemma_word(data, 0, stack.hash);
    lemma_word(data, 8, timestamp);
    lemma_word(data, 16, stackid as u64);
    lemma_word(data, 24, stack.sp);
    lemma_half(data, 32, pid as u32);
    lemma_half(data, 36, tid as u32);
    lemma_half(data, 40, stack.bytes.len() as u32);
    lemma_i32_reads_back(pid);
    lemma_i32_reads_back(tid);
    lemma_i64_reads_back(stackid);
    assert forall|i: int| 0 <= i < STACK_REG_COUNT implies #[trigger] u64_at(
        data,
        STACK_REGS + 8 * i,
    ) == stack.regs[i] by {
        lemma_words(stack.regs, i);
        assert(data.subrange(STACK_REGS + 8 * i, STACK_REGS + 8 * i + 8) =~= words(
            stack.regs,
        ).subrange(8 * i, 8 * i + 8));
        lemma_word(data, STACK_REGS + 8 * i, stack.regs[i]);
    }
    assert(stack_record_len(data) == STACK_HEADER_SIZE + stack.bytes.len());
    assert(data.subrange(STACK_HEADER_SIZE as int, stack_record_len(data)) =~= stack.bytes);
    assert(stack_at(data).regs =~= stack.regs);
    assert(stack_at(data).fp_chain =~= stack.fp_chain);
    assert(stack_at(data) =~= stack);
}

proof fn lemma_words_from_front(values: Seq<u64>)
    requires
        values.len() > 0,
    ensures
        words(values) == word(values[0]) + words(values.skip(1)),
    decreases values.len(),
{
    if values.len() == 1 {
        assert(words(values.drop_last()) =~= Seq::empty());
        assert(words(values.skip(1)) =~= Seq::empty());
        assert(words(values) =~= word(values[0]) + words(values.skip(1)));
    } else {
        lemma_words_from_front(values.drop_last());
        assert(values.drop_last().skip(1) =~= values.skip(1).drop_last());
        assert(words(values) =~= word(values[0]) + words(values.skip(1)));
    }
}

proof fn lemma_zero_word(n: nat)
    requires
        n >= 8,
    ensures
        u64_at(zeros(n), 0) == 0,
{
    reveal_with_fuel(le_value, 9);
    let b = zeros(n).subrange(0, 8);
    assert(b.reverse() =~= b);
    assert(le_value(b) == 0);
}

/// A frame-pointer walk is read back from the array that holds it, which is
/// padded with zeros past the last frame.
pub proof fn law_walk_reads_back(addresses: Seq<u64>, padding: nat)
    requires
        !addresses.contains(0),
    ensures
        walk(words(addresses) + zeros(padding)) == addresses,
    decreases addresses.len(),
{
    let value = words(addresses) + zeros(padding);
    if addresses.len() == 0 {
        assert(value =~= zeros(padding));
        if padding >= 8 {
            lemma_zero_word(padding);
        }
        assert(walk(value) =~= addresses);
    } else {
        lemma_words_from_front(addresses);
        lemma_stored_len(addresses[0], 0, 0);
        lemma_word(value, 0, addresses[0]);
        let rest = addresses.skip(1);
        assert forall|i: int| 0 <= i < rest.len() implies rest[i] != 0 by {
            assert(rest[i] == addresses[i + 1]);
        }
        law_walk_reads_back(rest, padding);
        assert(value.skip(8) =~= words(rest) + zeros(padding));
        assert(addresses[0] != 0);
        assert(walk(value) =~= addresses);
    }
}

/// A frame-pointer walk holds no zero, and no more addresses than whole words
/// were stored.
pub proof fn law_walk_has_no_zero(value: Seq<u8>)
    ensures
        !walk(value).contains(0),
        8 * walk(value).len() <= value.len(),
    decreases value.len(),
{
    if !(value.len() < 8 || u64_at(value, 0) == 0) {
        law_walk_has_no_zero(value.skip(8));
        let rest = walk(value.skip(8));
        assert forall|i: int| 0 <= i < walk(value).len() implies walk(value)[i] != 0 by {
            if i > 0 {
                assert(walk(value)[i] == rest[i - 1]);
            }
        }
    }
}

/// The fields of an mmap2 record.
pub struct Mmap2 {
    pub misc: u16,
    pub pid: i32,
    pub tid: i32,
    pub addr: u64,
    pub len: u64,
    pub file_offset: u64,
    pub major: u32,
    pub minor: u32,
    pub ino: u64,
    pub ino_generation: u64,
    pub prot: u32,
    pub flags: u32,
    pub path: Seq<char>,
    pub timestamp: u64,
}

/// The fixed fields of an mmap2 record of `size` bytes.
pub open spec fn mmap2_head(m: Mmap2, size: u16) -> Seq<u8> {
    half(record_mmap2()) + ne_bytes(m.misc as nat, 2) + ne_bytes(size as nat, 2) + half(
        m.pid as u32,
    ) + half(m.tid as u32) + word(m.addr) + word(m.len) + word(m.file_offset) + half(m.major)
        + half(m.minor) + word(m.ino) + word(m.ino_generation) + half(m.prot) + half(m.flags)
}

/// How long an mmap2 record is, where `padding` stands behind the NUL.
pub open spec fn mmap2_len(m: Mmap2, padding: Seq<u8>) -> nat {
    MMAP2_FIXED_END as nat + encode_utf8(m.path).len() + 1 + padding.len() + SAMPLE_ID_SIZE as nat
}

/// The bytes of an mmap2 record.
pub open spec fn encoded_mmap2(m: Mmap2, padding: Seq<u8>) -> Seq<u8> {
    mmap2_head(m, mmap2_len(m, padding) as u16) + encode_utf8(m.path) + seq![0u8] + padding + half(
        m.pid as u32,
    ) + half(m.tid as u32) + word(m.timestamp)
}

proof fn lemma_scalar_has_no_nul(scalar: u32)
    requires
        scalar != 0,
        is_scalar(scalar),
    ensures
        !encode_scalar(scalar).contains(0u8),
{
    assert(scalar != 0 && scalar <= 0x7f ==> (scalar & 0x7f) as u8 != 0) by (bit_vector);
    assert(0xC0u8 | ((scalar >> 6) & 0x1F) as u8 != 0) by (bit_vector);
    assert(0xE0u8 | ((scalar >> 12) & 0x0F) as u8 != 0) by (bit_vector);
    assert(0xF0u8 | ((scalar >> 18) & 0x7) as u8 != 0) by (bit_vector);
    assert(0x80u8 | (scalar & 0x3F) as u8 != 0) by (bit_vector);
    assert(0x80u8 | ((scalar >> 6) & 0x3F) as u8 != 0) by (bit_vector);
    assert(0x80u8 | ((scalar >> 12) & 0x3F) as u8 != 0) by (bit_vector);
}

proof fn lemma_text_has_no_nul(text: Seq<char>)
    requires
        !text.contains('\0'),
    ensures
        !encode_utf8(text).contains(0u8),
    decreases text.len(),
{
    if text.len() > 0 {
        char_is_scalar(text[0]);
        char_u32_cast(text[0], text[0] as u32);
        assert(text[0] != '\0');
        lemma_scalar_has_no_nul(text[0] as u32);
        let rest = text.drop_first();
        assert forall|i: int| 0 <= i < rest.len() implies rest[i] != '\0' by {
            assert(rest[i] == text[i + 1]);
        }
        lemma_text_has_no_nul(rest);
        let head = encode_scalar(text[0] as u32);
        let bytes = encode_utf8(text);
        assert forall|i: int| 0 <= i < bytes.len() implies bytes[i] != 0 by {
            if i < head.len() {
                assert(bytes[i] == head[i]);
            } else {
                assert(bytes[i] == encode_utf8(rest)[i - head.len()]);
            }
        }
    }
}

proof fn lemma_c_string(name: Seq<u8>, rest: Seq<u8>)
    requires
        !name.contains(0u8),
    ensures
        c_string(name + seq![0u8] + rest) == Some(name),
    decreases name.len(),
{
    let s = name + seq![0u8] + rest;
    if name.len() == 0 {
        assert(s[0] == 0);
        assert(name =~= Seq::empty());
    } else {
        let tail = name.skip(1);
        assert forall|i: int| 0 <= i < tail.len() implies tail[i] != 0 by {
            assert(tail[i] == name[i + 1]);
        }
        lemma_c_string(tail, rest);
        assert(s.skip(1) =~= tail + seq![0u8] + rest);
        assert(s[0] == name[0]);
        assert(seq![name[0]] + tail =~= name);
    }
}

/// An executable mapping of a file with an absolute path is read back from the
/// mmap2 record that reports it, and that record is framed as a ring expects.
pub proof fn law_mmap2_reads_back(m: Mmap2, padding: Seq<u8>)
    requires
        m.prot & prot_exec() != 0,
        m.path.len() > 0,
        m.path[0] == '/',
        !m.path.contains('\0'),
        mmap2_len(m, padding) <= u16::MAX,
    ensures
        encoded_mmap2(m, padding).len() == mmap2_len(m, padding),
        is_framed(encoded_mmap2(m, padding)),
        mmap2_event(encoded_mmap2(m, padding)) == Some(
            EventView {
                pid: m.pid,
                tid: m.tid,
                timestamp: m.timestamp,
                addr: m.addr,
                kind: EventKindView::Mapping {
                    path: m.path,
                    dev: s_dev(m.major, m.minor),
                    ino: m.ino,
                    file_offset: m.file_offset,
                    len: m.len,
                },
            },
        ),
{
    let record = encoded_mmap2(m, padding);
    let size = mmap2_len(m, padding) as u16;
    let name = encode_utf8(m.path);
    lemma_stored_len(m.addr, record_mmap2(), m.misc);
    lemma_stored_len(m.len, m.pid as u32, size);
    lemma_stored_len(m.file_offset, m.tid as u32, 0);
    lemma_stored_len(m.ino, m.major, 0);
    lemma_stored_len(m.ino_generation, m.minor, 0);
    lemma_stored_len(m.timestamp, m.prot, 0);
    lemma_stored_len(0, m.flags, 0);
    let head = mmap2_head(m, size);
    assert(head.len() == MMAP2_FIXED_END);
    assert(record.take(72) =~= head);
    assert forall|at: int, n: int| 0 <= at && 0 <= n && at + n <= 72 implies #[trigger] record.subrange(
        at,
        at + n,
    ) == head.subrange(at, at + n) by {
        assert(record.subrange(at, at + n) =~= record.take(72).subrange(at, at + n));
    }
    lemma_half(record, 0, record_mmap2());
    assert(record.subrange(6, 8) =~= ne_bytes(size as nat, 2));
    law_u16_reads_back(record, 6, size);
    lemma_half(record, 8, m.pid as u32);
    lemma_half(record, 12, m.tid as u32);
    lemma_word(record, 16, m.addr);
    lemma_word(record, 24, m.len);
    lemma_word(record, 32, m.file_offset);
    lemma_half(record, 40, m.major);
    lemma_half(record, 44, m.minor);
    lemma_word(record, 48, m.ino);
    lemma_half(record, 64, m.prot);
    lemma_word(record, record.len() - 8, m.timestamp);
    lemma_i32_reads_back(m.pid);
    lemma_i32_reads_back(m.tid);
    let path_field = record.subrange(MMAP2_FIXED_END as int, record.len() - SAMPLE_ID_SIZE);
    assert(path_field =~= name + seq![0u8] + padding);
    lemma_text_has_no_nul(m.path);
    lemma_c_string(name, padding);
    encode_utf8_valid_utf8(m.path);
    encode_utf8_decode_utf8(m.path);
}

} // verus!
