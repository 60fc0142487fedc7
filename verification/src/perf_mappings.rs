//! Executable mappings as the kernel's perf events report them.

use crate::artifacts::{EventKindView, EventView, MemtrackEvent, MemtrackEventKind};
use crate::bytes::{get_u16, get_u32, get_u64, u16_at, u32_at, u64_at};
use vstd::prelude::*;
use vstd::slice::slice_subrange;
use vstd::string::StrSliceExecFns;
use vstd::utf8::{decode_utf8, valid_utf8};

verus! {

/// The record type of an mmap2 record.
pub open spec fn record_mmap2() -> u32 {
    10
}

/// The record type of a record that reports lost records.
pub open spec fn record_lost() -> u32 {
    2
}

/// The protection bit of executable pages.
pub open spec fn prot_exec() -> u32 {
    4
}

/// The constant `perf_event_open_sys::bindings::PERF_RECORD_MMAP2`.
#[verifier::external_body]
pub(crate) fn perf_record_mmap2() -> (r: u32)
    ensures
        r == record_mmap2(),
{
    perf_event_open_sys::bindings::PERF_RECORD_MMAP2
}

/// The constant `perf_event_open_sys::bindings::PERF_RECORD_LOST`.
#[verifier::external_body]
pub(crate) fn perf_record_lost() -> (r: u32)
    ensures
        r == record_lost(),
{
    perf_event_open_sys::bindings::PERF_RECORD_LOST
}

/// The constant `libc::PROT_EXEC`, as on Linux.
#[verifier::external_body]
fn libc_prot_exec() -> (r: u32)
    ensures
        r == prot_exec(),
{
    libc::PROT_EXEC as u32
}

/// `std`'s `str::from_utf8`: the text of well-formed UTF-8, nothing otherwise.
#[verifier::external_body]
fn from_utf8(bytes: &[u8]) -> (r: Option<&str>)
    ensures
        match r {
            Some(text) => valid_utf8(bytes@) && text@ == decode_utf8(bytes@),
            None => !valid_utf8(bytes@),
        },
{
    std::str::from_utf8(bytes).ok()
}

/// Where the fixed fields of an mmap2 record end and the file name starts.
pub const MMAP2_FIXED_END: usize = 72;

/// The `pid`, `tid` and `time` that the kernel appends to every record.
pub const SAMPLE_ID_SIZE: usize = 16;

/// The bytes of `s` before its first zero byte.
pub open spec fn c_string(s: Seq<u8>) -> Option<Seq<u8>>
    decreases s.len(),
{
    if s.len() == 0 {
        None
    } else if s[0] == 0 {
        Some(Seq::empty())
    } else {
        match c_string(s.skip(1)) {
            Some(rest) => Some(seq![s[0]] + rest),
            None => None,
        }
    }
}

/// The absolute path that a NUL-terminated field holds.
pub open spec fn absolute_path(s: Seq<u8>) -> Option<Seq<char>> {
    match c_string(s) {
        Some(name) => {
            let text = decode_utf8(name);
            if valid_utf8(name) && text.len() > 0 && text[0] == '/' {
                Some(text)
            } else {
                None
            }
        },
        None => None,
    }
}

/// A device as the kernel encodes it in `s_dev`.
pub open spec fn s_dev(major: u32, minor: u32) -> u64 {
    ((major as u64) << 20) | (minor as u64)
}

/// The executable file mapping that an mmap2 record reports: nothing if the
/// bytes are no complete mmap2 record, the pages are not executable, or the
/// file has no absolute path.
pub open spec fn mmap2_event(record: Seq<u8>) -> Option<EventView> {
    if record.len() < MMAP2_FIXED_END + SAMPLE_ID_SIZE || u32_at(record, 0) != record_mmap2()
        || u16_at(record, 6) != record.len() || u32_at(record, 64) & prot_exec() == 0 {
        None
    } else {
        match absolute_path(
            record.subrange(MMAP2_FIXED_END as int, record.len() - SAMPLE_ID_SIZE),
        ) {
            Some(path) => Some(
                EventView {
                    pid: u32_at(record, 8) as i32,
                    tid: u32_at(record, 12) as i32,
                    timestamp: u64_at(record, record.len() - 8),
                    addr: u64_at(record, 16),
                    kind: EventKindView::Mapping {
                        path,
                        dev: s_dev(u32_at(record, 40), u32_at(record, 44)),
                        ino: u64_at(record, 48),
                        file_offset: u64_at(record, 32),
                        len: u64_at(record, 24),
                    },
                },
            ),
            None => None,
        }
    }
}

/// The bytes of `s` before its first zero byte.
fn until_nul(s: &[u8]) -> (r: Option<&[u8]>)
    ensures
        match r {
            Some(name) => c_string(s@) == Some(name@),
            None => c_string(s@) is None,
        },
{
    proof {
        assert(s@.skip(0) =~= s@);
        assert forall|b: Seq<u8>| #[trigger] (s@.take(0) + b) == b by {
            assert(s@.take(0) + b =~= b);
        }
    }
    for i in 0..s.len()
        invariant
            i <= s@.len(),
            c_string(s@) is Some <==> c_string(s@.skip(i as int)) is Some,
            c_string(s@.skip(i as int)) matches Some(b) ==> c_string(s@) == Some(
                s@.take(i as int) + b,
            ),
    {
        let ghost rest = s@.skip(i as int);
        assert(rest[0] == s@[i as int]);
        assert(rest.skip(1) =~= s@.skip(i + 1));
        if s[i] == 0 {
            assert(s@.take(i as int) + Seq::<u8>::empty() =~= s@.take(i as int));
            return Some(slice_subrange(s, 0, i));
        }
        assert forall|b: Seq<u8>|
            s@.take(i as int) + (seq![s@[i as int]] + b) == #[trigger] (s@.take(i + 1) + b) by {
            assert(s@.take(i as int) + (seq![s@[i as int]] + b) =~= s@.take(i + 1) + b);
        }
    }
    None
}

/// Decodes one mmap2 record.
pub fn parse_mmap2(record: &[u8]) -> (r: Option<MemtrackEvent>)
    ensures
        match r {
            Some(event) => mmap2_event(record@) == Some(event@),
            None => mmap2_event(record@) is None,
        },
{
    if record.len() < MMAP2_FIXED_END + SAMPLE_ID_SIZE || get_u32(record, 0) != perf_record_mmap2()
        || get_u16(record, 6) as usize != record.len() {
        return None;
    }
    if get_u32(record, 64) & libc_prot_exec() == 0 {
        return None;
    }
    let path_bytes = slice_subrange(record, MMAP2_FIXED_END, record.len() - SAMPLE_ID_SIZE);
    let name = match until_nul(path_bytes) {
        Some(name) => name,
        None => {
            return None;
        },
    };
    let path = match from_utf8(name) {
        Some(path) => path,
        None => {
            return None;
        },
    };
    if path.is_empty() || path.get_char(0) != '/' {
        return None;
    }
    let major = get_u32(record, 40) as u64;
    let minor = get_u32(record, 44) as u64;
    Some(
        MemtrackEvent {
            pid: get_u32(record, 8) as i32,
            tid: get_u32(record, 12) as i32,
            timestamp: get_u64(record, record.len() - 8),
            addr: get_u64(record, 16),
            kind: MemtrackEventKind::Mapping {
                path: path.to_owned(),
                dev: (major << 20) | minor,
                ino: get_u64(record, 48),
                file_offset: get_u64(record, 32),
                len: get_u64(record, 24),
            },
        },
    )
}

/// What an mmap2 record must be to report a mapping: long enough, of the mmap2
/// type, of the size it announces, of executable pages, and with an absolute
/// path.
pub proof fn law_what_a_mapping_record_must_be(record: Seq<u8>)
    ensures
        mmap2_event(record) is Some <==> {
            &&& record.len() >= 88
            &&& u32_at(record, 0) == 10
            &&& u16_at(record, 6) == record.len()
            &&& u32_at(record, 64) & 4 != 0
            &&& absolute_path(record.subrange(72, record.len() - 16)) is Some
        },
{
}

/// What a mapping record reports: each field from its own place.
pub proof fn law_where_the_fields_of_a_mapping_record_are(record: Seq<u8>)
    ensures
        mmap2_event(record) matches Some(e) ==> {
            &&& e.pid == u32_at(record, 8) as i32
            &&& e.tid == u32_at(record, 12) as i32
            &&& e.addr == u64_at(record, 16)
            &&& e.timestamp == u64_at(record, record.len() - 8)
            &&& e.kind matches EventKindView::Mapping { path, dev, ino, file_offset, len }
            &&& len == u64_at(record, 24)
            &&& file_offset == u64_at(record, 32)
            &&& dev == (u32_at(record, 40) as u64) << 20 | (u32_at(record, 44) as u64)
            &&& ino == u64_at(record, 48)
            &&& absolute_path(record.subrange(72, record.len() - 16)) == Some(path)
        },
{
}

/// A field holds an absolute path if and only if a zero byte ends a name in it
/// that holds none, is well-formed UTF-8 and starts with a slash; the path is
/// that name.
pub proof fn law_a_path_ends_at_the_first_zero(name: Seq<u8>, rest: Seq<u8>)
    requires
        forall|i: int| 0 <= i < name.len() ==> (#[trigger] name[i]) != 0,
    ensures
        absolute_path(name) is None,
        absolute_path(name.push(0) + rest) == if valid_utf8(name) && decode_utf8(name).len() > 0
            && decode_utf8(name)[0] == '/' {
            Some(decode_utf8(name))
        } else {
            None
        },
    decreases name.len(),
{
    lemma_c_string_ends(name, rest);
}

proof fn lemma_c_string_ends(name: Seq<u8>, rest: Seq<u8>)
    requires
        forall|i: int| 0 <= i < name.len() ==> (#[trigger] name[i]) != 0,
    ensures
        c_string(name) is None,
        c_string(name.push(0) + rest) == Some(name),
    decreases name.len(),
{
    let s = name.push(0) + rest;
    if name.len() == 0 {
        assert(s[0] == 0);
        assert(name =~= Seq::empty());
    } else {
        let tail = name.skip(1);
        assert forall|i: int| 0 <= i < tail.len() implies (#[trigger] tail[i]) != 0 by {
            assert(tail[i] == name[i + 1]);
        }
        lemma_c_string_ends(tail, rest);
        assert(s.skip(1) =~= tail.push(0) + rest);
        assert(s[0] == name[0]);
        assert(seq![name[0]] + tail =~= name);
    }
}

/// A device number is its major number moved up by 20 bits, with the minor
/// number below.
pub proof fn law_a_device_is_major_and_minor(major: u32, minor: u32)
    ensures
        s_dev(major, minor) == (major as u64) << 20 | (minor as u64),
        minor < 0x10_0000 ==> s_dev(major, minor) == major * 0x10_0000 + minor,
{
    let a = major as u64;
    let b = minor as u64;
    if minor < 0x10_0000 {
        assert(((a << 20) | b) == a * 0x10_0000 + b) by (bit_vector)
            requires
                a <= 0xffff_ffff,
                b < 0x10_0000,
        ;
    }
}

} // verus!
