//! Layout of the C records that the BPF programs write, and the codes in them.
//!
//! The header that declares them belongs to the BPF programs and is not part of
//! this crate, so the field order, the codes and the counter slots below are
//! assumed, for x86_64: that architecture sets the number of registers. Every
//! record is taken to be a plain C struct: fields in declaration order, each at
//! a multiple of its own size, in the byte order of the machine. What is proved
//! of the decoders holds of these layouts. The application's `assert_layouts!`
//! compares them, at build time, with bindings that are generated from the
//! header, wherever these are.

use vstd::prelude::*;

verus! {

// struct event {
//     struct { u8 event_type; u64 timestamp; u32 pid; u32 tid; } header;
//     union {
//         struct { u64 addr; u64 size; u64 stack_hash; } alloc;
//         struct { u64 addr; u64 stack_hash; } free;
//         struct { u64 old_addr; u64 new_addr; u64 size; u64 stack_hash; } realloc;
//         struct { u64 addr; u64 size; } mmap;
//         struct { u32 parent_pid; } fork;
//         struct { s32 member; u64 size; } rss;
//         struct { s32 member; s64 delta; u64 addr; } rmap;
//     } data;
// };
pub const EVENT_SIZE: usize = 56;

pub const EVENT_TYPE: usize = 0;

pub const EVENT_TIMESTAMP: usize = 8;

pub const EVENT_PID: usize = 16;

pub const EVENT_TID: usize = 20;

pub const ALLOC_ADDR: usize = 24;

pub const ALLOC_SIZE: usize = 32;

pub const ALLOC_STACK_HASH: usize = 40;

pub const FREE_ADDR: usize = 24;

pub const FREE_STACK_HASH: usize = 32;

pub const REALLOC_OLD_ADDR: usize = 24;

pub const REALLOC_NEW_ADDR: usize = 32;

pub const REALLOC_SIZE: usize = 40;

pub const REALLOC_STACK_HASH: usize = 48;

pub const MMAP_ADDR: usize = 24;

pub const MMAP_SIZE: usize = 32;

pub const FORK_PARENT_PID: usize = 24;

pub const RSS_MEMBER: usize = 24;

pub const RSS_SIZE: usize = 32;

pub const RMAP_MEMBER: usize = 24;

pub const RMAP_DELTA: usize = 32;

pub const RMAP_ADDR: usize = 40;

pub const EVENT_TYPE_MALLOC: u8 = 1;

pub const EVENT_TYPE_FREE: u8 = 2;

pub const EVENT_TYPE_CALLOC: u8 = 3;

pub const EVENT_TYPE_REALLOC: u8 = 4;

pub const EVENT_TYPE_ALIGNED_ALLOC: u8 = 5;

pub const EVENT_TYPE_MMAP: u8 = 6;

pub const EVENT_TYPE_MUNMAP: u8 = 7;

pub const EVENT_TYPE_BRK: u8 = 8;

pub const EVENT_TYPE_FORK: u8 = 9;

pub const EVENT_TYPE_EXEC: u8 = 10;

pub const EVENT_TYPE_EXIT: u8 = 11;

pub const EVENT_TYPE_RSS: u8 = 12;

pub const EVENT_TYPE_RMAP: u8 = 13;

// struct stack_header {
//     u64 hash; u64 timestamp; s64 stackid; u64 sp;
//     u32 pid; u32 tid; u32 copy_len; u8 truncated; u8 _pad[3];
//     struct { u64 reg[33]; } regs;
// };
pub const STACK_HEADER_SIZE: usize = 312;

pub const STACK_HASH: usize = 0;

pub const STACK_TIMESTAMP: usize = 8;

pub const STACK_ID: usize = 16;

pub const STACK_SP: usize = 24;

pub const STACK_PID: usize = 32;

pub const STACK_TID: usize = 36;

pub const STACK_COPY_LEN: usize = 40;

pub const STACK_TRUNCATED: usize = 44;

pub const STACK_REGS: usize = 48;

/// Registers in one capture: the x86_64 set. Other architectures have other
/// sets, and with them another header size.
pub const STACK_REG_COUNT: usize = 33;

// struct attach_request { u32 pid; u64 dev; u64 ino; };
pub const ATTACH_REQUEST_SIZE: usize = 24;

pub const ATTACH_PID: usize = 0;

pub const ATTACH_DEV: usize = 8;

pub const ATTACH_INO: usize = 16;

// struct mapping_record {
//     u64 dev; u64 ino; u64 file_offset; u64 start; u64 end; u64 timestamp;
//     u32 pid; u32 _pad;
// };
pub const MAPPING_RECORD_SIZE: usize = 56;

pub const MAPPING_DEV: usize = 0;

pub const MAPPING_INO: usize = 8;

pub const MAPPING_FILE_OFFSET: usize = 16;

pub const MAPPING_START: usize = 24;

pub const MAPPING_END: usize = 32;

pub const MAPPING_TIMESTAMP: usize = 40;

pub const MAPPING_PID: usize = 48;

// Slots of the stack counter array.
pub const MEMTRACK_STACK_COUNTER_COPY_FAILED: u32 = 0;

pub const MEMTRACK_STACK_COUNTER_HASH_MAP_FULL: u32 = 1;

pub const MEMTRACK_STACK_COUNTER_STACKID_FAILED: u32 = 2;

pub const MEMTRACK_STACK_COUNTER_TRUNCATED: u32 = 3;

pub const MEMTRACK_STACK_COUNTER_RING_FULL: u32 = 4;

} // verus!
