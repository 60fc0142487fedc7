//! Counters of the stack captures that went wrong.

use crate::bindings::{
    MEMTRACK_STACK_COUNTER_COPY_FAILED, MEMTRACK_STACK_COUNTER_HASH_MAP_FULL,
    MEMTRACK_STACK_COUNTER_RING_FULL, MEMTRACK_STACK_COUNTER_STACKID_FAILED,
    MEMTRACK_STACK_COUNTER_TRUNCATED,
};
use crate::bytes::{get_u64, u64_at};
use vstd::prelude::*;

verus! {

/// What looking up one slot of the counter array gave.
#[derive(Debug, Clone, PartialEq, Eq)]
pub enum SlotLookup {
    /// The slot could not be read.
    Failed,
    /// The array has no such slot.
    Missing,
    /// The bytes in the slot.
    Value(Vec<u8>),
}

/// Why a counter is not known; each names the slot.
#[derive(Debug, Clone, Copy, PartialEq, Eq)]
pub enum SlotError {
    /// Failed to read the stack counter.
    ReadFailed(u32),
    /// The slot of the stack counter is missing.
    Missing(u32),
    /// The stack counter has an unexpected size.
    UnexpectedSize(u32),
}

/// The counter in slot `index`.
pub open spec fn slot_value(lookup: SlotLookup, index: u32) -> Result<u64, SlotError> {
    match lookup {
        SlotLookup::Failed => Err(SlotError::ReadFailed(index)),
        SlotLookup::Missing => Err(SlotError::Missing(index)),
        SlotLookup::Value(bytes) => if bytes@.len() == 8 {
            Ok(u64_at(bytes@, 0))
        } else {
            Err(SlotError::UnexpectedSize(index))
        },
    }
}

/// The counter in slot `index`.
pub fn slot(lookup: &SlotLookup, index: u32) -> (r: Result<u64, SlotError>)
    ensures
        r == slot_value(*lookup, index),
{
    match lookup {
        SlotLookup::Failed => Err(SlotError::ReadFailed(index)),
        SlotLookup::Missing => Err(SlotError::Missing(index)),
        SlotLookup::Value(bytes) => if bytes.len() == 8 {
            Ok(get_u64(bytes.as_slice(), 0))
        } else {
            Err(SlotError::UnexpectedSize(index))
        },
    }
}

/// Per-cause counts of stack captures that were skipped or truncated.
#[derive(Debug, Clone, Copy, PartialEq, Eq)]
pub struct StackCaptureStats {
    pub copy_failed: u64,
    pub hash_map_full: u64,
    pub stackid_failed: u64,
    pub truncated: u64,
    pub ring_full: u64,
}

impl Default for StackCaptureStats {
    fn default() -> (r: StackCaptureStats)
        ensures
            r == (StackCaptureStats {
                copy_failed: 0,
                hash_map_full: 0,
                stackid_failed: 0,
                truncated: 0,
                ring_full: 0,
            }),
    {
        StackCaptureStats {
            copy_failed: 0,
            hash_map_full: 0,
            stackid_failed: 0,
            truncated: 0,
            ring_full: 0,
        }
    }
}

/// The number of slots in the counter array.
pub const STACK_COUNTER_SLOTS: usize = 5;

/// The counter in slot `index` of the array.
pub open spec fn counter(slots: Seq<SlotLookup>, index: u32) -> Result<u64, SlotError> {
    slot_value(slots[index as int], index)
}

impl StackCaptureStats {
    /// The counters of the array whose slots were looked up as `slots`.
    pub fn read(slots: &[SlotLookup; 5]) -> (r: Result<StackCaptureStats, SlotError>)
        ensures
            match r {
                Ok(stats) => {
                    &&& counter(slots@, MEMTRACK_STACK_COUNTER_COPY_FAILED) == Ok::<u64, SlotError>(
                        stats.copy_failed,
                    )
                    &&& counter(slots@, MEMTRACK_STACK_COUNTER_HASH_MAP_FULL) == Ok::<
                        u64,
                        SlotError,
                    >(stats.hash_map_full)
                    &&& counter(slots@, MEMTRACK_STACK_COUNTER_STACKID_FAILED) == Ok::<
                        u64,
                        SlotError,
                    >(stats.stackid_failed)
                    &&& counter(slots@, MEMTRACK_STACK_COUNTER_TRUNCATED) == Ok::<u64, SlotError>(
                        stats.truncated,
                    )
                    &&& counter(slots@, MEMTRACK_STACK_COUNTER_RING_FULL) == Ok::<u64, SlotError>(
                        stats.ring_full,
                    )
                },
                Err(e) => first_error(slots@) == Some(e),
            },
            r is Ok <==> first_error(slots@) is None,
            r matches Ok(stats) ==> {
                &&& slot_value(slots@[0], 0) == Ok::<u64, SlotError>(stats.copy_failed)
                &&& slot_value(slots@[1], 1) == Ok::<u64, SlotError>(stats.hash_map_full)
                &&& slot_value(slots@[2], 2) == Ok::<u64, SlotError>(stats.stackid_failed)
                &&& slot_value(slots@[3], 3) == Ok::<u64, SlotError>(stats.truncated)
                &&& slot_value(slots@[4], 4) == Ok::<u64, SlotError>(stats.ring_full)
            },
    {
        let copy_failed = match slot(
            &slots[MEMTRACK_STACK_COUNTER_COPY_FAILED as usize],
            MEMTRACK_STACK_COUNTER_COPY_FAILED,
        ) {
            Ok(count) => count,
            Err(e) => {
                return Err(e);
            },
        };
        let hash_map_full = match slot(
            &slots[MEMTRACK_STACK_COUNTER_HASH_MAP_FULL as usize],
            MEMTRACK_STACK_COUNTER_HASH_MAP_FULL,
        ) {
            Ok(count) => count,
            Err(e) => {
                return Err(e);
            },
        };
        let stackid_failed = match slot(
            &slots[MEMTRACK_STACK_COUNTER_STACKID_FAILED as usize],
            MEMTRACK_STACK_COUNTER_STACKID_FAILED,
        ) {
            Ok(count) => count,
            Err(e) => {
                return Err(e);
            },
        };
        let truncated = match slot(
            &slots[MEMTRACK_STACK_COUNTER_TRUNCATED as usize],
            MEMTRACK_STACK_COUNTER_TRUNCATED,
        ) {
            Ok(count) => count,
            Err(e) => {
                return Err(e);
            },
        };
        let ring_full = match slot(
            &slots[MEMTRACK_STACK_COUNTER_RING_FULL as usize],
            MEMTRACK_STACK_COUNTER_RING_FULL,
        ) {
            Ok(count) => count,
            Err(e) => {
                return Err(e);
            },
        };
        Ok(
            StackCaptureStats { copy_failed, hash_map_full, stackid_failed, truncated, ring_full },
        )
    }
}

/// The error of the first counter that is not known, in the order of the
/// fields of [`StackCaptureStats`].
pub open spec fn first_error(slots: Seq<SlotLookup>) -> Option<SlotError> {
    match counter(slots, MEMTRACK_STACK_COUNTER_COPY_FAILED) {
        Err(e) => Some(e),
        Ok(_) => match counter(slots, MEMTRACK_STACK_COUNTER_HASH_MAP_FULL) {
            Err(e) => Some(e),
            Ok(_) => match counter(slots, MEMTRACK_STACK_COUNTER_STACKID_FAILED) {
                Err(e) => Some(e),
                Ok(_) => match counter(slots, MEMTRACK_STACK_COUNTER_TRUNCATED) {
                    Err(e) => Some(e),
                    Ok(_) => match counter(slots, MEMTRACK_STACK_COUNTER_RING_FULL) {
                        Err(e) => Some(e),
                        Ok(_) => None,
                    },
                },
            },
        },
    }
}

/// A slot gives its counter if and only if it holds exactly eight bytes; any
/// other slot is an error that names it.
pub proof fn law_a_counter_is_eight_bytes(lookup: SlotLookup, index: u32)
    ensures
        lookup is Failed ==> slot_value(lookup, index) == Err::<u64, SlotError>(
            SlotError::ReadFailed(index),
        ),
        lookup is Missing ==> slot_value(lookup, index) == Err::<u64, SlotError>(
            SlotError::Missing(index),
        ),
        lookup matches SlotLookup::Value(bytes) ==> {
            &&& bytes@.len() == 8 ==> slot_value(lookup, index) == Ok::<u64, SlotError>(
                u64_at(bytes@, 0),
            )
            &&& bytes@.len() != 8 ==> slot_value(lookup, index) == Err::<u64, SlotError>(
                SlotError::UnexpectedSize(index),
            )
        },
{
}

/// Each counter has a slot of its own, from the first to the fifth, and the
/// first bad one is the error.
pub proof fn law_the_first_bad_slot_is_the_error(slots: Seq<SlotLookup>, bad: u32)
    requires
        slots.len() == 5,
        bad < 5,
        forall|i: u32| i < bad ==> slot_value(slots[i as int], i) is Ok,
        slot_value(slots[bad as int], bad) is Err,
    ensures
        first_error(slots) == Some(slot_value(slots[bad as int], bad)->Err_0),
{
    assert(bad > 0 ==> slot_value(slots[0], 0) is Ok);
    assert(bad > 1 ==> slot_value(slots[1], 1) is Ok);
    assert(bad > 2 ==> slot_value(slots[2], 2) is Ok);
    assert(bad > 3 ==> slot_value(slots[3], 3) is Ok);
}

/// Without a bad slot there is no error.
pub proof fn law_no_bad_slot_no_error(slots: Seq<SlotLookup>)
    requires
        slots.len() == 5,
        forall|i: u32| i < 5 ==> slot_value(slots[i as int], i) is Ok,
    ensures
        first_error(slots) is None,
{
    assert(slot_value(slots[0], 0) is Ok);
    assert(slot_value(slots[1], 1) is Ok);
    assert(slot_value(slots[2], 2) is Ok);
    assert(slot_value(slots[3], 3) is Ok);
    assert(slot_value(slots[4], 4) is Ok);
}

} // verus!
