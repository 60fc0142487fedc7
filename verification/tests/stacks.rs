use memtrack::stacks::{slot, SlotError, SlotLookup, StackCaptureStats};

fn count(n: u64) -> SlotLookup {
    SlotLookup::Value(n.to_ne_bytes().to_vec())
}

#[test]
fn a_slot_holds_a_counter() {
    assert_eq!(slot(&count(0x0102_0304_0506_0708), 2), Ok(0x0102_0304_0506_0708));
    assert_eq!(slot(&SlotLookup::Failed, 0), Err(SlotError::ReadFailed(0)));
    assert_eq!(slot(&SlotLookup::Missing, 4), Err(SlotError::Missing(4)));
    assert_eq!(
        slot(&SlotLookup::Value(vec![0; 7]), 1),
        Err(SlotError::UnexpectedSize(1))
    );
    assert_eq!(
        slot(&SlotLookup::Value(vec![0; 16]), 1),
        Err(SlotError::UnexpectedSize(1))
    );
}

#[test]
fn the_counters_are_read_in_order() {
    let slots = [count(1), count(2), count(3), count(4), count(5)];
    assert_eq!(
        StackCaptureStats::read(&slots),
        Ok(StackCaptureStats {
            copy_failed: 1,
            hash_map_full: 2,
            stackid_failed: 3,
            truncated: 4,
            ring_full: 5,
        })
    );
    assert_eq!(StackCaptureStats::default().ring_full, 0);
}

#[test]
fn the_first_bad_counter_decides() {
    for bad in 0..5 {
        let mut slots = [count(1), count(2), count(3), count(4), count(5)];
        slots[bad] = SlotLookup::Missing;
        slots[4] = if bad == 4 {
            SlotLookup::Missing
        } else {
            SlotLookup::Failed
        };
        assert_eq!(
            StackCaptureStats::read(&slots),
            Err(SlotError::Missing(bad as u32))
        );
    }
}
