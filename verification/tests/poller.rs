use memtrack::artifacts::{MemtrackEvent, MemtrackEventKind};
use memtrack::poller::{
    collect_action, collected_mappings, poll_action, CollectAction, ControlEvent, PollAction,
    ReadMode,
};

#[test]
fn a_poll_thread_empties_the_buffer_before_it_answers_or_stops() {
    assert_eq!(
        poll_action(ControlEvent::DrainRequest),
        PollAction {
            read: ReadMode::ConsumeAll,
            acknowledge: true,
            stop: false
        }
    );
    assert_eq!(
        poll_action(ControlEvent::Tick),
        PollAction {
            read: ReadMode::Poll,
            acknowledge: false,
            stop: false
        }
    );
    assert_eq!(
        poll_action(ControlEvent::Disconnected),
        PollAction {
            read: ReadMode::ConsumeAll,
            acknowledge: false,
            stop: true
        }
    );
}

#[test]
fn mappings_are_handed_on_at_the_end_only() {
    let action = |acknowledge, hand_on| CollectAction {
        acknowledge,
        hand_on,
    };
    assert_eq!(collect_action(ControlEvent::DrainRequest), action(true, false));
    assert_eq!(collect_action(ControlEvent::Tick), action(false, false));
    assert_eq!(collect_action(ControlEvent::Disconnected), action(false, true));
}

#[test]
fn collected_mappings_are_by_process_and_time() {
    let event = |pid, timestamp, addr| MemtrackEvent {
        pid,
        tid: pid,
        timestamp,
        addr,
        kind: MemtrackEventKind::Exec,
    };
    let sorted = collected_mappings(vec![
        event(9, 1, 0),
        event(3, 7, 1),
        event(9, 0, 2),
        event(-1, 100, 3),
        event(3, 7, 4),
        event(3, 2, 5),
    ]);
    let addresses: Vec<u64> = sorted.iter().map(|e| e.addr).collect();
    assert_eq!(addresses, vec![3, 5, 1, 4, 2, 0]);
    assert!(collected_mappings(vec![]).is_empty());
}

/// Runs a poll thread over rounds of arriving entries, an event and how many
/// entries a poll finds ready; gives what was read in all, and what had been
/// read at each answer.
fn run(rounds: &[(&[u8], ControlEvent, usize)]) -> (Vec<u8>, Vec<usize>) {
    let (mut pending, mut read, mut answers) = (Vec::new(), Vec::new(), Vec::new());
    for (arrived, event, ready) in rounds {
        pending.extend_from_slice(arrived);
        let action = poll_action(*event);
        let taken = match action.read {
            ReadMode::ConsumeAll => pending.len(),
            ReadMode::Poll => pending.len().min(*ready),
        };
        read.extend(pending.drain(..taken));
        if action.acknowledge {
            answers.push(read.len());
        }
        if action.stop {
            break;
        }
    }
    (read, answers)
}

#[test]
fn no_buffered_entry_is_lost_at_shutdown() {
    let (read, answers) = run(&[
        (&[1, 2, 3], ControlEvent::Tick, 1),
        (&[], ControlEvent::Tick, 0),
        (&[4], ControlEvent::DrainRequest, 0),
        (&[5, 6], ControlEvent::Tick, 1),
        (&[7], ControlEvent::Disconnected, 0),
    ]);
    assert_eq!(read, vec![1, 2, 3, 4, 5, 6, 7]);
    assert_eq!(answers, vec![4]);
}

#[test]
fn all_that_was_collected_is_handed_on_at_the_end() {
    let event = |pid, timestamp| MemtrackEvent {
        pid,
        tid: pid,
        timestamp,
        addr: 0,
        kind: MemtrackEventKind::Exec,
    };
    let rounds = [
        (vec![event(2, 5), event(1, 9)], ControlEvent::Tick),
        (vec![event(1, 3)], ControlEvent::DrainRequest),
        (vec![event(2, 1)], ControlEvent::Disconnected),
    ];
    let (mut held, mut handed_on) = (Vec::new(), Vec::new());
    for (drained, control) in rounds {
        assert!(handed_on.is_empty());
        held.extend(drained);
        if collect_action(control).hand_on {
            handed_on = collected_mappings(std::mem::take(&mut held));
        }
    }
    assert_eq!(
        handed_on,
        vec![event(1, 3), event(1, 9), event(2, 1), event(2, 5)]
    );
}
