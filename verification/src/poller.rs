//! What a poll thread does next.
//!
//! A control channel doubles as the poll pacing: a received message is a drain
//! request, a timeout is a regular poll tick, and disconnection is the shutdown
//! signal.

use crate::artifacts::{event_views, EventView, MemtrackEvent};
use crate::sort::{
    is_sorted, keys, law_sorted_is_in_order, law_sorted_keeps_the_items, lemma_sort_commutes, sort,
    sorted_by, SortOrder,
};
use vstd::prelude::*;

verus! {

/// What came out of waiting on the control channel.
#[derive(Debug, Clone, Copy, PartialEq, Eq)]
pub enum ControlEvent {
    /// Somebody asks for a full drain and waits for the answer.
    DrainRequest,
    /// Nobody asked for anything in time.
    Tick,
    /// The poller was dropped.
    Disconnected,
}

/// How a ring buffer is read.
#[derive(Debug, Clone, Copy, PartialEq, Eq)]
pub enum ReadMode {
    /// What is ready now.
    Poll,
    /// Everything that is buffered.
    ConsumeAll,
}

/// What a poll thread does: it reads, and then answers or stops.
#[derive(Debug, Clone, Copy, PartialEq, Eq)]
pub struct PollAction {
    pub read: ReadMode,
    pub acknowledge: bool,
    pub stop: bool,
}

/// What a poll thread does about an event.
pub open spec fn action_for(event: ControlEvent) -> PollAction {
    PollAction {
        read: if event is Tick {
            ReadMode::Poll
        } else {
            ReadMode::ConsumeAll
        },
        acknowledge: event is DrainRequest,
        stop: event is Disconnected,
    }
}

/// What a poll thread does about an event.
pub fn poll_action(event: ControlEvent) -> (r: PollAction)
    ensures
        r == action_for(event),
{
    match event {
        ControlEvent::DrainRequest => PollAction {
            read: ReadMode::ConsumeAll,
            acknowledge: true,
            stop: false,
        },
        ControlEvent::Tick => PollAction { read: ReadMode::Poll, acknowledge: false, stop: false },
        ControlEvent::Disconnected => PollAction {
            read: ReadMode::ConsumeAll,
            acknowledge: false,
            stop: true,
        },
    }
}

/// One round of a poll thread: the entries that were put in the ring buffer
/// since the round before, the event that ended the wait, and how many entries
/// a poll would find ready. An entry may become ready late, so a poll takes any
/// number of entries, from the oldest on.
pub struct PollRound {
    pub arrived: Seq<Seq<u8>>,
    pub event: ControlEvent,
    pub ready: nat,
}

/// What is sent on for `entries`: what the parser makes of each, where it makes
/// something of it.
pub open spec fn parsed<T>(entries: Seq<Seq<u8>>, parse: spec_fn(Seq<u8>) -> Option<T>) -> Seq<T>
    decreases entries.len(),
{
    if entries.len() == 0 {
        Seq::empty()
    } else {
        let front = parsed(entries.drop_last(), parse);
        match parse(entries.last()) {
            Some(item) => front.push(item),
            None => front,
        }
    }
}

/// Where a poll thread stands: the entries still in the buffer, those that were
/// handed to the parser, what was sent on, how many requests were answered, and
/// whether it stopped.
#[verifier::ext_equal]
pub struct Polling<T> {
    pub pending: Seq<Seq<u8>>,
    pub delivered: Seq<Seq<u8>>,
    pub sent: Seq<T>,
    pub acknowledged: nat,
    pub stopped: bool,
}

impl<T> Polling<T> {
    pub open spec fn start() -> Polling<T> {
        Polling {
            pending: Seq::empty(),
            delivered: Seq::empty(),
            sent: Seq::empty(),
            acknowledged: 0,
            stopped: false,
        }
    }

    /// What one round does: the thread reads as [`action_for`] says, then
    /// answers or stops. A thread that stopped does nothing.
    pub open spec fn step(
        self,
        round: PollRound,
        parse: spec_fn(Seq<u8>) -> Option<T>,
    ) -> Polling<T> {
        let pending = self.pending + round.arrived;
        if self.stopped {
            Polling { pending, ..self }
        } else {
            let action = action_for(round.event);
            let taken: int = if action.read is ConsumeAll || round.ready >= pending.len() {
                pending.len() as int
            } else {
                round.ready as int
            };
            Polling {
                pending: pending.skip(taken),
                delivered: self.delivered + pending.take(taken),
                sent: self.sent + parsed(pending.take(taken), parse),
                acknowledged: if action.acknowledge {
                    self.acknowledged + 1
                } else {
                    self.acknowledged
                },
                stopped: action.stop,
            }
        }
    }
}

/// Where the rounds lead, with `parse` as the parser.
pub open spec fn polled<T>(
    rounds: Seq<PollRound>,
    parse: spec_fn(Seq<u8>) -> Option<T>,
) -> Polling<T>
    decreases rounds.len(),
{
    if rounds.len() == 0 {
        Polling::start()
    } else {
        polled(rounds.drop_last(), parse).step(rounds.last(), parse)
    }
}

/// All entries that were put in the buffer, in order.
pub open spec fn arrivals(rounds: Seq<PollRound>) -> Seq<Seq<u8>>
    decreases rounds.len(),
{
    if rounds.len() == 0 {
        Seq::empty()
    } else {
        arrivals(rounds.drop_last()) + rounds.last().arrived
    }
}

/// Whether the poller is dropped before the last of the rounds.
pub open spec fn dropped_early(rounds: Seq<PollRound>) -> bool {
    exists|i: int| 0 <= i < rounds.len() - 1 && (#[trigger] rounds[i]).event is Disconnected
}

proof fn lemma_dropped_early<T>(rounds: Seq<PollRound>, parse: spec_fn(Seq<u8>) -> Option<T>)
    requires
        rounds.len() > 0,
        !dropped_early(rounds),
    ensures
        !polled(rounds.drop_last(), parse).stopped,
    decreases rounds.len(),
{
    let front = rounds.drop_last();
    assert forall|i: int| 0 <= i < front.len() implies !((#[trigger] front[i]).event
        is Disconnected) by {
        assert(front[i] == rounds[i]);
    }
    if front.len() > 0 {
        assert(front.last() == front[front.len() - 1]);
        lemma_dropped_early(front, parse);
    }
}

proof fn lemma_parsed_join<T>(
    a: Seq<Seq<u8>>,
    b: Seq<Seq<u8>>,
    parse: spec_fn(Seq<u8>) -> Option<T>,
)
    ensures
        parsed(a + b, parse) == parsed(a, parse) + parsed(b, parse),
    decreases b.len(),
{
    if b.len() == 0 {
        assert(a + b =~= a);
        assert(parsed(a, parse) + parsed(b, parse) =~= parsed(a, parse));
    } else {
        lemma_parsed_join(a, b.drop_last(), parse);
        assert((a + b).drop_last() =~= a + b.drop_last());
        assert(parsed(a + b, parse) =~= parsed(a, parse) + parsed(b, parse));
    }
}

/// At every moment each entry has either been handed to the parser, once and in
/// order, or is still in the buffer; and exactly what the parser made of the
/// entries that it was handed has been sent on.
pub proof fn law_entries_are_delivered_in_order<T>(
    rounds: Seq<PollRound>,
    parse: spec_fn(Seq<u8>) -> Option<T>,
)
    ensures
        polled(rounds, parse).delivered + polled(rounds, parse).pending == arrivals(rounds),
        polled(rounds, parse).sent == parsed(polled(rounds, parse).delivered, parse),
    decreases rounds.len(),
{
    if rounds.len() > 0 {
        law_entries_are_delivered_in_order(rounds.drop_last(), parse);
        let before = polled(rounds.drop_last(), parse);
        let after = polled(rounds, parse);
        let arrived = rounds.last().arrived;
        assert(after.delivered + after.pending =~= (before.delivered + before.pending) + arrived);
        let fresh = after.delivered.skip(before.delivered.len() as int);
        assert(after.delivered =~= before.delivered + fresh);
        lemma_parsed_join(before.delivered, fresh, parse);
        if !before.stopped {
            let pending = before.pending + arrived;
            assert(fresh =~= pending.take(fresh.len() as int));
        } else {
            assert(parsed(fresh, parse) =~= Seq::empty());
            assert(before.sent + Seq::<T>::empty() =~= before.sent);
        }
    }
}

/// No buffered entry is lost at shutdown: when the poller is dropped, the poll
/// thread stops, and by then every entry that was put in the buffer has been
/// handed to the parser, once and in order, and exactly what the parser made of
/// them has been sent on.
pub proof fn law_nothing_buffered_is_lost<T>(
    rounds: Seq<PollRound>,
    parse: spec_fn(Seq<u8>) -> Option<T>,
)
    requires
        rounds.len() > 0,
        rounds.last().event is Disconnected,
        !dropped_early(rounds),
    ensures
        polled(rounds, parse).stopped,
        polled(rounds, parse).delivered == arrivals(rounds),
        polled(rounds, parse).sent == parsed(arrivals(rounds), parse),
{
    lemma_dropped_early(rounds, parse);
    law_entries_are_delivered_in_order(rounds, parse);
    let end = polled(rounds, parse);
    assert(end.delivered + end.pending =~= end.delivered);
}

/// A drain request is answered once everything that was in the buffer has been
/// handed to the parser and what it made of it has been sent on.
pub proof fn law_a_drain_is_answered_when_empty<T>(
    rounds: Seq<PollRound>,
    parse: spec_fn(Seq<u8>) -> Option<T>,
)
    requires
        rounds.len() > 0,
        rounds.last().event is DrainRequest,
        !dropped_early(rounds),
    ensures
        polled(rounds, parse).acknowledged == polled(rounds.drop_last(), parse).acknowledged + 1,
        polled(rounds, parse).delivered == arrivals(rounds),
        polled(rounds, parse).sent == parsed(arrivals(rounds), parse),
        !polled(rounds, parse).stopped,
{
    lemma_dropped_early(rounds, parse);
    law_entries_are_delivered_in_order(rounds, parse);
    let end = polled(rounds, parse);
    assert(end.delivered + end.pending =~= end.delivered);
}

/// `resolve` applied behind `parse`.
pub open spec fn parse_then<T, U>(
    parse: spec_fn(Seq<u8>) -> Option<T>,
    resolve: spec_fn(T) -> U,
) -> spec_fn(Seq<u8>) -> Option<U> {
    |entry: Seq<u8>|
        match parse(entry) {
            Some(item) => Some(resolve(item)),
            None => None,
        }
}

/// Resolving what was parsed is parsing with the resolution behind it: each item
/// by itself, in order.
pub proof fn law_resolving_keeps_every_item<T, U>(
    entries: Seq<Seq<u8>>,
    parse: spec_fn(Seq<u8>) -> Option<T>,
    resolve: spec_fn(T) -> U,
)
    ensures
        parsed(entries, parse_then(parse, resolve)) == parsed(entries, parse).map_values(resolve),
    decreases entries.len(),
{
    if entries.len() > 0 {
        law_resolving_keeps_every_item(entries.drop_last(), parse, resolve);
    }
    assert(parsed(entries, parse_then(parse, resolve)) =~= parsed(entries, parse).map_values(
        resolve,
    ));
}

/// A poller whose items are resolved on another thread drains as fully as a
/// plain one: its ring is dropped first, and by then every parsed item is in the
/// channel that the resolver empties before it stops. So exactly the resolutions
/// of what the parser made of all entries are sent on, in order.
pub proof fn law_a_resolving_poller_loses_nothing<T, U>(
    rounds: Seq<PollRound>,
    parse: spec_fn(Seq<u8>) -> Option<T>,
    resolve: spec_fn(T) -> U,
)
    requires
        rounds.len() > 0,
        rounds.last().event is Disconnected,
        !dropped_early(rounds),
    ensures
        polled(rounds, parse).sent.map_values(resolve) == parsed(
            arrivals(rounds),
            parse_then(parse, resolve),
        ),
{
    law_nothing_buffered_is_lost(rounds, parse);
    law_resolving_keeps_every_item(arrivals(rounds), parse, resolve);
}

/// A poll thread that is not asked anything takes what is ready and goes on; one
/// that is asked reads everything, answers and goes on; one that was dropped
/// reads everything and stops, unasked.
pub proof fn law_what_a_poll_thread_does(event: ControlEvent)
    ensures
        ({
            let action = action_for(event);
            &&& action.acknowledge <==> event == ControlEvent::DrainRequest
            &&& action.stop <==> event == ControlEvent::Disconnected
            &&& action.read is Poll <==> event == ControlEvent::Tick
            &&& collect_for(event).acknowledge <==> event == ControlEvent::DrainRequest
            &&& collect_for(event).hand_on <==> event == ControlEvent::Disconnected
        }),
{
}

/// What the thread that collects mappings does, after it has drained every
/// ring: it answers, or hands on what it collected and stops.
#[derive(Debug, Clone, Copy, PartialEq, Eq)]
pub struct CollectAction {
    pub acknowledge: bool,
    pub hand_on: bool,
}

/// What the thread that collects mappings does about an event, after it has
/// drained every ring.
pub open spec fn collect_for(event: ControlEvent) -> CollectAction {
    CollectAction { acknowledge: event is DrainRequest, hand_on: event is Disconnected }
}

/// What the thread that collects mappings does about an event, after it has
/// drained every ring.
pub fn collect_action(event: ControlEvent) -> (r: CollectAction)
    ensures
        r == collect_for(event),
{
    match event {
        ControlEvent::DrainRequest => CollectAction { acknowledge: true, hand_on: false },
        ControlEvent::Tick => CollectAction { acknowledge: false, hand_on: false },
        ControlEvent::Disconnected => CollectAction { acknowledge: false, hand_on: true },
    }
}

/// The key that orders events: process, then time.
pub open spec fn process_key() -> spec_fn(EventView) -> (int, int) {
    |e: EventView| (e.pid as int, e.timestamp as int)
}

/// Orders events by process, then time.
pub struct ByProcess;

impl SortOrder<MemtrackEvent> for ByProcess {
    open spec fn key(item: MemtrackEvent) -> (int, int) {
        (item.pid as int, item.timestamp as int)
    }

    fn in_order(a: &MemtrackEvent, b: &MemtrackEvent) -> (r: bool) {
        a.pid < b.pid || (a.pid == b.pid && a.timestamp <= b.timestamp)
    }
}

/// The mappings that were collected from all rings, as they are handed on when
/// the poller stops: by process and time.
pub fn collected_mappings(mappings: Vec<MemtrackEvent>) -> (r: Vec<MemtrackEvent>)
    ensures
        event_views(r@) == sorted_by(event_views(mappings@), process_key()),
{
    proof {
        lemma_sort_commutes(
            mappings@,
            |e: MemtrackEvent| e@,
            keys::<MemtrackEvent, ByProcess>(),
            process_key(),
        );
    }
    sort::<MemtrackEvent, ByProcess>(mappings)
}

/// One round of the thread that collects mappings: what it drained from all
/// rings, and the event that ended the wait.
pub struct CollectRound {
    pub drained: Seq<EventView>,
    pub event: ControlEvent,
}

/// Where the thread that collects mappings stands: what it holds, what it
/// handed on, and whether it stopped.
#[verifier::ext_equal]
pub struct Collecting {
    pub held: Seq<EventView>,
    pub handed_on: Seq<EventView>,
    pub stopped: bool,
}

impl Collecting {
    pub open spec fn start() -> Collecting {
        Collecting { held: Seq::empty(), handed_on: Seq::empty(), stopped: false }
    }

    /// What one round does: the thread takes in what it drained, and hands on
    /// what [`collected_mappings`] makes of all it holds where [`collect_for`]
    /// says so. A thread that stopped does nothing.
    pub open spec fn step(self, round: CollectRound) -> Collecting {
        let held = self.held + round.drained;
        if self.stopped {
            self
        } else if collect_for(round.event).hand_on {
            Collecting {
                held: Seq::empty(),
                handed_on: self.handed_on + sorted_by(held, process_key()),
                stopped: true,
            }
        } else {
            Collecting { held, ..self }
        }
    }
}

/// Where the rounds lead.
pub open spec fn collecting(rounds: Seq<CollectRound>) -> Collecting
    decreases rounds.len(),
{
    if rounds.len() == 0 {
        Collecting::start()
    } else {
        collecting(rounds.drop_last()).step(rounds.last())
    }
}

/// All that was drained, round after round.
pub open spec fn all_drained(rounds: Seq<CollectRound>) -> Seq<EventView>
    decreases rounds.len(),
{
    if rounds.len() == 0 {
        Seq::empty()
    } else {
        all_drained(rounds.drop_last()) + rounds.last().drained
    }
}

/// Events that are handed on are in the order of process and time, and they are
/// the events that were collected, none lost, none added and none repeated.
pub proof fn law_all_that_was_collected_is_handed_on(events: Seq<EventView>)
    ensures
        is_sorted(sorted_by(events, process_key()), process_key()),
        sorted_by(events, process_key()).to_multiset() == events.to_multiset(),
        forall|i: int, j: int|
            0 <= i < j < events.len() ==> {
                let (a, b) = (
                    #[trigger] sorted_by(events, process_key())[i],
                    #[trigger] sorted_by(events, process_key())[j],
                );
                a.pid < b.pid || (a.pid == b.pid && a.timestamp <= b.timestamp)
            },
        sorted_by(events, process_key()).len() == events.len(),
{
    law_sorted_is_in_order(events, process_key());
    law_sorted_keeps_the_items(events, process_key());
}

/// While the poller has not been dropped, nothing is handed on, and all that was
/// drained is held.
pub proof fn law_nothing_is_handed_on_before_the_end(rounds: Seq<CollectRound>)
    requires
        forall|i: int| 0 <= i < rounds.len() ==> !((#[trigger] rounds[i]).event is Disconnected),
    ensures
        collecting(rounds) == (Collecting {
            held: all_drained(rounds),
            handed_on: Seq::empty(),
            stopped: false,
        }),
    decreases rounds.len(),
{
    if rounds.len() > 0 {
        let front = rounds.drop_last();
        assert forall|i: int| 0 <= i < front.len() implies !((#[trigger] front[i]).event
            is Disconnected) by {
            assert(front[i] == rounds[i]);
        }
        assert(rounds.last() == rounds[rounds.len() - 1]);
        law_nothing_is_handed_on_before_the_end(front);
    }
}

/// When the poller is dropped, the thread stops, and by then exactly what was
/// drained from all rings until then has been handed on, by process and time.
pub proof fn law_the_end_hands_on_all_that_was_drained(rounds: Seq<CollectRound>)
    requires
        rounds.len() > 0,
        rounds.last().event is Disconnected,
        forall|i: int|
            0 <= i < rounds.len() - 1 ==> !((#[trigger] rounds[i]).event is Disconnected),
    ensures
        ({
            let end = collecting(rounds);
            &&& end.stopped
            &&& end.handed_on == sorted_by(all_drained(rounds), process_key())
            &&& is_sorted(end.handed_on, process_key())
            &&& end.handed_on.to_multiset() == all_drained(rounds).to_multiset()
        }),
{
    let front = rounds.drop_last();
    assert forall|i: int| 0 <= i < front.len() implies !((#[trigger] front[i]).event
        is Disconnected) by {
        assert(front[i] == rounds[i]);
    }
    law_nothing_is_handed_on_before_the_end(front);
    law_all_that_was_collected_is_handed_on(all_drained(rounds));
    let sorted = sorted_by(all_drained(rounds), process_key());
    assert(Seq::<EventView>::empty() + sorted =~= sorted);
}

} // verus!
