//! The order in which a session stops its pollers, and what that means for the
//! stream of events that they share.

use crate::artifacts::EventView;
use crate::poller::{
    all_drained, arrivals, collecting, dropped_early, law_nothing_buffered_is_lost,
    law_the_end_hands_on_all_that_was_drained, parsed, polled, process_key, CollectRound,
    Collecting, PollRound, Polling,
};
use crate::sort::sorted_by;
use vstd::prelude::*;

verus! {

/// Which poller a session drops next. A poller is dropped once the one before it
/// has stopped; one that was never started counts as stopped at once.
#[derive(Debug, Clone, Copy, PartialEq, Eq)]
pub enum StopStep {
    /// The poller of events.
    Events,
    /// The poller of stacks.
    Stacks,
    /// The poller of mappings, which hands on what it collected.
    Mappings,
    Stopped,
}

/// What follows `step`.
pub open spec fn stop_next(step: StopStep) -> StopStep {
    match step {
        StopStep::Events => StopStep::Stacks,
        StopStep::Stacks => StopStep::Mappings,
        StopStep::Mappings => StopStep::Stopped,
        StopStep::Stopped => StopStep::Stopped,
    }
}

impl StopStep {
    /// Which poller is dropped after this one.
    pub fn next(self) -> (r: StopStep)
        ensures
            r == stop_next(self),
    {
        match self {
            StopStep::Events => StopStep::Stacks,
            StopStep::Stacks => StopStep::Mappings,
            StopStep::Mappings => StopStep::Stopped,
            StopStep::Stopped => StopStep::Stopped,
        }
    }
}

/// Who put an event on the stream.
pub enum Source {
    Events,
    Stacks,
    Mappings,
}

/// An event on the stream, with its source.
#[verifier::ext_equal]
pub struct Sent {
    pub source: Source,
    pub event: EventView,
}

/// `events`, all from `source`.
pub open spec fn labelled(source: Source, events: Seq<EventView>) -> Seq<Sent> {
    events.map_values(|event: EventView| Sent { source, event })
}

/// The events of a stream that came from `source`, in order.
pub open spec fn sent_by(stream: Seq<Sent>, source: Source) -> Seq<EventView>
    decreases stream.len(),
{
    if stream.len() == 0 {
        Seq::empty()
    } else {
        let front = sent_by(stream.drop_last(), source);
        if stream.last().source == source {
            front.push(stream.last().event)
        } else {
            front
        }
    }
}

/// What the two ring pollers make of an entry.
pub struct Parsers {
    pub events: spec_fn(Seq<u8>) -> Option<EventView>,
    pub stacks: spec_fn(Seq<u8>) -> Option<EventView>,
}

/// One round of one of the three pollers.
pub enum SessionRound {
    Events(PollRound),
    Stacks(PollRound),
    Mappings(CollectRound),
}

/// Where a session stands: which poller it drops next, where each poller stands,
/// and the stream so far.
#[verifier::ext_equal]
pub struct SessionRun {
    pub stop: StopStep,
    pub events: Polling<EventView>,
    pub stacks: Polling<EventView>,
    pub mappings: Collecting,
    pub stream: Seq<Sent>,
}

impl SessionRun {
    pub open spec fn start() -> SessionRun {
        SessionRun {
            stop: StopStep::Events,
            events: Polling::start(),
            stacks: Polling::start(),
            mappings: Collecting::start(),
            stream: Seq::empty(),
        }
    }

    /// Whether a round can come next: a poller that stopped has no more rounds,
    /// and a poller is dropped only when it is its turn.
    pub open spec fn allows(self, round: SessionRound) -> bool {
        match round {
            SessionRound::Events(r) => !self.events.stopped && (r.event is Disconnected
                ==> self.stop is Events),
            SessionRound::Stacks(r) => !self.stacks.stopped && (r.event is Disconnected
                ==> self.stop is Stacks),
            SessionRound::Mappings(r) => !self.mappings.stopped && (r.event is Disconnected
                ==> self.stop is Mappings),
        }
    }

    /// What one round does: its poller goes on, and what it sends stands behind
    /// all that is on the stream.
    pub open spec fn step(self, round: SessionRound, parsers: Parsers) -> SessionRun {
        match round {
            SessionRound::Events(r) => {
                let events = self.events.step(r, parsers.events);
                SessionRun {
                    events,
                    stream: self.stream + labelled(
                        Source::Events,
                        events.sent.skip(self.events.sent.len() as int),
                    ),
                    stop: if r.event is Disconnected {
                        stop_next(self.stop)
                    } else {
                        self.stop
                    },
                    ..self
                }
            },
            SessionRound::Stacks(r) => {
                let stacks = self.stacks.step(r, parsers.stacks);
                SessionRun {
                    stacks,
                    stream: self.stream + labelled(
                        Source::Stacks,
                        stacks.sent.skip(self.stacks.sent.len() as int),
                    ),
                    stop: if r.event is Disconnected {
                        stop_next(self.stop)
                    } else {
                        self.stop
                    },
                    ..self
                }
            },
            SessionRound::Mappings(r) => {
                let mappings = self.mappings.step(r);
                SessionRun {
                    mappings,
                    stream: self.stream + labelled(
                        Source::Mappings,
                        mappings.handed_on.skip(self.mappings.handed_on.len() as int),
                    ),
                    stop: if r.event is Disconnected {
                        stop_next(self.stop)
                    } else {
                        self.stop
                    },
                    ..self
                }
            },
        }
    }
}

/// Where the rounds lead.
pub open spec fn session(rounds: Seq<SessionRound>, parsers: Parsers) -> SessionRun
    decreases rounds.len(),
{
    if rounds.len() == 0 {
        SessionRun::start()
    } else {
        session(rounds.drop_last(), parsers).step(rounds.last(), parsers)
    }
}

/// Whether each of the rounds can come where it comes.
pub open spec fn is_orderly(rounds: Seq<SessionRound>, parsers: Parsers) -> bool
    decreases rounds.len(),
{
    rounds.len() > 0 ==> is_orderly(rounds.drop_last(), parsers) && session(
        rounds.drop_last(),
        parsers,
    ).allows(rounds.last())
}

/// The rounds of the poller of events.
pub open spec fn event_rounds(rounds: Seq<SessionRound>) -> Seq<PollRound>
    decreases rounds.len(),
{
    if rounds.len() == 0 {
        Seq::empty()
    } else {
        let front = event_rounds(rounds.drop_last());
        match rounds.last() {
            SessionRound::Events(r) => front.push(r),
            _ => front,
        }
    }
}

/// The rounds of the poller of stacks.
pub open spec fn stack_rounds(rounds: Seq<SessionRound>) -> Seq<PollRound>
    decreases rounds.len(),
{
    if rounds.len() == 0 {
        Seq::empty()
    } else {
        let front = stack_rounds(rounds.drop_last());
        match rounds.last() {
            SessionRound::Stacks(r) => front.push(r),
            _ => front,
        }
    }
}

/// The rounds of the poller of mappings.
pub open spec fn mapping_rounds(rounds: Seq<SessionRound>) -> Seq<CollectRound>
    decreases rounds.len(),
{
    if rounds.len() == 0 {
        Seq::empty()
    } else {
        let front = mapping_rounds(rounds.drop_last());
        match rounds.last() {
            SessionRound::Mappings(r) => front.push(r),
            _ => front,
        }
    }
}

/// Whether a poller's rounds end as `stopped` says: with the drop, which comes
/// nowhere else, or without one.
spec fn ends_as(rounds: Seq<PollRound>, stopped: bool) -> bool {
    if stopped {
        rounds.len() > 0 && rounds.last().event is Disconnected && !dropped_early(rounds)
    } else {
        forall|i: int| 0 <= i < rounds.len() ==> !((#[trigger] rounds[i]).event is Disconnected)
    }
}

proof fn lemma_ends_as(rounds: Seq<PollRound>, r: PollRound)
    requires
        ends_as(rounds, false),
    ensures
        ends_as(rounds.push(r), r.event is Disconnected),
{
    let all = rounds.push(r);
    assert forall|i: int| 0 <= i < all.len() - 1 implies !((#[trigger] all[i]).event
        is Disconnected) by {
        assert(all[i] == rounds[i]);
    }
}

/// What holds of the pollers of an orderly session: each stands where its own
/// rounds lead, and they stop in turn.
spec fn pollers_agree(rounds: Seq<SessionRound>, parsers: Parsers) -> bool {
    let run = session(rounds, parsers);
    let collects = mapping_rounds(rounds);
    &&& run.events == polled(event_rounds(rounds), parsers.events)
    &&& run.stacks == polled(stack_rounds(rounds), parsers.stacks)
    &&& run.mappings == collecting(collects)
    &&& run.events.stopped == !(run.stop is Events)
    &&& run.stacks.stopped == (run.stop is Mappings || run.stop is Stopped)
    &&& run.mappings.stopped == (run.stop is Stopped)
    &&& ends_as(event_rounds(rounds), run.events.stopped)
    &&& ends_as(stack_rounds(rounds), run.stacks.stopped)
    &&& !run.mappings.stopped ==> run.mappings.handed_on.len() == 0
    &&& forall|i: int|
        0 <= i < collects.len() && (#[trigger] collects[i]).event is Disconnected
            ==> run.mappings.stopped && i == collects.len() - 1
    &&& run.mappings.stopped ==> collects.len() > 0 && collects.last().event is Disconnected
}

proof fn lemma_pollers_agree(rounds: Seq<SessionRound>, parsers: Parsers)
    requires
        is_orderly(rounds, parsers),
    ensures
        pollers_agree(rounds, parsers),
    decreases rounds.len(),
{
    if rounds.len() > 0 {
        let front = rounds.drop_last();
        lemma_pollers_agree(front, parsers);
        match rounds.last() {
            SessionRound::Events(r) => {
                let before = event_rounds(front);
                assert(before.push(r).drop_last() =~= before);
                lemma_ends_as(before, r);
            },
            SessionRound::Stacks(r) => {
                let before = stack_rounds(front);
                assert(before.push(r).drop_last() =~= before);
                lemma_ends_as(before, r);
            },
            SessionRound::Mappings(r) => {
                let before = mapping_rounds(front);
                let all = before.push(r);
                assert(all.drop_last() =~= before);
                assert forall|i: int|
                    0 <= i < all.len() && (#[trigger] all[i]).event is Disconnected implies i
                    == all.len() - 1 && session(rounds, parsers).mappings.stopped by {
                    if i < before.len() {
                        assert(all[i] == before[i]);
                    }
                }
            },
        }
    }
}

proof fn lemma_sent_by_join(a: Seq<Sent>, b: Seq<Sent>, source: Source)
    ensures
        sent_by(a + b, source) == sent_by(a, source) + sent_by(b, source),
    decreases b.len(),
{
    if b.len() == 0 {
        assert(a + b =~= a);
        assert(sent_by(a, source) + sent_by(b, source) =~= sent_by(a, source));
    } else {
        lemma_sent_by_join(a, b.drop_last(), source);
        assert((a + b).drop_last() =~= a + b.drop_last());
        assert(sent_by(a + b, source) =~= sent_by(a, source) + sent_by(b, source));
    }
}

proof fn lemma_labelled(events: Seq<EventView>, label: Source, source: Source)
    ensures
        sent_by(labelled(label, events), source) == if label == source {
            events
        } else {
            Seq::empty()
        },
    decreases events.len(),
{
    if events.len() > 0 {
        let all = labelled(label, events);
        lemma_labelled(events.drop_last(), label, source);
        assert(all.drop_last() =~= labelled(label, events.drop_last()));
        assert(events.drop_last().push(events.last()) =~= events);
    } else {
        assert(events =~= Seq::empty());
    }
}

/// The stream holds exactly what each poller sent, in the order in which it sent
/// it.
pub proof fn law_the_stream_holds_what_was_sent(rounds: Seq<SessionRound>, parsers: Parsers)
    ensures
        ({
            let run = session(rounds, parsers);
            &&& sent_by(run.stream, Source::Events) == run.events.sent
            &&& sent_by(run.stream, Source::Stacks) == run.stacks.sent
            &&& sent_by(run.stream, Source::Mappings) == run.mappings.handed_on
        }),
    decreases rounds.len(),
{
    if rounds.len() > 0 {
        let front = session(rounds.drop_last(), parsers);
        let run = session(rounds, parsers);
        law_the_stream_holds_what_was_sent(rounds.drop_last(), parsers);
        let (label, fresh) = match rounds.last() {
            SessionRound::Events(r) => (
                Source::Events,
                run.events.sent.skip(front.events.sent.len() as int),
            ),
            SessionRound::Stacks(r) => (
                Source::Stacks,
                run.stacks.sent.skip(front.stacks.sent.len() as int),
            ),
            SessionRound::Mappings(r) => (
                Source::Mappings,
                run.mappings.handed_on.skip(front.mappings.handed_on.len() as int),
            ),
        };
        lemma_sent_by_join(front.stream, labelled(label, fresh), Source::Events);
        lemma_sent_by_join(front.stream, labelled(label, fresh), Source::Stacks);
        lemma_sent_by_join(front.stream, labelled(label, fresh), Source::Mappings);
        lemma_labelled(fresh, label, Source::Events);
        lemma_labelled(fresh, label, Source::Stacks);
        lemma_labelled(fresh, label, Source::Mappings);
        assert(sent_by(run.stream, Source::Events) =~= run.events.sent);
        assert(sent_by(run.stream, Source::Stacks) =~= run.stacks.sent);
        assert(sent_by(run.stream, Source::Mappings) =~= run.mappings.handed_on);
    }
}

/// Mappings end the stream: whatever the pollers do meanwhile, no event of the
/// two ring pollers stands behind a mapping that was handed on.
pub proof fn law_mappings_end_the_stream(rounds: Seq<SessionRound>, parsers: Parsers)
    requires
        is_orderly(rounds, parsers),
    ensures
        ({
            let run = session(rounds, parsers);
            &&& forall|i: int, j: int|
                0 <= i < j < run.stream.len() && (#[trigger] run.stream[i]).source is Mappings ==> (
                #[trigger] run.stream[j]).source is Mappings
            &&& !run.mappings.stopped ==> forall|i: int|
                0 <= i < run.stream.len() ==> !((#[trigger] run.stream[i]).source is Mappings)
        }),
    decreases rounds.len(),
{
    if rounds.len() > 0 {
        let front = session(rounds.drop_last(), parsers);
        let run = session(rounds, parsers);
        law_mappings_end_the_stream(rounds.drop_last(), parsers);
        lemma_pollers_agree(rounds.drop_last(), parsers);
        lemma_pollers_agree(rounds, parsers);
        let n = front.stream.len() as int;
        assert(forall|i: int| 0 <= i < n ==> run.stream[i] == #[trigger] front.stream[i]);
        assert(forall|i: int, j: int|
            0 <= i < n && n <= j < run.stream.len() && (#[trigger] run.stream[i]).source is Mappings
                ==> (#[trigger] run.stream[j]).source is Mappings);
    }
}

/// A session that has stopped has lost nothing: the stream holds what the
/// parsers made of every entry of both rings, in order, and at its end every
/// mapping that was drained, by process and time.
pub proof fn law_a_stopped_session_delivered_everything(
    rounds: Seq<SessionRound>,
    parsers: Parsers,
)
    requires
        is_orderly(rounds, parsers),
        session(rounds, parsers).stop is Stopped,
    ensures
        ({
            let stream = session(rounds, parsers).stream;
            &&& sent_by(stream, Source::Events) == parsed(
                arrivals(event_rounds(rounds)),
                parsers.events,
            )
            &&& sent_by(stream, Source::Stacks) == parsed(
                arrivals(stack_rounds(rounds)),
                parsers.stacks,
            )
            &&& sent_by(stream, Source::Mappings) == sorted_by(
                all_drained(mapping_rounds(rounds)),
                process_key(),
            )
        }),
{
    lemma_pollers_agree(rounds, parsers);
    law_the_stream_holds_what_was_sent(rounds, parsers);
    law_nothing_buffered_is_lost(event_rounds(rounds), parsers.events);
    law_nothing_buffered_is_lost(stack_rounds(rounds), parsers.stacks);
    law_the_end_hands_on_all_that_was_drained(mapping_rounds(rounds));
}

/// The pollers of a session are dropped in turn: that of events, that of stacks,
/// and that of mappings at last.
pub proof fn law_the_pollers_stop_in_turn()
    ensures
        stop_next(StopStep::Events) == StopStep::Stacks,
        stop_next(stop_next(StopStep::Events)) == StopStep::Mappings,
        stop_next(stop_next(stop_next(StopStep::Events))) == StopStep::Stopped,
        stop_next(StopStep::Stopped) == StopStep::Stopped,
{
}

} // verus!
