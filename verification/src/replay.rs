//! Which executable mappings each process had, rebuilt from the event stream.

use crate::artifacts::{
    event_views, mapping_views, EventKindView, EventView, MappingView, MemtrackEvent,
    MemtrackEventKind, ProcessMapping,
};
use crate::sort::{
    distinct_keys, is_sorted, key_le, keys, law_order_is_irrelevant, law_sorted_is_in_order,
    law_sorted_is_stable, law_sorted_keeps_the_items, lemma_sort_commutes, sort, sorted_by,
    with_key, SortOrder,
};
use std::collections::HashMap;
use vstd::prelude::*;

verus! {

broadcast use vstd::std_specs::hash::group_hash_axioms;

/// The events that change which mappings a process has.
pub open spec fn is_lifecycle(kind: EventKindView) -> bool {
    kind is Exec || kind is Mapping || kind is Fork
}

/// At one timestamp an exec purges before a mapping is made, and a fork
/// inherits that mapping.
pub open spec fn rank(kind: EventKindView) -> int {
    match kind {
        EventKindView::Exec => 0,
        EventKindView::Mapping { .. } => 1,
        _ => 2,
    }
}

/// The key that orders the timeline.
pub open spec fn timeline_key() -> spec_fn(EventView) -> (int, int) {
    |e: EventView| (e.timestamp as int, rank(e.kind))
}

/// The lifecycle events among `events`, in the order in which they took effect.
pub open spec fn timeline(events: Seq<EventView>) -> Seq<EventView> {
    sorted_by(events.filter(|e: EventView| is_lifecycle(e.kind)), timeline_key())
}

/// Where a replay stands: the mappings each process has now, and all the
/// mappings that were made, in order.
#[verifier::ext_equal]
pub struct Replay {
    pub live: Map<i32, Seq<MappingView>>,
    pub made: Seq<MappingView>,
}

impl Replay {
    pub open spec fn start() -> Replay {
        Replay { live: Map::empty(), made: Seq::empty() }
    }

    /// The mappings `pid` has now.
    pub open spec fn live_of(self, pid: i32) -> Seq<MappingView> {
        if self.live.contains_key(pid) {
            self.live[pid]
        } else {
            Seq::empty()
        }
    }

    /// What one event does.
    ///
    /// A mapping whose end does not fit in 64 bits is skipped. A forked child
    /// starts with what its parent has at that moment, under its own pid and
    /// with the timestamp of the fork. An exec drops everything.
    pub open spec fn step(self, e: EventView) -> Replay {
        match e.kind {
            EventKindView::Mapping { path, dev, ino, file_offset, len } => {
                if e.addr + len > u64::MAX {
                    self
                } else {
                    let m = MappingView {
                        pid: e.pid,
                        path,
                        dev,
                        ino,
                        file_offset,
                        start: e.addr,
                        end: (e.addr + len) as u64,
                        timestamp: e.timestamp,
                    };
                    Replay {
                        live: self.live.insert(e.pid, self.live_of(e.pid).push(m)),
                        made: self.made.push(m),
                    }
                }
            },
            EventKindView::Fork { parent_pid } => {
                let child = inherited(self.live_of(parent_pid), e.pid, e.timestamp);
                Replay { live: self.live.insert(e.pid, child), made: self.made + child }
            },
            EventKindView::Exec => Replay { live: self.live.remove(e.pid), made: self.made },
            _ => self,
        }
    }
}

/// The mappings of a parent as its forked child has them.
pub open spec fn inherited(parent: Seq<MappingView>, pid: i32, timestamp: u64) -> Seq<MappingView> {
    parent.map_values(|m: MappingView| MappingView { pid, timestamp, ..m })
}

/// What the events `t`, one after the other, lead to.
pub open spec fn replay(t: Seq<EventView>) -> Replay
    decreases t.len(),
{
    if t.len() == 0 {
        Replay::start()
    } else {
        replay(t.drop_last()).step(t.last())
    }
}

/// Orders the timeline: by timestamp, then exec, mapping, fork.
pub struct ByTimeline;

impl SortOrder<MemtrackEvent> for ByTimeline {
    open spec fn key(item: MemtrackEvent) -> (int, int) {
        (item.timestamp as int, rank(item.kind@))
    }

    fn in_order(a: &MemtrackEvent, b: &MemtrackEvent) -> (r: bool) {
        a.timestamp < b.timestamp || (a.timestamp == b.timestamp && event_rank(&a.kind)
            <= event_rank(&b.kind))
    }
}

fn event_rank(kind: &MemtrackEventKind) -> (r: u8)
    ensures
        r as int == rank(kind@),
{
    match kind {
        MemtrackEventKind::Exec => 0,
        MemtrackEventKind::Mapping { .. } => 1,
        _ => 2,
    }
}

fn lifecycle(kind: &MemtrackEventKind) -> (r: bool)
    ensures
        r == is_lifecycle(kind@),
{
    match kind {
        MemtrackEventKind::Exec => true,
        MemtrackEventKind::Mapping { .. } => true,
        MemtrackEventKind::Fork { .. } => true,
        _ => false,
    }
}

/// The lifecycle events among `events`, as they stand.
fn lifecycle_events(events: Vec<MemtrackEvent>) -> (r: Vec<MemtrackEvent>)
    ensures
        event_views(r@) == event_views(events@).filter(|e: EventView| is_lifecycle(e.kind)),
{
    let ghost pred = |e: EventView| is_lifecycle(e.kind);
    let ghost all = events@;
    let mut kept: Vec<MemtrackEvent> = Vec::new();
    proof {
        reveal(Seq::filter);
        assert(event_views(all).take(0) =~= Seq::empty());
        assert(event_views(kept@) =~= event_views(all).take(0).filter(pred));
    }
    for event in it: events
        invariant
            it.seq() == all,
            pred == (|e: EventView| is_lifecycle(e.kind)),
            event_views(kept@) == event_views(all).take(it.index()).filter(pred),
    {
        let ghost i = it.index();
        let ghost before = kept@;
        proof {
            reveal(Seq::filter);
            assert(event_views(all).take(i + 1).drop_last() =~= event_views(all).take(i));
            assert(event_views(all).take(i + 1).last() == event@);
        }
        if lifecycle(&event.kind) {
            kept.push(event);
            assert(event_views(kept@) =~= event_views(before).push(event@));
        }
    }
    assert(event_views(all).take(all.len() as int) =~= event_views(all));
    kept
}

/// What a table of live mappings holds.
pub open spec fn live_view(live: Map<i32, Vec<ProcessMapping>>) -> Map<i32, Seq<MappingView>> {
    live.map_values(|v: Vec<ProcessMapping>| mapping_views(v@))
}

/// A parent's mappings for its forked child.
fn inherit(parent: &Vec<ProcessMapping>, pid: i32, timestamp: u64) -> (r: Vec<ProcessMapping>)
    ensures
        mapping_views(r@) == inherited(mapping_views(parent@), pid, timestamp),
{
    let mut child: Vec<ProcessMapping> = Vec::new();
    for i in 0..parent.len()
        invariant
            i <= parent@.len(),
            child@.len() == i,
            forall|j: int|
                0 <= j < i ==> (#[trigger] child@[j])@ == (MappingView {
                    pid,
                    timestamp,
                    ..parent@[j]@
                }),
    {
        let mut mapping = parent[i].clone();
        mapping.pid = pid;
        mapping.timestamp = timestamp;
        child.push(mapping);
    }
    assert(mapping_views(child@) =~= inherited(mapping_views(parent@), pid, timestamp));
    child
}

/// Appends a copy of each of `more`.
fn append_copies(list: &mut Vec<ProcessMapping>, more: &Vec<ProcessMapping>)
    ensures
        mapping_views(final(list)@) == mapping_views(old(list)@) + mapping_views(more@),
{
    let ghost before = list@;
    for i in 0..more.len()
        invariant
            i <= more@.len(),
            mapping_views(list@) == mapping_views(before) + mapping_views(more@).take(i as int),
    {
        let ghost so_far = list@;
        list.push(more[i].clone());
        assert(mapping_views(list@) =~= mapping_views(so_far).push(more@[i as int]@));
    }
    assert(mapping_views(more@).take(more@.len() as int) =~= mapping_views(more@));
}

/// Every executable mapping that the tracked processes made or inherited, in
/// the order in which that happened.
///
/// Mappings are reconstructed across forks because inherited perf events do not
/// synthesize mappings that already existed when a child was forked.
pub fn read_mappings_from_artifact(events: Vec<MemtrackEvent>) -> (r: Vec<ProcessMapping>)
    ensures
        mapping_views(r@) == replay(timeline(event_views(events@))).made,
{
    let ghost all = event_views(events@);
    let kept = lifecycle_events(events);
    let ghost kept_events = kept@;
    let order = sort::<MemtrackEvent, ByTimeline>(kept);
    let ghost t = timeline(all);
    proof {
        lemma_sort_commutes(
            kept_events,
            |e: MemtrackEvent| e@,
            keys::<MemtrackEvent, ByTimeline>(),
            timeline_key(),
        );
        assert(event_views(order@) == t);
    }

    let mut live: HashMap<i32, Vec<ProcessMapping>> = HashMap::new();
    let mut mappings: Vec<ProcessMapping> = Vec::new();
    proof {
        assert(live_view(live@) =~= Map::empty());
        assert(mapping_views(mappings@) =~= Seq::empty());
    }
    for i in 0..order.len()
        invariant
            i <= order@.len(),
            event_views(order@) == t,
            live_view(live@) == replay(t.take(i as int)).live,
            mapping_views(mappings@) == replay(t.take(i as int)).made,
    {
        let event = &order[i];
        let ghost state = replay(t.take(i as int));
        let ghost live0 = live@;
        let ghost made0 = mappings@;
        proof {
            assert(t.take(i + 1).drop_last() =~= t.take(i as int));
            assert(t.take(i + 1).last() == event@);
        }
        match &event.kind {
            MemtrackEventKind::Mapping { path, dev, ino, file_offset, len } => {
                if let Some(end) = event.addr.checked_add(*len) {
                    let mapping = ProcessMapping {
                        pid: event.pid,
                        path: path.clone(),
                        dev: *dev,
                        ino: *ino,
                        file_offset: *file_offset,
                        avma_range: event.addr..end,
                        timestamp: event.timestamp,
                    };
                    let mut list = match live.remove(&event.pid) {
                        Some(list) => list,
                        None => Vec::new(),
                    };
                    let ghost list0 = list@;
                    list.push(mapping.clone());
                    proof {
                        assert(mapping_views(list0) =~= state.live_of(event.pid));
                        assert(mapping_views(list@) =~= mapping_views(list0).push(mapping@));
                    }
                    live.insert(event.pid, list);
                    mappings.push(mapping);
                    proof {
                        assert(live_view(live@) =~= state.step(event@).live);
                        assert(mapping_views(mappings@) =~= mapping_views(made0).push(mapping@));
                    }
                }
            },
            MemtrackEventKind::Fork { parent_pid } => {
                let child = match live.get(parent_pid) {
                    Some(list) => inherit(list, event.pid, event.timestamp),
                    None => Vec::new(),
                };
                proof {
                    assert(mapping_views(child@) =~= inherited(
                        state.live_of(*parent_pid),
                        event.pid,
                        event.timestamp,
                    ));
                }
                append_copies(&mut mappings, &child);
                live.insert(event.pid, child);
                assert(live_view(live@) =~= state.step(event@).live);
            },
            MemtrackEventKind::Exec => {
                live.remove(&event.pid);
                assert(live_view(live@) =~= state.step(event@).live);
            },
            _ => {},
        }
    }
    assert(t.take(t.len() as int) =~= t);
    mappings
}

/// An event changes the mappings of its own process only.
pub proof fn law_other_processes_are_untouched(t: Seq<EventView>, e: EventView, pid: i32)
    requires
        e.pid != pid,
    ensures
        replay(t.push(e)).live_of(pid) == replay(t).live_of(pid),
{
    assert(t.push(e).drop_last() =~= t);
}

/// What events of other processes do, however many, leaves the mappings of a
/// process as they are. So a forked child keeps exactly what it inherited,
/// whatever its parent maps or execs later.
pub proof fn law_later_events_of_others_do_not_matter(
    t: Seq<EventView>,
    later: Seq<EventView>,
    pid: i32,
)
    requires
        forall|i: int| 0 <= i < later.len() ==> (#[trigger] later[i]).pid != pid,
    ensures
        replay(t + later).live_of(pid) == replay(t).live_of(pid),
    decreases later.len(),
{
    if later.len() == 0 {
        assert(t + later =~= t);
    } else {
        let front = later.drop_last();
        assert(forall|i: int| 0 <= i < front.len() ==> #[trigger] front[i] == later[i]);
        law_later_events_of_others_do_not_matter(t, front, pid);
        assert(t + later =~= (t + front).push(later.last()));
        assert(later[later.len() - 1] == later.last());
        law_other_processes_are_untouched(t + front, later.last(), pid);
    }
}

/// A fork gives the child what its parent has at that moment, and nothing
/// else; each inherited mapping is made anew for the child.
pub proof fn law_fork_inherits_what_the_parent_has(t: Seq<EventView>, e: EventView, parent: i32)
    requires
        e.kind == (EventKindView::Fork { parent_pid: parent }),
    ensures
        ({
            let child = inherited(replay(t).live_of(parent), e.pid, e.timestamp);
            &&& replay(t.push(e)).live_of(e.pid) == child
            &&& replay(t.push(e)).made == replay(t).made + child
        }),
{
    assert(t.push(e).drop_last() =~= t);
}

/// A child forked from a forked child has the mappings of the first parent,
/// where nothing happened to the middle process in between.
pub proof fn law_fork_is_transitive(
    t: Seq<EventView>,
    first: EventView,
    second: EventView,
    parent: i32,
)
    requires
        first.kind == (EventKindView::Fork { parent_pid: parent }),
        second.kind == (EventKindView::Fork { parent_pid: first.pid }),
    ensures
        replay(t.push(first).push(second)).live_of(second.pid) == inherited(
            replay(t).live_of(parent),
            second.pid,
            second.timestamp,
        ),
{
    law_fork_inherits_what_the_parent_has(t, first, parent);
    law_fork_inherits_what_the_parent_has(t.push(first), second, first.pid);
    let parents = replay(t).live_of(parent);
    assert(inherited(
        inherited(parents, first.pid, first.timestamp),
        second.pid,
        second.timestamp,
    ) =~= inherited(parents, second.pid, second.timestamp));
}

/// An exec leaves a process without mappings, and makes none.
pub proof fn law_exec_drops_everything(t: Seq<EventView>, e: EventView)
    requires
        e.kind is Exec,
    ensures
        replay(t.push(e)).live_of(e.pid) == Seq::<MappingView>::empty(),
        replay(t.push(e)).made == replay(t).made,
{
    assert(t.push(e).drop_last() =~= t);
}

/// What was made stays made: the mappings of a timeline start with those of
/// every beginning of it.
pub proof fn law_mappings_are_only_added(t: Seq<EventView>, more: Seq<EventView>)
    ensures
        replay(t).made.is_prefix_of(replay(t + more).made),
    decreases more.len(),
{
    if more.len() == 0 {
        assert(t + more =~= t);
    } else {
        law_mappings_are_only_added(t, more.drop_last());
        assert((t + more).drop_last() =~= t + more.drop_last());
        let before = replay(t + more.drop_last()).made;
        let after = replay(t + more).made;
        assert(before.is_prefix_of(after));
        assert(replay(t).made =~= after.take(replay(t).made.len() as int));
    }
}

/// Every mapping that a process has carries its pid, and is among those that
/// were made.
pub proof fn law_live_mappings_were_made(t: Seq<EventView>, pid: i32)
    ensures
        forall|i: int|
            0 <= i < replay(t).live_of(pid).len() ==> {
                &&& (#[trigger] replay(t).live_of(pid)[i]).pid == pid
                &&& replay(t).made.contains(replay(t).live_of(pid)[i])
            },
    decreases t.len(),
{
    if t.len() > 0 {
        let front = t.drop_last();
        let e = t.last();
        let before = replay(front);
        let after = replay(t);
        law_live_mappings_were_made(front, pid);
        law_mappings_are_only_added(front, seq![e]);
        assert(front + seq![e] =~= t);
        assert forall|i: int| 0 <= i < after.live_of(pid).len() implies {
            &&& (#[trigger] after.live_of(pid)[i]).pid == pid
            &&& after.made.contains(after.live_of(pid)[i])
        } by {
            let m = after.live_of(pid)[i];
            if before.live_of(pid).contains(m) {
                let j = choose|j: int| 0 <= j < before.live_of(pid).len() && before.live_of(pid)[j] == m;
                assert(before.made.contains(before.live_of(pid)[j]));
                let k = choose|k: int| 0 <= k < before.made.len() && before.made[k] == m;
                assert(after.made[k] == m);
            } else {
                match e.kind {
                    EventKindView::Mapping { .. } => {
                        if i < before.live_of(pid).len() {
                            assert(before.live_of(pid)[i] == m);
                        }
                        assert(after.made[after.made.len() - 1] == m);
                    },
                    EventKindView::Fork { parent_pid } => {
                        assert(e.pid == pid) by {
                            if e.pid != pid {
                                assert(before.live_of(pid)[i] == m);
                            }
                        }
                        assert(after.made[before.made.len() + i] == m);
                    },
                    _ => {
                        assert(before.live_of(pid)[i] == m);
                    },
                }
            }
        }
    }
}

/// Whether `m` maps what the mapping event `e` reports.
pub open spec fn maps_what(m: MappingView, e: EventView) -> bool {
    &&& e.kind matches EventKindView::Mapping { path, dev, ino, file_offset, len }
    &&& m.path == path
    &&& m.dev == dev
    &&& m.ino == ino
    &&& m.file_offset == file_offset
    &&& m.start == e.addr
    &&& m.end == e.addr + len
}

/// Whether some event of `t` reports what `m` maps.
pub open spec fn is_reported(m: MappingView, t: Seq<EventView>) -> bool {
    exists|i: int| 0 <= i < t.len() && maps_what(m, #[trigger] t[i])
}

/// Every mapping that was made maps the file range that some event reported,
/// and no range ends before it starts.
pub proof fn law_mappings_come_from_events(t: Seq<EventView>)
    ensures
        forall|i: int|
            0 <= i < replay(t).made.len() ==> is_reported(#[trigger] replay(t).made[i], t)
                && replay(t).made[i].start <= replay(t).made[i].end,
    decreases t.len(),
{
    if t.len() > 0 {
        let front = t.drop_last();
        let e = t.last();
        let before = replay(front);
        let after = replay(t);
        law_mappings_come_from_events(front);
        assert(forall|i: int| 0 <= i < front.len() ==> front[i] == #[trigger] t[i]);
        assert forall|i: int| 0 <= i < after.made.len() implies is_reported(
            #[trigger] after.made[i],
            t,
        ) && after.made[i].start <= after.made[i].end by {
            let m = after.made[i];
            if i < before.made.len() {
                assert(before.made[i] == m);
                let j = choose|j: int| 0 <= j < front.len() && maps_what(m, #[trigger] front[j]);
                assert(maps_what(m, t[j]));
            } else {
                match e.kind {
                    EventKindView::Mapping { .. } => {
                        assert(maps_what(m, t[t.len() - 1]));
                    },
                    EventKindView::Fork { parent_pid } => {
                        let source = before.live_of(parent_pid)[i - before.made.len()];
                        law_live_mappings_were_made(front, parent_pid);
                        let k = choose|k: int| 0 <= k < before.made.len() && before.made[k] == source;
                        assert(is_reported(before.made[k], front));
                        let j = choose|j: int|
                            0 <= j < front.len() && maps_what(source, #[trigger] front[j]);
                        assert(maps_what(m, t[j]));
                    },
                    _ => {},
                }
            }
        }
    }
}

proof fn lemma_made_before(t: Seq<EventView>, now: int)
    requires
        forall|i: int| 0 <= i < t.len() ==> (#[trigger] t[i]).timestamp <= now,
    ensures
        forall|i: int|
            0 <= i < replay(t).made.len() ==> (#[trigger] replay(t).made[i]).timestamp <= now,
    decreases t.len(),
{
    if t.len() > 0 {
        let front = t.drop_last();
        assert(forall|i: int| 0 <= i < front.len() ==> #[trigger] front[i] == t[i]);
        assert(t[t.len() - 1] == t.last());
        lemma_made_before(front, now);
        let before = replay(front).made;
        let after = replay(t).made;
        assert forall|i: int| 0 <= i < after.len() implies (#[trigger] after[i]).timestamp
            <= now by {
            if i < before.len() {
                assert(before[i] == after[i]);
            }
        }
    }
}

proof fn lemma_made_in_time_order(t: Seq<EventView>)
    requires
        is_sorted(t, timeline_key()),
    ensures
        forall|i: int, j: int|
            0 <= i <= j < replay(t).made.len() ==> (#[trigger] replay(t).made[i]).timestamp <= (
            #[trigger] replay(t).made[j]).timestamp,
    decreases t.len(),
{
    if t.len() > 0 {
        let front = t.drop_last();
        let e = t.last();
        assert(forall|i: int| 0 <= i < front.len() ==> #[trigger] front[i] == t[i]);
        lemma_made_in_time_order(front);
        assert forall|i: int| 0 <= i < front.len() implies (#[trigger] front[i]).timestamp
            <= e.timestamp by {
            assert(key_le(timeline_key()(t[i]), timeline_key()(t[t.len() - 1])));
        }
        lemma_made_before(front, e.timestamp as int);
        let before = replay(front).made;
        let after = replay(t).made;
        assert forall|i: int, j: int| 0 <= i <= j < after.len() implies (
        #[trigger] after[i]).timestamp <= (#[trigger] after[j]).timestamp by {
            if i < before.len() {
                assert(before[i] == after[i]);
            }
            if j < before.len() {
                assert(before[j] == after[j]);
            } else {
                assert(after[j].timestamp == e.timestamp);
            }
            if i >= before.len() {
                assert(after[i].timestamp == e.timestamp);
            }
        }
    }
}

/// The mappings of an event stream come out in the order of time, whatever the
/// order of the stream.
pub proof fn law_mappings_are_in_time_order(events: Seq<EventView>)
    ensures
        forall|i: int, j: int|
            0 <= i <= j < replay(timeline(events)).made.len() ==> (#[trigger] replay(
                timeline(events),
            ).made[i]).timestamp <= (#[trigger] replay(timeline(events)).made[j]).timestamp,
{
    law_sorted_is_in_order(events.filter(|e: EventView| is_lifecycle(e.kind)), timeline_key());
    lemma_made_in_time_order(timeline(events));
}

/// Among events of one time, execs take effect before mappings, and mappings
/// before forks.
pub proof fn law_ties_are_broken_by_rank(events: Seq<EventView>, i: int, j: int)
    requires
        0 <= i < j < timeline(events).len(),
        timeline(events)[i].timestamp == timeline(events)[j].timestamp,
    ensures
        rank(timeline(events)[i].kind) <= rank(timeline(events)[j].kind),
{
    let t = timeline(events);
    law_sorted_is_in_order(events.filter(|e: EventView| is_lifecycle(e.kind)), timeline_key());
    assert(key_le(timeline_key()(t[i]), timeline_key()(t[j])));
}

proof fn lemma_filter_push(s: Seq<EventView>, e: EventView)
    ensures
        s.push(e).filter(|e: EventView| is_lifecycle(e.kind)) == if is_lifecycle(e.kind) {
            s.filter(|e: EventView| is_lifecycle(e.kind)).push(e)
        } else {
            s.filter(|e: EventView| is_lifecycle(e.kind))
        },
{
    reveal(Seq::filter);
    assert(s.push(e).drop_last() =~= s);
}

proof fn lemma_filter_split(a: Seq<EventView>, b: Seq<EventView>)
    ensures
        (a + b).filter(|e: EventView| is_lifecycle(e.kind)) == a.filter(
            |e: EventView| is_lifecycle(e.kind),
        ) + b.filter(|e: EventView| is_lifecycle(e.kind)),
    decreases b.len(),
{
    let pred = |e: EventView| is_lifecycle(e.kind);
    if b.len() == 0 {
        reveal(Seq::filter);
        assert(a + b =~= a);
        assert(a.filter(pred) + b.filter(pred) =~= a.filter(pred));
    } else {
        lemma_filter_split(a, b.drop_last());
        assert(a + b =~= (a + b.drop_last()).push(b.last()));
        assert(b =~= b.drop_last().push(b.last()));
        lemma_filter_push(a + b.drop_last(), b.last());
        lemma_filter_push(b.drop_last(), b.last());
        assert((a + b).filter(pred) =~= a.filter(pred) + b.filter(pred));
    }
}

/// Allocations and the other events that are no part of a process's life cycle
/// have no bearing on its mappings, wherever they stand in the stream.
pub proof fn law_other_events_do_not_matter(
    before: Seq<EventView>,
    e: EventView,
    after: Seq<EventView>,
)
    requires
        !is_lifecycle(e.kind),
    ensures
        timeline(before.push(e) + after) == timeline(before + after),
{
    lemma_filter_split(before.push(e), after);
    lemma_filter_split(before, after);
    lemma_filter_push(before, e);
}

proof fn lemma_lifecycle_items(s: Seq<EventView>)
    ensures
        s.filter(|e: EventView| is_lifecycle(e.kind)).to_multiset() == s.to_multiset().filter(
            |e: EventView| is_lifecycle(e.kind),
        ),
    decreases s.len(),
{
    broadcast use vstd::seq_lib::group_to_multiset_ensures;

    let pred = |e: EventView| is_lifecycle(e.kind);
    if s.len() == 0 {
        reveal(Seq::filter);
        assert(s =~= Seq::empty());
        assert(s.filter(pred).to_multiset() =~= s.to_multiset().filter(pred));
    } else {
        lemma_lifecycle_items(s.drop_last());
        lemma_filter_push(s.drop_last(), s.last());
        assert(s =~= s.drop_last().push(s.last()));
        assert(s.filter(pred).to_multiset() =~= s.to_multiset().filter(pred));
    }
}

/// Where no two lifecycle events have the same time and rank, the order of the
/// stream has no bearing on the mappings: the same events in any other order
/// give the same timeline.
pub proof fn law_stream_order_does_not_matter(a: Seq<EventView>, b: Seq<EventView>)
    requires
        a.to_multiset() == b.to_multiset(),
        distinct_keys(a.filter(|e: EventView| is_lifecycle(e.kind)), timeline_key()),
    ensures
        timeline(a) == timeline(b),
{
    lemma_lifecycle_items(a);
    lemma_lifecycle_items(b);
    let pred = |e: EventView| is_lifecycle(e.kind);
    law_order_is_irrelevant(a.filter(pred), b.filter(pred), timeline_key());
}

/// At the start nothing has been mapped.
pub proof fn law_a_replay_starts_with_nothing(pid: i32)
    ensures
        replay(Seq::empty()).made.len() == 0,
        replay(Seq::empty()).live_of(pid).len() == 0,
{
}

/// Every mapping event whose range fits in 64 bits makes exactly one mapping,
/// whatever its length, place, file or process: of the range, file, process and
/// time that the event reports. It joins what was made and what its process has.
/// One whose range does not fit makes none and changes nothing.
pub proof fn law_every_reported_mapping_is_made(
    t: Seq<EventView>,
    e: EventView,
    path: Seq<char>,
    dev: u64,
    ino: u64,
    file_offset: u64,
    len: u64,
    m: MappingView,
)
    requires
        e.kind == (EventKindView::Mapping { path, dev, ino, file_offset, len }),
        m.pid == e.pid,
        m.timestamp == e.timestamp,
        m.path == path,
        m.dev == dev,
        m.ino == ino,
        m.file_offset == file_offset,
        m.start == e.addr,
        m.end == e.addr + len || e.addr + len > 0xffff_ffff_ffff_ffff,
    ensures
        e.addr + len <= 0xffff_ffff_ffff_ffff ==> {
            &&& replay(t.push(e)).made == replay(t).made.push(m)
            &&& replay(t.push(e)).live_of(e.pid) == replay(t).live_of(e.pid).push(m)
        },
        e.addr + len > 0xffff_ffff_ffff_ffff ==> {
            &&& replay(t.push(e)).made == replay(t).made
            &&& replay(t.push(e)).live_of(e.pid) == replay(t).live_of(e.pid)
        },
{
    assert(t.push(e).drop_last() =~= t);
    if e.addr + len <= u64::MAX {
        assert(replay(t.push(e)).made.last() =~= m);
    }
}

/// A fork makes one mapping for each that the parent has at that moment, in the
/// same order and of the same file range, for the child and at the time of the
/// fork; it takes nothing from the parent, and the child has nothing else.
pub proof fn law_a_fork_copies_every_mapping(t: Seq<EventView>, e: EventView, parent: i32)
    requires
        e.kind == (EventKindView::Fork { parent_pid: parent }),
    ensures
        ({
            let had = replay(t).live_of(parent);
            let made = replay(t).made;
            let after = replay(t.push(e));
            &&& after.live_of(e.pid).len() == had.len()
            &&& after.made.len() == made.len() + had.len()
            &&& forall|i: int| 0 <= i < made.len() ==> #[trigger] after.made[i] == made[i]
            &&& forall|i: int|
                0 <= i < had.len() ==> {
                    let (copy, source) = (#[trigger] after.live_of(e.pid)[i], had[i]);
                    &&& copy.pid == e.pid
                    &&& copy.timestamp == e.timestamp
                    &&& copy.path == source.path
                    &&& copy.dev == source.dev
                    &&& copy.ino == source.ino
                    &&& copy.file_offset == source.file_offset
                    &&& copy.start == source.start
                    &&& copy.end == source.end
                    &&& after.made[made.len() + i] == copy
                }
            &&& e.pid != parent ==> after.live_of(parent) == had
        }),
{
    assert(t.push(e).drop_last() =~= t);
}

/// Events that are neither an exec nor a mapping nor a fork change nothing.
pub proof fn law_other_events_change_nothing(t: Seq<EventView>, e: EventView, pid: i32)
    requires
        !(e.kind is Exec),
        !(e.kind is Mapping),
        !(e.kind is Fork),
    ensures
        replay(t.push(e)).made == replay(t).made,
        replay(t.push(e)).live_of(pid) == replay(t).live_of(pid),
{
    assert(t.push(e).drop_last() =~= t);
}

/// The timeline holds every exec, mapping and fork of the stream exactly as
/// often as the stream does, and no other event.
pub proof fn law_the_timeline_holds_the_lifecycle(events: Seq<EventView>, e: EventView)
    ensures
        timeline(events).to_multiset().count(e) == if e.kind is Exec || e.kind is Mapping
            || e.kind is Fork {
            events.to_multiset().count(e)
        } else {
            0
        },
{
    lemma_lifecycle_items(events);
    let pred = |e: EventView| is_lifecycle(e.kind);
    law_sorted_keeps_the_items(events.filter(pred), timeline_key());
}

/// The timeline goes by time; at one time execs come before mappings, and
/// mappings before forks.
pub proof fn law_the_timeline_is_in_order(events: Seq<EventView>, i: int, j: int)
    requires
        0 <= i < j < timeline(events).len(),
    ensures
        ({
            let (a, b) = (timeline(events)[i], timeline(events)[j]);
            &&& a.timestamp <= b.timestamp
            &&& a.timestamp == b.timestamp ==> {
                &&& b.kind is Exec ==> a.kind is Exec
                &&& b.kind is Mapping ==> a.kind is Exec || a.kind is Mapping
            }
        }),
{
    let pred = |e: EventView| is_lifecycle(e.kind);
    let t = timeline(events);
    law_sorted_is_in_order(events.filter(pred), timeline_key());
    assert(key_le(timeline_key()(t[i]), timeline_key()(t[j])));
    law_the_timeline_holds_the_lifecycle(events, t[i]);
    vstd::seq_lib::to_multiset_contains(t, t[i]);
    assert(t.contains(t[i]));
}

/// Events of one sort and one time keep the order of the stream.
pub proof fn law_ties_keep_the_order_of_the_stream(events: Seq<EventView>, time: u64)
    ensures
        timeline(events).filter(|e: EventView| e.timestamp == time && e.kind is Exec)
            == events.filter(|e: EventView| e.timestamp == time && e.kind is Exec),
        timeline(events).filter(|e: EventView| e.timestamp == time && e.kind is Mapping)
            == events.filter(|e: EventView| e.timestamp == time && e.kind is Mapping),
        timeline(events).filter(|e: EventView| e.timestamp == time && e.kind is Fork)
            == events.filter(|e: EventView| e.timestamp == time && e.kind is Fork),
{
    let kept = events.filter(|e: EventView| is_lifecycle(e.kind));
    let t = timeline(events);
    law_sorted_is_stable(kept, timeline_key(), (time as int, 0));
    law_sorted_is_stable(kept, timeline_key(), (time as int, 1));
    law_sorted_is_stable(kept, timeline_key(), (time as int, 2));
    lemma_timeline_is_lifecycle(events);
    lemma_kept_is_lifecycle(events);
    lemma_filter_by_key(t, time, 0, |e: EventView| e.timestamp == time && e.kind is Exec);
    lemma_filter_by_key(kept, time, 0, |e: EventView| e.timestamp == time && e.kind is Exec);
    lemma_filter_by_key(t, time, 1, |e: EventView| e.timestamp == time && e.kind is Mapping);
    lemma_filter_by_key(kept, time, 1, |e: EventView| e.timestamp == time && e.kind is Mapping);
    lemma_filter_by_key(t, time, 2, |e: EventView| e.timestamp == time && e.kind is Fork);
    lemma_filter_by_key(kept, time, 2, |e: EventView| e.timestamp == time && e.kind is Fork);
    lemma_filter_twice(events, |e: EventView| e.timestamp == time && e.kind is Exec);
    lemma_filter_twice(events, |e: EventView| e.timestamp == time && e.kind is Mapping);
    lemma_filter_twice(events, |e: EventView| e.timestamp == time && e.kind is Fork);
}

proof fn lemma_kept_is_lifecycle(events: Seq<EventView>)
    ensures
        ({
            let kept = events.filter(|e: EventView| is_lifecycle(e.kind));
            forall|i: int| 0 <= i < kept.len() ==> is_lifecycle((#[trigger] kept[i]).kind)
        }),
    decreases events.len(),
{
    reveal(Seq::filter);
    if events.len() > 0 {
        lemma_kept_is_lifecycle(events.drop_last());
    }
}

proof fn lemma_timeline_is_lifecycle(events: Seq<EventView>)
    ensures
        forall|i: int|
            0 <= i < timeline(events).len() ==> is_lifecycle(
                (#[trigger] timeline(events)[i]).kind,
            ),
{
    let t = timeline(events);
    assert forall|i: int| 0 <= i < t.len() implies is_lifecycle((#[trigger] t[i]).kind) by {
        law_the_timeline_holds_the_lifecycle(events, t[i]);
        vstd::seq_lib::to_multiset_contains(t, t[i]);
        assert(t.contains(t[i]));
    }
}

proof fn lemma_filter_by_key(
    s: Seq<EventView>,
    time: u64,
    r: int,
    pred: spec_fn(EventView) -> bool,
)
    requires
        forall|i: int| 0 <= i < s.len() ==> is_lifecycle((#[trigger] s[i]).kind),
        forall|e: EventView|
            is_lifecycle(e.kind) ==> (#[trigger] pred(e) <==> timeline_key()(e) == (
                time as int,
                r,
            )),
    ensures
        s.filter(pred) == with_key(s, timeline_key(), (time as int, r)),
    decreases s.len(),
{
    reveal(Seq::filter);
    if s.len() > 0 {
        let front = s.drop_last();
        assert(forall|i: int| 0 <= i < front.len() ==> #[trigger] front[i] == s[i]);
        assert(s[s.len() - 1] == s.last());
        lemma_filter_by_key(front, time, r, pred);
    }
}

proof fn lemma_filter_twice(s: Seq<EventView>, pred: spec_fn(EventView) -> bool)
    requires
        forall|e: EventView| #[trigger] pred(e) ==> is_lifecycle(e.kind),
    ensures
        s.filter(|e: EventView| is_lifecycle(e.kind)).filter(pred) == s.filter(pred),
    decreases s.len(),
{
    let life = |e: EventView| is_lifecycle(e.kind);
    reveal(Seq::filter);
    if s.len() > 0 {
        let front = s.drop_last();
        lemma_filter_twice(front, pred);
        let kept = front.filter(life);
        if is_lifecycle(s.last().kind) {
            assert(kept.push(s.last()).drop_last() =~= kept);
        }
    }
}

} // verus!
