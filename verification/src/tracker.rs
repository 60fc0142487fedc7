//! The decisions of a tracker: its options, and what it does in which order.

use crate::text::{chars_of, parse_u32, same_text, u32_from_text};
use vstd::prelude::*;

verus! {

/// How BPF programs attach.
#[derive(Debug, Clone, Copy, PartialEq, Eq)]
pub enum BpfVariant {
    Legacy,
    Token,
}

/// Maximum bytes of user stack to copy per captured call stack, unless set.
pub const DEFAULT_STACK_BUDGET: u32 = 8192;

/// What a tracker attaches and captures.
#[derive(Debug, Clone, Copy, PartialEq, Eq)]
pub struct TrackerOptions {
    /// BPF attach mechanism, or automatic detection when unset.
    pub variant: Option<BpfVariant>,
    /// Attach allocator uprobes (malloc/free/calloc/...) through the
    /// exec-mapping watcher.
    pub allocators: bool,
    /// Reconstruct per-process RSS from the folio rmap fentry hooks.
    pub rmap: bool,
    /// Capture allocation call stacks.
    pub stack_capture: bool,
    /// Maximum bytes of user stack to copy per captured call stack.
    pub stack_budget: u32,
}

impl Default for TrackerOptions {
    fn default() -> (r: TrackerOptions)
        ensures
            r == (TrackerOptions {
                variant: None,
                allocators: true,
                rmap: false,
                stack_capture: true,
                stack_budget: DEFAULT_STACK_BUDGET,
            }),
            r.stack_budget == 8192,
    {
        TrackerOptions {
            variant: None,
            allocators: true,
            rmap: false,
            stack_capture: true,
            stack_budget: DEFAULT_STACK_BUDGET,
        }
    }
}

/// Whether a variable that is on by default is switched off.
pub open spec fn switched_off(value: Option<&str>) -> bool {
    value matches Some(text) && (text@ == "0"@ || text@ == "false"@)
}

/// Whether a variable that is off by default is switched on.
pub open spec fn switched_on(value: Option<&str>) -> bool {
    value matches Some(text) && text@ == "1"@
}

/// The stack budget that a variable sets; what is no number sets nothing.
pub open spec fn budget(value: Option<&str>) -> u32 {
    match value {
        Some(text) => match u32_from_text(text@) {
            Some(n) => n,
            None => DEFAULT_STACK_BUDGET,
        },
        None => DEFAULT_STACK_BUDGET,
    }
}

fn is_off(value: Option<&str>) -> (r: bool)
    ensures
        r == switched_off(value),
{
    match value {
        Some(text) => same_text(text, "0") || same_text(text, "false"),
        None => false,
    }
}

impl TrackerOptions {
    /// The options that the environment asks for, by the values of
    /// `CODSPEED_MEMTRACK_TRACK_ALLOCATORS`, `CODSPEED_MEMTRACK_TRACK_RMAP`,
    /// `CODSPEED_MEMTRACK_CAPTURE_STACKS` and `CODSPEED_MEMTRACK_STACK_BUDGET`,
    /// where they are set to text.
    pub fn from_env(
        track_allocators: Option<&str>,
        track_rmap: Option<&str>,
        capture_stacks: Option<&str>,
        stack_budget: Option<&str>,
    ) -> (r: TrackerOptions)
        ensures
            r == (TrackerOptions {
                variant: None,
                allocators: !switched_off(track_allocators),
                rmap: switched_on(track_rmap),
                stack_capture: !switched_off(capture_stacks),
                stack_budget: budget(stack_budget),
            }),
            !r.allocators <==> {
                &&& track_allocators is Some
                &&& track_allocators->0@ == seq!['0'] || track_allocators->0@ == seq![
                    'f',
                    'a',
                    'l',
                    's',
                    'e',
                ]
            },
            !r.stack_capture <==> {
                &&& capture_stacks is Some
                &&& capture_stacks->0@ == seq!['0'] || capture_stacks->0@ == seq![
                    'f',
                    'a',
                    'l',
                    's',
                    'e',
                ]
            },
            r.rmap <==> track_rmap is Some && track_rmap->0@ == seq!['1'],
            r.variant is None,
            r.stack_budget == if stack_budget is Some && u32_from_text(stack_budget->0@) is Some {
                u32_from_text(stack_budget->0@)->0
            } else {
                8192
            },
    {
        proof {
            law_a_switch_is_off_by_two_words(track_allocators);
            law_a_switch_is_off_by_two_words(capture_stacks);
            law_a_switch_is_on_by_one_word(track_rmap);
        }
        let rmap = match track_rmap {
            Some(text) => same_text(text, "1"),
            None => false,
        };
        let stack_budget = match stack_budget {
            Some(text) => {
                let chars = chars_of(text);
                match parse_u32(chars.as_slice()) {
                    Some(n) => n,
                    None => DEFAULT_STACK_BUDGET,
                }
            },
            None => DEFAULT_STACK_BUDGET,
        };
        TrackerOptions {
            variant: None,
            allocators: !is_off(track_allocators),
            rmap,
            stack_capture: !is_off(capture_stacks),
            stack_budget,
        }
    }
}

/// A variable that is on by default is switched off by the texts `0` and
/// `false`, character by character, and by nothing else; unset it stays on.
pub proof fn law_a_switch_is_off_by_two_words(value: Option<&str>)
    ensures
        value is None ==> !switched_off(value),
        value matches Some(text) ==> (switched_off(value) <==> {
            ||| text@.len() == 1 && text@[0] == '0'
            ||| text@.len() == 5 && text@[0] == 'f' && text@[1] == 'a' && text@[2] == 'l' && text@[3]
                == 's' && text@[4] == 'e'
        }),
        value matches Some(text) ==> (switched_off(value) <==> text@ == seq!['0'] || text@ == seq![
            'f',
            'a',
            'l',
            's',
            'e',
        ]),
{
    reveal_strlit("0");
    reveal_strlit("false");
    if let Some(text) = value {
        assert("0"@ =~= seq!['0']);
        assert("false"@ =~= seq!['f', 'a', 'l', 's', 'e']);
        if text@.len() == 1 && text@[0] == '0' {
            assert(text@ =~= seq!['0']);
        }
        if text@.len() == 5 && text@[0] == 'f' && text@[1] == 'a' && text@[2] == 'l' && text@[3]
            == 's' && text@[4] == 'e' {
            assert(text@ =~= seq!['f', 'a', 'l', 's', 'e']);
        }
    }
}

/// A variable that is off by default is switched on by the text `1`, and by
/// nothing else; unset it stays off.
pub proof fn law_a_switch_is_on_by_one_word(value: Option<&str>)
    ensures
        value is None ==> !switched_on(value),
        value matches Some(text) ==> (switched_on(value) <==> text@.len() == 1 && text@[0] == '1'),
        value matches Some(text) ==> (switched_on(value) <==> text@ == seq!['1']),
{
    reveal_strlit("1");
    if let Some(text) = value {
        assert("1"@ =~= seq!['1']);
        if text@.len() == 1 && text@[0] == '1' {
            assert(text@ =~= seq!['1']);
        }
    }
}

/// The stack budget is the number that the variable holds, and 8192 where it is
/// unset or no number.
pub proof fn law_the_budget_is_the_number(value: Option<&str>)
    ensures
        value is None ==> budget(value) == 8192,
        value matches Some(text) ==> match u32_from_text(text@) {
            Some(n) => budget(value) == n,
            None => budget(value) == 8192,
        },
{
}

/// How one step went.
#[derive(Debug, Clone, Copy, PartialEq, Eq)]
pub enum Outcome {
    Done,
    Failed,
    /// There is no attach worker to arm.
    NoWorker,
}

/// The steps in which a tracker is built.
#[derive(Debug, Clone, Copy, PartialEq, Eq)]
pub enum BuildStep {
    /// Raise the locked-memory limit. Newer kernels account BPF memory against
    /// the cgroup, so a denied raise is harmless.
    RaiseMemlock,
    AttachTracepoints,
    AttachExecWatcher,
    StartWorker,
    Ready,
    Failed,
}

/// What follows `step`.
pub open spec fn build_next(step: BuildStep, options: TrackerOptions, outcome: Outcome) -> BuildStep {
    match step {
        BuildStep::RaiseMemlock => BuildStep::AttachTracepoints,
        BuildStep::AttachTracepoints => if !(outcome is Done) {
            BuildStep::Failed
        } else if options.allocators {
            BuildStep::AttachExecWatcher
        } else {
            BuildStep::Ready
        },
        BuildStep::AttachExecWatcher => if outcome is Done {
            BuildStep::StartWorker
        } else {
            BuildStep::Failed
        },
        BuildStep::StartWorker => if outcome is Done {
            BuildStep::Ready
        } else {
            BuildStep::Failed
        },
        BuildStep::Ready => BuildStep::Ready,
        BuildStep::Failed => BuildStep::Failed,
    }
}

impl Outcome {
    fn is_done(self) -> (r: bool)
        ensures
            r == (self is Done),
    {
        match self {
            Outcome::Done => true,
            _ => false,
        }
    }
}

impl BuildStep {
    /// The step that follows this one, which went as `outcome` says.
    pub fn next(self, options: &TrackerOptions, outcome: Outcome) -> (r: BuildStep)
        ensures
            r == build_next(self, *options, outcome),
    {
        match self {
            BuildStep::RaiseMemlock => BuildStep::AttachTracepoints,
            BuildStep::AttachTracepoints => if !outcome.is_done() {
                BuildStep::Failed
            } else if options.allocators {
                BuildStep::AttachExecWatcher
            } else {
                BuildStep::Ready
            },
            BuildStep::AttachExecWatcher => if outcome.is_done() {
                BuildStep::StartWorker
            } else {
                BuildStep::Failed
            },
            BuildStep::StartWorker => if outcome.is_done() {
                BuildStep::Ready
            } else {
                BuildStep::Failed
            },
            BuildStep::Ready => BuildStep::Ready,
            BuildStep::Failed => BuildStep::Failed,
        }
    }
}

/// The steps in which a command is spawned under tracking.
#[derive(Debug, Clone, Copy, PartialEq, Eq)]
pub enum SpawnStep {
    /// Spawn the target so that it stops itself before exec'ing.
    SpawnStopped,
    /// Tell the attach worker which process to watch.
    ArmWorker,
    /// Add the pid to the tracked ones.
    TrackPid,
    PollStacks,
    PollEvents,
    PollMappings,
    /// Let the target run.
    Resume,
    /// Drop the pollers that were started, because the set-up failed.
    StopPollers,
    /// Kill the target and wait for it. Best effort, so that the error that led
    /// here remains the one returned.
    KillChild,
    Running,
    Failed,
}

/// What follows `step`.
pub open spec fn spawn_next(step: SpawnStep, options: TrackerOptions, outcome: Outcome) -> SpawnStep {
    match step {
        SpawnStep::SpawnStopped => if outcome is Done {
            SpawnStep::ArmWorker
        } else {
            SpawnStep::Failed
        },
        // No watcher to arm means exec mappings would be missed.
        SpawnStep::ArmWorker => if outcome is Done || (outcome is NoWorker && !options.allocators) {
            SpawnStep::TrackPid
        } else {
            SpawnStep::StopPollers
        },
        SpawnStep::TrackPid => if !(outcome is Done) {
            SpawnStep::StopPollers
        } else if options.stack_capture {
            SpawnStep::PollStacks
        } else {
            SpawnStep::PollEvents
        },
        SpawnStep::PollStacks => if outcome is Done {
            SpawnStep::PollEvents
        } else {
            SpawnStep::StopPollers
        },
        SpawnStep::PollEvents => if !(outcome is Done) {
            SpawnStep::StopPollers
        } else if options.stack_capture {
            SpawnStep::PollMappings
        } else {
            SpawnStep::Resume
        },
        SpawnStep::PollMappings => if outcome is Done {
            SpawnStep::Resume
        } else {
            SpawnStep::StopPollers
        },
        SpawnStep::Resume => if outcome is Done {
            SpawnStep::Running
        } else {
            SpawnStep::KillChild
        },
        SpawnStep::StopPollers => SpawnStep::KillChild,
        SpawnStep::KillChild => SpawnStep::Failed,
        SpawnStep::Running => SpawnStep::Running,
        SpawnStep::Failed => SpawnStep::Failed,
    }
}

impl SpawnStep {
    /// The step that follows this one, which went as `outcome` says.
    pub fn next(self, options: &TrackerOptions, outcome: Outcome) -> (r: SpawnStep)
        ensures
            r == spawn_next(self, *options, outcome),
    {
        let done = outcome.is_done();
        match self {
            SpawnStep::SpawnStopped => if done {
                SpawnStep::ArmWorker
            } else {
                SpawnStep::Failed
            },
            SpawnStep::ArmWorker => match outcome {
                Outcome::Done => SpawnStep::TrackPid,
                Outcome::NoWorker => if options.allocators {
                    SpawnStep::StopPollers
                } else {
                    SpawnStep::TrackPid
                },
                Outcome::Failed => SpawnStep::StopPollers,
            },
            SpawnStep::TrackPid => if !done {
                SpawnStep::StopPollers
            } else if options.stack_capture {
                SpawnStep::PollStacks
            } else {
                SpawnStep::PollEvents
            },
            SpawnStep::PollStacks => if done {
                SpawnStep::PollEvents
            } else {
                SpawnStep::StopPollers
            },
            SpawnStep::PollEvents => if !done {
                SpawnStep::StopPollers
            } else if options.stack_capture {
                SpawnStep::PollMappings
            } else {
                SpawnStep::Resume
            },
            SpawnStep::PollMappings => if done {
                SpawnStep::Resume
            } else {
                SpawnStep::StopPollers
            },
            SpawnStep::Resume => if done {
                SpawnStep::Running
            } else {
                SpawnStep::KillChild
            },
            SpawnStep::StopPollers => SpawnStep::KillChild,
            SpawnStep::KillChild => SpawnStep::Failed,
            SpawnStep::Running => SpawnStep::Running,
            SpawnStep::Failed => SpawnStep::Failed,
        }
    }
}

/// The steps of a spawn whose steps went as `outcomes` says.
pub open spec fn spawn_trace(options: TrackerOptions, outcomes: Seq<Outcome>) -> Seq<SpawnStep>
    decreases outcomes.len(),
{
    if outcomes.len() == 0 {
        seq![SpawnStep::SpawnStopped]
    } else {
        let front = spawn_trace(options, outcomes.drop_last());
        front.push(spawn_next(front.last(), options, outcomes.last()))
    }
}

/// The steps that a spawn takes up to and with `step`, where nothing fails.
pub open spec fn steps_to(step: SpawnStep, options: TrackerOptions) -> Seq<SpawnStep> {
    let armed = seq![SpawnStep::SpawnStopped, SpawnStep::ArmWorker, SpawnStep::TrackPid];
    let with_stacks = if options.stack_capture {
        armed.push(SpawnStep::PollStacks)
    } else {
        armed
    };
    let with_events = with_stacks.push(SpawnStep::PollEvents);
    let with_mappings = if options.stack_capture {
        with_events.push(SpawnStep::PollMappings)
    } else {
        with_events
    };
    match step {
        SpawnStep::SpawnStopped => armed.take(1),
        SpawnStep::ArmWorker => armed.take(2),
        SpawnStep::TrackPid => armed,
        SpawnStep::PollStacks => with_stacks,
        SpawnStep::PollEvents => with_events,
        SpawnStep::PollMappings => with_mappings,
        SpawnStep::Resume => with_mappings.push(SpawnStep::Resume),
        _ => with_mappings.push(SpawnStep::Resume).push(SpawnStep::Running),
    }
}

/// Whether the child exists and is not known to run or to be gone.
pub open spec fn is_setup(step: SpawnStep) -> bool {
    step is ArmWorker || step is TrackPid || step is PollStacks || step is PollEvents
        || step is PollMappings || step is Resume
}

proof fn lemma_trace_is_nonempty(options: TrackerOptions, outcomes: Seq<Outcome>)
    ensures
        spawn_trace(options, outcomes).len() == outcomes.len() + 1,
    decreases outcomes.len(),
{
    if outcomes.len() > 0 {
        lemma_trace_is_nonempty(options, outcomes.drop_last());
    }
}

/// Before the target runs, its pid is armed with the worker and added to the
/// watched ones, and every poller that the options ask for polls: the stack and
/// mapping pollers if and only if stacks are captured. A trace that comes to a
/// set-up step, to the resume or to a running target for the first time has
/// taken exactly these steps, in this order.
pub proof fn law_everything_is_armed_before_resume(options: TrackerOptions, outcomes: Seq<Outcome>)
    ensures
        ({
            let trace = spawn_trace(options, outcomes);
            let step = trace.last();
            let fresh = trace.len() < 2 || trace[trace.len() - 2] != SpawnStep::Running;
            step == SpawnStep::SpawnStopped || is_setup(step) || (step == SpawnStep::Running
                && fresh) ==> trace == steps_to(step, options)
        }),
    decreases outcomes.len(),
{
    lemma_trace_is_nonempty(options, outcomes);
    if outcomes.len() > 0 {
        law_everything_is_armed_before_resume(options, outcomes.drop_last());
        lemma_trace_is_nonempty(options, outcomes.drop_last());
        let front = spawn_trace(options, outcomes.drop_last());
        let trace = spawn_trace(options, outcomes);
        assert(trace.drop_last() =~= front);
        assert(steps_to(SpawnStep::ArmWorker, options) =~= steps_to(
            SpawnStep::SpawnStopped,
            options,
        ).push(SpawnStep::ArmWorker));
        assert(steps_to(SpawnStep::TrackPid, options) =~= steps_to(
            SpawnStep::ArmWorker,
            options,
        ).push(SpawnStep::TrackPid));
    } else {
        assert(spawn_trace(options, outcomes) =~= steps_to(SpawnStep::SpawnStopped, options));
    }
}

/// Once the target has been spawned, a spawn that fails has killed it: no
/// stopped child is left behind, whichever step failed.
pub proof fn law_a_failed_spawn_kills_the_child(options: TrackerOptions, outcomes: Seq<Outcome>)
    requires
        outcomes.len() > 0,
        outcomes[0] is Done,
        spawn_trace(options, outcomes).last() is Failed,
    ensures
        spawn_trace(options, outcomes).contains(SpawnStep::KillChild),
    decreases outcomes.len(),
{
    let front = spawn_trace(options, outcomes.drop_last());
    let trace = spawn_trace(options, outcomes);
    lemma_trace_is_nonempty(options, outcomes.drop_last());
    assert(trace.drop_last() =~= front);
    if outcomes.len() == 1 {
        assert(front =~= seq![SpawnStep::SpawnStopped]);
    } else if front.last() is Failed {
        law_a_failed_spawn_kills_the_child(options, outcomes.drop_last());
        let i = choose|i: int| 0 <= i < front.len() && front[i] == SpawnStep::KillChild;
        assert(trace[i] == SpawnStep::KillChild);
    } else {
        law_everything_is_armed_before_resume(options, outcomes.drop_last());
        if front.last() is SpawnStopped {
            assert(front.len() == outcomes.len());
        }
        assert(front.last() is KillChild);
        assert(trace[front.len() - 1] == SpawnStep::KillChild);
    }
}

/// A child is killed only when a step failed: where every step is done, the
/// spawn ends with a running target.
pub proof fn law_a_spawn_without_failures_runs(options: TrackerOptions)
    ensures
        ({
            let n: nat = if options.stack_capture {
                7
            } else {
                5
            };
            let done = Seq::new(n, |i: int| Outcome::Done);
            &&& spawn_trace(options, done) == steps_to(SpawnStep::Running, options)
            &&& spawn_trace(options, done) == if options.stack_capture {
                seq![
                    SpawnStep::SpawnStopped,
                    SpawnStep::ArmWorker,
                    SpawnStep::TrackPid,
                    SpawnStep::PollStacks,
                    SpawnStep::PollEvents,
                    SpawnStep::PollMappings,
                    SpawnStep::Resume,
                    SpawnStep::Running,
                ]
            } else {
                seq![
                    SpawnStep::SpawnStopped,
                    SpawnStep::ArmWorker,
                    SpawnStep::TrackPid,
                    SpawnStep::PollEvents,
                    SpawnStep::Resume,
                    SpawnStep::Running,
                ]
            }
        }),
{
    let n: nat = if options.stack_capture {
        7
    } else {
        5
    };
    let done = Seq::new(n, |i: int| Outcome::Done);
    reveal_with_fuel(spawn_trace, 8);
    let d1 = done.drop_last();
    let d2 = d1.drop_last();
    let d3 = d2.drop_last();
    let d4 = d3.drop_last();
    let d5 = d4.drop_last();
    assert(d5.len() == n - 5);
    if options.stack_capture {
        let d6 = d5.drop_last();
        let d7 = d6.drop_last();
        assert(spawn_trace(options, d7) =~= seq![SpawnStep::SpawnStopped]);
        assert(spawn_trace(options, d6).last() == SpawnStep::ArmWorker);
        assert(spawn_trace(options, d5).last() == SpawnStep::TrackPid);
        assert(spawn_trace(options, d4).last() == SpawnStep::PollStacks);
        assert(spawn_trace(options, d3).last() == SpawnStep::PollEvents);
        assert(spawn_trace(options, d2).last() == SpawnStep::PollMappings);
        assert(spawn_trace(options, d1).last() == SpawnStep::Resume);
    } else {
        assert(spawn_trace(options, d5) =~= seq![SpawnStep::SpawnStopped]);
        assert(spawn_trace(options, d4).last() == SpawnStep::ArmWorker);
        assert(spawn_trace(options, d3).last() == SpawnStep::TrackPid);
        assert(spawn_trace(options, d2).last() == SpawnStep::PollEvents);
        assert(spawn_trace(options, d1).last() == SpawnStep::Resume);
    }
    lemma_trace_is_nonempty(options, d1);
    lemma_trace_is_nonempty(options, done);
    let trace = spawn_trace(options, done);
    assert(trace[trace.len() - 2] == spawn_trace(options, d1).last());
    law_everything_is_armed_before_resume(options, done);
    if options.stack_capture {
        assert(trace =~= seq![
            SpawnStep::SpawnStopped,
            SpawnStep::ArmWorker,
            SpawnStep::TrackPid,
            SpawnStep::PollStacks,
            SpawnStep::PollEvents,
            SpawnStep::PollMappings,
            SpawnStep::Resume,
            SpawnStep::Running,
        ]);
    } else {
        assert(trace =~= seq![
            SpawnStep::SpawnStopped,
            SpawnStep::ArmWorker,
            SpawnStep::TrackPid,
            SpawnStep::PollEvents,
            SpawnStep::Resume,
            SpawnStep::Running,
        ]);
    }
}

/// With allocator tracking, a tracker that has been finished spawns nothing:
/// where the arming finds no worker, no trace comes to resume the target, and
/// four outcomes are enough to end every trace in a failure.
pub proof fn law_no_spawn_after_finish(options: TrackerOptions, outcomes: Seq<Outcome>)
    requires
        options.allocators,
        forall|i: int|
            0 <= i < outcomes.len() && (#[trigger] spawn_trace(options, outcomes)[i]) is ArmWorker
                ==> outcomes[i] is NoWorker,
    ensures
        !spawn_trace(options, outcomes).contains(SpawnStep::Resume),
        !spawn_trace(options, outcomes).contains(SpawnStep::Running),
        outcomes.len() >= 4 ==> spawn_trace(options, outcomes).last() is Failed,
{
    lemma_finished_trace(options, outcomes);
}

proof fn lemma_finished_trace(options: TrackerOptions, outcomes: Seq<Outcome>)
    requires
        options.allocators,
        forall|i: int|
            0 <= i < outcomes.len() && (#[trigger] spawn_trace(options, outcomes)[i]) is ArmWorker
                ==> outcomes[i] is NoWorker,
    ensures
        ({
            let trace = spawn_trace(options, outcomes);
            &&& trace.len() == outcomes.len() + 1
            &&& forall|i: int|
                0 <= i < trace.len() ==> {
                    ||| (#[trigger] trace[i]) is Failed && i > 0
                    ||| trace[i] is SpawnStopped && i == 0
                    ||| trace[i] is ArmWorker && i == 1
                    ||| trace[i] is StopPollers && i == 2
                    ||| trace[i] is KillChild && i == 3
                }
        }),
    decreases outcomes.len(),
{
    lemma_trace_is_nonempty(options, outcomes);
    if outcomes.len() > 0 {
        let front = outcomes.drop_last();
        let trace = spawn_trace(options, outcomes);
        lemma_trace_is_nonempty(options, front);
        assert forall|i: int|
            0 <= i < front.len() && (#[trigger] spawn_trace(options, front)[i])
                is ArmWorker implies front[i] is NoWorker by {
            assert(trace[i] == spawn_trace(options, front)[i]);
        }
        lemma_finished_trace(options, front);
        let n = outcomes.len() - 1;
        assert(trace[n] == spawn_trace(options, front)[n]);
        assert forall|i: int| 0 <= i < trace.len() implies {
            ||| (#[trigger] trace[i]) is Failed && i > 0
            ||| trace[i] is SpawnStopped && i == 0
            ||| trace[i] is ArmWorker && i == 1
            ||| trace[i] is StopPollers && i == 2
            ||| trace[i] is KillChild && i == 3
        } by {
            if i <= n {
                assert(trace[i] == spawn_trace(options, front)[i]);
            }
        }
    }
}

/// Whether `step` belongs to the end of a spawn that failed.
pub open spec fn is_cleanup(step: SpawnStep) -> bool {
    step is StopPollers || step is KillChild || step is Failed
}

impl SpawnStep {
    /// Whether the error of this step is the one that the spawn returns, where
    /// `next` follows it: whether it ended the set-up.
    pub fn error_stands(self, next: SpawnStep) -> (r: bool)
        ensures
            r == (!is_cleanup(self) && is_cleanup(next)),
    {
        let ended = match next {
            SpawnStep::StopPollers | SpawnStep::KillChild | SpawnStep::Failed => true,
            _ => false,
        };
        let cleanup = match self {
            SpawnStep::StopPollers | SpawnStep::KillChild | SpawnStep::Failed => true,
            _ => false,
        };
        ended && !cleanup
    }
}

/// The step whose error a spawn returns whose steps went as `outcomes` says: the
/// one that ended the set-up, if one did.
pub open spec fn returned_error(options: TrackerOptions, outcomes: Seq<Outcome>) -> Option<SpawnStep>
    decreases outcomes.len(),
{
    if outcomes.len() == 0 {
        None
    } else {
        let step = spawn_trace(options, outcomes.drop_last()).last();
        let next = spawn_next(step, options, outcomes.last());
        if !is_cleanup(step) && is_cleanup(next) {
            Some(step)
        } else {
            returned_error(options, outcomes.drop_last())
        }
    }
}

/// The error that a failed spawn returns is that of the step that ended the
/// set-up: there is exactly one such step, it was not done, everything after it
/// is cleanup, and neither the stopping of pollers nor the killing of the child
/// can replace its error.
pub proof fn law_the_setup_error_is_returned(options: TrackerOptions, outcomes: Seq<Outcome>)
    ensures
        ({
            let trace = spawn_trace(options, outcomes);
            &&& is_cleanup(trace.last()) <==> returned_error(options, outcomes) is Some
            &&& returned_error(options, outcomes) matches Some(step) ==> {
                &&& step is SpawnStopped || is_setup(step)
                &&& exists|i: int| #[trigger]
                    ends_setup(trace, outcomes, i) && trace[i] == step
            }
        }),
    decreases outcomes.len(),
{
    lemma_trace_is_nonempty(options, outcomes);
    let trace = spawn_trace(options, outcomes);
    if outcomes.len() > 0 {
        let front = outcomes.drop_last();
        let before = spawn_trace(options, front);
        lemma_trace_is_nonempty(options, front);
        law_the_setup_error_is_returned(options, front);
        assert(trace.drop_last() =~= before);
        let n = front.len() as int;
        if returned_error(options, front) is Some {
            let i = choose|i: int| #[trigger]
                ends_setup(before, front, i) && before[i] == returned_error(options, front)->0;
            assert forall|j: int| i < j < trace.len() implies is_cleanup(#[trigger] trace[j]) by {
                if j < before.len() {
                    assert(trace[j] == before[j]);
                } else {
                    assert(is_cleanup(before.last()));
                }
            }
            assert forall|j: int| 0 <= j <= i implies !is_cleanup(#[trigger] trace[j]) by {
                assert(trace[j] == before[j]);
            }
            assert(ends_setup(trace, outcomes, i));
        } else if is_cleanup(trace.last()) {
            lemma_no_cleanup_yet(options, front);
            assert forall|j: int| 0 <= j <= n implies !is_cleanup(#[trigger] trace[j]) by {
                assert(trace[j] == before[j]);
            }
            assert(ends_setup(trace, outcomes, n));
        }
    }
}

/// Whether the step at `i` ended the set-up: it was not done, no cleanup comes
/// up to it, and nothing but cleanup comes behind it.
pub open spec fn ends_setup(trace: Seq<SpawnStep>, outcomes: Seq<Outcome>, i: int) -> bool {
    &&& 0 <= i < outcomes.len()
    &&& outcomes[i] !is Done
    &&& forall|j: int| 0 <= j <= i ==> !is_cleanup(#[trigger] trace[j])
    &&& forall|j: int| i < j < trace.len() ==> is_cleanup(#[trigger] trace[j])
}

proof fn lemma_no_cleanup_yet(options: TrackerOptions, outcomes: Seq<Outcome>)
    requires
        !is_cleanup(spawn_trace(options, outcomes).last()),
    ensures
        forall|j: int|
            0 <= j < spawn_trace(options, outcomes).len() ==> !is_cleanup(
                #[trigger] spawn_trace(options, outcomes)[j],
            ),
    decreases outcomes.len(),
{
    lemma_trace_is_nonempty(options, outcomes);
    if outcomes.len() > 0 {
        let front = outcomes.drop_last();
        let trace = spawn_trace(options, outcomes);
        lemma_no_cleanup_yet(options, front);
        assert forall|j: int| 0 <= j < trace.len() implies !is_cleanup(#[trigger] trace[j]) by {
            if j < trace.len() - 1 {
                assert(trace[j] == spawn_trace(options, front)[j]);
            }
        }
    }
}

/// The steps of a build whose steps went as `outcomes` says.
pub open spec fn build_trace(options: TrackerOptions, outcomes: Seq<Outcome>) -> Seq<BuildStep>
    decreases outcomes.len(),
{
    if outcomes.len() == 0 {
        seq![BuildStep::RaiseMemlock]
    } else {
        let front = build_trace(options, outcomes.drop_last());
        front.push(build_next(front.last(), options, outcomes.last()))
    }
}

/// The steps that a build takes up to and with `step`, where nothing fails.
pub open spec fn build_steps_to(step: BuildStep, options: TrackerOptions) -> Seq<BuildStep> {
    let attached = seq![BuildStep::RaiseMemlock, BuildStep::AttachTracepoints];
    match step {
        BuildStep::RaiseMemlock => attached.take(1),
        BuildStep::AttachTracepoints => attached,
        BuildStep::AttachExecWatcher => attached.push(BuildStep::AttachExecWatcher),
        BuildStep::StartWorker => attached.push(BuildStep::AttachExecWatcher).push(
            BuildStep::StartWorker,
        ),
        _ => if options.allocators {
            attached.push(BuildStep::AttachExecWatcher).push(BuildStep::StartWorker).push(step)
        } else {
            attached.push(step)
        },
    }
}

/// A tracker comes to be ready with the exec watcher attached and the worker
/// started if and only if allocators are tracked, and after the tracepoints are
/// attached in any case. A trace that comes to a step other than a failure for
/// the first time has taken exactly these steps, in this order.
pub proof fn law_worker_iff_allocators(options: TrackerOptions, outcomes: Seq<Outcome>)
    ensures
        ({
            let trace = build_trace(options, outcomes);
            let step = trace.last();
            let fresh = trace.len() < 2 || trace[trace.len() - 2] != BuildStep::Ready;
            &&& trace.len() == outcomes.len() + 1
            &&& step !is Failed && fresh ==> trace == build_steps_to(step, options)
            &&& step is AttachExecWatcher || step is StartWorker ==> options.allocators
        }),
    decreases outcomes.len(),
{
    if outcomes.len() > 0 {
        law_worker_iff_allocators(options, outcomes.drop_last());
        let front = build_trace(options, outcomes.drop_last());
        let trace = build_trace(options, outcomes);
        assert(trace.drop_last() =~= front);
        assert(build_steps_to(BuildStep::AttachTracepoints, options) =~= build_steps_to(
            BuildStep::RaiseMemlock,
            options,
        ).push(BuildStep::AttachTracepoints));
    } else {
        assert(build_trace(options, outcomes) =~= build_steps_to(BuildStep::RaiseMemlock, options));
    }
}

/// Where every step is done, a build comes to be ready, whatever the options:
/// over the exec watcher and the worker if allocators are tracked, and straight
/// from the tracepoints if not.
pub proof fn law_a_build_without_failures_is_ready(options: TrackerOptions)
    ensures
        ({
            let n: nat = if options.allocators {
                4
            } else {
                2
            };
            let done = Seq::new(n, |i: int| Outcome::Done);
            build_trace(options, done) == if options.allocators {
                seq![
                    BuildStep::RaiseMemlock,
                    BuildStep::AttachTracepoints,
                    BuildStep::AttachExecWatcher,
                    BuildStep::StartWorker,
                    BuildStep::Ready,
                ]
            } else {
                seq![BuildStep::RaiseMemlock, BuildStep::AttachTracepoints, BuildStep::Ready]
            }
        }),
{
    let n: nat = if options.allocators {
        4
    } else {
        2
    };
    let done = Seq::new(n, |i: int| Outcome::Done);
    reveal_with_fuel(build_trace, 6);
    let d1 = done.drop_last();
    let d2 = d1.drop_last();
    if options.allocators {
        let d3 = d2.drop_last();
        let d4 = d3.drop_last();
        assert(build_trace(options, d4) =~= seq![BuildStep::RaiseMemlock]);
        assert(build_trace(options, d3).last() == BuildStep::AttachTracepoints);
        assert(build_trace(options, d2).last() == BuildStep::AttachExecWatcher);
        assert(build_trace(options, d1).last() == BuildStep::StartWorker);
        assert(build_trace(options, done) =~= seq![
            BuildStep::RaiseMemlock,
            BuildStep::AttachTracepoints,
            BuildStep::AttachExecWatcher,
            BuildStep::StartWorker,
            BuildStep::Ready,
        ]);
    } else {
        assert(build_trace(options, d2) =~= seq![BuildStep::RaiseMemlock]);
        assert(build_trace(options, d1).last() == BuildStep::AttachTracepoints);
        assert(build_trace(options, done) =~= seq![
            BuildStep::RaiseMemlock,
            BuildStep::AttachTracepoints,
            BuildStep::Ready,
        ]);
    }
}

/// A build fails if and only if one of its steps after the raise of the limit
/// was not done; it never fails otherwise, and a failed step is never passed
/// over.
pub proof fn law_a_build_fails_only_by_a_failed_step(
    options: TrackerOptions,
    outcomes: Seq<Outcome>,
)
    ensures
        ({
            let trace = build_trace(options, outcomes);
            trace.last() is Failed <==> exists|i: int|
                {
                    &&& 0 <= i < outcomes.len()
                    &&& #[trigger] trace[i] is AttachTracepoints || trace[i] is AttachExecWatcher
                        || trace[i] is StartWorker
                    &&& outcomes[i] !is Done
                }
        }),
    decreases outcomes.len(),
{
    law_worker_iff_allocators(options, outcomes);
    let trace = build_trace(options, outcomes);
    if outcomes.len() > 0 {
        let front = outcomes.drop_last();
        let before = build_trace(options, front);
        law_worker_iff_allocators(options, front);
        law_a_build_fails_only_by_a_failed_step(options, front);
        let n = front.len() as int;
        assert(forall|i: int| 0 <= i <= n ==> trace[i] == #[trigger] before[i]);
        assert(trace[n] == before.last());
        if exists|i: int|
            {
                &&& 0 <= i < front.len()
                &&& #[trigger] before[i] is AttachTracepoints || before[i] is AttachExecWatcher
                    || before[i] is StartWorker
                &&& front[i] !is Done
            } {
            let i = choose|i: int|
                {
                    &&& 0 <= i < front.len()
                    &&& #[trigger] before[i] is AttachTracepoints || before[i] is AttachExecWatcher
                        || before[i] is StartWorker
                    &&& front[i] !is Done
                };
            assert(trace[i] == before[i] && outcomes[i] == front[i]);
        }
        if exists|i: int|
            {
                &&& 0 <= i < outcomes.len()
                &&& #[trigger] trace[i] is AttachTracepoints || trace[i] is AttachExecWatcher
                    || trace[i] is StartWorker
                &&& outcomes[i] !is Done
            } {
            let i = choose|i: int|
                {
                    &&& 0 <= i < outcomes.len()
                    &&& #[trigger] trace[i] is AttachTracepoints || trace[i] is AttachExecWatcher
                        || trace[i] is StartWorker
                    &&& outcomes[i] !is Done
                };
            assert(trace[i] == before[i]);
            assert(i < n ==> outcomes[i] == front[i]);
        }
    }
}

/// A spawn comes to its cleanup if and only if one of its steps did not go well
/// enough, whatever the options; no failure is passed over.
pub proof fn law_a_spawn_fails_only_by_a_failed_step(
    options: TrackerOptions,
    outcomes: Seq<Outcome>,
)
    ensures
        ({
            let trace = spawn_trace(options, outcomes);
            is_cleanup(trace.last()) <==> exists|i: int|
                {
                    &&& 0 <= i < outcomes.len()
                    &&& !is_cleanup(#[trigger] trace[i])
                    &&& trace[i] !is Running
                    &&& outcomes[i] !is Done
                    &&& !(trace[i] is ArmWorker && outcomes[i] is NoWorker && !options.allocators)
                }
        }),
    decreases outcomes.len(),
{
    lemma_trace_is_nonempty(options, outcomes);
    let trace = spawn_trace(options, outcomes);
    if outcomes.len() > 0 {
        let front = outcomes.drop_last();
        let before = spawn_trace(options, front);
        lemma_trace_is_nonempty(options, front);
        law_a_spawn_fails_only_by_a_failed_step(options, front);
        let n = front.len() as int;
        assert(forall|i: int| 0 <= i <= n ==> trace[i] == #[trigger] before[i]);
        assert(trace[n] == before.last());
        if is_cleanup(before.last()) {
            let i = choose|i: int|
                {
                    &&& 0 <= i < front.len()
                    &&& !is_cleanup(#[trigger] before[i])
                    &&& before[i] !is Running
                    &&& front[i] !is Done
                    &&& !(before[i] is ArmWorker && front[i] is NoWorker && !options.allocators)
                };
            assert(trace[i] == before[i] && outcomes[i] == front[i]);
        }
        if exists|i: int|
            {
                &&& 0 <= i < outcomes.len()
                &&& !is_cleanup(#[trigger] trace[i])
                &&& trace[i] !is Running
                &&& outcomes[i] !is Done
                &&& !(trace[i] is ArmWorker && outcomes[i] is NoWorker && !options.allocators)
            } {
            let i = choose|i: int|
                {
                    &&& 0 <= i < outcomes.len()
                    &&& !is_cleanup(#[trigger] trace[i])
                    &&& trace[i] !is Running
                    &&& outcomes[i] !is Done
                    &&& !(trace[i] is ArmWorker && outcomes[i] is NoWorker && !options.allocators)
                };
            assert(trace[i] == before[i]);
            assert(i < n ==> outcomes[i] == front[i]);
        }
    }
}

/// The cleanup of a spawn that failed: before there is a child there is nothing
/// to clean up; the pollers of a set-up that failed are stopped before the child
/// is killed; a target that could not be resumed is killed at once; and a failed
/// spawn stays failed, as a running one stays running.
pub proof fn law_the_cleanup_is_complete(step: SpawnStep, options: TrackerOptions, outcome: Outcome)
    ensures
        step is SpawnStopped && outcome !is Done ==> spawn_next(step, options, outcome)
            == SpawnStep::Failed,
        (step is ArmWorker || step is TrackPid || step is PollStacks || step is PollEvents
            || step is PollMappings) && is_cleanup(spawn_next(step, options, outcome))
            ==> spawn_next(step, options, outcome) == SpawnStep::StopPollers,
        step is Resume && outcome !is Done ==> spawn_next(step, options, outcome)
            == SpawnStep::KillChild,
        step is StopPollers ==> spawn_next(step, options, outcome) == SpawnStep::KillChild,
        step is KillChild ==> spawn_next(step, options, outcome) == SpawnStep::Failed,
        step is Failed ==> spawn_next(step, options, outcome) == SpawnStep::Failed,
        step is Running ==> spawn_next(step, options, outcome) == SpawnStep::Running,
{
}

/// Without allocator tracking a missing worker is no obstacle: the spawn goes
/// the same way as with a worker that was armed.
pub proof fn law_no_worker_is_needed_without_allocators(options: TrackerOptions)
    requires
        !options.allocators,
    ensures
        spawn_next(SpawnStep::ArmWorker, options, Outcome::NoWorker) == spawn_next(
            SpawnStep::ArmWorker,
            options,
            Outcome::Done,
        ),
        spawn_next(SpawnStep::ArmWorker, options, Outcome::Done) == SpawnStep::TrackPid,
{
}

/// The number of events that were dropped: by the kernel because a ring was
/// full, and by the mapping rings.
pub fn dropped_events_count(dropped_by_kernel: u64, mapping_lost: u64) -> (r: u64)
    requires
        dropped_by_kernel + mapping_lost <= u64::MAX,
    ensures
        r == dropped_by_kernel + mapping_lost,
{
    dropped_by_kernel + mapping_lost
}

/// The cleanup is the stopping of the pollers, the killing of the child and the
/// failure; the error that stands is that of the one step before it.
pub proof fn law_what_the_cleanup_is(step: SpawnStep)
    ensures
        is_cleanup(step) <==> step == SpawnStep::StopPollers || step == SpawnStep::KillChild || step
            == SpawnStep::Failed,
        is_setup(step) <==> !is_cleanup(step) && step != SpawnStep::SpawnStopped && step
            != SpawnStep::Running,
{
}

} // verus!
