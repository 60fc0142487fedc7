use memtrack::tracker::{
    dropped_events_count, BuildStep, Outcome, SpawnStep, TrackerOptions, DEFAULT_STACK_BUDGET,
};

#[test]
fn default_options() {
    let options = TrackerOptions::default();
    assert_eq!(options.variant, None);
    assert!(options.allocators);
    assert!(!options.rmap);
    assert!(options.stack_capture);
    assert_eq!(options.stack_budget, 8192);
    assert_eq!(TrackerOptions::from_env(None, None, None, None), options);
}

#[test]
fn options_from_the_environment() {
    let off = |value| TrackerOptions::from_env(Some(value), None, Some(value), None);
    for value in ["0", "false"] {
        assert!(!off(value).allocators);
        assert!(!off(value).stack_capture);
    }
    for value in ["1", "", "no", "False", "00"] {
        assert!(off(value).allocators);
        assert!(off(value).stack_capture);
    }

    let rmap = |value| TrackerOptions::from_env(None, Some(value), None, None).rmap;
    assert!(rmap("1"));
    assert!(!rmap("true"));
    assert!(!rmap("0"));

    let budget = |value| TrackerOptions::from_env(None, None, None, Some(value)).stack_budget;
    assert_eq!(budget("4096"), 4096);
    assert_eq!(budget("+7"), 7);
    assert_eq!(budget("4294967295"), u32::MAX);
    for value in ["4294967296", "-1", "", "8k", " 8"] {
        assert_eq!(budget(value), DEFAULT_STACK_BUDGET);
    }
}

fn options(allocators: bool, stack_capture: bool) -> TrackerOptions {
    TrackerOptions {
        allocators,
        stack_capture,
        ..TrackerOptions::default()
    }
}

/// The steps of a spawn, each going as `outcome` says.
fn spawn(options: &TrackerOptions, outcome: impl Fn(SpawnStep) -> Outcome) -> Vec<SpawnStep> {
    let mut steps = vec![SpawnStep::SpawnStopped];
    loop {
        let step = *steps.last().unwrap();
        if step == SpawnStep::Running || step == SpawnStep::Failed {
            return steps;
        }
        steps.push(step.next(options, outcome(step)));
    }
}

#[test]
fn a_spawn_arms_everything_before_it_resumes() {
    assert_eq!(
        spawn(&options(true, true), |_| Outcome::Done),
        vec![
            SpawnStep::SpawnStopped,
            SpawnStep::ArmWorker,
            SpawnStep::TrackPid,
            SpawnStep::PollStacks,
            SpawnStep::PollEvents,
            SpawnStep::PollMappings,
            SpawnStep::Resume,
            SpawnStep::Running,
        ]
    );
    assert_eq!(
        spawn(&options(true, false), |_| Outcome::Done),
        vec![
            SpawnStep::SpawnStopped,
            SpawnStep::ArmWorker,
            SpawnStep::TrackPid,
            SpawnStep::PollEvents,
            SpawnStep::Resume,
            SpawnStep::Running,
        ]
    );
}

#[test]
fn a_failure_after_the_spawn_kills_the_child() {
    let options = options(true, true);
    for bad in [
        SpawnStep::ArmWorker,
        SpawnStep::TrackPid,
        SpawnStep::PollStacks,
        SpawnStep::PollEvents,
        SpawnStep::PollMappings,
        SpawnStep::Resume,
    ] {
        let steps = spawn(&options, |step| {
            if step == bad {
                Outcome::Failed
            } else {
                Outcome::Done
            }
        });
        let mut expected = vec![bad, SpawnStep::StopPollers, SpawnStep::KillChild];
        // The pollers of a target that could not be resumed end with the spawn.
        if bad == SpawnStep::Resume {
            expected.remove(1);
        }
        expected.push(SpawnStep::Failed);
        assert_eq!(steps[steps.len() - expected.len()..], expected);
    }
    assert_eq!(
        spawn(&options, |_| Outcome::Failed),
        vec![SpawnStep::SpawnStopped, SpawnStep::Failed]
    );
}

#[test]
fn a_finished_tracker_spawns_nothing_when_allocators_are_tracked() {
    let next = |allocators| {
        SpawnStep::ArmWorker.next(&options(allocators, true), Outcome::NoWorker)
    };
    assert_eq!(next(true), SpawnStep::StopPollers);
    assert_eq!(next(false), SpawnStep::TrackPid);
}

/// The steps of a build, each going as `outcome` says.
fn build(options: &TrackerOptions, outcome: impl Fn(BuildStep) -> Outcome) -> Vec<BuildStep> {
    let mut steps = vec![BuildStep::RaiseMemlock];
    loop {
        let step = *steps.last().unwrap();
        if step == BuildStep::Ready || step == BuildStep::Failed {
            return steps;
        }
        steps.push(step.next(options, outcome(step)));
    }
}

#[test]
fn a_build_starts_the_worker_only_for_allocators() {
    assert_eq!(
        build(&options(true, true), |_| Outcome::Done),
        vec![
            BuildStep::RaiseMemlock,
            BuildStep::AttachTracepoints,
            BuildStep::AttachExecWatcher,
            BuildStep::StartWorker,
            BuildStep::Ready,
        ]
    );
    assert_eq!(
        build(&options(false, true), |_| Outcome::Done),
        vec![
            BuildStep::RaiseMemlock,
            BuildStep::AttachTracepoints,
            BuildStep::Ready,
        ]
    );
}

#[test]
fn a_denied_memlock_raise_is_harmless_and_other_failures_are_not() {
    for bad in [
        BuildStep::RaiseMemlock,
        BuildStep::AttachTracepoints,
        BuildStep::AttachExecWatcher,
        BuildStep::StartWorker,
    ] {
        let steps = build(&options(true, true), |step| {
            if step == bad {
                Outcome::Failed
            } else {
                Outcome::Done
            }
        });
        let expected = if bad == BuildStep::RaiseMemlock {
            BuildStep::Ready
        } else {
            BuildStep::Failed
        };
        assert_eq!(steps.last(), Some(&expected));
    }
}

#[test]
fn dropped_events_add_up() {
    assert_eq!(dropped_events_count(3, 4), 7);
    assert_eq!(dropped_events_count(u64::MAX, 0), u64::MAX);
}

#[test]
fn the_setup_error_is_the_one_returned() {
    let options = options(true, true);
    for bad in [
        SpawnStep::SpawnStopped,
        SpawnStep::ArmWorker,
        SpawnStep::TrackPid,
        SpawnStep::PollStacks,
        SpawnStep::PollEvents,
        SpawnStep::PollMappings,
        SpawnStep::Resume,
    ] {
        // The cleanup fails, too.
        let steps = spawn(&options, |step| {
            if step == bad || step == SpawnStep::StopPollers || step == SpawnStep::KillChild {
                Outcome::Failed
            } else {
                Outcome::Done
            }
        });
        let returned: Vec<SpawnStep> = steps
            .windows(2)
            .filter(|pair| pair[0].error_stands(pair[1]))
            .map(|pair| pair[0])
            .collect();
        assert_eq!(returned, vec![bad]);
    }
    let steps = spawn(&options, |_| Outcome::Done);
    assert!(steps.windows(2).all(|pair| !pair[0].error_stands(pair[1])));
}

#[test]
fn a_spawn_after_finish_ends_without_a_resume() {
    let steps = spawn(&options(true, true), |step| {
        if step == SpawnStep::ArmWorker {
            Outcome::NoWorker
        } else {
            Outcome::Done
        }
    });
    assert_eq!(
        steps,
        vec![
            SpawnStep::SpawnStopped,
            SpawnStep::ArmWorker,
            SpawnStep::StopPollers,
            SpawnStep::KillChild,
            SpawnStep::Failed,
        ]
    );
}
