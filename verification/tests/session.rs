use memtrack::session::StopStep;

#[test]
fn mappings_are_handed_on_last() {
    let mut steps = vec![StopStep::Events];
    while *steps.last().unwrap() != StopStep::Stopped {
        steps.push(steps.last().unwrap().next());
    }
    assert_eq!(
        steps,
        vec![
            StopStep::Events,
            StopStep::Stacks,
            StopStep::Mappings,
            StopStep::Stopped,
        ]
    );
    assert_eq!(StopStep::Stopped.next(), StopStep::Stopped);
}
