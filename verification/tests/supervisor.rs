use tcplb::supervisor::ChildPoll;
use tcplb::supervisor::StepOutcome;
use tcplb::supervisor::supervisor_step;

#[test]
fn all_children_done_completes() {
    let polls = vec![ChildPoll::Done, ChildPoll::Done];
    assert_eq!(supervisor_step(&polls), StepOutcome::AllDone);
    assert_eq!(supervisor_step(&Vec::new()), StepOutcome::AllDone);
}

#[test]
fn pending_children_continue_in_order() {
    let polls = vec![ChildPoll::Pending, ChildPoll::Done, ChildPoll::Pending, ChildPoll::Pending];
    match supervisor_step(&polls) {
        StepOutcome::StillRunning(v) => assert_eq!(v, vec![0, 2, 3]),
        other => panic!("expected running children, got {:?}", other),
    }
}

#[test]
fn first_error_terminates_the_supervisor() {
    let polls = vec![ChildPoll::Done, ChildPoll::Pending, ChildPoll::Error, ChildPoll::Error];
    assert_eq!(supervisor_step(&polls), StepOutcome::Failed(2));
}
