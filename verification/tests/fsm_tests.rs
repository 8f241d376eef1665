use fsm_engine::fsm::{Error, FiniteState, Receiver, Setup, StateMachine, ANY, INITIAL};
use std::cell::RefCell;

/// Builds the five-state demonstration vocabulary: states error, starting,
/// ready, stopping, stopped; an explicit first move from the initial
/// pseudo-state to starting; a cycle starting -> ready -> stopping ->
/// stopped -> starting; and a wildcard move to error.
fn demo_setup<'a>() -> Setup<'a> {
    let mut setup = Setup::new();
    setup.add_state("error").unwrap();
    setup.add_state("starting").unwrap();
    setup.add_state("ready").unwrap();
    setup.add_state("stopping").unwrap();
    setup.add_state("stopped").unwrap();
    setup.add_transition(INITIAL, "starting").unwrap();
    setup.add_transition("starting", "ready").unwrap();
    setup.add_transition("ready", "stopping").unwrap();
    setup.add_transition("stopping", "stopped").unwrap();
    setup.add_transition("stopped", "starting").unwrap();
    setup.add_transition(ANY, "error").unwrap();
    setup
}

#[test]
fn legal_state_is_declared_and_found() {
    let mut setup = Setup::new();
    assert!(setup.add_state("starting").is_ok());
    setup.add_transition(INITIAL, "starting").unwrap();
    let mut machine = StateMachine::new(setup);
    // the destination lookup finds the declared state: the move succeeds
    let fs = machine.transition("starting").unwrap();
    assert_eq!(fs.id, "starting");
}

#[test]
fn reserved_ids_are_rejected_as_states() {
    let mut setup = Setup::new();
    match setup.add_state("") {
        Err(Error::InvalidStateID(id)) => assert_eq!(id, ""),
        _ => panic!("empty ID must be rejected"),
    }
    match setup.add_state("*") {
        Err(Error::InvalidStateID(id)) => assert_eq!(id, "*"),
        _ => panic!("wildcard ID must be rejected"),
    }
}

#[test]
fn reserved_ids_are_rejected_as_destinations() {
    let mut setup = Setup::new();
    match setup.add_transition("starting", "") {
        Err(Error::InvalidStateID(id)) => assert_eq!(id, ""),
        _ => panic!("empty destination must be rejected"),
    }
    match setup.add_transition("starting", "*") {
        Err(Error::InvalidStateID(id)) => assert_eq!(id, "*"),
        _ => panic!("wildcard destination must be rejected"),
    }
    // the source is unrestricted at declaration time
    assert!(setup.add_transition("", "starting").is_ok());
    assert!(setup.add_transition("*", "starting").is_ok());
}

#[test]
fn rejected_declaration_leaves_setup_unchanged() {
    let mut setup = Setup::new();
    setup.add_state("starting").unwrap();
    setup.add_transition(INITIAL, "starting").unwrap();
    assert!(setup.add_state("*").is_err());
    assert!(setup.add_transition("starting", "").is_err());
    // the rejected calls declared nothing: the machine still works as before
    let mut machine = StateMachine::new(setup);
    assert_eq!(machine.transition("starting").unwrap().id, "starting");
}

#[test]
fn fresh_machine_is_in_initial_pseudo_state() {
    let setup = Setup::new();
    let mut machine = StateMachine::new(setup);
    // the current state ID reported by a failing request is the empty string
    match machine.transition("anywhere") {
        Err(Error::NoTransition(current, requested)) => {
            assert_eq!(current, "");
            assert_eq!(requested, "anywhere");
        }
        _ => panic!("a machine with no transitions must refuse every request"),
    }
}

#[test]
fn full_lifecycle_reaches_error_state() {
    let mut machine = StateMachine::new(demo_setup());
    assert_eq!(machine.transition("starting").unwrap().id, "starting");
    assert_eq!(machine.transition("ready").unwrap().id, "ready");
    assert_eq!(machine.transition("stopping").unwrap().id, "stopping");
    assert_eq!(machine.transition("stopped").unwrap().id, "stopped");
    assert_eq!(machine.transition("error").unwrap().id, "error");
}

#[test]
fn wildcard_never_matches_initial_pseudo_state() {
    // "error" is declared, and a wildcard rule leads to it; still, the very
    // first move needs an explicit rule from the initial pseudo-state
    let mut machine = StateMachine::new(demo_setup());
    match machine.transition("error") {
        Err(Error::NoTransition(current, requested)) => {
            assert_eq!(current, "");
            assert_eq!(requested, "error");
        }
        _ => panic!("the wildcard must not fire from the initial pseudo-state"),
    }
    // after the first explicit move the very same request succeeds
    machine.transition("starting").unwrap();
    assert_eq!(machine.transition("error").unwrap().id, "error");
}

#[test]
fn unmatched_request_fails_and_keeps_state() {
    let mut machine = StateMachine::new(demo_setup());
    machine.transition("starting").unwrap();
    // no rule allows starting -> stopped
    match machine.transition("stopped") {
        Err(Error::NoTransition(current, requested)) => {
            assert_eq!(current, "starting");
            assert_eq!(requested, "stopped");
        }
        _ => panic!("an unmatched request must fail with NoTransition"),
    }
    // the machine is still in "starting": its outgoing rule still applies
    assert_eq!(machine.transition("ready").unwrap().id, "ready");
}

#[test]
fn undeclared_destination_fails_with_no_state() {
    let mut setup = Setup::new();
    setup.add_state("starting").unwrap();
    setup.add_transition(INITIAL, "ghost").unwrap();
    setup.add_transition(INITIAL, "starting").unwrap();
    let mut machine = StateMachine::new(setup);
    // a rule exists, so the failure is NoState, not NoTransition
    match machine.transition("ghost") {
        Err(Error::NoState(requested)) => assert_eq!(requested, "ghost"),
        _ => panic!("an undeclared destination must fail with NoState"),
    }
    // the failed request left the machine in the initial pseudo-state
    assert_eq!(machine.transition("starting").unwrap().id, "starting");
}

#[test]
fn repeated_failing_request_is_idempotent() {
    let mut machine = StateMachine::new(demo_setup());
    machine.transition("starting").unwrap();
    for _ in 0..3 {
        match machine.transition("stopped") {
            Err(Error::NoTransition(current, requested)) => {
                assert_eq!(current, "starting");
                assert_eq!(requested, "stopped");
            }
            _ => panic!("every repetition must fail the same way"),
        }
    }
    assert_eq!(machine.transition("ready").unwrap().id, "ready");
}

struct RecordingReceiver {
    seen: RefCell<Vec<String>>,
}

impl Receiver for RecordingReceiver {
    fn receive_state(&self, fstate: &FiniteState) {
        self.seen.borrow_mut().push(fstate.id.clone());
    }
}

#[test]
fn observer_sees_each_success_exactly_once() {
    let receiver: &'static RecordingReceiver =
        Box::leak(Box::new(RecordingReceiver { seen: RefCell::new(Vec::new()) }));
    let mut setup = demo_setup();
    setup.set_receiver(receiver).unwrap();
    let mut machine = StateMachine::new(setup);
    machine.transition("starting").unwrap();
    machine.transition("ready").unwrap();
    // failed attempts notify nobody
    assert!(machine.transition("stopped").is_err());
    assert!(machine.transition("stopped").is_err());
    machine.transition("error").unwrap();
    assert_eq!(*receiver.seen.borrow(), vec!["starting", "ready", "error"]);
}

#[test]
fn later_observer_replaces_earlier_one() {
    let first: &'static RecordingReceiver =
        Box::leak(Box::new(RecordingReceiver { seen: RefCell::new(Vec::new()) }));
    let second: &'static RecordingReceiver =
        Box::leak(Box::new(RecordingReceiver { seen: RefCell::new(Vec::new()) }));
    let mut setup = demo_setup();
    setup.set_receiver(first).unwrap();
    setup.set_receiver(second).unwrap();
    let mut machine = StateMachine::new(setup);
    machine.transition("starting").unwrap();
    // at most one observer is held: only the replacement is notified
    assert!(first.seen.borrow().is_empty());
    assert_eq!(*second.seen.borrow(), vec!["starting"]);
}

#[test]
fn machine_without_observer_runs() {
    let mut machine = StateMachine::new(demo_setup());
    assert_eq!(machine.transition("starting").unwrap().id, "starting");
}

#[test]
fn duplicate_state_ids_are_accepted() {
    let mut setup = Setup::new();
    assert!(setup.add_state("starting").is_ok());
    assert!(setup.add_state("starting").is_ok());
    setup.add_transition(INITIAL, "starting").unwrap();
    let mut machine = StateMachine::new(setup);
    assert_eq!(machine.transition("starting").unwrap().id, "starting");
}

#[test]
fn snapshot_copies_declared_state() {
    let mut setup = Setup::new();
    setup.add_state("ready").unwrap();
    setup.add_transition(INITIAL, "ready").unwrap();
    let mut machine = StateMachine::new(setup);
    let fs: FiniteState = machine.transition("ready").unwrap();
    // the returned snapshot is an owned copy of the new current state
    assert_eq!(fs.id, "ready");
}
