use dining_philosophers::fork::{Fork, ForkState};
use dining_philosophers::message::Kind;

#[test]
fn a_new_fork_has_no_request_pending() {
    for state in [ForkState::Absent, ForkState::Clean, ForkState::Dirty] {
        assert_eq!(Fork::new(state), Fork { state, request_pending: false });
    }
}

#[test]
fn mark_used_makes_a_clean_fork_dirty() {
    let mut fork = Fork::new(ForkState::Clean);
    fork.mark_used();
    assert_eq!(fork, Fork { state: ForkState::Dirty, request_pending: false });
}

#[test]
fn mark_used_keeps_a_dirty_fork_dirty_and_the_request_noted() {
    let mut fork = Fork { state: ForkState::Dirty, request_pending: true };
    fork.mark_used();
    assert_eq!(fork, Fork { state: ForkState::Dirty, request_pending: true });
}

#[test]
fn give_turns_a_dirty_fork_absent_and_owes_a_grant() {
    let mut fork = Fork { state: ForkState::Dirty, request_pending: true };
    let owed = fork.give();
    assert_eq!(owed, Kind::Grant);
    assert_eq!(fork, Fork { state: ForkState::Absent, request_pending: false });
}

#[test]
fn receive_turns_an_absent_fork_clean() {
    let mut fork = Fork::new(ForkState::Absent);
    fork.receive();
    assert_eq!(fork, Fork { state: ForkState::Clean, request_pending: false });
}

#[test]
fn receive_twice_is_receive_once() {
    let mut once = Fork::new(ForkState::Absent);
    once.receive();
    let mut twice = Fork::new(ForkState::Absent);
    twice.receive();
    twice.receive();
    assert_eq!(once, twice);
}

#[test]
fn receive_keeps_a_noted_request() {
    let mut fork = Fork { state: ForkState::Absent, request_pending: true };
    fork.receive();
    assert_eq!(fork, Fork { state: ForkState::Clean, request_pending: true });
}

#[test]
fn note_request_sets_the_flag_and_keeps_the_state() {
    for state in [ForkState::Absent, ForkState::Clean, ForkState::Dirty] {
        let mut fork = Fork::new(state);
        fork.note_request();
        assert_eq!(fork, Fork { state, request_pending: true });
    }
}

#[test]
fn held_and_dirty_are_reported() {
    assert!(!Fork::new(ForkState::Absent).is_held());
    assert!(Fork::new(ForkState::Clean).is_held());
    assert!(Fork::new(ForkState::Dirty).is_held());
    assert!(!Fork::new(ForkState::Absent).is_dirty());
    assert!(!Fork::new(ForkState::Clean).is_dirty());
    assert!(Fork::new(ForkState::Dirty).is_dirty());
}

#[test]
fn a_fork_goes_round_the_cycle_of_its_states() {
    let mut fork = Fork::new(ForkState::Absent);
    fork.receive();
    assert_eq!(fork.state, ForkState::Clean);
    fork.note_request();
    fork.mark_used();
    assert_eq!(fork, Fork { state: ForkState::Dirty, request_pending: true });
    fork.give();
    assert_eq!(fork, Fork { state: ForkState::Absent, request_pending: false });
}
