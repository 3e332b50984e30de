use dining_philosophers::fork::{Fork, ForkState};
use dining_philosophers::message::{Kind, Message, Side};
use dining_philosophers::philosopher::{Outgoing, Philosopher};

fn fork(state: ForkState) -> Fork {
    Fork { state, request_pending: false }
}

fn asked(state: ForkState) -> Fork {
    Fork { state, request_pending: true }
}

fn philosopher(left: Fork, right: Fork) -> Philosopher {
    Philosopher { left_fork: left, right_fork: right, left_neighbour: 3, right_neighbour: 1 }
}

const GRANT_RIGHT: u8 = 0;
const GRANT_LEFT: u8 = 1;
const REQUEST_RIGHT: u8 = 2;
const REQUEST_LEFT: u8 = 3;

#[test]
fn rank_0_starts_with_both_forks_dirty() {
    let p = Philosopher::new(5, 0);
    assert_eq!(p.left_fork, fork(ForkState::Dirty));
    assert_eq!(p.right_fork, fork(ForkState::Dirty));
    assert_eq!(p.left_neighbour, 1);
    assert_eq!(p.right_neighbour, 4);
}

#[test]
fn the_highest_rank_starts_with_no_fork() {
    let p = Philosopher::new(5, 4);
    assert_eq!(p.left_fork, fork(ForkState::Absent));
    assert_eq!(p.right_fork, fork(ForkState::Absent));
    assert_eq!(p.left_neighbour, 0);
    assert_eq!(p.right_neighbour, 3);
}

#[test]
fn a_rank_between_starts_with_its_left_fork_dirty() {
    for rank in 1..4 {
        let p = Philosopher::new(5, rank);
        assert_eq!(p.left_fork, fork(ForkState::Dirty));
        assert_eq!(p.right_fork, fork(ForkState::Absent));
        assert_eq!(p.left_neighbour, rank + 1);
        assert_eq!(p.right_neighbour, rank - 1);
    }
}

#[test]
fn neighbours_are_the_ranks_one_step_away_modulo_the_size() {
    for size in 2..9 {
        for rank in 0..size {
            let p = Philosopher::new(size, rank);
            assert_eq!(p.left_neighbour, (rank + 1) % size);
            assert_eq!(p.right_neighbour, (rank - 1 + size) % size);
        }
    }
}

#[test]
fn in_a_ring_of_two_both_neighbours_are_the_other_process() {
    let zero = Philosopher::new(2, 0);
    assert_eq!((zero.left_neighbour, zero.right_neighbour), (1, 1));
    assert_eq!(zero.left_fork, fork(ForkState::Dirty));
    assert_eq!(zero.right_fork, fork(ForkState::Dirty));
    let one = Philosopher::new(2, 1);
    assert_eq!((one.left_neighbour, one.right_neighbour), (0, 0));
    assert_eq!(one.left_fork, fork(ForkState::Absent));
    assert_eq!(one.right_fork, fork(ForkState::Absent));
}

#[test]
fn at_the_start_every_fork_has_exactly_one_owner() {
    for size in 2..9 {
        let ring: Vec<Philosopher> = (0..size).map(|rank| Philosopher::new(size, rank)).collect();
        for rank in 0..size {
            let here = ring[rank as usize];
            let left = ring[here.left_neighbour as usize];
            let held_here = here.left_fork.is_held();
            let held_there = left.right_fork.is_held();
            assert!(held_here != held_there, "size {size}, rank {rank}");
            assert_eq!(left.right_neighbour, rank);
        }
    }
}

#[test]
fn eat_makes_both_forks_dirty() {
    let mut p = philosopher(fork(ForkState::Clean), asked(ForkState::Clean));
    p.eat();
    assert_eq!(p.left_fork, fork(ForkState::Dirty));
    assert_eq!(p.right_fork, asked(ForkState::Dirty));
    assert_eq!((p.left_neighbour, p.right_neighbour), (3, 1));
}

#[test]
fn forks_are_missing_when_either_is_absent() {
    assert!(philosopher(fork(ForkState::Absent), fork(ForkState::Clean)).check_forks_missing());
    assert!(philosopher(fork(ForkState::Dirty), fork(ForkState::Absent)).check_forks_missing());
    assert!(philosopher(fork(ForkState::Absent), fork(ForkState::Absent)).check_forks_missing());
    assert!(!philosopher(fork(ForkState::Clean), fork(ForkState::Dirty)).check_forks_missing());
}

#[test]
fn a_grant_that_names_the_right_fork_fills_the_left_side() {
    let mut p = philosopher(fork(ForkState::Absent), fork(ForkState::Absent));
    let side = p.received_fork(&Message { kind: Kind::Grant, side: Side::Right });
    assert_eq!(side, Some(Side::Left));
    assert_eq!(p.left_fork, fork(ForkState::Clean));
    assert_eq!(p.right_fork, fork(ForkState::Absent));
}

#[test]
fn a_grant_that_names_the_left_fork_fills_the_right_side() {
    let mut p = philosopher(fork(ForkState::Absent), fork(ForkState::Absent));
    let side = p.received_fork(&Message { kind: Kind::Grant, side: Side::Left });
    assert_eq!(side, Some(Side::Right));
    assert_eq!(p.left_fork, fork(ForkState::Absent));
    assert_eq!(p.right_fork, fork(ForkState::Clean));
}

#[test]
fn received_fork_ignores_a_request() {
    let before = philosopher(fork(ForkState::Absent), fork(ForkState::Dirty));
    let mut p = before;
    assert_eq!(p.received_fork(&Message { kind: Kind::Request, side: Side::Left }), None);
    assert_eq!(p, before);
}

#[test]
fn a_request_for_a_dirty_fork_is_granted_at_once() {
    let mut p = philosopher(fork(ForkState::Clean), fork(ForkState::Dirty));
    let reply = p.respond_to_msg_request(&Message { kind: Kind::Request, side: Side::Left });
    assert_eq!(reply, Some(Outgoing { to: 1, byte: GRANT_RIGHT }));
    assert_eq!(p.right_fork, fork(ForkState::Absent));
    assert_eq!(p.left_fork, fork(ForkState::Clean));
}

#[test]
fn a_request_from_the_left_neighbour_concerns_the_left_fork() {
    let mut p = philosopher(fork(ForkState::Dirty), fork(ForkState::Dirty));
    let reply = p.respond_to_msg_request(&Message { kind: Kind::Request, side: Side::Right });
    assert_eq!(reply, Some(Outgoing { to: 3, byte: GRANT_LEFT }));
    assert_eq!(p.left_fork, fork(ForkState::Absent));
    assert_eq!(p.right_fork, fork(ForkState::Dirty));
}

#[test]
fn a_request_for_a_clean_fork_is_noted_and_nothing_is_sent() {
    let mut p = philosopher(fork(ForkState::Clean), fork(ForkState::Clean));
    let reply = p.respond_to_msg_request(&Message { kind: Kind::Request, side: Side::Left });
    assert_eq!(reply, None);
    assert_eq!(p.right_fork, asked(ForkState::Clean));
    assert_eq!(p.left_fork, fork(ForkState::Clean));
}

#[test]
fn a_request_for_an_absent_fork_is_noted_and_nothing_is_sent() {
    let mut p = philosopher(fork(ForkState::Absent), fork(ForkState::Dirty));
    let reply = p.respond_to_msg_request(&Message { kind: Kind::Request, side: Side::Right });
    assert_eq!(reply, None);
    assert_eq!(p.left_fork, asked(ForkState::Absent));
    assert_eq!(p.right_fork, fork(ForkState::Dirty));
}

#[test]
fn giving_a_dirty_fork_settles_the_noted_request() {
    let mut p = philosopher(fork(ForkState::Clean), asked(ForkState::Dirty));
    let reply = p.respond_to_msg_request(&Message { kind: Kind::Request, side: Side::Left });
    assert_eq!(reply, Some(Outgoing { to: 1, byte: GRANT_RIGHT }));
    assert_eq!(p.right_fork, fork(ForkState::Absent));
}

#[test]
fn respond_to_msg_request_ignores_a_grant() {
    let before = philosopher(fork(ForkState::Dirty), fork(ForkState::Dirty));
    let mut p = before;
    assert_eq!(p.respond_to_msg_request(&Message { kind: Kind::Grant, side: Side::Left }), None);
    assert_eq!(p, before);
}

#[test]
fn dispatch_stores_a_grant_and_answers_a_request() {
    let mut p = philosopher(fork(ForkState::Absent), fork(ForkState::Dirty));
    assert_eq!(p.dispatch(&Message { kind: Kind::Grant, side: Side::Right }), None);
    assert_eq!(p.left_fork, fork(ForkState::Clean));
    assert_eq!(
        p.dispatch(&Message { kind: Kind::Request, side: Side::Left }),
        Some(Outgoing { to: 1, byte: GRANT_RIGHT })
    );
    assert_eq!(p.right_fork, fork(ForkState::Absent));
    assert_eq!(p.dispatch(&Message { kind: Kind::Request, side: Side::Right }), None);
    assert_eq!(p.left_fork, asked(ForkState::Clean));
}

#[test]
fn a_grant_that_was_not_awaited_is_stored() {
    let mut p = philosopher(fork(ForkState::Dirty), fork(ForkState::Clean));
    assert_eq!(p.dispatch(&Message { kind: Kind::Grant, side: Side::Right }), None);
    assert_eq!(p.left_fork, fork(ForkState::Clean));
    assert_eq!(p.right_fork, fork(ForkState::Clean));
}

#[test]
fn after_a_meal_both_noted_requests_are_settled_left_first() {
    let mut p = philosopher(asked(ForkState::Clean), asked(ForkState::Clean));
    p.eat();
    let grants = p.respond_to_existing_requests();
    assert_eq!(
        grants,
        vec![Outgoing { to: 3, byte: GRANT_LEFT }, Outgoing { to: 1, byte: GRANT_RIGHT }]
    );
    assert_eq!(p.left_fork, fork(ForkState::Absent));
    assert_eq!(p.right_fork, fork(ForkState::Absent));
}

#[test]
fn after_a_meal_only_the_fork_that_was_asked_for_is_given() {
    let mut p = philosopher(fork(ForkState::Clean), asked(ForkState::Clean));
    p.eat();
    let grants = p.respond_to_existing_requests();
    assert_eq!(grants, vec![Outgoing { to: 1, byte: GRANT_RIGHT }]);
    assert_eq!(p.left_fork, fork(ForkState::Dirty));
    assert_eq!(p.right_fork, fork(ForkState::Absent));
}

#[test]
fn with_no_noted_request_nothing_is_given() {
    let before = philosopher(fork(ForkState::Dirty), fork(ForkState::Dirty));
    let mut p = before;
    assert_eq!(p.respond_to_existing_requests(), vec![]);
    assert_eq!(p, before);
}

#[test]
fn a_noted_request_for_a_fork_that_is_not_dirty_stays_noted() {
    let before = philosopher(asked(ForkState::Clean), asked(ForkState::Absent));
    let mut p = before;
    assert_eq!(p.respond_to_existing_requests(), vec![]);
    assert_eq!(p, before);
}

#[test]
fn the_left_fork_is_asked_for_before_the_right_one() {
    let p = philosopher(fork(ForkState::Absent), fork(ForkState::Absent));
    assert_eq!(p.request_fork(), Some((Side::Left, Outgoing { to: 3, byte: REQUEST_LEFT })));
}

#[test]
fn the_right_fork_is_asked_for_when_the_left_one_is_here() {
    let p = philosopher(fork(ForkState::Dirty), fork(ForkState::Absent));
    assert_eq!(p.request_fork(), Some((Side::Right, Outgoing { to: 1, byte: REQUEST_RIGHT })));
}

#[test]
fn nothing_is_asked_for_when_both_forks_are_here() {
    let p = philosopher(fork(ForkState::Clean), fork(ForkState::Dirty));
    assert_eq!(p.request_fork(), None);
}

#[test]
fn request_fork_changes_nothing() {
    let p = philosopher(fork(ForkState::Absent), fork(ForkState::Clean));
    let before = p;
    let _ = p.request_fork();
    assert_eq!(p, before);
}
