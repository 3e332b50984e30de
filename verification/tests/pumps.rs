use dining_philosophers::fork::{Fork, ForkState};
use dining_philosophers::message::{ProtocolError, Side};
use dining_philosophers::philosopher::{Outgoing, Philosopher};
use dining_philosophers::pump::{
    Event, Fault, Phase, Pump, Wait, EATING_TICKS, THINKING_TICKS_MAX, THINKING_TICKS_MIN,
};

const GRANT_RIGHT: u8 = 0;
const GRANT_LEFT: u8 = 1;
const REQUEST_RIGHT: u8 = 2;
const REQUEST_LEFT: u8 = 3;

fn fork(state: ForkState) -> Fork {
    Fork { state, request_pending: false }
}

fn asked(state: ForkState) -> Fork {
    Fork { state, request_pending: true }
}

fn philosopher(left: Fork, right: Fork) -> Philosopher {
    Philosopher { left_fork: left, right_fork: right, left_neighbour: 3, right_neighbour: 1 }
}

fn thinking(left: Fork, right: Fork, ticks_left: u32, polled: bool) -> Pump {
    Pump { philosopher: philosopher(left, right), phase: Phase::Thinking { ticks_left, polled } }
}

fn hungry(left: Fork, right: Fork, awaiting: Side) -> Pump {
    Pump { philosopher: philosopher(left, right), phase: Phase::Hungry { awaiting } }
}

fn eating(left: Fork, right: Fork) -> Pump {
    Pump { philosopher: philosopher(left, right), phase: Phase::Eating }
}

#[test]
fn the_times_are_two_to_five_ticks_of_thought_and_two_of_eating() {
    assert_eq!(THINKING_TICKS_MIN, 2);
    assert_eq!(THINKING_TICKS_MAX, 5);
    assert_eq!(EATING_TICKS, 2);
}

#[test]
fn each_phase_expects_its_own_event() {
    let d = fork(ForkState::Dirty);
    let a = fork(ForkState::Absent);
    assert_eq!(thinking(d, d, 3, false).expects(), Wait::Poll);
    assert_eq!(thinking(d, d, 3, true).expects(), Wait::Sleep);
    assert_eq!(hungry(a, d, Side::Left).expects(), Wait::Receive);
    assert_eq!(eating(d, d).expects(), Wait::Eat);
}

#[test]
fn start_with_some_ticks_thinks_and_sends_nothing() {
    let p = Philosopher::new(5, 2);
    let (pump, sends) = Pump::start_with(p, 4);
    assert_eq!(pump, Pump { philosopher: p, phase: Phase::Thinking { ticks_left: 4, polled: false } });
    assert_eq!(sends, vec![]);
}

#[test]
fn start_with_no_tick_is_hungry_at_once() {
    let p = Philosopher::new(5, 2);
    let (pump, sends) = Pump::start_with(p, 0);
    assert_eq!(pump, Pump { philosopher: p, phase: Phase::Hungry { awaiting: Side::Right } });
    assert_eq!(sends, vec![Outgoing { to: 1, byte: REQUEST_RIGHT }]);
}

#[test]
fn start_with_no_tick_and_both_forks_eats_at_once() {
    let p = Philosopher::new(5, 0);
    let (pump, sends) = Pump::start_with(p, 0);
    assert_eq!(pump, Pump { philosopher: p, phase: Phase::Eating });
    assert_eq!(sends, vec![]);
}

#[test]
fn start_draws_a_thinking_time_in_range() {
    let p = Philosopher::new(5, 1);
    for _ in 0..200 {
        let pump = Pump::start(p);
        assert_eq!(pump.philosopher, p);
        match pump.phase {
            Phase::Thinking { ticks_left, polled } => {
                assert!(THINKING_TICKS_MIN <= ticks_left && ticks_left <= THINKING_TICKS_MAX);
                assert!(!polled);
            }
            other => panic!("started in {other:?}"),
        }
    }
}

#[test]
fn start_does_not_always_draw_the_same_thinking_time() {
    let p = Philosopher::new(5, 1);
    let first = Pump::start(p).phase;
    let mut differs = false;
    for _ in 0..400 {
        if Pump::start(p).phase != first {
            differs = true;
        }
    }
    assert!(differs);
}

#[test]
fn start_draws_every_thinking_time_from_two_to_five() {
    let p = Philosopher::new(5, 1);
    let mut seen = [false; 6];
    for _ in 0..2000 {
        if let Phase::Thinking { ticks_left, .. } = Pump::start(p).phase {
            seen[ticks_left as usize] = true;
        }
    }
    assert_eq!(seen, [false, false, true, true, true, true]);
}

#[test]
fn a_poll_that_finds_nothing_leads_to_the_sleep() {
    let d = fork(ForkState::Dirty);
    let mut pump = thinking(d, d, 3, false);
    assert_eq!(pump.step_with(Event::Polled(None), 0), Ok(vec![]));
    assert_eq!(pump, thinking(d, d, 3, true));
}

#[test]
fn a_sleep_takes_one_tick() {
    let d = fork(ForkState::Dirty);
    let mut pump = thinking(d, d, 3, true);
    assert_eq!(pump.step_with(Event::Slept, 0), Ok(vec![]));
    assert_eq!(pump, thinking(d, d, 2, false));
}

#[test]
fn thinking_for_n_ticks_polls_and_sleeps_n_times() {
    for ticks in 1..8u32 {
        let p = Philosopher::new(5, 0);
        let (mut pump, _) = Pump::start_with(p, ticks);
        let mut polls = 0;
        let mut sleeps = 0;
        while let Phase::Thinking { .. } = pump.phase {
            match pump.expects() {
                Wait::Poll => {
                    polls += 1;
                    assert_eq!(pump.step_with(Event::Polled(None), 0), Ok(vec![]));
                }
                Wait::Sleep => {
                    sleeps += 1;
                    assert_eq!(pump.step_with(Event::Slept, 0), Ok(vec![]));
                }
                other => panic!("a thinker expects {other:?}"),
            }
        }
        assert_eq!((polls, sleeps), (ticks, ticks));
        assert_eq!(pump.phase, Phase::Eating);
    }
}

#[test]
fn a_thinker_grants_a_dirty_fork_on_request() {
    let d = fork(ForkState::Dirty);
    let mut pump = thinking(d, d, 2, false);
    let sends = pump.step_with(Event::Polled(Some(REQUEST_LEFT)), 0);
    assert_eq!(sends, Ok(vec![Outgoing { to: 1, byte: GRANT_RIGHT }]));
    assert_eq!(pump, thinking(d, fork(ForkState::Absent), 2, true));
}

#[test]
fn a_thinker_notes_a_request_for_a_clean_fork() {
    let c = fork(ForkState::Clean);
    let mut pump = thinking(c, c, 2, false);
    assert_eq!(pump.step_with(Event::Polled(Some(REQUEST_RIGHT)), 0), Ok(vec![]));
    assert_eq!(pump, thinking(asked(ForkState::Clean), c, 2, true));
}

#[test]
fn a_thinker_stores_a_grant_it_did_not_ask_for() {
    let a = fork(ForkState::Absent);
    let mut pump = thinking(a, a, 2, false);
    assert_eq!(pump.step_with(Event::Polled(Some(GRANT_LEFT)), 0), Ok(vec![]));
    assert_eq!(pump, thinking(a, fork(ForkState::Clean), 2, true));
}

#[test]
fn after_the_last_tick_the_first_absent_fork_is_asked_for() {
    let a = fork(ForkState::Absent);
    let mut pump = thinking(a, a, 1, true);
    let sends = pump.step_with(Event::Slept, 0);
    assert_eq!(sends, Ok(vec![Outgoing { to: 3, byte: REQUEST_LEFT }]));
    assert_eq!(pump, hungry(a, a, Side::Left));
}

#[test]
fn after_the_last_tick_with_both_forks_the_meal_begins() {
    let c = fork(ForkState::Clean);
    let d = fork(ForkState::Dirty);
    let mut pump = thinking(c, d, 1, true);
    assert_eq!(pump.step_with(Event::Slept, 0), Ok(vec![]));
    assert_eq!(pump, eating(c, d));
}

#[test]
fn the_awaited_fork_leads_to_the_request_for_the_other() {
    let a = fork(ForkState::Absent);
    let mut pump = hungry(a, a, Side::Left);
    let sends = pump.step_with(Event::Received(GRANT_RIGHT), 0);
    assert_eq!(sends, Ok(vec![Outgoing { to: 1, byte: REQUEST_RIGHT }]));
    assert_eq!(pump, hungry(fork(ForkState::Clean), a, Side::Right));
}

#[test]
fn the_last_awaited_fork_leads_to_the_meal() {
    let a = fork(ForkState::Absent);
    let c = fork(ForkState::Clean);
    let mut pump = hungry(c, a, Side::Right);
    assert_eq!(pump.step_with(Event::Received(GRANT_LEFT), 0), Ok(vec![]));
    assert_eq!(pump, eating(c, c));
}

#[test]
fn a_hungry_process_still_gives_a_dirty_fork() {
    let a = fork(ForkState::Absent);
    let d = fork(ForkState::Dirty);
    let mut pump = hungry(a, d, Side::Left);
    let sends = pump.step_with(Event::Received(REQUEST_LEFT), 0);
    assert_eq!(sends, Ok(vec![Outgoing { to: 1, byte: GRANT_RIGHT }]));
    assert_eq!(pump, hungry(a, a, Side::Left));
}

#[test]
fn a_fork_given_while_hungry_is_asked_for_again_after_the_awaited_one() {
    let a = fork(ForkState::Absent);
    let d = fork(ForkState::Dirty);
    let mut pump = hungry(a, d, Side::Left);
    pump.step_with(Event::Received(REQUEST_LEFT), 0).unwrap();
    let sends = pump.step_with(Event::Received(GRANT_RIGHT), 0);
    assert_eq!(sends, Ok(vec![Outgoing { to: 1, byte: REQUEST_RIGHT }]));
    assert_eq!(pump, hungry(fork(ForkState::Clean), a, Side::Right));
}

#[test]
fn a_hungry_process_keeps_a_clean_fork_and_notes_the_request() {
    let a = fork(ForkState::Absent);
    let c = fork(ForkState::Clean);
    let mut pump = hungry(a, c, Side::Left);
    assert_eq!(pump.step_with(Event::Received(REQUEST_LEFT), 0), Ok(vec![]));
    assert_eq!(pump, hungry(a, asked(ForkState::Clean), Side::Left));
}

#[test]
fn a_grant_for_the_other_fork_is_stored_and_the_wait_goes_on() {
    let a = fork(ForkState::Absent);
    let mut pump = hungry(a, a, Side::Left);
    assert_eq!(pump.step_with(Event::Received(GRANT_LEFT), 0), Ok(vec![]));
    assert_eq!(pump, hungry(a, fork(ForkState::Clean), Side::Left));
}

#[test]
fn after_the_meal_both_forks_are_dirty_and_thinking_begins() {
    let c = fork(ForkState::Clean);
    let d = fork(ForkState::Dirty);
    let mut pump = eating(c, c);
    assert_eq!(pump.step_with(Event::Eaten, 4), Ok(vec![]));
    assert_eq!(pump, thinking(d, d, 4, false));
}

#[test]
fn after_the_meal_the_forks_that_were_asked_for_are_given() {
    let c = fork(ForkState::Clean);
    let mut pump = eating(asked(ForkState::Clean), c);
    let sends = pump.step_with(Event::Eaten, 3);
    assert_eq!(sends, Ok(vec![Outgoing { to: 3, byte: GRANT_LEFT }]));
    assert_eq!(pump, thinking(fork(ForkState::Absent), fork(ForkState::Dirty), 3, false));
}

#[test]
fn after_the_meal_with_no_tick_to_think_the_given_forks_are_asked_for() {
    let mut pump = eating(asked(ForkState::Clean), asked(ForkState::Clean));
    let sends = pump.step_with(Event::Eaten, 0);
    assert_eq!(
        sends,
        Ok(vec![
            Outgoing { to: 3, byte: GRANT_LEFT },
            Outgoing { to: 1, byte: GRANT_RIGHT },
            Outgoing { to: 3, byte: REQUEST_LEFT },
        ])
    );
    assert_eq!(pump, hungry(fork(ForkState::Absent), fork(ForkState::Absent), Side::Left));
}

#[test]
fn step_draws_the_thinking_time_after_a_meal() {
    let c = fork(ForkState::Clean);
    let d = fork(ForkState::Dirty);
    let mut seen = [false; 6];
    for _ in 0..2000 {
        let mut pump = eating(c, c);
        assert_eq!(pump.step(Event::Eaten), Ok(vec![]));
        assert_eq!(pump.philosopher, philosopher(d, d));
        match pump.phase {
            Phase::Thinking { ticks_left, polled: false } => seen[ticks_left as usize] = true,
            other => panic!("after the meal: {other:?}"),
        }
    }
    assert_eq!(seen, [false, false, true, true, true, true]);
}

#[test]
fn step_is_step_with_where_no_meal_ends() {
    let a = fork(ForkState::Absent);
    let d = fork(ForkState::Dirty);
    let starts = [thinking(d, a, 2, false), thinking(d, a, 1, true), hungry(a, d, Side::Left)];
    let events = [
        Event::Polled(None),
        Event::Polled(Some(REQUEST_LEFT)),
        Event::Slept,
        Event::Received(GRANT_RIGHT),
        Event::Received(9),
    ];
    for start in starts {
        for event in events {
            let mut drawn = start;
            let mut given = start;
            assert_eq!(drawn.step(event), given.step_with(event, 7));
            assert_eq!(drawn, given);
        }
    }
}

#[test]
fn a_started_pump_is_coherent_and_stays_so() {
    for rank in 0..5 {
        for ticks in 0..4u32 {
            let (mut pump, _) = Pump::start_with(Philosopher::new(5, rank), ticks);
            assert!(pump.is_coherent());
            for event in [
                Event::Polled(Some(REQUEST_LEFT)),
                Event::Slept,
                Event::Polled(None),
                Event::Slept,
                Event::Received(REQUEST_RIGHT),
                Event::Received(GRANT_LEFT),
                Event::Received(GRANT_RIGHT),
                Event::Eaten,
                Event::Polled(Some(REQUEST_RIGHT)),
            ] {
                let _ = pump.step_with(event, ticks);
                assert!(pump.is_coherent(), "rank {rank}, {event:?}: {pump:?}");
            }
        }
    }
}

#[test]
fn coherence_is_told_from_the_phase_and_the_forks() {
    let a = fork(ForkState::Absent);
    let c = fork(ForkState::Clean);
    let d = fork(ForkState::Dirty);
    assert!(thinking(a, d, 1, false).is_coherent());
    assert!(!thinking(a, d, 0, false).is_coherent());
    assert!(hungry(a, c, Side::Left).is_coherent());
    assert!(!hungry(a, c, Side::Right).is_coherent());
    assert!(eating(c, d).is_coherent());
    assert!(!eating(c, a).is_coherent());
    assert!(thinking(asked(ForkState::Clean), asked(ForkState::Absent), 2, true).is_coherent());
    assert!(!thinking(d, asked(ForkState::Dirty), 2, true).is_coherent());
}

#[test]
fn a_byte_that_is_no_message_is_a_protocol_fault() {
    let a = fork(ForkState::Absent);
    let mut pump = hungry(a, a, Side::Left);
    let before = pump;
    assert_eq!(
        pump.step_with(Event::Received(4), 0),
        Err(Fault::Protocol(ProtocolError { byte: 4 }))
    );
    assert_eq!(pump, before);
    let mut pump = thinking(a, a, 2, false);
    let before = pump;
    assert_eq!(
        pump.step_with(Event::Polled(Some(255)), 0),
        Err(Fault::Protocol(ProtocolError { byte: 255 }))
    );
    assert_eq!(pump, before);
}

#[test]
fn an_event_that_was_not_expected_is_out_of_turn() {
    let a = fork(ForkState::Absent);
    let c = fork(ForkState::Clean);
    let cases = [
        (thinking(c, c, 2, false), vec![Event::Slept, Event::Received(GRANT_LEFT), Event::Eaten]),
        (
            thinking(c, c, 2, true),
            vec![Event::Polled(None), Event::Polled(Some(GRANT_LEFT)), Event::Received(0), Event::Eaten],
        ),
        (hungry(a, c, Side::Left), vec![Event::Polled(None), Event::Slept, Event::Eaten]),
        (eating(c, c), vec![Event::Polled(Some(REQUEST_LEFT)), Event::Slept, Event::Received(2)]),
    ];
    for (start, events) in cases {
        for event in events {
            let mut pump = start;
            assert_eq!(pump.step_with(event, 3), Err(Fault::OutOfTurn));
            assert_eq!(pump, start);
        }
    }
}

#[test]
fn out_of_turn_comes_before_the_byte_is_looked_at() {
    let c = fork(ForkState::Clean);
    let mut pump = eating(c, c);
    assert_eq!(pump.step_with(Event::Received(200), 0), Err(Fault::OutOfTurn));
}
