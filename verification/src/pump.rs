//! The life cycle of one process, thinking, hungry, eating, as a machine
//! that is told what has happened and answers with what to send.
//!
//! The machine never touches the transport. Whoever drives it performs
//! what `Pump::expects` names, reports the outcome as an `Event`, and sends
//! the bytes that the step returns.

use vstd::prelude::*;
use rand::Rng;
use crate::message::{Kind, Message, ProtocolError, Side};
use crate::philosopher::{Outgoing, Philosopher};

verus! {

/// The shortest thinking time, in ticks.
pub const THINKING_TICKS_MIN: u32 = 2;

/// The longest thinking time, in ticks.
pub const THINKING_TICKS_MAX: u32 = 5;

/// The length of a meal, in ticks.
pub const EATING_TICKS: u32 = 2;

/// Where a process is in its cycle.
#[derive(Clone, Copy, Debug, PartialEq, Eq, Structural)]
pub enum Phase {
    /// Not seeking forks. `ticks_left` ticks of thinking remain; `polled`
    /// says whether the channel has been looked at in the current tick.
    Thinking { ticks_left: u32, polled: bool },
    /// Seeking forks: the fork on side `awaiting` has been asked for and
    /// has not arrived.
    Hungry { awaiting: Side },
    /// Both forks are here and the meal is under way.
    Eating,
}

/// What the driver is to do next.
#[derive(Clone, Copy, Debug, PartialEq, Eq, Structural)]
pub enum Wait {
    /// Look for a message without blocking; report `Event::Polled`.
    Poll,
    /// Sleep for one tick; report `Event::Slept`.
    Sleep,
    /// Block until a message arrives; report `Event::Received`.
    Receive,
    /// Sleep for `EATING_TICKS` ticks; report `Event::Eaten`.
    Eat,
}

/// What the driver reports back.
#[derive(Clone, Copy, Debug)]
pub enum Event {
    /// The channel was looked at; the byte that had arrived, if any.
    Polled(Option<u8>),
    /// One tick has passed.
    Slept,
    /// A byte has arrived.
    Received(u8),
    /// The meal is over.
    Eaten,
}

/// Why a step was refused. Either is fatal: the state is left as it was
/// and the process is expected to stop.
#[derive(Clone, Copy, Debug, PartialEq, Eq, Structural)]
pub enum Fault {
    /// A byte arrived that is no message.
    Protocol(ProtocolError),
    /// The event is not the one that `Pump::expects` asked for.
    OutOfTurn,
}

/// One process with its place in the cycle.
#[derive(Clone, Copy, Debug, PartialEq, Eq, Structural)]
pub struct Pump {
    pub philosopher: Philosopher,
    pub phase: Phase,
}

/// At most one outgoing byte as a sequence.
pub open spec fn as_sends(reply: Option<Outgoing>) -> Seq<Outgoing> {
    match reply {
        Some(outgoing) => seq![outgoing],
        None => Seq::empty(),
    }
}

impl Pump {
    /// What the driver is to do next.
    pub open spec fn awaits(self) -> Wait {
        match self.phase {
            Phase::Thinking { ticks_left, polled } => if polled {
                Wait::Sleep
            } else {
                Wait::Poll
            },
            Phase::Hungry { awaiting } => Wait::Receive,
            Phase::Eating => Wait::Eat,
        }
    }

    /// Whether the place in the cycle agrees with the forks: a thinker has
    /// a tick to go, a hungry process lacks the fork that it waits for,
    /// an eater holds both forks, and no dirty fork has a request noted.
    /// Every step keeps this.
    pub open spec fn coherent(self) -> bool {
        &&& self.philosopher.settled()
        &&& match self.phase {
            Phase::Thinking { ticks_left, polled } => ticks_left > 0,
            Phase::Hungry { awaiting } => !self.philosopher.fork(awaiting).held(),
            Phase::Eating => !self.philosopher.forks_missing(),
        }
    }

    /// A process that has stopped thinking: it asks for its first absent
    /// fork, the left one before the right one, and waits for it; with
    /// both forks here it eats.
    pub open spec fn seeking(philosopher: Philosopher) -> (Pump, Seq<Outgoing>) {
        match philosopher.first_missing() {
            Some(side) => (
                Pump { philosopher, phase: Phase::Hungry { awaiting: side } },
                seq![philosopher.outgoing(Kind::Request, side)],
            ),
            None => (Pump { philosopher, phase: Phase::Eating }, Seq::empty()),
        }
    }

    /// A process that starts to think for `ticks` ticks. With no tick to
    /// think it is hungry at once.
    pub open spec fn thinking_for(philosopher: Philosopher, ticks: u32) -> (Pump, Seq<Outgoing>) {
        if ticks == 0 {
            Pump::seeking(philosopher)
        } else {
            (
                Pump { philosopher, phase: Phase::Thinking { ticks_left: ticks, polled: false } },
                Seq::empty(),
            )
        }
    }

    /// The step on `Event::Polled`: while thinking, a byte that has
    /// arrived is decoded and handled, and the tick's sleep is next.
    pub open spec fn polled(self, arrived: Option<u8>) -> Result<(Pump, Seq<Outgoing>), Fault> {
        match self.phase {
            Phase::Thinking { ticks_left, polled: false } => {
                let rested = Phase::Thinking { ticks_left, polled: true };
                match arrived {
                    None => Ok((Pump { phase: rested, ..self }, Seq::empty())),
                    Some(byte) => match Message::parse(byte) {
                        None => Err(Fault::Protocol(ProtocolError { byte })),
                        Some(msg) => {
                            let (philosopher, reply) = self.philosopher.after_message(msg);
                            Ok((Pump { philosopher, phase: rested }, as_sends(reply)))
                        },
                    },
                }
            },
            _ => Err(Fault::OutOfTurn),
        }
    }

    /// The step on `Event::Slept`: one tick of thinking less, and hunger
    /// after the last.
    pub open spec fn slept(self) -> Result<(Pump, Seq<Outgoing>), Fault> {
        match self.phase {
            Phase::Thinking { ticks_left, polled: true } => if ticks_left <= 1 {
                Ok(Pump::seeking(self.philosopher))
            } else {
                Ok(
                    (
                        Pump {
                            phase: Phase::Thinking {
                                ticks_left: (ticks_left - 1) as u32,
                                polled: false,
                            },
                            ..self
                        },
                        Seq::empty(),
                    ),
                )
            },
            _ => Err(Fault::OutOfTurn),
        }
    }

    /// Whether the message brings the fork on side `awaiting`.
    pub open spec fn brings(msg: Message, awaiting: Side) -> bool {
        msg.kind == Kind::Grant && msg.side.flip() == awaiting
    }

    /// The step on `Event::Received`: while hungry, the byte is decoded and
    /// handled. Once the awaited fork has come, the next absent fork is
    /// asked for, or the meal begins.
    pub open spec fn received(self, byte: u8) -> Result<(Pump, Seq<Outgoing>), Fault> {
        match self.phase {
            Phase::Hungry { awaiting } => match Message::parse(byte) {
                None => Err(Fault::Protocol(ProtocolError { byte })),
                Some(msg) => {
                    let (philosopher, reply) = self.philosopher.after_message(msg);
                    if Pump::brings(msg, awaiting) {
                        Ok(Pump::seeking(philosopher))
                    } else {
                        Ok((Pump { philosopher, phase: self.phase }, as_sends(reply)))
                    }
                },
            },
            _ => Err(Fault::OutOfTurn),
        }
    }

    /// The step on `Event::Eaten`: both forks are dirty, those that were
    /// asked for are given, and `ticks` ticks of thinking begin.
    pub open spec fn eaten(self, ticks: u32) -> Result<(Pump, Seq<Outgoing>), Fault> {
        match self.phase {
            Phase::Eating => {
                let fed = self.philosopher.after_meal();
                let (next, requests) = Pump::thinking_for(fed.after_serving(), ticks);
                Ok((next, fed.grants_owed() + requests))
            },
            _ => Err(Fault::OutOfTurn),
        }
    }

    /// The state after `event` and the bytes to send, in order, or the
    /// fault. `ticks` is the length of the thinking time that begins when
    /// a meal ends; no other step reads it.
    pub open spec fn step_result(self, event: Event, ticks: u32) -> Result<
        (Pump, Seq<Outgoing>),
        Fault,
    > {
        match event {
            Event::Polled(arrived) => self.polled(arrived),
            Event::Slept => self.slept(),
            Event::Received(byte) => self.received(byte),
            Event::Eaten => self.eaten(ticks),
        }
    }

    /// Whether `post` and `sent` are what a step of `pre` on `event` leaves
    /// and returns: the next state and its bytes, or the fault beside an
    /// unchanged state.
    pub open spec fn stepped(
        pre: Pump,
        event: Event,
        ticks: u32,
        post: Pump,
        sent: Result<Vec<Outgoing>, Fault>,
    ) -> bool {
        match pre.step_result(event, ticks) {
            Ok((next, sends)) => post == next && (sent matches Ok(bytes) && bytes@ == sends),
            Err(fault) => post == pre && (sent matches Err(refusal) && refusal == fault),
        }
    }

    /// What the driver is to do next.
    pub fn expects(&self) -> (wait: Wait)
        ensures
            wait == self.awaits(),
    {
        match self.phase {
            Phase::Thinking { ticks_left: _, polled } => if polled {
                Wait::Sleep
            } else {
                Wait::Poll
            },
            Phase::Hungry { awaiting: _ } => Wait::Receive,
            Phase::Eating => Wait::Eat,
        }
    }

    /// Whether the place in the cycle agrees with the forks.
    pub fn is_coherent(&self) -> (yes: bool)
        ensures
            yes == self.coherent(),
    {
        let left = &self.philosopher.left_fork;
        let right = &self.philosopher.right_fork;
        let settled = !(left.is_dirty() && left.request_pending) && !(right.is_dirty()
            && right.request_pending);
        settled && match self.phase {
            Phase::Thinking { ticks_left, polled: _ } => ticks_left > 0,
            Phase::Hungry { awaiting } => match awaiting {
                Side::Left => !left.is_held(),
                Side::Right => !right.is_held(),
            },
            Phase::Eating => left.is_held() && right.is_held(),
        }
    }

    fn seek(philosopher: Philosopher) -> (next: (Pump, Vec<Outgoing>))
        ensures
            next.0 == Pump::seeking(philosopher).0,
            next.1@ == Pump::seeking(philosopher).1,
    {
        let mut sends: Vec<Outgoing> = Vec::new();
        match philosopher.request_fork() {
            Some((side, request)) => {
                sends.push(request);
                (Pump { philosopher, phase: Phase::Hungry { awaiting: side } }, sends)
            },
            None => (Pump { philosopher, phase: Phase::Eating }, sends),
        }
    }

    /// Begins the cycle of `philosopher` with `ticks` ticks of thinking.
    /// With no tick to think the process is hungry at once, and the
    /// request for its first absent fork is returned.
    pub fn start_with(philosopher: Philosopher, ticks: u32) -> (started: (Pump, Vec<Outgoing>))
        ensures
            started.0 == Pump::thinking_for(philosopher, ticks).0,
            started.1@ == Pump::thinking_for(philosopher, ticks).1,
            philosopher.settled() ==> started.0.coherent(),
    {
        if ticks == 0 {
            Pump::seek(philosopher)
        } else {
            (
                Pump { philosopher, phase: Phase::Thinking { ticks_left: ticks, polled: false } },
                Vec::new(),
            )
        }
    }

    /// Begins the cycle of `philosopher` with a thinking time drawn at
    /// random between `THINKING_TICKS_MIN` and `THINKING_TICKS_MAX` ticks.
    pub fn start(philosopher: Philosopher) -> (started: Pump)
        ensures
            exists|ticks: u32|
                THINKING_TICKS_MIN <= ticks <= THINKING_TICKS_MAX && #[trigger] Pump::thinking_for(
                    philosopher,
                    ticks,
                ) == (started, Seq::<Outgoing>::empty()),
            philosopher.settled() ==> started.coherent(),
    {
        let ticks = random_between(THINKING_TICKS_MIN, THINKING_TICKS_MAX);
        let (pump, _) = Pump::start_with(philosopher, ticks);
        pump
    }

    fn on_polled(&mut self, arrived: Option<u8>) -> (sent: Result<Vec<Outgoing>, Fault>)
        ensures
            Pump::stepped(*old(self), Event::Polled(arrived), 0, *final(self), sent),
    {
        match self.phase {
            Phase::Thinking { ticks_left, polled } => {
                if polled {
                    return Err(Fault::OutOfTurn);
                }
                let mut philosopher = self.philosopher;
                let mut sends: Vec<Outgoing> = Vec::new();
                if let Some(byte) = arrived {
                    match Message::from_u8(byte) {
                        Err(error) => {
                            return Err(Fault::Protocol(error));
                        },
                        Ok(msg) => {
                            if let Some(reply) = philosopher.dispatch(&msg) {
                                sends.push(reply);
                            }
                        },
                    }
                }
                self.philosopher = philosopher;
                self.phase = Phase::Thinking { ticks_left, polled: true };
                Ok(sends)
            },
            _ => Err(Fault::OutOfTurn),
        }
    }

    fn on_slept(&mut self) -> (sent: Result<Vec<Outgoing>, Fault>)
        ensures
            Pump::stepped(*old(self), Event::Slept, 0, *final(self), sent),
    {
        match self.phase {
            Phase::Thinking { ticks_left, polled } => {
                if !polled {
                    return Err(Fault::OutOfTurn);
                }
                if ticks_left <= 1 {
                    let (next, sends) = Pump::seek(self.philosopher);
                    *self = next;
                    Ok(sends)
                } else {
                    self.phase = Phase::Thinking { ticks_left: ticks_left - 1, polled: false };
                    Ok(Vec::new())
                }
            },
            _ => Err(Fault::OutOfTurn),
        }
    }

    fn on_received(&mut self, byte: u8) -> (sent: Result<Vec<Outgoing>, Fault>)
        ensures
            Pump::stepped(*old(self), Event::Received(byte), 0, *final(self), sent),
    {
        match self.phase {
            Phase::Hungry { awaiting } => {
                match Message::from_u8(byte) {
                    Err(error) => Err(Fault::Protocol(error)),
                    Ok(msg) => {
                        let mut philosopher = self.philosopher;
                        let reply = philosopher.dispatch(&msg);
                        if msg.is_give_msg() && msg.side.opposite() == awaiting {
                            let (next, sends) = Pump::seek(philosopher);
                            *self = next;
                            Ok(sends)
                        } else {
                            let mut sends: Vec<Outgoing> = Vec::new();
                            if let Some(outgoing) = reply {
                                sends.push(outgoing);
                            }
                            self.philosopher = philosopher;
                            Ok(sends)
                        }
                    },
                }
            },
            _ => Err(Fault::OutOfTurn),
        }
    }

    fn on_eaten(&mut self, ticks: u32) -> (sent: Result<Vec<Outgoing>, Fault>)
        ensures
            Pump::stepped(*old(self), Event::Eaten, ticks, *final(self), sent),
    {
        match self.phase {
            Phase::Eating => {
                let mut philosopher = self.philosopher;
                philosopher.eat();
                let mut sends = philosopher.respond_to_existing_requests();
                let (next, mut requests) = Pump::start_with(philosopher, ticks);
                sends.append(&mut requests);
                *self = next;
                Ok(sends)
            },
            _ => Err(Fault::OutOfTurn),
        }
    }

    /// Takes one step on `event`, where `ticks` is the thinking time to
    /// begin if the step ends a meal. Returns the bytes to send, in order.
    /// An event that was not expected, or a byte that is no message, is
    /// refused and changes nothing.
    pub fn step_with(&mut self, event: Event, ticks: u32) -> (sent: Result<Vec<Outgoing>, Fault>)
        ensures
            Pump::stepped(*old(self), event, ticks, *final(self), sent),
            old(self).coherent() ==> final(self).coherent(),
    {
        match event {
            Event::Polled(arrived) => self.on_polled(arrived),
            Event::Slept => self.on_slept(),
            Event::Received(byte) => self.on_received(byte),
            Event::Eaten => self.on_eaten(ticks),
        }
    }

    /// Takes one step on `event`. Where the step ends a meal, the thinking
    /// time that begins is drawn at random between `THINKING_TICKS_MIN`
    /// and `THINKING_TICKS_MAX` ticks: the step is `step_with` for one of
    /// those values.
    pub fn step(&mut self, event: Event) -> (sent: Result<Vec<Outgoing>, Fault>)
        ensures
            exists|ticks: u32|
                THINKING_TICKS_MIN <= ticks <= THINKING_TICKS_MAX && #[trigger] Pump::stepped(
                    *old(self),
                    event,
                    ticks,
                    *final(self),
                    sent,
                ),
            old(self).coherent() ==> final(self).coherent(),
    {
        let ticks = match event {
            Event::Eaten => random_between(THINKING_TICKS_MIN, THINKING_TICKS_MAX),
            _ => THINKING_TICKS_MIN,
        };
        self.step_with(event, ticks)
    }
}

/// Every step keeps the place in the cycle in agreement with the forks.
pub proof fn lemma_step_coherent(pump: Pump, event: Event, ticks: u32)
    requires
        pump.coherent(),
    ensures
        pump.step_result(event, ticks) matches Ok((next, sends)) ==> next.coherent(),
{
}

/// Draws a number with `rand::Rng::random_range` from the thread's
/// generator `rand::rng()`, over the inclusive range from `low` to `high`.
/// The call panics on an empty range, which `requires` rules out. All
/// that is claimed of the result is that it lies in the range; two draws
/// need not agree. The generator seeds itself from the operating system
/// on first use in a thread and panics if that fails; nothing here rules
/// that out.
#[verifier::external_body]
fn random_between(low: u32, high: u32) -> (drawn: u32)
    requires
        low <= high,
    ensures
        low <= drawn <= high,
{
    rand::rng().random_range(low..=high)
}

} // verus!
