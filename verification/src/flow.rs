//! Counting the bytes in flight: how a step of the ring changes the number
//! of each message in each channel.

use vstd::prelude::*;
use crate::fork::ForkState;
use crate::message::{Kind, Message, Side};
use crate::philosopher::{Outgoing, Philosopher};
use crate::pump::{as_sends, Event, Phase, Pump};
use crate::ring::{arrival, bytes_for, step, Ring};

verus! {

/// The number of times that `byte` occurs in `bytes`.
pub open spec fn tally(bytes: Seq<u8>, byte: u8) -> nat
    decreases bytes.len(),
{
    if bytes.len() == 0 {
        0
    } else {
        tally(bytes.drop_last(), byte) + if bytes.last() == byte {
            1nat
        } else {
            0nat
        }
    }
}

/// Appending a byte adds one to its tally and leaves the others.
pub proof fn lemma_tally_push(bytes: Seq<u8>, last: u8, byte: u8)
    ensures
        tally(bytes.push(last), byte) == tally(bytes, byte) + if last == byte {
            1nat
        } else {
            0nat
        },
{
    assert(bytes.push(last).drop_last() =~= bytes);
}

/// The tally of a concatenation is the sum of the tallies.
pub proof fn lemma_tally_concat(front: Seq<u8>, back: Seq<u8>, byte: u8)
    ensures
        tally(front + back, byte) == tally(front, byte) + tally(back, byte),
    decreases back.len(),
{
    if back.len() == 0 {
        assert(front + back =~= front);
    } else {
        assert((front + back).drop_last() =~= front + back.drop_last());
        lemma_tally_concat(front, back.drop_last(), byte);
    }
}

/// Taking the head takes one from its tally and leaves the others.
pub proof fn lemma_tally_drop_first(bytes: Seq<u8>, byte: u8)
    requires
        bytes.len() > 0,
    ensures
        tally(bytes, byte) == tally(bytes.drop_first(), byte) + if bytes.first() == byte {
            1nat
        } else {
            0nat
        },
{
    let head = Seq::<u8>::empty().push(bytes.first());
    assert(head + bytes.drop_first() =~= bytes);
    lemma_tally_concat(head, bytes.drop_first(), byte);
    lemma_tally_push(Seq::<u8>::empty(), bytes.first(), byte);
}

/// The bytes for one receiver among a concatenation are those among the
/// front followed by those among the back.
pub proof fn lemma_bytes_for_concat(front: Seq<Outgoing>, back: Seq<Outgoing>, to: int)
    ensures
        bytes_for(front + back, to) == bytes_for(front, to) + bytes_for(back, to),
    decreases back.len(),
{
    if back.len() == 0 {
        assert(front + back =~= front);
        assert(bytes_for(front, to) + bytes_for(back, to) =~= bytes_for(front, to));
    } else {
        assert((front + back).drop_last() =~= front + back.drop_last());
        lemma_bytes_for_concat(front, back.drop_last(), to);
        if back.last().to == to {
            assert(bytes_for(front, to) + bytes_for(back.drop_last(), to).push(back.last().byte)
                =~= (bytes_for(front, to) + bytes_for(back.drop_last(), to)).push(
                back.last().byte,
            ));
        }
    }
}

/// How often `byte` goes to the process of rank `to` among `sends`.
pub open spec fn emitted(sends: Seq<Outgoing>, to: int, byte: u8) -> nat {
    tally(bytes_for(sends, to), byte)
}

/// A single send emits its byte once to its receiver and nothing else.
pub proof fn lemma_emitted_one(outgoing: Outgoing, to: int, byte: u8)
    ensures
        emitted(seq![outgoing], to, byte) == if outgoing.to == to && outgoing.byte == byte {
            1nat
        } else {
            0nat
        },
{
    let sends = seq![outgoing];
    assert(sends.drop_last() =~= Seq::<Outgoing>::empty());
    assert(bytes_for(sends.drop_last(), to) =~= Seq::<u8>::empty());
    if outgoing.to == to {
        lemma_tally_push(Seq::<u8>::empty(), outgoing.byte, byte);
    }
}

/// What a concatenation emits is the sum of what its parts emit.
pub proof fn lemma_emitted_concat(front: Seq<Outgoing>, back: Seq<Outgoing>, to: int, byte: u8)
    ensures
        emitted(front + back, to, byte) == emitted(front, to, byte) + emitted(back, to, byte),
{
    lemma_bytes_for_concat(front, back, to);
    lemma_tally_concat(bytes_for(front, to), bytes_for(back, to), byte);
}

/// 1 for true and 0 for false.
pub open spec fn unit(yes: bool) -> nat {
    if yes {
        1
    } else {
        0
    }
}

/// Whether a step of a process from `pre` to `post` on `event` gives the
/// fork on `side` away.
pub open spec fn gives(pre: Pump, event: Event, post: Pump, side: Side) -> bool {
    !post.philosopher.fork(side).held() && (event is Eaten || pre.philosopher.fork(side).state
        == ForkState::Dirty)
}

/// Whether a step of a process from `pre` to `post` begins to wait for the
/// fork on `side`.
pub open spec fn asks(pre: Pump, post: Pump, side: Side) -> bool {
    post.phase == (Phase::Hungry { awaiting: side }) && pre.phase != post.phase
}

/// Whether a step of a process from `pre` to `post` on `event` sends
/// `byte` to the process of rank `to`: a grant for each fork that it
/// gives and a request for the fork that it begins to wait for, each to
/// the neighbour on the side of the fork.
pub open spec fn emits(pre: Pump, event: Event, post: Pump, to: int, byte: u8) -> bool {
    Message::parse(byte) matches Some(msg) && to == pre.philosopher.neighbour(msg.side) && match msg.kind {
        Kind::Grant => gives(pre, event, post, msg.side),
        Kind::Request => asks(pre, post, msg.side),
    }
}

/// What one step of a process does to its fork on `side`, in numbers: the
/// fork is held afterwards if it was held and not given, or if a grant
/// brought it; the process waits for it afterwards if it waited and no
/// grant came, or if it began to wait; a request is noted afterwards if
/// one was noted or came, and the fork was not given. Only a meal makes a
/// fork dirty, and a dirty fork stays dirty until it is given.
pub open spec fn fork_law(pre: Pump, event: Event, post: Pump, side: Side) -> bool {
    let before = pre.philosopher.fork(side);
    let after = post.philosopher.fork(side);
    let grant = arrival(event) == Some((Message { kind: Kind::Grant, side: side.flip() }).wire());
    let request = arrival(event) == Some(
        (Message { kind: Kind::Request, side: side.flip() }).wire(),
    );
    let gave = gives(pre, event, post, side);
    let asked = asks(pre, post, side);
    let waited = pre.phase == (Phase::Hungry { awaiting: side });
    let waits = post.phase == (Phase::Hungry { awaiting: side });
    &&& post.philosopher.neighbour(side) == pre.philosopher.neighbour(side)
    &&& !(grant && before.held()) ==> unit(after.held()) + unit(gave) == unit(before.held()) + unit(
        grant,
    )
    &&& (grant ==> waited) ==> unit(waits) + unit(grant) == unit(waited) + unit(asked)
    &&& !(request && before.request_pending) ==> unit(after.request_pending) + unit(gave) == unit(
        before.request_pending,
    ) + unit(request)
    &&& grant ==> after.state == ForkState::Clean
    &&& !(event is Eaten) && before.state == ForkState::Clean ==> after.state == ForkState::Clean
    &&& !(event is Eaten) && !grant && before.state == ForkState::Dirty ==> after.state
        == ForkState::Dirty || gave
    &&& event is Eaten ==> after.state == ForkState::Dirty || gave
}

/// Every step of a coherent process obeys the law of the fork, on either
/// side.
pub proof fn lemma_step_fork(pump: Pump, event: Event, ticks: u32, side: Side)
    requires
        pump.coherent(),
        pump.step_result(event, ticks) is Ok,
    ensures
        pump.step_result(event, ticks) matches Ok((post, sends)) && fork_law(
            pump,
            event,
            post,
            side,
        ),
{
}

/// What a process that stops thinking sends: the request for the fork
/// that it begins to wait for, if it waits for one.
pub proof fn lemma_seeking_emits(philosopher: Philosopher, to: int, byte: u8)
    ensures
        emitted(Pump::seeking(philosopher).1, to, byte) == unit(
            Message::parse(byte) matches Some(msg) && msg.kind == Kind::Request
                && philosopher.first_missing() == Some(msg.side) && to == philosopher.neighbour(
                msg.side,
            ),
        ),
{
    match philosopher.first_missing() {
        Some(side) => lemma_emitted_one(philosopher.outgoing(Kind::Request, side), to, byte),
        None => {},
    }
}

/// What the handling of one message sends: the grant for the fork that it
/// gives, if it gives one.
proof fn lemma_message_emits(philosopher: Philosopher, msg: Message, to: int, byte: u8)
    ensures
        emitted(as_sends(philosopher.after_message(msg).1), to, byte) == unit(
            Message::parse(byte) matches Some(sent) && sent.kind == Kind::Grant && msg.kind
                == Kind::Request && sent.side == msg.side.flip() && philosopher.fork(
                sent.side,
            ).state == ForkState::Dirty && to == philosopher.neighbour(sent.side),
        ),
{
    match philosopher.after_message(msg).1 {
        Some(outgoing) => lemma_emitted_one(outgoing, to, byte),
        None => {},
    }
}

/// What a process sends in a step, byte by byte and receiver by receiver.
pub proof fn lemma_step_emits(pump: Pump, event: Event, ticks: u32, to: int, byte: u8)
    requires
        pump.step_result(event, ticks) is Ok,
    ensures
        pump.step_result(event, ticks) matches Ok((post, sends)) && emitted(sends, to, byte)
            == unit(emits(pump, event, post, to, byte)),
{
    let (post, sends) = pump.step_result(event, ticks)->Ok_0;
    let philosopher = pump.philosopher;
    match event {
        Event::Polled(arrived) => {
            match arrived {
                Some(arrived_byte) => {
                    let msg = Message::parse(arrived_byte)->Some_0;
                    lemma_message_emits(philosopher, msg, to, byte);
                },
                None => {},
            }
        },
        Event::Slept => {
            lemma_seeking_emits(philosopher, to, byte);
        },
        Event::Received(arrived_byte) => {
            let msg = Message::parse(arrived_byte)->Some_0;
            lemma_message_emits(philosopher, msg, to, byte);
            lemma_seeking_emits(philosopher.after_message(msg).0, to, byte);
        },
        Event::Eaten => {
            let fed = philosopher.after_meal();
            let left = if fed.owes(Side::Left) {
                seq![fed.outgoing(Kind::Grant, Side::Left)]
            } else {
                Seq::empty()
            };
            let right = if fed.owes(Side::Right) {
                seq![fed.outgoing(Kind::Grant, Side::Right)]
            } else {
                Seq::empty()
            };
            let requests = Pump::thinking_for(fed.after_serving(), ticks).1;
            lemma_emitted_concat(left + right, requests, to, byte);
            lemma_emitted_concat(left, right, to, byte);
            if fed.owes(Side::Left) {
                lemma_emitted_one(fed.outgoing(Kind::Grant, Side::Left), to, byte);
            }
            if fed.owes(Side::Right) {
                lemma_emitted_one(fed.outgoing(Kind::Grant, Side::Right), to, byte);
            }
            lemma_seeking_emits(fed.after_serving(), to, byte);
        },
    }
}

/// The tally of each byte in each channel after a step: what was there,
/// less the byte taken, plus what the stepping process emitted.
pub proof fn lemma_step_tally(
    pre: Ring,
    post: Ring,
    rank: int,
    from: int,
    event: Event,
    ticks: u32,
    a: int,
    b: int,
    byte: u8,
)
    requires
        step(pre, post, rank, from, event, ticks),
    ensures
        pre.pumps[rank].step_result(event, ticks) matches Ok((pump, sends)) && tally(
            post.channel(a, b),
            byte,
        ) + (if arrival(event) == Some(byte) && a == from && b == rank {
            1nat
        } else {
            0nat
        }) == tally(pre.channel(a, b), byte) + (if a == rank {
            emitted(sends, b, byte)
        } else {
            0nat
        }),
{
    let (pump, sends) = pre.pumps[rank].step_result(event, ticks)->Ok_0;
    assert(post.channel(a, b) == pre.onward(rank, from, event, sends, a, b));
    let kept = if arrival(event) is Some && a == from && b == rank {
        pre.channel(a, b).drop_first()
    } else {
        pre.channel(a, b)
    };
    if arrival(event) is Some && a == from && b == rank {
        lemma_tally_drop_first(pre.channel(a, b), byte);
    }
    if a == rank {
        lemma_tally_concat(kept, bytes_for(sends, b), byte);
    }
}

/// The tally of each byte in each channel after a step, with what was
/// sent read off the two states of the stepping process.
pub proof fn lemma_step_flow(
    pre: Ring,
    post: Ring,
    rank: int,
    from: int,
    event: Event,
    ticks: u32,
    a: int,
    b: int,
    byte: u8,
)
    requires
        step(pre, post, rank, from, event, ticks),
    ensures
        tally(post.channel(a, b), byte) + unit(
            arrival(event) == Some(byte) && a == from && b == rank,
        ) == tally(pre.channel(a, b), byte) + unit(
            a == rank && emits(pre.pumps[rank], event, post.pumps[rank], b, byte),
        ),
{
    lemma_step_tally(pre, post, rank, from, event, ticks, a, b, byte);
    lemma_step_emits(pre.pumps[rank], event, ticks, b, byte);
}

} // verus!
