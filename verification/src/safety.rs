//! What holds of every state that a ring can reach: the forks and the
//! requests are each at one place, every process is coherent, and
//! precedence does not run round the ring.

use vstd::prelude::*;
use crate::fork::{Fork, ForkState};
use crate::message::{Kind, Message, Side};
use crate::philosopher::{left_of, lemma_neighbours_inverse, right_of, Philosopher};
use crate::pump::{Event, Phase, Pump, Wait};
use crate::upkeep::{
    lemma_step_answered, lemma_step_basics, lemma_step_coherent_all, lemma_step_exclusive,
    lemma_step_ordered, lemma_step_routed, lemma_step_wired,
};
use crate::flow::{lemma_seeking_emits, lemma_tally_drop_first, tally, unit};
use crate::ring::{
    advances, arrival, begun_with, bytes_for, is_execution, is_initial, reachable, step, Ring,
};

verus! {

/// The rank of the neighbour of `rank` on `side`.
pub open spec fn beside(size: int, rank: int, side: Side) -> int {
    match side {
        Side::Left => left_of(size, rank),
        Side::Right => right_of(size, rank),
    }
}

/// The fork of the process `rank` on `side`.
pub open spec fn fork_at(ring: Ring, rank: int, side: Side) -> Fork {
    ring.pumps[rank].philosopher.fork(side)
}

/// The number of messages of the given kind and side in flight from
/// `from` to `to`.
pub open spec fn in_flight(ring: Ring, from: int, to: int, kind: Kind, side: Side) -> nat {
    tally(ring.channel(from, to), (Message { kind, side }).wire())
}

/// Every process knows its neighbours: the ranks next to its own.
pub open spec fn wired(ring: Ring) -> bool {
    &&& 2 <= ring.size() <= i32::MAX
    &&& forall|rank: int, side: Side|
        0 <= rank < ring.size() ==> #[trigger] ring.pumps[rank].philosopher.neighbour(side)
            == beside(ring.size(), rank, side)
}

/// Every byte in flight is a message, sent by a process of the ring to its
/// neighbour on the side that the message names.
pub open spec fn routed(ring: Ring) -> bool {
    forall|from: int, to: int, byte: u8| #[trigger]
        tally(ring.channel(from, to), byte) > 0 ==> {
            &&& 0 <= from < ring.size()
            &&& Message::parse(byte) matches Some(msg)
            &&& to == beside(ring.size(), from, msg.side)
        }
}

/// The number of places at which the fork that `rank` has on `side` is at
/// once: held by `rank`, held by the neighbour, or in flight as a grant
/// one way or the other.
pub open spec fn copies(ring: Ring, rank: int, side: Side) -> nat {
    let other = beside(ring.size(), rank, side);
    unit(fork_at(ring, rank, side).held()) + unit(fork_at(ring, other, side.flip()).held())
        + in_flight(ring, rank, other, Kind::Grant, side) + in_flight(
        ring,
        other,
        rank,
        Kind::Grant,
        side.flip(),
    )
}

/// Every fork is at exactly one place.
pub open spec fn exclusive(ring: Ring) -> bool {
    forall|rank: int, side: Side|
        0 <= rank < ring.size() ==> #[trigger] copies(ring, rank, side) == 1
}

/// Every process is coherent: its place in the cycle agrees with its
/// forks.
pub open spec fn all_coherent(ring: Ring) -> bool {
    forall|rank: int| 0 <= rank < ring.size() ==> (#[trigger] ring.pumps[rank]).coherent()
}

/// Whether `rank` is hungry and waits for its fork on `side`.
pub open spec fn awaited(ring: Ring, rank: int, side: Side) -> bool {
    ring.pumps[rank].phase == (Phase::Hungry { awaiting: side })
}

/// The number of places at which the request of `rank` for its fork on
/// `side` stands: in flight to the neighbour, noted there, or answered by
/// a grant in flight back.
pub open spec fn asking(ring: Ring, rank: int, side: Side) -> nat {
    let other = beside(ring.size(), rank, side);
    in_flight(ring, rank, other, Kind::Request, side) + unit(
        fork_at(ring, other, side.flip()).request_pending,
    ) + in_flight(ring, other, rank, Kind::Grant, side.flip())
}

/// A request stands at exactly one place while its sender waits for the
/// fork, and nowhere otherwise.
pub open spec fn answered(ring: Ring) -> bool {
    forall|rank: int, side: Side|
        0 <= rank < ring.size() ==> #[trigger] asking(ring, rank, side) == unit(
            awaited(ring, rank, side),
        )
}

/// Whether `rank` comes after its neighbour on `side` in the order of
/// precedence: `rank` holds their fork dirty, or the neighbour holds it
/// clean, or it is in flight from `rank` to the neighbour.
pub open spec fn yields(ring: Ring, rank: int, side: Side) -> bool {
    let other = beside(ring.size(), rank, side);
    ||| fork_at(ring, rank, side).state == ForkState::Dirty
    ||| fork_at(ring, other, side.flip()).state == ForkState::Clean
    ||| in_flight(ring, rank, other, Kind::Grant, side) > 0
}

/// Precedence does not run round the ring: some process comes after its
/// left neighbour and some process comes after its right neighbour.
pub open spec fn ordered(ring: Ring) -> bool {
    &&& exists|rank: int| 0 <= rank < ring.size() && #[trigger] yields(ring, rank, Side::Left)
    &&& exists|rank: int| 0 <= rank < ring.size() && #[trigger] yields(ring, rank, Side::Right)
}

/// What holds of every reachable state: a ring of which all this holds is
/// called safe.
pub open spec fn safe(ring: Ring) -> bool {
    &&& wired(ring)
    &&& routed(ring)
    &&& all_coherent(ring)
    &&& exclusive(ring)
    &&& answered(ring)
    &&& ordered(ring)
}

/// What is in flight at the start: the request of each process that had
/// no tick to think and lacks a fork, for its first absent fork.
proof fn lemma_initial_flow(size: int, ring: Ring, ticks: Seq<u32>, from: int, to: int, byte: u8)
    requires
        2 <= size <= i32::MAX,
        ring.pumps.len() == size,
        begun_with(size, ring, ticks),
    ensures
        tally(ring.channel(from, to), byte) == unit(
            0 <= from < size && (Message::parse(byte) matches Some(msg) && msg.kind
                == Kind::Request && awaited(ring, from, msg.side) && to == beside(
                size,
                from,
                msg.side,
            )),
        ),
{
    if 0 <= from < size {
        let philosopher = Philosopher::initial(size, from);
        lemma_neighbours_inverse(size, from);
        assert(ring.pumps[from] == Pump::thinking_for(philosopher, ticks[from]).0);
        assert(ring.channel(from, to) == bytes_for(
            Pump::thinking_for(philosopher, ticks[from]).1,
            to,
        ));
        lemma_seeking_emits(philosopher, to, byte);
    } else {
        assert(ring.channel(from, to).len() == 0);
    }
}

/// At the start every fork is at one place, and a request stands for each
/// process that waits.
proof fn lemma_initial_counts(size: int, ring: Ring, ticks: Seq<u32>, rank: int, side: Side)
    requires
        2 <= size <= i32::MAX,
        ring.pumps.len() == size,
        begun_with(size, ring, ticks),
        0 <= rank < size,
    ensures
        copies(ring, rank, side) == 1,
        asking(ring, rank, side) == unit(awaited(ring, rank, side)),
{
    lemma_neighbours_inverse(size, rank);
    let other = beside(size, rank, side);
    assert(ring.pumps[rank] == Pump::thinking_for(Philosopher::initial(size, rank), ticks[rank]).0);
    assert(ring.pumps[other] == Pump::thinking_for(
        Philosopher::initial(size, other),
        ticks[other],
    ).0);
    lemma_initial_flow(size, ring, ticks, rank, other, (Message { kind: Kind::Grant, side }).wire());
    lemma_initial_flow(
        size,
        ring,
        ticks,
        other,
        rank,
        (Message { kind: Kind::Grant, side: side.flip() }).wire(),
    );
    lemma_initial_flow(size, ring, ticks, rank, other, (Message { kind: Kind::Request, side }).wire());
}

/// A ring at its start is safe.
pub proof fn lemma_initial_safe(size: int, ring: Ring)
    requires
        is_initial(size, ring),
    ensures
        safe(ring),
        ring.size() == size,
{
    let ticks = choose|ticks: Seq<u32>| begun_with(size, ring, ticks);
    assert forall|rank: int, side: Side| 0 <= rank < ring.size() implies #[trigger]
        ring.pumps[rank].philosopher.neighbour(side) == beside(ring.size(), rank, side) by {
        lemma_neighbours_inverse(size, rank);
        assert(ring.pumps[rank] == Pump::thinking_for(Philosopher::initial(size, rank), ticks[rank]).0);
    }
    assert forall|from: int, to: int, byte: u8| #[trigger]
        tally(ring.channel(from, to), byte) > 0 implies {
        &&& 0 <= from < ring.size()
        &&& Message::parse(byte) matches Some(msg)
        &&& to == beside(ring.size(), from, msg.side)
    } by {
        lemma_initial_flow(size, ring, ticks, from, to, byte);
    }
    assert forall|rank: int, side: Side| 0 <= rank < ring.size() implies #[trigger] copies(
        ring,
        rank,
        side,
    ) == 1 by {
        lemma_initial_counts(size, ring, ticks, rank, side);
    }
    assert forall|rank: int, side: Side| 0 <= rank < ring.size() implies #[trigger] asking(
        ring,
        rank,
        side,
    ) == unit(awaited(ring, rank, side)) by {
        lemma_initial_counts(size, ring, ticks, rank, side);
    }
    assert forall|rank: int| 0 <= rank < ring.size() implies (#[trigger] ring.pumps[rank]).coherent() by {
        assert(ring.pumps[rank] == Pump::thinking_for(Philosopher::initial(size, rank), ticks[rank]).0);
    }
    assert(ring.pumps[0] == Pump::thinking_for(Philosopher::initial(size, 0), ticks[0]).0);
    assert(yields(ring, 0, Side::Left));
    assert(yields(ring, 0, Side::Right));
}

/// Every step of a safe ring leads to a safe ring of the same size.
pub proof fn lemma_step_safe(pre: Ring, post: Ring, rank: int, from: int, event: Event, ticks: u32)
    requires
        safe(pre),
        step(pre, post, rank, from, event, ticks),
    ensures
        safe(post),
        post.size() == pre.size(),
{
    lemma_step_basics(pre, post, rank, from, event, ticks);
    lemma_step_wired(pre, post, rank, from, event, ticks);
    lemma_step_routed(pre, post, rank, from, event, ticks);
    lemma_step_coherent_all(pre, post, rank, from, event, ticks);
    lemma_step_exclusive(pre, post, rank, from, event, ticks);
    lemma_step_answered(pre, post, rank, from, event, ticks);
    lemma_step_ordered(pre, post, rank, from, event, ticks);
}

/// Every state of a run is safe and has the size of the ring.
pub proof fn lemma_execution_safe(size: int, trace: Seq<Ring>, index: int)
    requires
        is_execution(size, trace),
        0 <= index < trace.len(),
    ensures
        safe(trace[index]),
        trace[index].size() == size,
    decreases index,
{
    if index == 0 {
        lemma_initial_safe(size, trace[0]);
    } else {
        lemma_execution_safe(size, trace, index - 1);
        assert(advances(trace, index - 1));
        let pre = trace[index - 1];
        let post = trace[index];
        let (rank, from, event, ticks) = choose|rank: int, from: int, event: Event, ticks: u32|
            step(pre, post, rank, from, event, ticks);
        lemma_step_safe(pre, post, rank, from, event, ticks);
    }
}

/// Every reachable state is safe and has the size of the ring.
pub proof fn lemma_reachable_safe(size: int, ring: Ring)
    requires
        reachable(size, ring),
    ensures
        safe(ring),
        ring.size() == size,
{
    let trace = choose|trace: Seq<Ring>|
        #[trigger] is_execution(size, trace) && trace.last() == ring;
    lemma_execution_safe(size, trace, trace.len() - 1);
}

/// Whether the ring can supply `event` to the process `rank` now: it is
/// the event that the process waits for, and the byte that it brings, if
/// any, is at the head of the channel from `from`.
pub open spec fn supplies(ring: Ring, rank: int, from: int, event: Event) -> bool {
    &&& match event {
        Event::Polled(arrived) => ring.pumps[rank].awaits() == Wait::Poll,
        Event::Slept => ring.pumps[rank].awaits() == Wait::Sleep,
        Event::Received(byte) => ring.pumps[rank].awaits() == Wait::Receive,
        Event::Eaten => ring.pumps[rank].awaits() == Wait::Eat,
    }
    &&& arrival(event) matches Some(byte) ==> ring.channel(from, rank).len() > 0
        && ring.channel(from, rank).first() == byte
}

/// No process of a reachable ring ever refuses a step: every byte that
/// arrives is a message, and an event that was waited for is in turn.
pub proof fn theorem_no_fault(size: int, ring: Ring, rank: int, from: int, event: Event, ticks: u32)
    requires
        reachable(size, ring),
        0 <= rank < size,
        supplies(ring, rank, from, event),
    ensures
        ring.pumps[rank].step_result(event, ticks) is Ok,
{
    lemma_reachable_safe(size, ring);
    match arrival(event) {
        Some(byte) => {
            lemma_tally_drop_first(ring.channel(from, rank), byte);
            assert(tally(ring.channel(from, rank), byte) > 0);
        },
        None => {},
    }
}

} // verus!
