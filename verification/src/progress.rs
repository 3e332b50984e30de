//! Freedom from deadlock: a ring that can be reached is never stuck.
//!
//! A process that thinks or eats can always go on. A hungry process can go
//! on when a byte is in flight to it. So a ring is stuck only when every
//! process is hungry and every channel is empty, and then every process
//! waits for a fork that its neighbour holds clean. Round the ring that
//! is a cycle of precedence, which no reachable state has.

use vstd::prelude::*;
use crate::fork::ForkState;
use crate::message::{Message, Side};
use crate::philosopher::lemma_neighbours_inverse;
use crate::pump::{Event, Phase};
use crate::flow::{lemma_tally_drop_first, tally};
use crate::ring::{next, reachable, step, Ring};
use crate::safety::{
    asking, awaited, beside, copies, fork_at, lemma_reachable_safe, safe, yields,
};

verus! {

/// Whether the process `rank` cannot take a step: it is hungry and no
/// byte is in flight to it.
pub open spec fn stuck(ring: Ring, rank: int) -> bool {
    &&& ring.pumps[rank].phase is Hungry
    &&& forall|from: int|
        0 <= from < ring.size() ==> (#[trigger] ring.channel(from, rank)).len() == 0
}

/// Whether no process of the ring can take a step.
pub open spec fn deadlocked(ring: Ring) -> bool {
    forall|rank: int| 0 <= rank < ring.size() ==> #[trigger] stuck(ring, rank)
}

/// In a deadlocked ring, the fork that a process waits for is held clean
/// by its neighbour, who therefore waits for the fork on its far side.
proof fn lemma_waiting_spreads(ring: Ring, rank: int, side: Side)
    requires
        safe(ring),
        deadlocked(ring),
        0 <= rank < ring.size(),
        awaited(ring, rank, side),
    ensures
        fork_at(ring, beside(ring.size(), rank, side), side.flip()).state == ForkState::Clean,
        awaited(ring, beside(ring.size(), rank, side), side),
{
    let size = ring.size();
    let other = beside(size, rank, side);
    lemma_neighbours_inverse(size, rank);
    assert(stuck(ring, rank));
    assert(stuck(ring, other));
    assert(ring.channel(other, rank).len() == 0);
    assert(ring.channel(rank, other).len() == 0);
    assert(asking(ring, rank, side) == 1);
    assert(copies(ring, rank, side) == 1);
    assert(ring.pumps[rank].coherent());
    assert(ring.pumps[other].coherent());
}

/// In a deadlocked ring, a process that comes after its neighbour on
/// `side` does not hold their fork dirty, so the neighbour holds it, and
/// the neighbour waits for the fork on its far side.
proof fn lemma_yielding_spreads(ring: Ring, rank: int, side: Side)
    requires
        safe(ring),
        deadlocked(ring),
        0 <= rank < ring.size(),
        yields(ring, rank, side),
    ensures
        awaited(ring, beside(ring.size(), rank, side), side),
{
    let size = ring.size();
    let other = beside(size, rank, side);
    lemma_neighbours_inverse(size, rank);
    assert(stuck(ring, rank));
    assert(stuck(ring, other));
    assert(ring.channel(other, rank).len() == 0);
    assert(ring.channel(rank, other).len() == 0);
    assert(copies(ring, rank, side) == 1);
    if awaited(ring, other, side.flip()) {
        lemma_waiting_spreads(ring, other, side.flip());
        assert(!fork_at(ring, other, side.flip()).held());
    }
}

/// In a deadlocked ring, if `high` waits for its right fork, so does
/// every process of lower rank.
proof fn lemma_waiting_right_below(ring: Ring, high: int, low: int)
    requires
        safe(ring),
        deadlocked(ring),
        0 <= low <= high < ring.size(),
        awaited(ring, high, Side::Right),
    ensures
        awaited(ring, low, Side::Right),
    decreases high - low,
{
    if low < high {
        lemma_waiting_right_below(ring, high, low + 1);
        lemma_waiting_spreads(ring, low + 1, Side::Right);
    }
}

/// In a deadlocked ring, if one process waits for its right fork, all do.
proof fn lemma_waiting_right_everywhere(ring: Ring, rank: int, other: int)
    requires
        safe(ring),
        deadlocked(ring),
        0 <= rank < ring.size(),
        0 <= other < ring.size(),
        awaited(ring, rank, Side::Right),
    ensures
        awaited(ring, other, Side::Right),
{
    lemma_waiting_right_below(ring, rank, 0);
    lemma_waiting_spreads(ring, 0, Side::Right);
    lemma_waiting_right_below(ring, ring.size() - 1, other);
}

/// A safe ring is not deadlocked.
pub proof fn lemma_safe_not_deadlocked(ring: Ring)
    requires
        safe(ring),
    ensures
        !deadlocked(ring),
{
    if deadlocked(ring) {
        let size = ring.size();
        let below = choose|a: int| 0 <= a < ring.size() && #[trigger] yields(ring, a, Side::Left);
        let above = choose|a: int| 0 <= a < ring.size() && #[trigger] yields(ring, a, Side::Right);
        lemma_neighbours_inverse(size, below);
        lemma_neighbours_inverse(size, above);
        lemma_yielding_spreads(ring, below, Side::Left);
        lemma_yielding_spreads(ring, above, Side::Right);
        lemma_waiting_right_everywhere(
            ring,
            beside(size, above, Side::Right),
            beside(size, below, Side::Left),
        );
    }
}

/// A process of a safe ring that is not stuck can take a step.
pub proof fn lemma_unstuck_steps(ring: Ring, rank: int)
    requires
        safe(ring),
        0 <= rank < ring.size(),
        !stuck(ring, rank),
    ensures
        exists|post: Ring, from: int, event: Event, ticks: u32|
            step(ring, post, rank, from, event, ticks),
{
    let pump = ring.pumps[rank];
    match pump.phase {
        Phase::Thinking { ticks_left, polled } => {
            let event = if polled {
                Event::Slept
            } else {
                Event::Polled(None)
            };
            let (after, sends) = pump.step_result(event, 0)->Ok_0;
            let post = ring.after(rank, 0, event, after, sends);
            assert(step(ring, post, rank, 0, event, 0));
        },
        Phase::Hungry { awaiting } => {
            let from = choose|from: int|
                0 <= from < ring.size() && (#[trigger] ring.channel(from, rank)).len() != 0;
            let byte = ring.channel(from, rank).first();
            lemma_tally_drop_first(ring.channel(from, rank), byte);
            assert(tally(ring.channel(from, rank), byte) > 0);
            assert(Message::parse(byte) is Some);
            let event = Event::Received(byte);
            let (after, sends) = pump.step_result(event, 0)->Ok_0;
            let post = ring.after(rank, from, event, after, sends);
            assert(step(ring, post, rank, from, event, 0));
        },
        Phase::Eating => {
            let event = Event::Eaten;
            let (after, sends) = pump.step_result(event, 0)->Ok_0;
            let post = ring.after(rank, 0, event, after, sends);
            assert(step(ring, post, rank, 0, event, 0));
        },
    }
}

/// Freedom from deadlock: in every state that a ring can reach, some
/// process is not stuck, and the ring can take a step. This holds whether
/// or not a process is hungry; a ring without a hungry process has
/// nobody who could be stuck.
pub proof fn theorem_deadlock_freedom(size: int, ring: Ring)
    requires
        reachable(size, ring),
    ensures
        exists|rank: int| 0 <= rank < size && !#[trigger] stuck(ring, rank),
        exists|post: Ring| next(ring, post),
{
    lemma_reachable_safe(size, ring);
    lemma_safe_not_deadlocked(ring);
    let rank = choose|rank: int| 0 <= rank < ring.size() && !#[trigger] stuck(ring, rank);
    lemma_unstuck_steps(ring, rank);
    let (post, from, event, ticks) = choose|post: Ring, from: int, event: Event, ticks: u32|
        step(ring, post, rank, from, event, ticks);
    assert(next(ring, post));
}

} // verus!
