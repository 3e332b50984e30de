//! Mutual exclusion: no fork is ever held on both of its sides, and no two
//! neighbours ever eat at once.

use vstd::prelude::*;
use crate::message::Side;
use crate::ring::{is_execution, reachable, Ring};
use crate::safety::{
    beside, copies, fork_at, lemma_execution_safe, lemma_reachable_safe, safe,
};
use crate::philosopher::lemma_neighbours_inverse;

verus! {

/// Whether no fork of the ring is held on both of its sides: for every
/// process and side, the fork there and the same fork as the neighbour
/// sees it are not both held.
pub open spec fn mutually_exclusive(ring: Ring) -> bool {
    forall|rank: int, side: Side|
        0 <= rank < ring.size() ==> !((#[trigger] fork_at(ring, rank, side)).held() && fork_at(
            ring,
            beside(ring.size(), rank, side),
            side.flip(),
        ).held())
}

/// Whether no two neighbours eat at once.
pub open spec fn meals_apart(ring: Ring) -> bool {
    forall|rank: int, side: Side|
        0 <= rank < ring.size() && ring.pumps[rank].phase is Eating ==> !(ring.pumps[#[trigger] beside(
            ring.size(),
            rank,
            side,
        )].phase is Eating)
}

/// In a safe ring a fork is not held on both sides, and two processes
/// that share a fork do not both eat.
proof fn lemma_fork_exclusive(ring: Ring, rank: int, side: Side)
    requires
        safe(ring),
        0 <= rank < ring.size(),
    ensures
        !(fork_at(ring, rank, side).held() && fork_at(
            ring,
            beside(ring.size(), rank, side),
            side.flip(),
        ).held()),
        !(ring.pumps[rank].phase is Eating && ring.pumps[beside(
            ring.size(),
            rank,
            side,
        )].phase is Eating),
{
    let other = beside(ring.size(), rank, side);
    lemma_neighbours_inverse(ring.size(), rank);
    assert(copies(ring, rank, side) == 1);
    assert(ring.pumps[rank].coherent());
    assert(ring.pumps[other].coherent());
}

/// In a safe ring no fork is held on both sides and no two neighbours eat
/// at once.
pub proof fn lemma_safe_exclusive(ring: Ring)
    requires
        safe(ring),
    ensures
        mutually_exclusive(ring),
        meals_apart(ring),
{
    assert forall|rank: int, side: Side| 0 <= rank < ring.size() implies !((#[trigger] fork_at(
        ring,
        rank,
        side,
    )).held() && fork_at(ring, beside(ring.size(), rank, side), side.flip()).held()) by {
        lemma_fork_exclusive(ring, rank, side);
    }
    assert forall|rank: int, side: Side|
        0 <= rank < ring.size() && ring.pumps[rank].phase is Eating implies !(ring.pumps[#[trigger] beside(
        ring.size(),
        rank,
        side,
    )].phase is Eating) by {
        lemma_fork_exclusive(ring, rank, side);
    }
}

/// Mutual exclusion: in every state that a ring can reach, no fork is
/// held on both of its sides, and no two neighbours eat at once.
pub proof fn theorem_mutual_exclusion(size: int, ring: Ring)
    requires
        reachable(size, ring),
    ensures
        mutually_exclusive(ring),
        meals_apart(ring),
{
    lemma_reachable_safe(size, ring);
    lemma_safe_exclusive(ring);
}

/// Mutual exclusion holds at the start of a run and after every step of
/// it.
pub proof fn theorem_mutual_exclusion_throughout(size: int, trace: Seq<Ring>)
    requires
        is_execution(size, trace),
    ensures
        forall|index: int|
            0 <= index < trace.len() ==> mutually_exclusive(#[trigger] trace[index]) && meals_apart(
                trace[index],
            ),
{
    assert forall|index: int| 0 <= index < trace.len() implies mutually_exclusive(
        #[trigger] trace[index],
    ) && meals_apart(trace[index]) by {
        lemma_execution_safe(size, trace, index);
        lemma_safe_exclusive(trace[index]);
    }
}

} // verus!
