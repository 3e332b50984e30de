//! A dirty fork is given as soon as it is asked for, and it reaches the
//! one who asked before the giver eats again. A request that had to wait
//! is settled when the meal ends.

use vstd::prelude::*;
use crate::fork::ForkState;
use crate::message::{Kind, Message, Side};
use crate::philosopher::lemma_neighbours_inverse;
use crate::pump::{Event, Pump};
use crate::flow::{emitted, lemma_step_emits, lemma_step_flow};
use crate::ring::{advances, is_execution, step, Ring};
use crate::safety::{beside, copies, fork_at, in_flight, lemma_execution_safe, safe};
use crate::upkeep::lemma_step_basics;

verus! {

/// Whether the step of `trace` at `index` takes a request for the fork
/// that `holder` has on `side`, sent by the neighbour on that side, and
/// finds the fork dirty.
pub open spec fn asked_while_dirty(
    size: int,
    trace: Seq<Ring>,
    index: int,
    holder: int,
    side: Side,
) -> bool {
    let asker = beside(size, holder, side);
    &&& fork_at(trace[index], holder, side).state == ForkState::Dirty
    &&& in_flight(trace[index + 1], asker, holder, Kind::Request, side.flip()) < in_flight(
        trace[index],
        asker,
        holder,
        Kind::Request,
        side.flip(),
    )
}

/// Whether the step of `trace` at `index` brings the process `rank` its
/// fork on `side`.
pub open spec fn acquires(trace: Seq<Ring>, index: int, rank: int, side: Side) -> bool {
    !fork_at(trace[index], rank, side).held() && fork_at(trace[index + 1], rank, side).held()
}

/// The end of a meal settles every noted request: the fork that was asked
/// for is absent afterwards and its grant is among the bytes sent, to the
/// neighbour on its side, and no request is left noted. So a request is
/// put off at most once, until the end of the holder's next meal.
pub proof fn lemma_meal_settles_requests(pump: Pump, ticks: u32, side: Side)
    requires
        pump.step_result(Event::Eaten, ticks) is Ok,
    ensures
        pump.step_result(Event::Eaten, ticks) matches Ok((after, sends)) && {
            &&& !after.philosopher.fork(side).request_pending
            &&& pump.philosopher.fork(side).request_pending ==> {
                &&& !after.philosopher.fork(side).held()
                &&& emitted(
                    sends,
                    pump.philosopher.neighbour(side) as int,
                    (Message { kind: Kind::Grant, side }).wire(),
                ) == 1
            }
        },
{
    lemma_step_emits(
        pump,
        Event::Eaten,
        ticks,
        pump.philosopher.neighbour(side) as int,
        (Message { kind: Kind::Grant, side }).wire(),
    );
}

/// A request that finds the fork dirty is answered in the same step: the
/// fork is absent at the holder afterwards and the grant is in flight.
pub proof fn lemma_dirty_fork_given_at_once(
    size: int,
    trace: Seq<Ring>,
    index: int,
    holder: int,
    side: Side,
)
    requires
        is_execution(size, trace),
        0 <= index < trace.len() - 1,
        0 <= holder < size,
        asked_while_dirty(size, trace, index, holder, side),
    ensures
        !fork_at(trace[index + 1], holder, side).held(),
        in_flight(trace[index + 1], holder, beside(size, holder, side), Kind::Grant, side) > 0,
{
    let pre = trace[index];
    let post = trace[index + 1];
    let asker = beside(size, holder, side);
    lemma_execution_safe(size, trace, index);
    lemma_neighbours_inverse(size, holder);
    assert(advances(trace, index));
    let (rank, from, event, ticks) = choose|rank: int, from: int, event: Event, ticks: u32|
        step(pre, post, rank, from, event, ticks);
    lemma_step_basics(pre, post, rank, from, event, ticks);
    lemma_step_flow(
        pre,
        post,
        rank,
        from,
        event,
        ticks,
        asker,
        holder,
        (Message { kind: Kind::Request, side: side.flip() }).wire(),
    );
    lemma_step_flow(
        pre,
        post,
        rank,
        from,
        event,
        ticks,
        holder,
        asker,
        (Message { kind: Kind::Grant, side }).wire(),
    );
    assert(pre.pumps[holder].philosopher.neighbour(side) == beside(size, holder, side));
}

/// A grant in flight does not vanish: after a step it is still in flight,
/// or the step has brought the fork to the one it was sent to.
proof fn lemma_grant_arrives(
    pre: Ring,
    post: Ring,
    rank: int,
    from: int,
    event: Event,
    ticks: u32,
    holder: int,
    side: Side,
)
    requires
        safe(pre),
        step(pre, post, rank, from, event, ticks),
        0 <= holder < pre.size(),
        in_flight(pre, holder, beside(pre.size(), holder, side), Kind::Grant, side) > 0,
        in_flight(post, holder, beside(pre.size(), holder, side), Kind::Grant, side) == 0,
    ensures
        !fork_at(pre, beside(pre.size(), holder, side), side.flip()).held(),
        fork_at(post, beside(pre.size(), holder, side), side.flip()).held(),
{
    let asker = beside(pre.size(), holder, side);
    lemma_neighbours_inverse(pre.size(), holder);
    lemma_step_basics(pre, post, rank, from, event, ticks);
    lemma_step_flow(
        pre,
        post,
        rank,
        from,
        event,
        ticks,
        holder,
        asker,
        (Message { kind: Kind::Grant, side }).wire(),
    );
    assert(copies(pre, holder, side) == 1);
}

/// Between a state in which a grant is in flight and a later state in
/// which it is not, some step brings the fork to the one it was sent to.
proof fn lemma_grant_taken_between(
    size: int,
    trace: Seq<Ring>,
    low: int,
    high: int,
    holder: int,
    side: Side,
)
    requires
        is_execution(size, trace),
        0 <= low < high < trace.len(),
        0 <= holder < size,
        in_flight(trace[low], holder, beside(size, holder, side), Kind::Grant, side) > 0,
        in_flight(trace[high], holder, beside(size, holder, side), Kind::Grant, side) == 0,
    ensures
        exists|taken: int|
            low <= taken < high && #[trigger] acquires(
                trace,
                taken,
                beside(size, holder, side),
                side.flip(),
            ),
    decreases high - low,
{
    let asker = beside(size, holder, side);
    if in_flight(trace[low + 1], holder, asker, Kind::Grant, side) > 0 {
        lemma_grant_taken_between(size, trace, low + 1, high, holder, side);
        let taken = choose|taken: int|
            low + 1 <= taken < high && #[trigger] acquires(trace, taken, asker, side.flip());
        assert(low <= taken < high && acquires(trace, taken, asker, side.flip()));
    } else {
        let pre = trace[low];
        let post = trace[low + 1];
        lemma_execution_safe(size, trace, low);
        assert(advances(trace, low));
        let (rank, from, event, ticks) = choose|rank: int, from: int, event: Event, ticks: u32|
            step(pre, post, rank, from, event, ticks);
        lemma_grant_arrives(pre, post, rank, from, event, ticks, holder, side);
        assert(acquires(trace, low, asker, side.flip()));
    }
}

/// The bound on waiting for a dirty fork: if the step at `asked` takes a
/// request that finds the fork dirty at its holder, and the holder eats
/// in a later state `eating`, then some step between the two has brought
/// the fork to the one who asked. The holder cannot finish a meal, nor
/// begin one, before the grant has been received.
pub proof fn theorem_grant_before_next_meal(
    size: int,
    trace: Seq<Ring>,
    asked: int,
    eating: int,
    holder: int,
    side: Side,
)
    requires
        is_execution(size, trace),
        0 <= holder < size,
        0 <= asked < eating < trace.len(),
        asked_while_dirty(size, trace, asked, holder, side),
        trace[eating].pumps[holder].phase is Eating,
    ensures
        exists|taken: int|
            asked < taken < eating && #[trigger] acquires(
                trace,
                taken,
                beside(size, holder, side),
                side.flip(),
            ),
{
    let asker = beside(size, holder, side);
    lemma_dirty_fork_given_at_once(size, trace, asked, holder, side);
    lemma_execution_safe(size, trace, eating);
    assert(trace[eating].pumps[holder].coherent());
    assert(copies(trace[eating], holder, side) == 1);
    lemma_grant_taken_between(size, trace, asked + 1, eating, holder, side);
    let taken = choose|taken: int|
        asked + 1 <= taken < eating && #[trigger] acquires(trace, taken, asker, side.flip());
    assert(asked < taken < eating && acquires(trace, taken, asker, side.flip()));
}

} // verus!
