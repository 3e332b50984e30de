//! Why every step keeps a safe ring safe.
//!
//! A step of one process touches its own two forks and the channels to
//! and from its neighbours. `side_step` says in numbers what it does to
//! one of the two forks; every other fork of the ring is left alone. What
//! is counted for each fork then adds up after the step as it did before.

use vstd::prelude::*;
use crate::flow::{
    asks, emits, fork_law, gives, lemma_step_flow, lemma_step_fork, lemma_tally_drop_first, tally,
    unit,
};
use crate::message::{Kind, Message, Side};
use crate::philosopher::lemma_neighbours_inverse;
use crate::pump::{lemma_step_coherent, Event};
use crate::ring::{arrival, step, Ring};
use crate::safety::{
    all_coherent, answered, asking, awaited, beside, copies, exclusive, in_flight, ordered, routed,
    safe, wired, yields,
};

verus! {

/// What a step leaves alone, and where the byte that it takes comes from:
/// the neighbour on the side opposite to the one that the message names.
pub proof fn lemma_step_basics(
    pre: Ring,
    post: Ring,
    rank: int,
    from: int,
    event: Event,
    ticks: u32,
)
    requires
        wired(pre),
        routed(pre),
        step(pre, post, rank, from, event, ticks),
    ensures
        post.size() == pre.size(),
        forall|other: int|
            0 <= other < pre.size() && other != rank ==> post.pumps[other] == pre.pumps[other],
        forall|side: Side| #[trigger]
            post.pumps[rank].philosopher.neighbour(side) == pre.pumps[rank].philosopher.neighbour(side),
        pre.pumps[rank].step_result(event, ticks) matches Ok((pump, sends)) && post.pumps[rank] == pump,
        arrival(event) matches Some(byte) ==> {
            &&& Message::parse(byte) matches Some(msg)
            &&& from == beside(pre.size(), rank, msg.side.flip())
            &&& rank == beside(pre.size(), from, msg.side)
            &&& from != rank
            &&& tally(pre.channel(from, rank), byte) > 0
        },
{
    match arrival(event) {
        Some(byte) => {
            lemma_tally_drop_first(pre.channel(from, rank), byte);
            assert(tally(pre.channel(from, rank), byte) > 0);
            lemma_neighbours_inverse(pre.size(), from);
        },
        None => {},
    }
}

/// Whether `post` differs from `pre`, as far as the fork that `rank` has
/// on `side` goes, by what a step of `rank` on `event` does: the
/// neighbour is left alone, a grant or a request that the step sends
/// joins the channel to the neighbour, a grant or a request that the
/// event brings has left the channel from the neighbour, and the fork
/// itself obeys `fork_law`.
pub open spec fn side_step(pre: Ring, post: Ring, rank: int, side: Side, event: Event) -> bool {
    let other = beside(pre.size(), rank, side);
    let grant = (Message { kind: Kind::Grant, side: side.flip() }).wire();
    let request = (Message { kind: Kind::Request, side: side.flip() }).wire();
    &&& post.size() == pre.size()
    &&& other != rank
    &&& post.pumps[other] == pre.pumps[other]
    &&& fork_law(pre.pumps[rank], event, post.pumps[rank], side)
    &&& in_flight(post, rank, other, Kind::Grant, side) == in_flight(
        pre,
        rank,
        other,
        Kind::Grant,
        side,
    ) + unit(gives(pre.pumps[rank], event, post.pumps[rank], side))
    &&& in_flight(post, rank, other, Kind::Request, side) == in_flight(
        pre,
        rank,
        other,
        Kind::Request,
        side,
    ) + unit(asks(pre.pumps[rank], post.pumps[rank], side))
    &&& in_flight(post, other, rank, Kind::Grant, side.flip()) + unit(arrival(event) == Some(grant))
        == in_flight(pre, other, rank, Kind::Grant, side.flip())
    &&& in_flight(post, other, rank, Kind::Request, side.flip()) + unit(
        arrival(event) == Some(request),
    ) == in_flight(pre, other, rank, Kind::Request, side.flip())
}

/// A step of `rank` is a `side_step` for each of its two forks.
pub proof fn lemma_step_side(
    pre: Ring,
    post: Ring,
    rank: int,
    from: int,
    event: Event,
    ticks: u32,
    side: Side,
)
    requires
        safe(pre),
        step(pre, post, rank, from, event, ticks),
    ensures
        side_step(pre, post, rank, side, event),
{
    let size = pre.size();
    let other = beside(size, rank, side);
    let grant_out = (Message { kind: Kind::Grant, side }).wire();
    let request_out = (Message { kind: Kind::Request, side }).wire();
    let grant_in = (Message { kind: Kind::Grant, side: side.flip() }).wire();
    let request_in = (Message { kind: Kind::Request, side: side.flip() }).wire();
    lemma_step_basics(pre, post, rank, from, event, ticks);
    lemma_neighbours_inverse(size, rank);
    assert(pre.pumps[rank].coherent());
    assert(pre.pumps[rank].philosopher.neighbour(side) == other);
    lemma_step_fork(pre.pumps[rank], event, ticks, side);
    lemma_step_flow(pre, post, rank, from, event, ticks, rank, other, grant_out);
    lemma_step_flow(pre, post, rank, from, event, ticks, rank, other, request_out);
    lemma_step_flow(pre, post, rank, from, event, ticks, other, rank, grant_in);
    lemma_step_flow(pre, post, rank, from, event, ticks, other, rank, request_in);
    assert(emits(pre.pumps[rank], event, post.pumps[rank], other, grant_out) == gives(
        pre.pumps[rank],
        event,
        post.pumps[rank],
        side,
    ));
    assert(emits(pre.pumps[rank], event, post.pumps[rank], other, request_out) == asks(
        pre.pumps[rank],
        post.pumps[rank],
        side,
    ));
}

/// A step of `rank` leaves alone every fork that is not one of its own:
/// where the fork is, who waits for it, what stands for the request, and
/// who comes after whom.
proof fn lemma_step_apart(
    pre: Ring,
    post: Ring,
    rank: int,
    from: int,
    event: Event,
    ticks: u32,
    a: int,
    side: Side,
)
    requires
        safe(pre),
        step(pre, post, rank, from, event, ticks),
        0 <= a < pre.size(),
        a != rank,
        beside(pre.size(), a, side) != rank,
    ensures
        copies(post, a, side) == copies(pre, a, side),
        asking(post, a, side) == asking(pre, a, side),
        awaited(post, a, side) == awaited(pre, a, side),
        yields(post, a, side) == yields(pre, a, side),
{
    let size = pre.size();
    let other = beside(size, a, side);
    lemma_step_basics(pre, post, rank, from, event, ticks);
    lemma_neighbours_inverse(size, a);
    lemma_step_flow(pre, post, rank, from, event, ticks, a, other, (Message { kind: Kind::Grant, side }).wire());
    lemma_step_flow(
        pre,
        post,
        rank,
        from,
        event,
        ticks,
        a,
        other,
        (Message { kind: Kind::Request, side }).wire(),
    );
    lemma_step_flow(
        pre,
        post,
        rank,
        from,
        event,
        ticks,
        other,
        a,
        (Message { kind: Kind::Grant, side: side.flip() }).wire(),
    );
    assert(post.pumps[a] == pre.pumps[a]);
    assert(post.pumps[other] == pre.pumps[other]);
}

/// The fork that `a` has on `side` is the fork that the neighbour has on
/// the other side: counted from either end it is at the same places.
proof fn lemma_copies_mirror(ring: Ring, a: int, side: Side)
    requires
        beside(ring.size(), beside(ring.size(), a, side), side.flip()) == a,
    ensures
        copies(ring, a, side) == copies(ring, beside(ring.size(), a, side), side.flip()),
{
}

/// A `side_step` keeps the fork at one place.
proof fn lemma_side_copies(pre: Ring, post: Ring, rank: int, side: Side, event: Event)
    requires
        side_step(pre, post, rank, side, event),
        copies(pre, rank, side) == 1,
    ensures
        copies(post, rank, side) == 1,
{
}

/// A `side_step` keeps the request of the stepping process for its own
/// fork at one place while it waits, and nowhere otherwise.
proof fn lemma_side_asking(pre: Ring, post: Ring, rank: int, side: Side, event: Event)
    requires
        side_step(pre, post, rank, side, event),
        asking(pre, rank, side) == unit(awaited(pre, rank, side)),
    ensures
        asking(post, rank, side) == unit(awaited(post, rank, side)),
{
}

/// A `side_step` keeps the request of the neighbour for the fork of the
/// stepping process at one place while the neighbour waits, and nowhere
/// otherwise.
proof fn lemma_side_asked(pre: Ring, post: Ring, rank: int, side: Side, event: Event)
    requires
        side_step(pre, post, rank, side, event),
        beside(pre.size(), beside(pre.size(), rank, side), side.flip()) == rank,
        asking(pre, beside(pre.size(), rank, side), side.flip()) == unit(
            awaited(pre, beside(pre.size(), rank, side), side.flip()),
        ),
    ensures
        asking(post, beside(pre.size(), rank, side), side.flip()) == unit(
            awaited(post, beside(pre.size(), rank, side), side.flip()),
        ),
{
}

/// A `side_step` that ends no meal leaves the stepping process after its
/// neighbour if it came after it.
proof fn lemma_side_yields(pre: Ring, post: Ring, rank: int, side: Side, event: Event)
    requires
        side_step(pre, post, rank, side, event),
        copies(pre, rank, side) == 1,
        yields(pre, rank, side),
        !(event is Eaten),
    ensures
        yields(post, rank, side),
{
}

/// A `side_step` that ends no meal leaves the neighbour after the
/// stepping process if it came after it.
proof fn lemma_side_yielded(pre: Ring, post: Ring, rank: int, side: Side, event: Event)
    requires
        side_step(pre, post, rank, side, event),
        beside(pre.size(), beside(pre.size(), rank, side), side.flip()) == rank,
        yields(pre, beside(pre.size(), rank, side), side.flip()),
        !(event is Eaten),
    ensures
        yields(post, beside(pre.size(), rank, side), side.flip()),
{
}

/// A `side_step` that ends a meal puts the stepping process after its
/// neighbour.
proof fn lemma_side_meal(pre: Ring, post: Ring, rank: int, side: Side, event: Event)
    requires
        side_step(pre, post, rank, side, event),
        event is Eaten,
    ensures
        yields(post, rank, side),
{
}

/// A step leaves every process with the neighbours it had.
pub proof fn lemma_step_wired(pre: Ring, post: Ring, rank: int, from: int, event: Event, ticks: u32)
    requires
        safe(pre),
        step(pre, post, rank, from, event, ticks),
    ensures
        wired(post),
{
    lemma_step_basics(pre, post, rank, from, event, ticks);
    assert forall|a: int, side: Side| 0 <= a < post.size() implies #[trigger]
        post.pumps[a].philosopher.neighbour(side) == beside(post.size(), a, side) by {
        assert(pre.pumps[a].philosopher.neighbour(side) == beside(pre.size(), a, side));
    }
}

/// After a step every byte in flight is still a message on its way to
/// the neighbour on the side that it names.
pub proof fn lemma_step_routed(
    pre: Ring,
    post: Ring,
    rank: int,
    from: int,
    event: Event,
    ticks: u32,
)
    requires
        safe(pre),
        step(pre, post, rank, from, event, ticks),
    ensures
        routed(post),
{
    lemma_step_basics(pre, post, rank, from, event, ticks);
    assert forall|a: int, b: int, byte: u8| #[trigger]
        tally(post.channel(a, b), byte) > 0 implies {
        &&& 0 <= a < post.size()
        &&& Message::parse(byte) matches Some(msg)
        &&& b == beside(post.size(), a, msg.side)
    } by {
        lemma_step_flow(pre, post, rank, from, event, ticks, a, b, byte);
        if tally(pre.channel(a, b), byte) > 0 {
        } else {
            assert(emits(pre.pumps[rank], event, post.pumps[rank], b, byte));
            let msg = Message::parse(byte)->Some_0;
            assert(pre.pumps[rank].philosopher.neighbour(msg.side) == beside(
                pre.size(),
                rank,
                msg.side,
            ));
        }
    }
}

/// After a step every process is still coherent.
pub proof fn lemma_step_coherent_all(
    pre: Ring,
    post: Ring,
    rank: int,
    from: int,
    event: Event,
    ticks: u32,
)
    requires
        safe(pre),
        step(pre, post, rank, from, event, ticks),
    ensures
        all_coherent(post),
{
    lemma_step_basics(pre, post, rank, from, event, ticks);
    lemma_step_coherent(pre.pumps[rank], event, ticks);
    assert forall|a: int| 0 <= a < post.size() implies (#[trigger] post.pumps[a]).coherent() by {
        assert(pre.pumps[a].coherent());
    }
}

/// After a step the fork that `a` has on `side` is still at one place.
proof fn lemma_step_copies(
    pre: Ring,
    post: Ring,
    rank: int,
    from: int,
    event: Event,
    ticks: u32,
    a: int,
    side: Side,
)
    requires
        safe(pre),
        step(pre, post, rank, from, event, ticks),
        0 <= a < pre.size(),
    ensures
        copies(post, a, side) == 1,
{
    let size = pre.size();
    lemma_neighbours_inverse(size, a);
    lemma_neighbours_inverse(size, rank);
    assert(copies(pre, a, side) == 1);
    if a == rank {
        lemma_step_side(pre, post, rank, from, event, ticks, side);
        lemma_side_copies(pre, post, rank, side, event);
    } else if beside(size, a, side) == rank {
        lemma_step_side(pre, post, rank, from, event, ticks, side.flip());
        lemma_copies_mirror(pre, a, side);
        lemma_side_copies(pre, post, rank, side.flip(), event);
        lemma_copies_mirror(post, a, side);
    } else {
        lemma_step_apart(pre, post, rank, from, event, ticks, a, side);
    }
}

/// After a step every fork is still at one place.
pub proof fn lemma_step_exclusive(
    pre: Ring,
    post: Ring,
    rank: int,
    from: int,
    event: Event,
    ticks: u32,
)
    requires
        safe(pre),
        step(pre, post, rank, from, event, ticks),
    ensures
        exclusive(post),
{
    lemma_step_basics(pre, post, rank, from, event, ticks);
    assert forall|a: int, side: Side| 0 <= a < post.size() implies #[trigger] copies(post, a, side)
        == 1 by {
        lemma_step_copies(pre, post, rank, from, event, ticks, a, side);
    }
}

/// After a step the request of `a` for its fork on `side` still stands at
/// one place if `a` waits for the fork, and nowhere otherwise.
proof fn lemma_step_asking(
    pre: Ring,
    post: Ring,
    rank: int,
    from: int,
    event: Event,
    ticks: u32,
    a: int,
    side: Side,
)
    requires
        safe(pre),
        step(pre, post, rank, from, event, ticks),
        0 <= a < pre.size(),
    ensures
        asking(post, a, side) == unit(awaited(post, a, side)),
{
    let size = pre.size();
    lemma_neighbours_inverse(size, a);
    lemma_neighbours_inverse(size, rank);
    assert(asking(pre, a, side) == unit(awaited(pre, a, side)));
    if a == rank {
        lemma_step_side(pre, post, rank, from, event, ticks, side);
        lemma_side_asking(pre, post, rank, side, event);
    } else if beside(size, a, side) == rank {
        lemma_step_side(pre, post, rank, from, event, ticks, side.flip());
        lemma_side_asked(pre, post, rank, side.flip(), event);
    } else {
        lemma_step_apart(pre, post, rank, from, event, ticks, a, side);
    }
}

/// After a step every request still stands at one place while its sender
/// waits, and nowhere otherwise.
pub proof fn lemma_step_answered(
    pre: Ring,
    post: Ring,
    rank: int,
    from: int,
    event: Event,
    ticks: u32,
)
    requires
        safe(pre),
        step(pre, post, rank, from, event, ticks),
    ensures
        answered(post),
{
    lemma_step_basics(pre, post, rank, from, event, ticks);
    assert forall|a: int, side: Side| 0 <= a < post.size() implies #[trigger] asking(post, a, side)
        == unit(awaited(post, a, side)) by {
        lemma_step_asking(pre, post, rank, from, event, ticks, a, side);
    }
}

/// A step that ends no meal leaves the order of precedence as it is.
proof fn lemma_step_yields(
    pre: Ring,
    post: Ring,
    rank: int,
    from: int,
    event: Event,
    ticks: u32,
    a: int,
    side: Side,
)
    requires
        safe(pre),
        step(pre, post, rank, from, event, ticks),
        0 <= a < pre.size(),
        yields(pre, a, side),
        !(event is Eaten),
    ensures
        yields(post, a, side),
{
    let size = pre.size();
    lemma_neighbours_inverse(size, a);
    lemma_neighbours_inverse(size, rank);
    assert(copies(pre, a, side) == 1);
    if a == rank {
        lemma_step_side(pre, post, rank, from, event, ticks, side);
        lemma_side_yields(pre, post, rank, side, event);
    } else if beside(size, a, side) == rank {
        lemma_step_side(pre, post, rank, from, event, ticks, side.flip());
        lemma_side_yielded(pre, post, rank, side.flip(), event);
    } else {
        lemma_step_apart(pre, post, rank, from, event, ticks, a, side);
    }
}

/// After a step precedence still does not run round the ring: a step
/// that ends no meal leaves both witnesses where they were, and a meal
/// puts the eater after both of its neighbours.
pub proof fn lemma_step_ordered(
    pre: Ring,
    post: Ring,
    rank: int,
    from: int,
    event: Event,
    ticks: u32,
)
    requires
        safe(pre),
        step(pre, post, rank, from, event, ticks),
    ensures
        ordered(post),
{
    lemma_step_basics(pre, post, rank, from, event, ticks);
    if event is Eaten {
        lemma_step_side(pre, post, rank, from, event, ticks, Side::Left);
        lemma_step_side(pre, post, rank, from, event, ticks, Side::Right);
        lemma_side_meal(pre, post, rank, Side::Left, event);
        lemma_side_meal(pre, post, rank, Side::Right, event);
    } else {
        let below = choose|a: int| 0 <= a < pre.size() && #[trigger] yields(pre, a, Side::Left);
        let above = choose|a: int| 0 <= a < pre.size() && #[trigger] yields(pre, a, Side::Right);
        lemma_step_yields(pre, post, rank, from, event, ticks, below, Side::Left);
        lemma_step_yields(pre, post, rank, from, event, ticks, above, Side::Right);
    }
}

} // verus!
