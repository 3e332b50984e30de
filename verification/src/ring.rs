//! The whole ring as one state: every process with its place in the cycle,
//! and the bytes in flight between them.
//!
//! A step of the ring is a step of one process, `Pump::step_result`, on an
//! event that the ring can supply: the byte at the head of a channel to that
//! process, or the passing of time. The bytes that the step returns join
//! the channels to the processes they name. Channels keep the order of
//! sending between each pair of processes.

use vstd::prelude::*;
use crate::philosopher::{Outgoing, Philosopher};
use crate::pump::{Event, Pump};

verus! {

/// The state of a ring: `pumps[rank]` is the process of that rank, and
/// `channels[(from, to)]` holds the bytes sent by `from` to `to` that have
/// not been taken, oldest first.
pub struct Ring {
    pub pumps: Seq<Pump>,
    pub channels: Map<(int, int), Seq<u8>>,
}

/// The bytes among `sends` that go to the process of rank `to`, in order.
pub open spec fn bytes_for(sends: Seq<Outgoing>, to: int) -> Seq<u8>
    decreases sends.len(),
{
    if sends.len() == 0 {
        Seq::empty()
    } else if sends.last().to == to {
        bytes_for(sends.drop_last(), to).push(sends.last().byte)
    } else {
        bytes_for(sends.drop_last(), to)
    }
}

/// The byte that an event takes from a channel, if it takes one.
pub open spec fn arrival(event: Event) -> Option<u8> {
    match event {
        Event::Polled(arrived) => arrived,
        Event::Received(byte) => Some(byte),
        Event::Slept => None,
        Event::Eaten => None,
    }
}

impl Ring {
    /// The number of processes.
    pub open spec fn size(self) -> int {
        self.pumps.len() as int
    }

    /// The bytes in flight from `from` to `to`, oldest first.
    pub open spec fn channel(self, from: int, to: int) -> Seq<u8> {
        self.channels[(from, to)]
    }

    /// The channel from `a` to `b` after the process `rank` has taken the
    /// byte of `event`, if it brings one, from the head of the channel from
    /// `from`, and has sent `sends`.
    pub open spec fn onward(
        self,
        rank: int,
        from: int,
        event: Event,
        sends: Seq<Outgoing>,
        a: int,
        b: int,
    ) -> Seq<u8> {
        let kept = if arrival(event) is Some && a == from && b == rank {
            self.channel(a, b).drop_first()
        } else {
            self.channel(a, b)
        };
        if a == rank {
            kept + bytes_for(sends, b)
        } else {
            kept
        }
    }

    /// The ring after the process `rank` has gone from its state to `pump`
    /// on `event` and has sent `sends`.
    pub open spec fn after(
        self,
        rank: int,
        from: int,
        event: Event,
        pump: Pump,
        sends: Seq<Outgoing>,
    ) -> Ring {
        Ring {
            pumps: self.pumps.update(rank, pump),
            channels: Map::total(
                |link: (int, int)| self.onward(rank, from, event, sends, link.0, link.1),
            ),
        }
    }
}

/// Whether `ring` is a ring of `size` processes of which each has just
/// begun its cycle, the process `rank` with `ticks[rank]` ticks of
/// thinking: every process has the forks of its rank, and nothing is in
/// flight but what the processes sent on beginning.
pub open spec fn begun_with(size: int, ring: Ring, ticks: Seq<u32>) -> bool {
    &&& ticks.len() == size
    &&& forall|rank: int|
        0 <= rank < size ==> #[trigger] ring.pumps[rank] == Pump::thinking_for(
            Philosopher::initial(size, rank),
            ticks[rank],
        ).0
    &&& forall|from: int, to: int|
        0 <= from < size ==> #[trigger] ring.channel(from, to) == bytes_for(
            Pump::thinking_for(Philosopher::initial(size, from), ticks[from]).1,
            to,
        )
    &&& forall|from: int, to: int|
        !(0 <= from < size) ==> (#[trigger] ring.channel(from, to)).len() == 0
}

/// Whether `ring` is a ring of `size` processes at its start: at least
/// two processes, each of which has just begun its cycle with a thinking
/// time of its own.
pub open spec fn is_initial(size: int, ring: Ring) -> bool {
    &&& 2 <= size <= i32::MAX
    &&& ring.pumps.len() == size
    &&& exists|ticks: Seq<u32>| begun_with(size, ring, ticks)
}

/// The ring of `size` processes in which the process `rank` has just
/// begun its cycle with `ticks[rank]` ticks of thinking.
pub open spec fn started(size: int, ticks: Seq<u32>) -> Ring {
    Ring {
        pumps: Seq::new(
            size as nat,
            |rank: int| Pump::thinking_for(Philosopher::initial(size, rank), ticks[rank]).0,
        ),
        channels: Map::total(
            |link: (int, int)|
                if 0 <= link.0 < size {
                    bytes_for(
                        Pump::thinking_for(Philosopher::initial(size, link.0), ticks[link.0]).1,
                        link.1,
                    )
                } else {
                    Seq::empty()
                },
        ),
    }
}

/// A ring of at least two processes can start, whatever the thinking times:
/// the ring `started(size, ticks)` is a ring at its start, and reachable.
pub proof fn lemma_ring_can_start(size: int, ticks: Seq<u32>)
    requires
        2 <= size <= i32::MAX,
        ticks.len() == size,
    ensures
        is_initial(size, started(size, ticks)),
        reachable(size, started(size, ticks)),
{
    let ring = started(size, ticks);
    assert(begun_with(size, ring, ticks));
    let trace = seq![ring];
    assert(is_execution(size, trace));
    assert(trace.last() == ring);
}

/// Whether `post` follows from `pre` by one step of the process `rank` on
/// `event`. An event that brings a byte takes it from the head of the
/// channel from `from`. `ticks` is the thinking time that begins if the
/// step ends a meal. Only steps that the process accepts are steps of the
/// ring.
pub open spec fn step(
    pre: Ring,
    post: Ring,
    rank: int,
    from: int,
    event: Event,
    ticks: u32,
) -> bool {
    &&& 0 <= rank < pre.size()
    &&& arrival(event) matches Some(byte) ==> {
        &&& 0 <= from < pre.size()
        &&& pre.channel(from, rank).len() > 0
        &&& pre.channel(from, rank).first() == byte
    }
    &&& pre.pumps[rank].step_result(event, ticks) matches Ok((pump, sends))
    &&& post == pre.after(rank, from, event, pump, sends)
}

/// Whether `post` follows from `pre` by one step of some process.
pub open spec fn next(pre: Ring, post: Ring) -> bool {
    exists|rank: int, from: int, event: Event, ticks: u32|
        step(pre, post, rank, from, event, ticks)
}

/// Whether the state at `index + 1` of `trace` follows from the state at
/// `index` by one step.
pub open spec fn advances(trace: Seq<Ring>, index: int) -> bool {
    next(trace[index], trace[index + 1])
}

/// Whether `trace` is a run of a ring of `size` processes: it begins at a
/// start of the ring and every state follows from the one before by one
/// step.
pub open spec fn is_execution(size: int, trace: Seq<Ring>) -> bool {
    &&& trace.len() > 0
    &&& is_initial(size, trace[0])
    &&& forall|index: int| 0 <= index < trace.len() - 1 ==> #[trigger] advances(trace, index)
}

/// Whether some run of a ring of `size` processes ends in `ring`.
pub open spec fn reachable(size: int, ring: Ring) -> bool {
    exists|trace: Seq<Ring>| #[trigger] is_execution(size, trace) && trace.last() == ring
}

/// What follows from a reachable state by one step is reachable.
pub proof fn lemma_step_reachable(size: int, pre: Ring, post: Ring)
    requires
        reachable(size, pre),
        next(pre, post),
    ensures
        reachable(size, post),
{
    let trace = choose|trace: Seq<Ring>|
        #[trigger] is_execution(size, trace) && trace.last() == pre;
    let longer = trace.push(post);
    assert forall|index: int| 0 <= index < longer.len() - 1 implies #[trigger] advances(
        longer,
        index,
    ) by {
        if index < trace.len() - 1 {
            assert(advances(trace, index));
        }
    }
    assert(is_execution(size, longer));
    assert(longer.last() == post);
}

} // verus!
