//! The forks of one process and what it does with them on each message.

use vstd::prelude::*;
use crate::fork::{Fork, ForkState};
use crate::message::{Kind, Message, Side};

verus! {

/// A byte to be sent to the process of rank `to`.
#[derive(Clone, Copy, Debug, PartialEq, Eq, Structural)]
pub struct Outgoing {
    pub to: i32,
    pub byte: u8,
}

/// One process of the ring: its two forks and the ranks of its neighbours.
#[derive(Clone, Copy, Debug, PartialEq, Eq, Structural)]
pub struct Philosopher {
    pub left_fork: Fork,
    pub right_fork: Fork,
    pub left_neighbour: i32,
    pub right_neighbour: i32,
}

/// The rank to the left of `rank` in a ring of `size` processes: the next
/// rank, and rank 0 after the highest.
pub open spec fn left_of(size: int, rank: int) -> int {
    if rank + 1 == size {
        0
    } else {
        rank + 1
    }
}

/// The rank to the right of `rank` in a ring of `size` processes: the
/// rank before, and the highest before rank 0.
pub open spec fn right_of(size: int, rank: int) -> int {
    if rank == 0 {
        size - 1
    } else {
        rank - 1
    }
}

/// The neighbours of a rank are the ranks one step away modulo the size of
/// the ring.
pub proof fn lemma_neighbours_modulo(size: int, rank: int)
    requires
        0 <= rank < size,
    ensures
        left_of(size, rank) == (rank + 1) % size,
        right_of(size, rank) == (rank - 1 + size) % size,
{
    if rank + 1 == size {
        vstd::arithmetic::div_mod::lemma_mod_self_0(size);
    } else {
        vstd::arithmetic::div_mod::lemma_small_mod((rank + 1) as nat, size as nat);
    }
    if rank == 0 {
        vstd::arithmetic::div_mod::lemma_small_mod((size - 1) as nat, size as nat);
    } else {
        vstd::arithmetic::div_mod::lemma_mod_add_multiples_vanish(rank - 1, size);
        vstd::arithmetic::div_mod::lemma_small_mod((rank - 1) as nat, size as nat);
    }
}

/// Left and right undo each other, and a neighbour is a rank of the ring.
pub proof fn lemma_neighbours_inverse(size: int, rank: int)
    requires
        0 <= rank < size,
    ensures
        0 <= left_of(size, rank) < size,
        0 <= right_of(size, rank) < size,
        right_of(size, left_of(size, rank)) == rank,
        left_of(size, right_of(size, rank)) == rank,
{
}

/// The forks that the process of rank `rank` owns at the start. Each fork
/// starts dirty at the lower-ranked of its two sharers, but the fork
/// between the highest rank and rank 0, which starts at rank 0: so rank 0
/// owns both of its forks, the highest rank none, and every other rank
/// its left one.
pub open spec fn initial_fork(size: int, rank: int, side: Side) -> Fork {
    let owned = match side {
        Side::Left => rank != size - 1,
        Side::Right => rank == 0,
    };
    Fork { state: if owned { ForkState::Dirty } else { ForkState::Absent }, request_pending: false }
}

impl Philosopher {
    /// The fork on the given side.
    pub open spec fn fork(self, side: Side) -> Fork {
        match side {
            Side::Left => self.left_fork,
            Side::Right => self.right_fork,
        }
    }

    /// The rank of the neighbour on the given side.
    pub open spec fn neighbour(self, side: Side) -> i32 {
        match side {
            Side::Left => self.left_neighbour,
            Side::Right => self.right_neighbour,
        }
    }

    /// This process with the fork on the given side replaced.
    pub open spec fn with_fork(self, side: Side, fork: Fork) -> Philosopher {
        match side {
            Side::Left => Philosopher { left_fork: fork, ..self },
            Side::Right => Philosopher { right_fork: fork, ..self },
        }
    }

    /// The process of rank `rank` as a ring of `size` processes starts.
    pub open spec fn initial(size: int, rank: int) -> Philosopher {
        Philosopher {
            left_fork: initial_fork(size, rank, Side::Left),
            right_fork: initial_fork(size, rank, Side::Right),
            left_neighbour: left_of(size, rank) as i32,
            right_neighbour: right_of(size, rank) as i32,
        }
    }

    /// The message about the fork on `side` that this process sends to the
    /// neighbour with whom it shares that fork.
    pub open spec fn outgoing(self, kind: Kind, side: Side) -> Outgoing {
        Outgoing { to: self.neighbour(side), byte: (Message { kind, side }).wire() }
    }

    /// Whether no dirty fork has a request noted. A dirty fork is given
    /// when it is asked for, and a fork that is asked for is given when it
    /// becomes dirty, so between two steps this holds.
    pub open spec fn settled(self) -> bool {
        &&& !self.owes(Side::Left)
        &&& !self.owes(Side::Right)
    }

    /// Whether a fork is absent.
    pub open spec fn forks_missing(self) -> bool {
        !self.left_fork.held() || !self.right_fork.held()
    }

    /// The side of the absent fork to ask for next: the left one before the
    /// right one.
    pub open spec fn first_missing(self) -> Option<Side> {
        if !self.left_fork.held() {
            Some(Side::Left)
        } else if !self.right_fork.held() {
            Some(Side::Right)
        } else {
            None
        }
    }

    /// This process after a grant that names the fork as `sender_side`: the
    /// fork on the opposite side is clean.
    pub open spec fn after_grant(self, sender_side: Side) -> Philosopher {
        let side = sender_side.flip();
        self.with_fork(side, Fork { state: ForkState::Clean, ..self.fork(side) })
    }

    /// This process after a request that names the fork as `sender_side`,
    /// and the reply. A dirty fork is given at once; for any other the
    /// request is noted and nothing is sent.
    pub open spec fn after_request(self, sender_side: Side) -> (Philosopher, Option<Outgoing>) {
        let side = sender_side.flip();
        if self.fork(side).state == ForkState::Dirty {
            (
                self.with_fork(side, Fork { state: ForkState::Absent, request_pending: false }),
                Some(self.outgoing(Kind::Grant, side)),
            )
        } else {
            (self.with_fork(side, Fork { request_pending: true, ..self.fork(side) }), None)
        }
    }

    /// This process after the given message, and the reply.
    pub open spec fn after_message(self, msg: Message) -> (Philosopher, Option<Outgoing>) {
        match msg.kind {
            Kind::Grant => (self.after_grant(msg.side), None),
            Kind::Request => self.after_request(msg.side),
        }
    }

    /// This process after a meal: both forks are dirty.
    pub open spec fn after_meal(self) -> Philosopher {
        Philosopher {
            left_fork: Fork { state: ForkState::Dirty, ..self.left_fork },
            right_fork: Fork { state: ForkState::Dirty, ..self.right_fork },
            ..self
        }
    }

    /// Whether the fork on `side` is to be given now: it is dirty and the
    /// neighbour has asked for it.
    pub open spec fn owes(self, side: Side) -> bool {
        self.fork(side).state == ForkState::Dirty && self.fork(side).request_pending
    }

    /// The grants that settle the noted requests, the left one first.
    pub open spec fn grants_owed(self) -> Seq<Outgoing> {
        let left = if self.owes(Side::Left) {
            seq![self.outgoing(Kind::Grant, Side::Left)]
        } else {
            Seq::empty()
        };
        let right = if self.owes(Side::Right) {
            seq![self.outgoing(Kind::Grant, Side::Right)]
        } else {
            Seq::empty()
        };
        left + right
    }

    /// This process after it has given every fork that it owes.
    pub open spec fn after_serving(self) -> Philosopher {
        let gone = Fork { state: ForkState::Absent, request_pending: false };
        Philosopher {
            left_fork: if self.owes(Side::Left) { gone } else { self.left_fork },
            right_fork: if self.owes(Side::Right) { gone } else { self.right_fork },
            ..self
        }
    }

    /// The process of rank `rank` in a ring of `size` processes, with the
    /// forks it owns at the start and nothing asked of it yet.
    pub fn new(size: i32, rank: i32) -> (philosopher: Philosopher)
        requires
            2 <= size,
            0 <= rank < size,
        ensures
            philosopher == Philosopher::initial(size as int, rank as int),
            philosopher.left_neighbour == left_of(size as int, rank as int),
            philosopher.right_neighbour == right_of(size as int, rank as int),
            philosopher.settled(),
    {
        if rank == 0 {
            Philosopher {
                left_fork: Fork::new(ForkState::Dirty),
                right_fork: Fork::new(ForkState::Dirty),
                left_neighbour: 1,
                right_neighbour: size - 1,
            }
        } else if rank == size - 1 {
            Philosopher {
                left_fork: Fork::new(ForkState::Absent),
                right_fork: Fork::new(ForkState::Absent),
                left_neighbour: 0,
                right_neighbour: size - 2,
            }
        } else {
            Philosopher {
                left_fork: Fork::new(ForkState::Dirty),
                right_fork: Fork::new(ForkState::Absent),
                left_neighbour: rank + 1,
                right_neighbour: rank - 1,
            }
        }
    }

    /// Ends a meal: both forks have been used and are dirty.
    pub fn eat(&mut self)
        ensures
            *final(self) == old(self).after_meal(),
    {
        self.left_fork.mark_used();
        self.right_fork.mark_used();
    }

    /// Whether a fork is absent, so that the process cannot eat yet.
    pub fn check_forks_missing(&self) -> (missing: bool)
        ensures
            missing == self.forks_missing(),
    {
        !self.left_fork.is_held() || !self.right_fork.is_held()
    }

    /// Takes the fork that a grant brings and returns the side on which it
    /// now lies, which is opposite to the side that the sender names. A
    /// grant is stored whether or not the fork was awaited. A message that
    /// is no grant changes nothing and yields `None`.
    pub fn received_fork(&mut self, msg: &Message) -> (side: Option<Side>)
        ensures
            msg.kind == Kind::Grant ==> *final(self) == old(self).after_grant(msg.side) && side
                == Some(msg.side.flip()),
            msg.kind != Kind::Grant ==> *final(self) == *old(self) && side.is_none(),
    {
        if !msg.is_give_msg() {
            return None;
        }
        match msg.side {
            Side::Left => {
                self.right_fork.receive();
                Some(Side::Right)
            },
            Side::Right => {
                self.left_fork.receive();
                Some(Side::Left)
            },
        }
    }

    /// Answers a request for the fork that the sender names, which lies on
    /// the opposite side here. A dirty fork is given at once and the grant
    /// for the neighbour on that side is returned; for a clean or absent
    /// fork the request is noted and nothing is sent. A message that is no
    /// request changes nothing and yields `None`.
    pub fn respond_to_msg_request(&mut self, msg: &Message) -> (reply: Option<Outgoing>)
        ensures
            msg.kind == Kind::Request ==> (*final(self), reply) == old(self).after_request(msg.side),
            msg.kind != Kind::Request ==> *final(self) == *old(self) && reply.is_none(),
    {
        if !msg.is_request_msg() {
            return None;
        }
        match msg.side {
            Side::Left => {
                if self.right_fork.is_dirty() {
                    let kind = self.right_fork.give();
                    let grant = Message { kind, side: Side::Right };
                    Some(Outgoing { to: self.right_neighbour, byte: grant.to_u8() })
                } else {
                    self.right_fork.note_request();
                    None
                }
            },
            Side::Right => {
                if self.left_fork.is_dirty() {
                    let kind = self.left_fork.give();
                    let grant = Message { kind, side: Side::Left };
                    Some(Outgoing { to: self.left_neighbour, byte: grant.to_u8() })
                } else {
                    self.left_fork.note_request();
                    None
                }
            },
        }
    }

    /// Handles one message, grant or request, and returns the reply if one
    /// is due. Which fork the message concerns is decided by the side it
    /// names and by nothing else.
    pub fn dispatch(&mut self, msg: &Message) -> (reply: Option<Outgoing>)
        ensures
            (*final(self), reply) == old(self).after_message(*msg),
    {
        if msg.is_give_msg() {
            let _ = self.received_fork(msg);
            None
        } else {
            self.respond_to_msg_request(msg)
        }
    }

    /// Settles the noted requests: every dirty fork that the neighbour has
    /// asked for is given, and the grants are returned, the left one first.
    /// After a meal both forks are dirty, so every noted request is
    /// settled then.
    pub fn respond_to_existing_requests(&mut self) -> (grants: Vec<Outgoing>)
        ensures
            *final(self) == old(self).after_serving(),
            grants@ == old(self).grants_owed(),
            final(self).settled(),
    {
        let mut grants: Vec<Outgoing> = Vec::new();
        if self.left_fork.is_dirty() && self.left_fork.request_pending {
            let kind = self.left_fork.give();
            let grant = Message { kind, side: Side::Left };
            grants.push(Outgoing { to: self.left_neighbour, byte: grant.to_u8() });
        }
        if self.right_fork.is_dirty() && self.right_fork.request_pending {
            let kind = self.right_fork.give();
            let grant = Message { kind, side: Side::Right };
            grants.push(Outgoing { to: self.right_neighbour, byte: grant.to_u8() });
        }
        grants
    }

    /// The request to send next: for the absent fork, the left one before
    /// the right one, addressed to the neighbour on that side. `None` when
    /// both forks are here.
    pub fn request_fork(&self) -> (request: Option<(Side, Outgoing)>)
        ensures
            match self.first_missing() {
                Some(side) => request == Some((side, self.outgoing(Kind::Request, side))),
                None => request.is_none(),
            },
    {
        if !self.left_fork.is_held() {
            let ask = Message { kind: Kind::Request, side: Side::Left };
            Some((Side::Left, Outgoing { to: self.left_neighbour, byte: ask.to_u8() }))
        } else if !self.right_fork.is_held() {
            let ask = Message { kind: Kind::Request, side: Side::Right };
            Some((Side::Right, Outgoing { to: self.right_neighbour, byte: ask.to_u8() }))
        } else {
            None
        }
    }
}

} // verus!
