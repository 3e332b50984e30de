//! One fork as one of its two sharers sees it.

use vstd::prelude::*;
use crate::message::Kind;

verus! {

/// Where a fork is, seen from one of the two processes that share it.
#[derive(Clone, Copy, Debug, PartialEq, Eq, Structural)]
pub enum ForkState {
    /// The neighbour owns the fork, or it is on its way.
    Absent,
    /// Owned here and not used since it arrived: it may be withheld.
    Clean,
    /// Owned here and used since it arrived: it is given up on request.
    Dirty,
}

/// A fork together with the note that the neighbour has asked for it.
#[derive(Clone, Copy, Debug, PartialEq, Eq, Structural)]
pub struct Fork {
    pub state: ForkState,
    pub request_pending: bool,
}

impl Fork {
    /// Whether the fork is owned on this side.
    pub open spec fn held(self) -> bool {
        self.state != ForkState::Absent
    }

    /// A fork in the given state that nobody has asked for.
    pub fn new(state: ForkState) -> (fork: Fork)
        ensures
            fork == (Fork { state, request_pending: false }),
    {
        Fork { state, request_pending: false }
    }

    /// Whether the fork is owned on this side.
    pub fn is_held(&self) -> (yes: bool)
        ensures
            yes == self.held(),
    {
        match self.state {
            ForkState::Absent => false,
            ForkState::Clean => true,
            ForkState::Dirty => true,
        }
    }

    /// Whether the fork has been used since it arrived.
    pub fn is_dirty(&self) -> (yes: bool)
        ensures
            yes <==> self.state == ForkState::Dirty,
    {
        match self.state {
            ForkState::Absent => false,
            ForkState::Clean => false,
            ForkState::Dirty => true,
        }
    }

    /// Records that the process has eaten with this fork: it is dirty now.
    /// A pending request stays noted.
    pub fn mark_used(&mut self)
        ensures
            *final(self) == (Fork {
                state: ForkState::Dirty,
                request_pending: old(self).request_pending,
            }),
    {
        self.state = ForkState::Dirty;
    }

    /// Gives a dirty fork up: it is absent afterwards and the request that
    /// led to this is settled. Returns the kind of message that is now owed
    /// to the neighbour. Only a dirty fork may be given; a request for any
    /// other fork is noted with `note_request` instead.
    pub fn give(&mut self) -> (owed: Kind)
        requires
            old(self).state == ForkState::Dirty,
        ensures
            *final(self) == (Fork { state: ForkState::Absent, request_pending: false }),
            owed == Kind::Grant,
    {
        self.state = ForkState::Absent;
        self.request_pending = false;
        Kind::Grant
    }

    /// Takes the fork that a grant has brought: it is clean afterwards,
    /// whatever it was before. A pending request stays noted.
    pub fn receive(&mut self)
        ensures
            *final(self) == (Fork {
                state: ForkState::Clean,
                request_pending: old(self).request_pending,
            }),
    {
        self.state = ForkState::Clean;
    }

    /// Notes that the neighbour has asked for this fork, whatever its
    /// state. The note matters for a fork that is held: it is given once a
    /// meal has made it dirty.
    pub fn note_request(&mut self)
        ensures
            *final(self) == (Fork { state: old(self).state, request_pending: true }),
    {
        self.request_pending = true;
    }
}

} // verus!
