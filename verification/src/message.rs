//! Messages exchanged between ring neighbours and their one-byte wire form.

use vstd::prelude::*;

verus! {

/// What a message does with a fork: ask for it, or hand it over.
#[derive(Clone, Copy, Debug, PartialEq, Eq, Structural)]
pub enum Kind {
    Request,
    Grant,
}

/// One of the two sides of a process. The left fork of a process is shared
/// with its left neighbour, for whom the same fork is the right one.
#[derive(Clone, Copy, Debug, PartialEq, Eq, Structural)]
pub enum Side {
    Left,
    Right,
}

impl Side {
    /// The other side: the side on which the neighbour sees the same fork.
    pub open spec fn flip(self) -> Side {
        match self {
            Side::Left => Side::Right,
            Side::Right => Side::Left,
        }
    }

    /// Returns the other side.
    pub fn opposite(self) -> (other: Side)
        ensures
            other == self.flip(),
    {
        match self {
            Side::Left => Side::Right,
            Side::Right => Side::Left,
        }
    }
}

/// A message about one fork. `side` names the fork as the sender sees it:
/// a request asks for the sender's fork of that side, a grant hands over the
/// sender's fork of that side. The receiver holds the same fork on the
/// opposite side.
#[derive(Clone, Copy, Debug, PartialEq, Eq, Structural)]
pub struct Message {
    pub kind: Kind,
    pub side: Side,
}

/// A received byte that is no message. The transport is reliable, so this
/// is fatal for the process that meets it.
#[derive(Clone, Copy, Debug, PartialEq, Eq, Structural)]
pub struct ProtocolError {
    /// The offending byte.
    pub byte: u8,
}

impl Message {
    /// The byte that stands for this message on the wire.
    pub open spec fn wire(self) -> u8 {
        match (self.kind, self.side) {
            (Kind::Grant, Side::Right) => 0u8,
            (Kind::Grant, Side::Left) => 1u8,
            (Kind::Request, Side::Right) => 2u8,
            (Kind::Request, Side::Left) => 3u8,
        }
    }

    /// The message that a byte stands for, if any.
    pub open spec fn parse(byte: u8) -> Option<Message> {
        if byte == 0 {
            Some(Message { kind: Kind::Grant, side: Side::Right })
        } else if byte == 1 {
            Some(Message { kind: Kind::Grant, side: Side::Left })
        } else if byte == 2 {
            Some(Message { kind: Kind::Request, side: Side::Right })
        } else if byte == 3 {
            Some(Message { kind: Kind::Request, side: Side::Left })
        } else {
            None
        }
    }

    /// Encodes the message as its wire byte.
    pub fn to_u8(&self) -> (byte: u8)
        ensures
            byte == self.wire(),
    {
        match (self.kind, self.side) {
            (Kind::Grant, Side::Right) => 0,
            (Kind::Grant, Side::Left) => 1,
            (Kind::Request, Side::Right) => 2,
            (Kind::Request, Side::Left) => 3,
        }
    }

    /// Decodes a wire byte. Exactly the four bytes below 4 are messages;
    /// every other byte is rejected, and the error carries it.
    pub fn from_u8(val: u8) -> (decoded: Result<Message, ProtocolError>)
        ensures
            match Message::parse(val) {
                Some(m) => decoded == Ok::<Message, ProtocolError>(m),
                None => decoded == Err::<Message, ProtocolError>(ProtocolError { byte: val }),
            },
    {
        match val {
            0 => Ok(Message { kind: Kind::Grant, side: Side::Right }),
            1 => Ok(Message { kind: Kind::Grant, side: Side::Left }),
            2 => Ok(Message { kind: Kind::Request, side: Side::Right }),
            3 => Ok(Message { kind: Kind::Request, side: Side::Left }),
            _ => Err(ProtocolError { byte: val }),
        }
    }

    /// Whether the message asks for a fork.
    pub fn is_request_msg(&self) -> (yes: bool)
        ensures
            yes <==> self.kind == Kind::Request,
    {
        match self.kind {
            Kind::Request => true,
            Kind::Grant => false,
        }
    }

    /// Whether the message hands a fork over.
    pub fn is_give_msg(&self) -> (yes: bool)
        ensures
            yes <==> self.kind == Kind::Grant,
    {
        match self.kind {
            Kind::Request => false,
            Kind::Grant => true,
        }
    }
}

/// Decoding undoes encoding: every message survives the wire.
pub proof fn lemma_decode_encode(m: Message)
    ensures
        Message::parse(m.wire()) == Some(m),
{
}

/// Encoding undoes decoding: a byte that decodes is the wire form of what
/// it decodes to, so no two bytes stand for the same message.
pub proof fn lemma_encode_decode(byte: u8)
    ensures
        Message::parse(byte) matches Some(m) ==> m.wire() == byte,
{
}

/// The bytes that decode are exactly 0, 1, 2 and 3.
pub proof fn lemma_decodable_bytes(byte: u8)
    ensures
        Message::parse(byte) is Some <==> byte < 4,
{
}

} // verus!
