//! Dining philosophers on a ring, after Chandy and Misra.
//!
//! Each process shares a fork with each of its two neighbours and eats
//! only while it holds both. A fork is clean or dirty: a dirty fork is given
//! up as soon as the neighbour asks for it, a clean one only after the
//! next meal, which makes both forks dirty.
//!
//! What runs in a process:
//! - `message`: the four messages and their one-byte wire form;
//! - `fork`: one fork as one of its sharers sees it;
//! - `philosopher`: the two forks of a process and what it does with them
//!   on each message;
//! - `pump`: the cycle of thinking, hunger and eating as a machine that is
//!   told what happened and answers with the bytes to send.
//!
//! What is proved of all processes together:
//! - `ring`: the ring as one state, and its steps;
//! - `flow`: how a step changes the number of each message in flight;
//! - `safety` and `upkeep`: what holds of every reachable state, and why
//!   every step keeps it;
//! - `exclusion`: no fork is held on both sides, no two neighbours eat at
//!   once;
//! - `progress`: a reachable ring is never stuck;
//! - `fairness`: a dirty fork that is asked for reaches the one who asked
//!   before its holder eats again.

pub mod exclusion;
pub mod fairness;
pub mod flow;
pub mod fork;
pub mod message;
pub mod philosopher;
pub mod progress;
pub mod pump;
pub mod ring;
pub mod safety;
pub mod upkeep;
