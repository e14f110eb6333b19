//! The bookkeeping of a bounded, contiguous-memory, multi-producer and
//! multi-consumer byte channel, with proofs.
//!
//! The channel hands out regions of one circular buffer: writable ones to
//! producers, readable ones to consumers, each of which sees every byte, in
//! order, exactly once. This crate holds every decision of that protocol
//! and no memory, lock or thread. A caller keeps a [`channel::RawChannel`]
//! under its lock beside the buffer, and lets it decide.
//!
//! - [`cursor`]: positions in the buffer, told apart by cycle, and regions.
//! - [`counter`]: a multiset of keys, for the readers' positions.
//! - [`channel`]: the bookkeeping itself.
//! - [`receiver`], [`sender`]: what a consumer and a producer keep for
//!   themselves.
//! - [`model`]: its state and steps as mathematics.
//! - [`steps`], [`marks`], [`commit`]: what every step keeps.
//! - [`laws`], [`history`], [`stream`]: what follows for states, for
//!   interleavings, and for the bytes that receivers see.

pub mod channel;
pub mod commit;
pub mod counter;
pub mod cursor;
pub mod history;
pub mod laws;
pub mod marks;
pub mod model;
pub mod receiver;
pub mod sender;
pub mod steps;
pub mod stream;
