//! Detection of cycles in singly linked sequences.
//!
//! A sequence is given by an optional first value and a successor relation;
//! it may terminate or loop back on itself. Two classic detectors, Floyd's
//! tortoise and hare and Brent's teleporting tortoise, each return the
//! cycle's start offset and period, or nothing for a terminating sequence.
//! Both are verified against the same contract, so they agree on every input.

pub mod brent;
pub mod chain;
pub mod cycle;
pub mod floyd;
pub mod list;

pub use brent::Brent;
pub use cycle::Cycle;
pub use floyd::Floyd;
pub use list::List;
