//! Duplicate-file detection core: a two-phase size-then-hash grouping
//! structure, the state machine that decides which files need hashing,
//! and the deterministic report over the finished grouping state.

pub mod coordinator;
pub mod digest;
pub mod hex;
pub mod index;
pub mod laws;
pub mod order;
pub mod report;
