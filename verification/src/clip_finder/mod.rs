//! Transcript-driven clip discovery.
//!
//! The deterministic part of the workflow: validate a time-coded transcript,
//! build duration-constrained candidates on transcript boundaries, batch them
//! for an external scorer, and turn scored candidates into a non-redundant
//! review queue.
pub mod error;
pub mod model;
pub mod text;
pub mod candidate;
pub mod ranking;
