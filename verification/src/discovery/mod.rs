//! The local clip-discovery workflow around an external scorer.
//!
//! A session is started from a loaded transcript, hands out candidate
//! batches, collects evaluations atomically, reports progress, and finally
//! yields the evaluations in candidate order for ranking. Reading files,
//! writing the review package and the tool protocol live outside the library;
//! every decision they depend on is made here.
pub mod error;
pub mod params;
pub mod session;
