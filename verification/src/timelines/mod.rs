//! Editor-core timeline primitive: tracks of clips with flow or fixed layout.
//!
//! The main track is flow layout: clip position is the prefix sum of earlier
//! durations. Overlay and audio tracks are fixed layout and store explicit
//! positions. Layout is derived from track role, never chosen by a consumer.
pub mod error;
pub mod timeline;

