//! Opaque editor-core entity identifiers.
//!
//! Identity stays in the editor domain: these types carry no media or UI
//! policy.
use vstd::prelude::*;

verus! {

/// Identifier of a media asset.
#[derive(Clone, Copy, Debug, PartialEq, Eq, Hash, PartialOrd, Ord, Structural)]
pub struct AssetId(pub u64);

/// Identifier of a clip.
#[derive(Clone, Copy, Debug, PartialEq, Eq, Hash, PartialOrd, Ord, Structural)]
pub struct ClipId(pub u64);

/// Identifier of a timeline.
#[derive(Clone, Copy, Debug, PartialEq, Eq, Hash, PartialOrd, Ord, Structural)]
pub struct TimelineId(pub u64);

/// Identifier of a track within a timeline.
#[derive(Clone, Copy, Debug, PartialEq, Eq, Hash, PartialOrd, Ord, Structural)]
pub struct TrackId(pub u64);

impl AssetId {
    pub fn new(value: u64) -> (r: Self)
        ensures
            r.0 == value,
    {
        AssetId(value)
    }

    pub fn raw(self) -> (r: u64)
        ensures
            r == self.0,
    {
        self.0
    }
}

impl ClipId {
    pub fn new(value: u64) -> (r: Self)
        ensures
            r.0 == value,
    {
        ClipId(value)
    }

    pub fn raw(self) -> (r: u64)
        ensures
            r == self.0,
    {
        self.0
    }
}

impl TimelineId {
    pub fn new(value: u64) -> (r: Self)
        ensures
            r.0 == value,
    {
        TimelineId(value)
    }

    pub fn raw(self) -> (r: u64)
        ensures
            r == self.0,
    {
        self.0
    }
}

impl TrackId {
    pub fn new(value: u64) -> (r: Self)
        ensures
            r.0 == value,
    {
        TrackId(value)
    }

    pub fn raw(self) -> (r: u64)
        ensures
            r == self.0,
    {
        self.0
    }
}

} // verus!
