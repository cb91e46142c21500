use vstd::prelude::*;

verus! {

/// Ways a timeline edit can be refused.
#[derive(Clone, Copy, Debug, PartialEq, Eq, Structural)]
pub enum TimelineError {
    /// A timeline can only have one main track.
    DuplicateMainTrack,
    /// The main track can never be deleted.
    CannotDeleteMainTrack,
    /// The clip placement does not match the track's derived layout.
    LayoutMismatch,
    /// The clip kind is not compatible with the track type.
    ClipTypeMismatch,
    /// Clips on a fixed-layout track cannot overlap.
    ClipOverlap,
    /// The track role and track type are incompatible.
    TrackRoleTypeMismatch,
    /// The clip placement exceeds the exact-time limits.
    TimeOverflow,
}

} // verus!
