//! Closed editor-core clip vocabulary.
//!
//! Clips describe editing concepts and exact media source ranges. A flow clip
//! stores no timeline position (its position is the prefix sum of the
//! durations before it); a fixed clip stores an explicit start time.
use vstd::prelude::*;

use crate::ids::{AssetId, ClipId, TimelineId};
use crate::rational::{fits, rat_add, rat_lt, rat_zero, reduced, RationalTime, TimeError};

verus! {

#[derive(Clone, Copy, Debug, PartialEq, Eq, Structural)]
pub enum ClipError {
    /// The clip duration is not greater than zero.
    InvalidDuration,
    /// A clip or source time is negative.
    NegativeTime,
    /// The clip's time range exceeds the exact-time limits.
    TimeOverflow,
}

#[derive(Clone, Copy, Debug, PartialEq, Eq, Structural)]
pub enum ClipPlacement {
    Flow,
    Fixed { start_time: RationalTime },
}

#[derive(Clone, Copy, Debug, PartialEq, Eq, Structural)]
pub enum ClipCategory {
    Video,
    Audio,
    Text,
    Vector,
    Adjustment,
    Effect,
    Spacer,
}

#[derive(Clone, Debug, PartialEq, Eq)]
pub struct VideoClip {
    pub asset_id: AssetId,
    pub source_start: RationalTime,
}

#[derive(Clone, Debug, PartialEq, Eq)]
pub struct AudioClip {
    pub asset_id: AssetId,
    pub source_start: RationalTime,
}

#[derive(Clone, Debug, PartialEq, Eq)]
pub struct ImageClip {
    pub asset_id: AssetId,
}

#[derive(Clone, Debug, PartialEq, Eq)]
pub struct TextClip {
    pub content: String,
}

#[derive(Clone, Debug, PartialEq, Eq)]
pub struct VectorClip {
    pub svg: String,
}

#[derive(Clone, Debug, Default, PartialEq, Eq)]
pub struct AdjustmentClip;

#[derive(Clone, Debug, PartialEq, Eq)]
pub struct EffectClip {
    pub effect_id: String,
}

#[derive(Clone, Debug, PartialEq, Eq)]
pub struct CompoundClip {
    pub timeline_id: TimelineId,
}

#[derive(Clone, Debug, PartialEq, Eq)]
pub enum ClipKind {
    Video(VideoClip),
    Audio(AudioClip),
    Image(ImageClip),
    Text(TextClip),
    Vector(VectorClip),
    Adjustment(AdjustmentClip),
    Effect(EffectClip),
    Compound(CompoundClip),
    Spacer,
}

/// The editing category of a clip kind.
pub open spec fn kind_category(kind: ClipKind) -> ClipCategory {
    match kind {
        ClipKind::Video(_) | ClipKind::Image(_) | ClipKind::Compound(_) => ClipCategory::Video,
        ClipKind::Audio(_) => ClipCategory::Audio,
        ClipKind::Text(_) => ClipCategory::Text,
        ClipKind::Vector(_) => ClipCategory::Vector,
        ClipKind::Adjustment(_) => ClipCategory::Adjustment,
        ClipKind::Effect(_) => ClipCategory::Effect,
        ClipKind::Spacer => ClipCategory::Spacer,
    }
}

/// `t` is a negative time.
pub open spec fn is_negative(t: RationalTime) -> bool {
    rat_lt(t@, rat_zero())
}

/// `t` is a strictly positive time.
pub open spec fn is_positive(t: RationalTime) -> bool {
    rat_lt(rat_zero(), t@)
}

/// The source times carried by a clip kind are not negative.
pub open spec fn kind_times_valid(kind: ClipKind) -> bool {
    match kind {
        ClipKind::Video(v) => !is_negative(v.source_start),
        ClipKind::Audio(a) => !is_negative(a.source_start),
        _ => true,
    }
}

/// What a constructed clip guarantees about its duration and placement.
pub open spec fn timing_valid(duration: RationalTime, placement: ClipPlacement) -> bool {
    &&& reduced(duration@)
    &&& is_positive(duration)
    &&& match placement {
        ClipPlacement::Flow => true,
        ClipPlacement::Fixed { start_time } => {
            &&& reduced(start_time@)
            &&& !is_negative(start_time)
            &&& fits(rat_add(start_time@, duration@))
        },
    }
}

/// The validated duration and placement of a clip.
#[derive(Clone, Copy, Debug, PartialEq, Eq)]
pub struct ClipTiming {
    duration: RationalTime,
    placement: ClipPlacement,
}

impl View for ClipTiming {
    type V = (RationalTime, ClipPlacement);

    closed spec fn view(&self) -> (RationalTime, ClipPlacement) {
        (self.duration, self.placement)
    }
}

impl ClipTiming {
    #[verifier::type_invariant]
    pub open spec fn inv(self) -> bool {
        timing_valid(self@.0, self@.1)
    }
}

#[derive(Clone, Debug, PartialEq, Eq)]
pub struct Clip {
    pub id: ClipId,
    pub kind: ClipKind,
    pub timing: ClipTiming,
}

impl Clip {
    pub open spec fn spec_duration(&self) -> RationalTime {
        self.timing@.0
    }

    pub open spec fn spec_placement(&self) -> ClipPlacement {
        self.timing@.1
    }

    /// The start time of a fixed clip.
    pub open spec fn spec_start(&self) -> RationalTime
        recommends
            self.spec_placement() is Fixed,
    {
        self.spec_placement()->start_time
    }

    /// The exact end time of a fixed clip.
    pub open spec fn spec_end(&self) -> (int, int)
        recommends
            self.spec_placement() is Fixed,
    {
        rat_add(self.spec_start()@, self.spec_duration()@)
    }

    /// Every clip satisfies this (it is the invariant of its timing).
    pub open spec fn wf(&self) -> bool {
        timing_valid(self.spec_duration(), self.spec_placement())
    }

    /// Construct a clip for a flow track. No timeline position is stored;
    /// position is the prefix sum of preceding clip durations.
    pub fn flow(id: ClipId, kind: ClipKind, duration: RationalTime) -> (r: Result<Self, ClipError>)
        ensures
            match r {
                Ok(c) => {
                    &&& is_positive(duration)
                    &&& kind_times_valid(kind)
                    &&& c.id == id
                    &&& c.kind == kind
                    &&& c.spec_duration() == duration
                    &&& c.spec_placement() == ClipPlacement::Flow
                    &&& c.wf()
                },
                Err(ClipError::InvalidDuration) => !is_positive(duration),
                Err(ClipError::NegativeTime) => is_positive(duration) && !kind_times_valid(kind),
                Err(ClipError::TimeOverflow) => false,
            },
    {
        validate_duration(duration)?;
        validate_kind_time(&kind)?;
        proof {
            use_type_invariant(&duration);
        }
        Ok(Clip { id, kind, timing: ClipTiming { duration, placement: ClipPlacement::Flow } })
    }

    /// Construct a clip for a fixed track at an explicit timeline position.
    pub fn fixed(id: ClipId, kind: ClipKind, start_time: RationalTime, duration: RationalTime) -> (r:
        Result<Self, ClipError>)
        ensures
            match r {
                Ok(c) => {
                    &&& is_positive(duration)
                    &&& !is_negative(start_time)
                    &&& kind_times_valid(kind)
                    &&& fits(rat_add(start_time@, duration@))
                    &&& c.id == id
                    &&& c.kind == kind
                    &&& c.spec_duration() == duration
                    &&& c.spec_placement() == (ClipPlacement::Fixed { start_time })
                    &&& c.wf()
                },
                Err(ClipError::InvalidDuration) => !is_positive(duration),
                Err(ClipError::NegativeTime) => is_positive(duration) && (is_negative(start_time)
                    || !kind_times_valid(kind)),
                Err(ClipError::TimeOverflow) => {
                    &&& is_positive(duration)
                    &&& !is_negative(start_time)
                    &&& kind_times_valid(kind)
                    &&& !fits(rat_add(start_time@, duration@))
                },
            },
    {
        validate_duration(duration)?;
        validate_non_negative(start_time)?;
        validate_kind_time(&kind)?;
        match start_time.add(duration) {
            Ok(_) => {},
            Err(_) => return Err(ClipError::TimeOverflow),
        }
        proof {
            use_type_invariant(&duration);
            use_type_invariant(&start_time);
        }
        Ok(
            Clip {
                id,
                kind,
                timing: ClipTiming { duration, placement: ClipPlacement::Fixed { start_time } },
            },
        )
    }

    pub fn duration(&self) -> (r: RationalTime)
        ensures
            r == self.spec_duration(),
    {
        self.timing.duration
    }

    pub fn placement(&self) -> (r: ClipPlacement)
        ensures
            r == self.spec_placement(),
    {
        self.timing.placement
    }

    /// The explicit start of a fixed clip; `None` for a flow clip.
    pub fn start_time(&self) -> (r: Option<RationalTime>)
        ensures
            r == match self.spec_placement() {
                ClipPlacement::Flow => None,
                ClipPlacement::Fixed { start_time } => Some(start_time),
            },
    {
        match self.timing.placement {
            ClipPlacement::Flow => None,
            ClipPlacement::Fixed { start_time } => Some(start_time),
        }
    }

    /// The exact end of a fixed clip; `Ok(None)` for a flow clip.
    pub fn fixed_end_time(&self) -> (r: Result<Option<RationalTime>, TimeError>)
        ensures
            match self.spec_placement() {
                ClipPlacement::Flow => r == Ok::<Option<RationalTime>, TimeError>(None),
                ClipPlacement::Fixed { start_time } => match r {
                    Ok(Some(end)) => fits(rat_add(start_time@, self.spec_duration()@)) && end@
                        == rat_add(start_time@, self.spec_duration()@),
                    Ok(None) => false,
                    Err(e) => e == TimeError::Overflow && !fits(
                        rat_add(start_time@, self.spec_duration()@),
                    ),
                },
            },
    {
        match self.timing.placement {
            ClipPlacement::Flow => Ok(None),
            ClipPlacement::Fixed { start_time } => match start_time.add(self.timing.duration) {
                Ok(end) => Ok(Some(end)),
                Err(e) => Err(e),
            },
        }
    }
}

impl ClipKind {
    pub fn category(&self) -> (r: ClipCategory)
        ensures
            r == kind_category(*self),
    {
        match self {
            ClipKind::Video(_) | ClipKind::Image(_) | ClipKind::Compound(_) => ClipCategory::Video,
            ClipKind::Audio(_) => ClipCategory::Audio,
            ClipKind::Text(_) => ClipCategory::Text,
            ClipKind::Vector(_) => ClipCategory::Vector,
            ClipKind::Adjustment(_) => ClipCategory::Adjustment,
            ClipKind::Effect(_) => ClipCategory::Effect,
            ClipKind::Spacer => ClipCategory::Spacer,
        }
    }
}

impl VideoClip {
    pub fn new(asset_id: AssetId, source_start: RationalTime) -> (r: Result<Self, ClipError>)
        ensures
            match r {
                Ok(v) => !is_negative(source_start) && v.asset_id == asset_id && v.source_start
                    == source_start,
                Err(e) => e == ClipError::NegativeTime && is_negative(source_start),
            },
    {
        validate_non_negative(source_start)?;
        Ok(VideoClip { asset_id, source_start })
    }
}

impl AudioClip {
    pub fn new(asset_id: AssetId, source_start: RationalTime) -> (r: Result<Self, ClipError>)
        ensures
            match r {
                Ok(a) => !is_negative(source_start) && a.asset_id == asset_id && a.source_start
                    == source_start,
                Err(e) => e == ClipError::NegativeTime && is_negative(source_start),
            },
    {
        validate_non_negative(source_start)?;
        Ok(AudioClip { asset_id, source_start })
    }
}

fn validate_duration(duration: RationalTime) -> (r: Result<(), ClipError>)
    ensures
        match r {
            Ok(()) => is_positive(duration),
            Err(e) => e == ClipError::InvalidDuration && !is_positive(duration),
        },
{
    let zero = RationalTime::zero();
    if !zero.lt(&duration) {
        return Err(ClipError::InvalidDuration);
    }
    Ok(())
}

fn validate_non_negative(value: RationalTime) -> (r: Result<(), ClipError>)
    ensures
        match r {
            Ok(()) => !is_negative(value),
            Err(e) => e == ClipError::NegativeTime && is_negative(value),
        },
{
    let zero = RationalTime::zero();
    if value.lt(&zero) {
        return Err(ClipError::NegativeTime);
    }
    Ok(())
}

fn validate_kind_time(kind: &ClipKind) -> (r: Result<(), ClipError>)
    ensures
        match r {
            Ok(()) => kind_times_valid(*kind),
            Err(e) => e == ClipError::NegativeTime && !kind_times_valid(*kind),
        },
{
    match kind {
        ClipKind::Video(clip) => validate_non_negative(clip.source_start),
        ClipKind::Audio(clip) => validate_non_negative(clip.source_start),
        _ => Ok(()),
    }
}

} // verus!
