//! The data of one clip-finding run.
use vstd::prelude::*;

use crate::clip_finder::error::ClipFinderError;
use crate::clip_finder::text::{is_blank, trim};
use crate::rational::{fits, rat_lt, rat_sub, rat_zero, RationalTime, TimeError};

verus! {

/// One contiguous, time-coded portion of a transcript.
#[derive(Clone, Debug, PartialEq, Eq)]
pub struct TranscriptSegment {
    pub start: RationalTime,
    pub end: RationalTime,
    pub text: String,
    pub speaker: Option<String>,
}

/// Accepted duration bounds for a generated clip.
#[derive(Clone, Copy, Debug, PartialEq, Eq, Structural)]
pub struct DurationRange {
    pub min: RationalTime,
    pub target: RationalTime,
    pub max: RationalTime,
}

/// `0 < min <= target <= max`.
pub open spec fn duration_range_valid(d: DurationRange) -> bool {
    &&& rat_lt(rat_zero(), d.min@)
    &&& !rat_lt(d.target@, d.min@)
    &&& !rat_lt(d.max@, d.target@)
}

/// Output aspect ratio requested by a publishing profile.
#[derive(Clone, Copy, Debug, PartialEq, Eq, Structural)]
pub struct AspectRatio {
    pub width: u32,
    pub height: u32,
}

/// Data-driven publishing profile: duration guidance lives in values of
/// this type, not in candidate-generation code.
#[derive(Clone, Debug, PartialEq, Eq)]
pub struct ClipProfile {
    pub id: String,
    pub label: String,
    pub duration: DurationRange,
    pub aspect_ratio: Option<AspectRatio>,
    pub instructions: String,
}

/// One clip-finding run.
#[derive(Clone, Debug, PartialEq, Eq)]
pub struct ClipRequest {
    pub profile: ClipProfile,
    pub prompt: String,
    pub suggestion_limit: usize,
    pub candidate_limit: usize,
    /// Maximum permitted overlap with an already selected suggestion.
    pub max_overlap_percent: u8,
}

/// The first problem `ClipRequest::validate` finds, if any.
pub open spec fn request_error(r: ClipRequest) -> Option<ClipFinderError> {
    if trim(r.profile.id@).len() == 0 || trim(r.profile.label@).len() == 0 {
        Some(ClipFinderError::InvalidProfile)
    } else if !duration_range_valid(r.profile.duration) {
        Some(ClipFinderError::InvalidDurationRange)
    } else if r.suggestion_limit == 0 || r.candidate_limit == 0 {
        Some(ClipFinderError::InvalidRequestLimit)
    } else if r.max_overlap_percent > 100 {
        Some(ClipFinderError::InvalidOverlapPercent)
    } else {
        None
    }
}

/// Stable identifier for a candidate within one transcript analysis run.
#[derive(Clone, Copy, Debug, PartialEq, Eq, Hash, Structural)]
pub struct CandidateId(u64);

impl View for CandidateId {
    type V = u64;

    closed spec fn view(&self) -> u64 {
        self.0
    }
}

/// A transcript-aligned window ready to be evaluated.
#[derive(Debug, PartialEq, Eq)]
pub struct ClipCandidate {
    pub id: CandidateId,
    pub start: RationalTime,
    pub end: RationalTime,
    pub start_segment: usize,
    /// Exclusive segment index.
    pub end_segment: usize,
    pub transcript: String,
    pub word_count: usize,
}

/// A bounded payload suitable for one external-model request.
#[derive(Debug, PartialEq, Eq)]
pub struct CandidateBatch {
    pub candidates: Vec<ClipCandidate>,
    pub transcript_chars: usize,
}

impl DurationRange {
    pub fn new(min: RationalTime, target: RationalTime, max: RationalTime) -> (r: Result<
        Self,
        ClipFinderError,
    >)
        ensures
            match r {
                Ok(d) => duration_range_valid(d) && d.min == min && d.target == target && d.max
                    == max,
                Err(e) => e == ClipFinderError::InvalidDurationRange && !duration_range_valid(
                    DurationRange { min, target, max },
                ),
            },
    {
        let range = DurationRange { min, target, max };
        range.validate()?;
        Ok(range)
    }

    pub(crate) fn validate(&self) -> (r: Result<(), ClipFinderError>)
        ensures
            r is Ok <==> duration_range_valid(*self),
            r matches Err(e) ==> e == ClipFinderError::InvalidDurationRange,
    {
        let zero = RationalTime::zero();
        if !zero.lt(&self.min) || self.target.lt(&self.min) || self.max.lt(&self.target) {
            return Err(ClipFinderError::InvalidDurationRange);
        }
        Ok(())
    }
}

impl ClipRequest {
    /// Check the profile, duration range, limits and overlap percentage, in that order.
    pub fn validate(&self) -> (r: Result<(), ClipFinderError>)
        ensures
            r is Ok <==> request_error(*self) is None,
            r matches Err(e) ==> request_error(*self) == Some(e),
    {
        if is_blank(self.profile.id.as_str()) || is_blank(self.profile.label.as_str()) {
            return Err(ClipFinderError::InvalidProfile);
        }
        self.profile.duration.validate()?;
        if self.suggestion_limit == 0 || self.candidate_limit == 0 {
            return Err(ClipFinderError::InvalidRequestLimit);
        }
        if self.max_overlap_percent > 100 {
            return Err(ClipFinderError::InvalidOverlapPercent);
        }
        Ok(())
    }
}

impl CandidateId {
    pub fn new(value: u64) -> (r: Self)
        ensures
            r@ == value,
    {
        CandidateId(value)
    }

    pub fn raw(self) -> (r: u64)
        ensures
            r == self@,
    {
        self.0
    }

    /// Ids with the same raw value are the same id.
    pub proof fn lemma_view_injective(a: Self, b: Self)
        requires
            a@ == b@,
        ensures
            a == b,
    {
    }
}

impl ClipCandidate {
    /// The exact length `end - start` of the candidate.
    pub fn duration(&self) -> (r: Result<RationalTime, ClipFinderError>)
        ensures
            match r {
                Ok(d) => fits(rat_sub(self.end@, self.start@)) && d@ == rat_sub(
                    self.end@,
                    self.start@,
                ),
                Err(e) => e == ClipFinderError::Time(TimeError::Overflow) && !fits(
                    rat_sub(self.end@, self.start@),
                ),
            },
    {
        match self.end.sub(self.start) {
            Ok(d) => Ok(d),
            Err(e) => Err(ClipFinderError::Time(e)),
        }
    }
}

impl Clone for ClipCandidate {
    fn clone(&self) -> (r: Self)
        ensures
            r == *self,
    {
        ClipCandidate {
            id: self.id,
            start: self.start,
            end: self.end,
            start_segment: self.start_segment,
            end_segment: self.end_segment,
            transcript: self.transcript.clone(),
            word_count: self.word_count,
        }
    }
}

} // verus!
