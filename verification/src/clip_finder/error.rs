use vstd::prelude::*;

use crate::clip_finder::model::CandidateId;
use crate::rational::TimeError;

verus! {

/// Ways clip discovery can refuse its input.
#[derive(Clone, Debug, PartialEq, Eq)]
pub enum ClipFinderError {
    /// The transcript has no segments.
    EmptyTranscript,
    /// The transcript segment at `index` has empty text.
    EmptySegmentText { index: usize },
    /// The transcript segment at `index` starts before zero.
    NegativeSegmentTime { index: usize },
    /// The transcript segment at `index` does not end after it starts.
    InvalidSegmentDuration { index: usize },
    /// The transcript segment at `index` overlaps or precedes the previous segment.
    SegmentsOutOfOrder { index: usize },
    /// Clip durations must satisfy `0 < min <= target <= max`.
    InvalidDurationRange,
    /// The clip profile id and label must not be empty.
    InvalidProfile,
    /// The suggestion and candidate limits must be greater than zero.
    InvalidRequestLimit,
    /// The maximum overlap must be between 0 and 100 percent.
    InvalidOverlapPercent,
    /// Candidate batch limits must be greater than zero.
    InvalidBatchLimit,
    /// An evaluation references an unknown candidate.
    UnknownCandidate(CandidateId),
    /// A candidate was evaluated more than once.
    DuplicateEvaluation(CandidateId),
    /// A score of the candidate's evaluation is not a finite number in `[0, 1]`.
    InvalidEvaluationScore { candidate_id: CandidateId, field: &'static str },
    /// Ranking weights must be finite, non-negative, and have a positive total.
    InvalidRankingWeights,
    /// Exact time arithmetic failed.
    Time(TimeError),
}

} // verus!
