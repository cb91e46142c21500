use vstd::prelude::*;

use crate::clip_finder::error::ClipFinderError;
use crate::rational::TimeError;

verus! {

/// Ways the discovery workflow can refuse a request.
#[derive(Clone, Debug, PartialEq, Eq)]
pub enum DiscoveryError {
    /// The prompt is empty or white space.
    EmptyPrompt,
    /// `suggestion_limit` is outside `1..=MAX_SUGGESTIONS`.
    SuggestionLimitOutOfRange,
    /// `candidate_limit` is outside `1..=MAX_CANDIDATES`.
    CandidateLimitOutOfRange,
    /// `batch_candidate_limit` is outside `1..=MAX_BATCH_CANDIDATES`.
    BatchCandidateLimitOutOfRange,
    /// `batch_transcript_char_limit` is outside `1..=MAX_BATCH_CHARS`.
    BatchCharLimitOutOfRange,
    /// Exactly one of the aspect sides was given, or a side was zero.
    AspectRatioMismatch,
    /// Exact time arithmetic failed.
    Time(TimeError),
    /// Clip finding refused the request or transcript.
    Finder(ClipFinderError),
    /// A time is not a whole number of milliseconds.
    NotWholeMillis,
    /// A time in milliseconds does not fit an `i64`.
    MillisOverflow,
    /// The transcript has no segments.
    NoSegments,
    /// No candidate fits the requested duration.
    NoCandidates,
    /// The session counter cannot be advanced.
    SessionCounterOverflow,
    /// No session has been started.
    NoActiveSession,
    /// The requested session was replaced by the one named here.
    InactiveSession { active: String },
    /// The batch index is not below the number of batches.
    BatchOutOfRange { index: usize, count: usize },
    /// A submission holds no evaluations.
    EmptySubmission,
    /// The candidate is not part of the session.
    UnknownCandidate(u64),
    /// The candidate already has a stored evaluation.
    AlreadyEvaluated(u64),
    /// The candidate appears more than once in one submission.
    RepeatedInSubmission(u64),
    /// A score of the candidate's evaluation is not a number from 0 to 1.
    InvalidScore { candidate_id: u64, field: &'static str },
    /// The trimmed title is empty or longer than 120 characters.
    InvalidTitle(u64),
    /// The trimmed reason is empty or longer than 500 characters.
    InvalidReason(u64),
    /// More than 12 keywords, or one that is blank or longer than 80 characters.
    InvalidKeywords(u64),
    /// Candidates remain unevaluated and a partial result was not allowed.
    Unevaluated(usize),
    /// No evaluation has been submitted.
    NoEvaluations,
}

} // verus!
