//! Editor-core timelines of clips with exact rational times, and
//! transcript-driven discovery of social clips.
pub mod clip_finder;
pub mod clips;
pub mod discovery;
pub mod ids;
pub mod rational;
pub mod review;
pub mod timelines;

pub use clip_finder::candidate::{batch_candidates, generate_candidates};
pub use clip_finder::error::ClipFinderError;
pub use clip_finder::model::{
    AspectRatio, CandidateBatch, CandidateId, ClipCandidate, ClipProfile, ClipRequest,
    DurationRange, TranscriptSegment,
};
pub use clip_finder::ranking::{rank_selection, EvaluationKey};
pub use clips::{
    AdjustmentClip, AudioClip, Clip, ClipCategory, ClipError, ClipKind, ClipPlacement,
    CompoundClip, EffectClip, ImageClip, TextClip, VectorClip, VideoClip,
};
pub use ids::{AssetId, ClipId, TimelineId, TrackId};
pub use rational::{RationalTime, TimeError};
pub use timelines::error::TimelineError;
pub use timelines::timeline::{Timeline, Track, TrackLayout, TrackRole, TrackType};
pub use discovery::error::DiscoveryError;
pub use discovery::params::{
    default_batch_candidate_limit, default_batch_char_limit, default_candidate_limit,
    default_overlap_percent, default_suggestion_limit, millis_to_rational, rational_to_millis,
    validate_start_limits, CandidateBatchOutput, CandidateView, ClipDiscoveryStatusOutput,
    ClipDiscoveryStatusParams, ClipProfileInput, EvaluationText, GetCandidateBatchParams,
    ScoringRubric, StartClipDiscoveryOutput, StartClipDiscoveryParams,
    SubmitCandidateEvaluationsOutput,
};
pub use discovery::session::{
    prepare_discovery, session_id, DiscoverySession, FinalizePlan, PreparedDiscovery, ServerState,
};
pub use review::{ClipReview, ReviewItem, ReviewStatus};
