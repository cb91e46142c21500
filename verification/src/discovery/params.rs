//! Requests and replies of the discovery workflow, and the checks and
//! conversions between them and the clip-finding model.
use vstd::prelude::*;

use crate::clip_finder::error::ClipFinderError;
use crate::clip_finder::model::{
    duration_range_valid, request_error, AspectRatio, ClipCandidate, ClipProfile, ClipRequest,
    DurationRange,
};
use crate::clip_finder::text::{char_count, is_blank, lemma_trim_idempotent, trim, trimmed};
use crate::discovery::error::DiscoveryError;
use crate::rational::{abs, canonical, fits, rat_lt, rat_sub, rat_zero, reduce, RationalTime, lemma_reduce_reduced};

verus! {

/// Most candidates one session may generate.
pub const MAX_CANDIDATES: usize = 2_000;

/// Most suggestions one session may return.
pub const MAX_SUGGESTIONS: usize = 100;

/// Most candidates in one batch.
pub const MAX_BATCH_CANDIDATES: usize = 100;

/// Most transcript characters in one batch.
pub const MAX_BATCH_CHARS: usize = 250_000;

/// Longest trimmed evaluation title, in characters.
pub const MAX_TITLE_CHARS: usize = 120;

/// Longest trimmed evaluation reason, in characters.
pub const MAX_REASON_CHARS: usize = 500;

/// Most keywords on one evaluation.
pub const MAX_KEYWORDS: usize = 12;

/// Longest keyword, in characters.
pub const MAX_KEYWORD_CHARS: usize = 80;

/// A publishing profile as a client describes it, with millisecond durations.
#[derive(Clone, Debug, PartialEq, Eq)]
pub struct ClipProfileInput {
    pub id: String,
    pub label: String,
    pub min_duration_ms: i64,
    pub target_duration_ms: i64,
    pub max_duration_ms: i64,
    pub aspect_width: Option<u32>,
    pub aspect_height: Option<u32>,
    pub instructions: String,
}

/// A request to start a discovery session.
#[derive(Clone, Debug, PartialEq, Eq)]
pub struct StartClipDiscoveryParams {
    pub transcript_path: String,
    pub prompt: String,
    pub profile: ClipProfileInput,
    pub suggestion_limit: usize,
    pub candidate_limit: usize,
    pub max_overlap_percent: u8,
    pub batch_candidate_limit: usize,
    pub batch_transcript_char_limit: usize,
}

/// The reply to a started session.
#[derive(Clone, Debug, PartialEq, Eq)]
pub struct StartClipDiscoveryOutput {
    pub session_id: String,
    pub source_transcript: String,
    pub source_duration_ms: i64,
    pub candidate_count: usize,
    pub batch_count: usize,
    pub suggestion_limit: usize,
    pub next_action: String,
}

/// A request for one candidate batch.
#[derive(Clone, Debug, PartialEq, Eq)]
pub struct GetCandidateBatchParams {
    pub session_id: String,
    pub batch_index: usize,
}

/// How a scorer should read each score.
#[derive(Clone, Debug, PartialEq, Eq)]
pub struct ScoringRubric {
    pub hook: String,
    pub relevance: String,
    pub coherence: String,
    pub standalone: String,
}

/// One candidate as a scorer sees it, with millisecond times.
#[derive(Clone, Debug, PartialEq, Eq)]
pub struct CandidateView {
    pub candidate_id: u64,
    pub start_ms: i64,
    pub end_ms: i64,
    pub duration_ms: i64,
    pub transcript: String,
    pub word_count: usize,
    pub already_evaluated: bool,
}

/// One batch of candidates together with what a scorer needs to judge them.
#[derive(Clone, Debug, PartialEq, Eq)]
pub struct CandidateBatchOutput {
    pub session_id: String,
    pub batch_index: usize,
    pub batch_count: usize,
    pub prompt: String,
    pub profile_label: String,
    pub profile_instructions: String,
    pub rubric: ScoringRubric,
    pub candidates: Vec<CandidateView>,
}

/// The reply to an accepted submission.
#[derive(Clone, Debug, PartialEq, Eq)]
pub struct SubmitCandidateEvaluationsOutput {
    pub session_id: String,
    pub accepted_count: usize,
    pub evaluated_count: usize,
    pub remaining_count: usize,
    pub ready_to_finalize: bool,
}

/// A request for the progress of a session.
#[derive(Clone, Debug, PartialEq, Eq)]
pub struct ClipDiscoveryStatusParams {
    pub session_id: String,
}

/// The progress of a session.
#[derive(Clone, Debug, PartialEq, Eq)]
pub struct ClipDiscoveryStatusOutput {
    pub session_id: String,
    pub source_transcript: String,
    pub candidate_count: usize,
    pub evaluated_count: usize,
    pub remaining_count: usize,
    pub batch_count: usize,
    pub unevaluated_batch_indexes: Vec<usize>,
    pub ready_to_finalize: bool,
}

/// The checked text of one evaluation: trimmed title, reason and keywords.
#[derive(Clone, Debug, PartialEq, Eq)]
pub struct EvaluationText {
    pub title: String,
    pub reason: String,
    pub keywords: Vec<String>,
}

// ---------------------------------------------------------------------------
// specifications
// ---------------------------------------------------------------------------

/// The first limit of a start request that is out of range, in the order
/// prompt, suggestions, candidates, batch candidates, batch characters.
pub open spec fn start_limits_error(p: StartClipDiscoveryParams) -> Option<DiscoveryError> {
    if trim(p.prompt@).len() == 0 {
        Some(DiscoveryError::EmptyPrompt)
    } else if p.suggestion_limit == 0 || p.suggestion_limit > MAX_SUGGESTIONS {
        Some(DiscoveryError::SuggestionLimitOutOfRange)
    } else if p.candidate_limit == 0 || p.candidate_limit > MAX_CANDIDATES {
        Some(DiscoveryError::CandidateLimitOutOfRange)
    } else if p.batch_candidate_limit == 0 || p.batch_candidate_limit > MAX_BATCH_CANDIDATES {
        Some(DiscoveryError::BatchCandidateLimitOutOfRange)
    } else if p.batch_transcript_char_limit == 0 || p.batch_transcript_char_limit > MAX_BATCH_CHARS {
        Some(DiscoveryError::BatchCharLimitOutOfRange)
    } else {
        None
    }
}

/// The aspect ratio the two optional sides ask for: none, or both positive.
pub open spec fn requested_aspect(width: Option<u32>, height: Option<u32>) -> Result<
    Option<AspectRatio>,
    DiscoveryError,
> {
    match (width, height) {
        (None, None) => Ok(None),
        (Some(w), Some(h)) => if w > 0 && h > 0 {
            Ok(Some(AspectRatio { width: w, height: h }))
        } else {
            Err(DiscoveryError::AspectRatioMismatch)
        },
        _ => Err(DiscoveryError::AspectRatioMismatch),
    }
}

/// `ms` milliseconds as a reduced fraction of seconds.
pub open spec fn millis_time(ms: int) -> (int, int) {
    canonical(ms, 1000)
}

/// The time `t` in whole milliseconds, or why it has none in an `i64`.
pub open spec fn millis_of(t: (int, int)) -> Result<int, DiscoveryError> {
    let m: int = abs(t.0) as int * 1000;
    if m % t.1 != 0 {
        Err(DiscoveryError::NotWholeMillis)
    } else {
        let q = if t.0 < 0 {
            -(m / t.1)
        } else {
            m / t.1
        };
        if i64::MIN <= q <= i64::MAX {
            Ok(q)
        } else {
            Err(DiscoveryError::MillisOverflow)
        }
    }
}

/// `0 < min <= target <= max` on the three profile durations.
pub open spec fn profile_durations_valid(p: ClipProfileInput) -> bool {
    let min = millis_time(p.min_duration_ms as int);
    let target = millis_time(p.target_duration_ms as int);
    let max = millis_time(p.max_duration_ms as int);
    &&& rat_lt(rat_zero(), min)
    &&& !rat_lt(target, min)
    &&& !rat_lt(max, target)
}

/// Why a start request does not describe a valid clip request, if it does not:
/// the aspect sides, then the durations, then the request's own checks on
/// its trimmed texts.
pub open spec fn request_input_error(p: StartClipDiscoveryParams) -> Option<DiscoveryError> {
    if requested_aspect(p.profile.aspect_width, p.profile.aspect_height) is Err {
        Some(DiscoveryError::AspectRatioMismatch)
    } else if !profile_durations_valid(p.profile) {
        Some(DiscoveryError::Finder(ClipFinderError::InvalidDurationRange))
    } else if trim(p.profile.id@).len() == 0 || trim(p.profile.label@).len() == 0 {
        Some(DiscoveryError::Finder(ClipFinderError::InvalidProfile))
    } else if p.suggestion_limit == 0 || p.candidate_limit == 0 {
        Some(DiscoveryError::Finder(ClipFinderError::InvalidRequestLimit))
    } else if p.max_overlap_percent > 100 {
        Some(DiscoveryError::Finder(ClipFinderError::InvalidOverlapPercent))
    } else {
        None
    }
}

/// `r` is the clip request a start request describes: trimmed texts,
/// millisecond durations, the aspect ratio and the limits.
pub open spec fn request_built(p: StartClipDiscoveryParams, r: ClipRequest) -> bool {
    &&& r.profile.id@ == trim(p.profile.id@)
    &&& r.profile.label@ == trim(p.profile.label@)
    &&& r.profile.instructions@ == trim(p.profile.instructions@)
    &&& r.profile.duration.min@ == millis_time(p.profile.min_duration_ms as int)
    &&& r.profile.duration.target@ == millis_time(p.profile.target_duration_ms as int)
    &&& r.profile.duration.max@ == millis_time(p.profile.max_duration_ms as int)
    &&& requested_aspect(p.profile.aspect_width, p.profile.aspect_height) == Ok::<
        Option<AspectRatio>,
        DiscoveryError,
    >(r.profile.aspect_ratio)
    &&& r.prompt@ == trim(p.prompt@)
    &&& r.suggestion_limit == p.suggestion_limit
    &&& r.candidate_limit == p.candidate_limit
    &&& r.max_overlap_percent == p.max_overlap_percent
}

/// The first time of candidate `c` (start, end, then length) that has no
/// whole-millisecond `i64` value, if any.
pub open spec fn candidate_view_error(c: ClipCandidate) -> Option<DiscoveryError> {
    let length = rat_sub(c.end@, c.start@);
    if millis_of(c.start@) is Err {
        Some(millis_of(c.start@)->Err_0)
    } else if millis_of(c.end@) is Err {
        Some(millis_of(c.end@)->Err_0)
    } else if !fits(length) {
        Some(DiscoveryError::Finder(ClipFinderError::Time(crate::rational::TimeError::Overflow)))
    } else if millis_of(length) is Err {
        Some(millis_of(length)->Err_0)
    } else {
        None
    }
}

/// `v` shows candidate `c` with its times in whole milliseconds.
pub open spec fn candidate_view_fields(v: CandidateView, c: ClipCandidate, already_evaluated: bool) -> bool {
    &&& v.candidate_id == c.id@
    &&& v.start_ms == millis_of(c.start@)->Ok_0
    &&& v.end_ms == millis_of(c.end@)->Ok_0
    &&& v.duration_ms == millis_of(rat_sub(c.end@, c.start@))->Ok_0
    &&& v.transcript == c.transcript
    &&& v.word_count == c.word_count
    &&& v.already_evaluated == already_evaluated
}

/// The rubric's texts: each score runs from 0 to 1 and measures the
/// opening's hook, the fit to the request, the completeness of the idea, and
/// how well the clip stands alone.
pub open spec fn default_rubric(r: ScoringRubric) -> bool {
    &&& r.hook@ == "0 to 1: strength of the opening in stopping a scroll"@
    &&& r.relevance@ == "0 to 1: fit to the user's prompt and publishing profile"@
    &&& r.coherence@ == "0 to 1: completeness and clarity of the idea"@
    &&& r.standalone@ == "0 to 1: how well it works without surrounding context"@
}

/// Why an evaluation's text is refused, if it is: the trimmed title, the
/// trimmed reason, then the keywords.
pub open spec fn evaluation_text_error(
    candidate_id: u64,
    title: Seq<char>,
    reason: Seq<char>,
    keywords: Seq<Seq<char>>,
) -> Option<DiscoveryError> {
    if trim(title).len() == 0 || trim(title).len() > MAX_TITLE_CHARS {
        Some(DiscoveryError::InvalidTitle(candidate_id))
    } else if trim(reason).len() == 0 || trim(reason).len() > MAX_REASON_CHARS {
        Some(DiscoveryError::InvalidReason(candidate_id))
    } else if keywords.len() > MAX_KEYWORDS || exists|k: int|
        0 <= k < keywords.len() && (trim(#[trigger] keywords[k]).len() == 0 || keywords[k].len()
            > MAX_KEYWORD_CHARS) {
        Some(DiscoveryError::InvalidKeywords(candidate_id))
    } else {
        None
    }
}

/// Timestamps stay exact: a whole number of milliseconds, taken as an exact
/// time, gives back the same milliseconds.
pub proof fn law_millis_round_trip(ms: i64)
    ensures
        millis_of(millis_time(ms as int)) == Ok::<int, DiscoveryError>(ms as int),
{
    let n = ms as int;
    lemma_reduce_reduced(n, 1000);
    let a = abs(n) as int;
    let g = crate::rational::gcd(abs(n), 1000) as int;
    vstd::arithmetic::div_mod::lemma_fundamental_div_mod(a, g);
    vstd::arithmetic::div_mod::lemma_fundamental_div_mod(1000int, g);
    let a2 = a / g;
    let d2 = 1000int / g;
    assert(a == g * a2);
    assert(1000int == g * d2);
    assert(d2 > 0) by (nonlinear_arith)
        requires
            1000int == g * d2,
            g > 0,
    ;
    assert(a2 >= 0) by (nonlinear_arith)
        requires
            a == g * a2,
            g > 0,
            a >= 0,
    ;
    let t = millis_time(n);
    assert(t == reduce(n, 1000));
    assert(abs(t.0) == a2);
    assert(t.1 == d2);
    let m = a2 * 1000;
    assert(m == a * d2) by (nonlinear_arith)
        requires
            m == a2 * 1000,
            a == g * a2,
            1000int == g * d2,
    ;
    vstd::arithmetic::div_mod::lemma_mod_multiples_basic(a, d2);
    vstd::arithmetic::div_mod::lemma_div_multiples_vanish(a, d2);
    assert(m % d2 == 0);
    assert(m / d2 == a);
}

// ---------------------------------------------------------------------------
// executable code
// ---------------------------------------------------------------------------

/// Check the limits of a start request: a non-blank prompt, then each limit
/// within its range.
pub fn validate_start_limits(params: &StartClipDiscoveryParams) -> (r: Result<(), DiscoveryError>)
    ensures
        match start_limits_error(*params) {
            Some(e) => r == Err::<(), DiscoveryError>(e),
            None => r is Ok,
        },
{
    if is_blank(params.prompt.as_str()) {
        return Err(DiscoveryError::EmptyPrompt);
    }
    if params.suggestion_limit == 0 || params.suggestion_limit > MAX_SUGGESTIONS {
        return Err(DiscoveryError::SuggestionLimitOutOfRange);
    }
    if params.candidate_limit == 0 || params.candidate_limit > MAX_CANDIDATES {
        return Err(DiscoveryError::CandidateLimitOutOfRange);
    }
    if params.batch_candidate_limit == 0 || params.batch_candidate_limit > MAX_BATCH_CANDIDATES {
        return Err(DiscoveryError::BatchCandidateLimitOutOfRange);
    }
    if params.batch_transcript_char_limit == 0 || params.batch_transcript_char_limit
        > MAX_BATCH_CHARS {
        return Err(DiscoveryError::BatchCharLimitOutOfRange);
    }
    Ok(())
}

/// A whole number of milliseconds as an exact time; every `i64` has one.
pub fn millis_to_rational(milliseconds: i64) -> (r: Result<RationalTime, DiscoveryError>)
    ensures
        r matches Ok(t) && t@ == millis_time(milliseconds as int),
{
    proof {
        let n = milliseconds as int;
        lemma_reduce_reduced(n, 1000);
        let a = abs(n) as int;
        let g = crate::rational::gcd(abs(n), 1000) as int;
        vstd::arithmetic::div_mod::lemma_fundamental_div_mod(a, g);
        vstd::arithmetic::div_mod::lemma_fundamental_div_mod(1000int, g);
        assert(0 <= a / g <= a) by (nonlinear_arith)
            requires
                a == g * (a / g),
                g > 0,
                a >= 0,
        ;
        assert(0 < 1000int / g <= 1000) by (nonlinear_arith)
            requires
                1000int == g * (1000int / g),
                g > 0,
        ;
        assert(fits(reduce(n, 1000)));
    }
    match RationalTime::new(milliseconds, 1_000) {
        Ok(t) => Ok(t),
        Err(e) => Err(DiscoveryError::Time(e)),
    }
}

/// A time as whole milliseconds, refused when it is not a whole number of
/// milliseconds or does not fit an `i64`.
pub fn rational_to_millis(time: RationalTime) -> (r: Result<i64, DiscoveryError>)
    ensures
        match millis_of(time@) {
            Ok(v) => r == Ok::<i64, DiscoveryError>(v as i64),
            Err(e) => r == Err::<i64, DiscoveryError>(e),
        },
{
    let numer = time.numer();
    let denom = time.denom();
    let magnitude: u128 = if numer < 0 {
        (-(numer as i128)) as u128
    } else {
        numer as u128
    };
    assert(magnitude == abs(time@.0));
    let scaled: u128 = magnitude * 1000;
    let d: u128 = denom as u128;
    if scaled % d != 0 {
        return Err(DiscoveryError::NotWholeMillis);
    }
    let q: u128 = scaled / d;
    if numer < 0 {
        if q > 0x8000_0000_0000_0000u128 {
            return Err(DiscoveryError::MillisOverflow);
        }
        Ok((-(q as i128)) as i64)
    } else {
        if q > 0x7fff_ffff_ffff_ffffu128 {
            return Err(DiscoveryError::MillisOverflow);
        }
        Ok(q as i64)
    }
}

impl StartClipDiscoveryParams {
    /// The clip request this start request describes: the aspect sides must
    /// both be positive or both be absent, durations are whole milliseconds,
    /// texts are trimmed, and the result must pass the request's own checks.
    pub fn to_request(&self) -> (r: Result<ClipRequest, DiscoveryError>)
        ensures
            match request_input_error(*self) {
                Some(e) => r == Err::<ClipRequest, DiscoveryError>(e),
                None => r matches Ok(req) && request_built(*self, req) && request_error(req) is None,
            },
    {
        let aspect_ratio = match (self.profile.aspect_width, self.profile.aspect_height) {
            (None, None) => None,
            (Some(width), Some(height)) => {
                if width > 0 && height > 0 {
                    Some(AspectRatio { width, height })
                } else {
                    return Err(DiscoveryError::AspectRatioMismatch);
                }
            },
            _ => {
                return Err(DiscoveryError::AspectRatioMismatch);
            },
        };
        let min = millis_to_rational(self.profile.min_duration_ms)?;
        let target = millis_to_rational(self.profile.target_duration_ms)?;
        let max = millis_to_rational(self.profile.max_duration_ms)?;
        let duration = match DurationRange::new(min, target, max) {
            Ok(d) => d,
            Err(e) => return Err(DiscoveryError::Finder(e)),
        };
        let request = ClipRequest {
            profile: ClipProfile {
                id: trimmed(self.profile.id.as_str()),
                label: trimmed(self.profile.label.as_str()),
                duration,
                aspect_ratio,
                instructions: trimmed(self.profile.instructions.as_str()),
            },
            prompt: trimmed(self.prompt.as_str()),
            suggestion_limit: self.suggestion_limit,
            candidate_limit: self.candidate_limit,
            max_overlap_percent: self.max_overlap_percent,
        };
        proof {
            lemma_trim_idempotent(self.profile.id@);
            lemma_trim_idempotent(self.profile.label@);
        }
        match request.validate() {
            Ok(()) => Ok(request),
            Err(e) => Err(DiscoveryError::Finder(e)),
        }
    }
}

impl CandidateView {
    /// The candidate with its start, end and length in whole milliseconds.
    pub fn from_candidate(candidate: &ClipCandidate, already_evaluated: bool) -> (r: Result<
        CandidateView,
        DiscoveryError,
    >)
        ensures
            match candidate_view_error(*candidate) {
                Some(e) => r == Err::<CandidateView, DiscoveryError>(e),
                None => r matches Ok(v) && candidate_view_fields(v, *candidate, already_evaluated),
            },
    {
        let start_ms = rational_to_millis(candidate.start)?;
        let end_ms = rational_to_millis(candidate.end)?;
        let length = match candidate.duration() {
            Ok(d) => d,
            Err(e) => return Err(DiscoveryError::Finder(e)),
        };
        let duration_ms = rational_to_millis(length)?;
        Ok(CandidateView {
            candidate_id: candidate.id.raw(),
            start_ms,
            end_ms,
            duration_ms,
            transcript: candidate.transcript.clone(),
            word_count: candidate.word_count,
            already_evaluated,
        })
    }
}

impl ScoringRubric {
    /// What each score from 0 to 1 measures.
    pub fn default() -> (r: ScoringRubric)
        ensures
            default_rubric(r),
    {
        ScoringRubric {
            hook: "0 to 1: strength of the opening in stopping a scroll".to_owned(),
            relevance: "0 to 1: fit to the user's prompt and publishing profile".to_owned(),
            coherence: "0 to 1: completeness and clarity of the idea".to_owned(),
            standalone: "0 to 1: how well it works without surrounding context".to_owned(),
        }
    }
}

impl EvaluationText {
    /// Check and trim an evaluation's title, reason and keywords: the
    /// trimmed title holds 1 to 120 characters, the trimmed reason 1 to 500,
    /// and there are at most 12 keywords, none blank and none longer than 80
    /// characters.
    pub fn validate(candidate_id: u64, title: &str, reason: &str, keywords: &Vec<String>) -> (r:
        Result<EvaluationText, DiscoveryError>)
        ensures
            match evaluation_text_error(
                candidate_id,
                title@,
                reason@,
                keywords@.map_values(|k: String| k@),
            ) {
                Some(e) => r == Err::<EvaluationText, DiscoveryError>(e),
                None => r matches Ok(t) && t.title@ == trim(title@) && t.reason@ == trim(reason@)
                    && t.keywords@.len() == keywords@.len() && forall|k: int|
                    0 <= k < keywords@.len() ==> (#[trigger] t.keywords@[k])@ == trim(keywords@[k]@),
            },
    {
        let ghost kws = keywords@.map_values(|k: String| k@);
        let title_text = trimmed(title);
        let reason_text = trimmed(reason);
        let title_chars = char_count(title_text.as_str());
        if title_chars == 0 || title_chars > MAX_TITLE_CHARS {
            return Err(DiscoveryError::InvalidTitle(candidate_id));
        }
        let reason_chars = char_count(reason_text.as_str());
        if reason_chars == 0 || reason_chars > MAX_REASON_CHARS {
            return Err(DiscoveryError::InvalidReason(candidate_id));
        }
        if keywords.len() > MAX_KEYWORDS {
            return Err(DiscoveryError::InvalidKeywords(candidate_id));
        }
        let mut cleaned: Vec<String> = Vec::new();
        let mut i: usize = 0;
        while i < keywords.len()
            invariant
                i <= keywords@.len() <= MAX_KEYWORDS,
                kws == keywords@.map_values(|k: String| k@),
                title_text@ == trim(title@),
                reason_text@ == trim(reason@),
                0 < title_text@.len() <= MAX_TITLE_CHARS,
                0 < reason_text@.len() <= MAX_REASON_CHARS,
                cleaned@.len() == i,
                forall|k: int| 0 <= k < i ==> (#[trigger] cleaned@[k])@ == trim(keywords@[k]@),
                forall|k: int|
                    0 <= k < i ==> !(trim(#[trigger] kws[k]).len() == 0 || kws[k].len()
                        > MAX_KEYWORD_CHARS),
            decreases keywords@.len() - i,
        {
            let keyword = keywords[i].as_str();
            if is_blank(keyword) || char_count(keyword) > MAX_KEYWORD_CHARS {
                proof {
                    assert(kws[i as int] == keywords@[i as int]@);
                    assert(trim(kws[i as int]).len() == 0 || kws[i as int].len() > MAX_KEYWORD_CHARS);
                }
                return Err(DiscoveryError::InvalidKeywords(candidate_id));
            }
            proof {
                assert(kws[i as int] == keywords@[i as int]@);
            }
            cleaned.push(trimmed(keyword));
            i = i + 1;
        }
        Ok(EvaluationText { title: title_text, reason: reason_text, keywords: cleaned })
    }
}

/// The default number of suggestions.
pub fn default_suggestion_limit() -> (r: usize)
    ensures
        r == 8,
{
    8
}

/// The default number of candidates.
pub fn default_candidate_limit() -> (r: usize)
    ensures
        r == 300,
{
    300
}

/// The default overlap percentage.
pub fn default_overlap_percent() -> (r: u8)
    ensures
        r == 35,
{
    35
}

/// The default number of candidates per batch.
pub fn default_batch_candidate_limit() -> (r: usize)
    ensures
        r == 20,
{
    20
}

/// The default number of transcript characters per batch.
pub fn default_batch_char_limit() -> (r: usize)
    ensures
        r == 40_000,
{
    40_000
}

} // verus!
