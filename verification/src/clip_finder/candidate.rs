//! Candidate windows on transcript boundaries, and their batching.
use vstd::prelude::*;

use crate::clip_finder::error::ClipFinderError;
use crate::clip_finder::model::{
    duration_range_valid, request_error, CandidateBatch, CandidateId, ClipCandidate, ClipRequest,
    DurationRange, TranscriptSegment,
};
use crate::clip_finder::text::{
    append_joined, char_count, chars_of, ends_thought, ends_thought_spec, is_blank,
    join_with_spaces, trim, trim_bounds, word_count, word_count_of,
};
use crate::rational::{fits, rat_le, rat_lt, rat_sub, rat_zero, RationalTime, TimeError};

verus! {

// ---------------------------------------------------------------------------
// transcript validation
// ---------------------------------------------------------------------------

/// The first problem with segment `i` of a transcript, if any.
pub open spec fn segment_error(segs: Seq<TranscriptSegment>, i: int) -> Option<ClipFinderError> {
    let s = segs[i];
    if trim(s.text@).len() == 0 {
        Some(ClipFinderError::EmptySegmentText { index: i as usize })
    } else if rat_lt(s.start@, rat_zero()) {
        Some(ClipFinderError::NegativeSegmentTime { index: i as usize })
    } else if !rat_lt(s.start@, s.end@) {
        Some(ClipFinderError::InvalidSegmentDuration { index: i as usize })
    } else if i > 0 && rat_lt(s.start@, segs[i - 1].end@) {
        Some(ClipFinderError::SegmentsOutOfOrder { index: i as usize })
    } else {
        None
    }
}

/// The first problem among segments `i..`, in order.
pub open spec fn first_segment_error(segs: Seq<TranscriptSegment>, i: int) -> Option<
    ClipFinderError,
>
    decreases segs.len() - i,
{
    if i < 0 || i >= segs.len() {
        None
    } else {
        match segment_error(segs, i) {
            Some(e) => Some(e),
            None => first_segment_error(segs, i + 1),
        }
    }
}

/// The first problem with a transcript: empty, or its first bad segment.
pub open spec fn transcript_error(segs: Seq<TranscriptSegment>) -> Option<ClipFinderError> {
    if segs.len() == 0 {
        Some(ClipFinderError::EmptyTranscript)
    } else {
        first_segment_error(segs, 0)
    }
}

proof fn lemma_first_segment_error_skip(segs: Seq<TranscriptSegment>, i: int)
    requires
        0 <= i <= segs.len(),
        forall|j: int| 0 <= j < i ==> segment_error(segs, j) is None,
    ensures
        first_segment_error(segs, 0) == first_segment_error(segs, i),
    decreases i,
{
    if i > 0 {
        lemma_first_segment_error_skip(segs, i - 1);
    }
}

/// A valid transcript: non-empty, each segment has text, starts at or after
/// zero, ends after it starts and does not start before the previous one ends.
pub open spec fn transcript_valid(segs: Seq<TranscriptSegment>) -> bool {
    segs.len() > 0 && forall|i: int| 0 <= i < segs.len() ==> segment_error(segs, i) is None
}

fn validate_transcript(segments: &[TranscriptSegment]) -> (r: Result<(), ClipFinderError>)
    ensures
        r is Ok <==> transcript_error(segments@) is None,
        r matches Err(e) ==> transcript_error(segments@) == Some(e),
        r is Ok ==> transcript_valid(segments@),
{
    let n = segments.len();
    if n == 0 {
        return Err(ClipFinderError::EmptyTranscript);
    }
    let zero = RationalTime::zero();
    let mut index: usize = 0;
    while index < n
        invariant
            n == segments@.len(),
            n > 0,
            zero@ == rat_zero(),
            index <= n,
            forall|j: int| 0 <= j < index ==> segment_error(segments@, j) is None,
        decreases n - index,
    {
        let segment = &segments[index];
        proof {
            lemma_first_segment_error_skip(segments@, index as int);
        }
        if is_blank(segment.text.as_str()) {
            return Err(ClipFinderError::EmptySegmentText { index });
        }
        if segment.start.lt(&zero) {
            return Err(ClipFinderError::NegativeSegmentTime { index });
        }
        if !segment.start.lt(&segment.end) {
            return Err(ClipFinderError::InvalidSegmentDuration { index });
        }
        if index > 0 && segment.start.lt(&segments[index - 1].end) {
            return Err(ClipFinderError::SegmentsOutOfOrder { index });
        }
        index = index + 1;
    }
    proof {
        lemma_first_segment_error_skip(segments@, n as int);
    }
    Ok(())
}

// ---------------------------------------------------------------------------
// window selection
// ---------------------------------------------------------------------------

/// `|a - b|`, when it fits the exact representation.
pub open spec fn abs_distance(a: (int, int), b: (int, int)) -> (int, int) {
    if rat_lt(a, b) {
        rat_sub(b, a)
    } else {
        rat_sub(a, b)
    }
}

/// The best window end found so far: exclusive end segment, distance to the
/// target, whether it completes a thought, and its duration.
pub type BestEnd = (int, (int, int), bool, (int, int));

/// Whether a window with these qualities replaces the current best: closer
/// to the target wins; on a tie a completed thought wins; then the longer one.
pub open spec fn replaces(best: Option<BestEnd>, dist: (int, int), thought: bool, dur: (
    int,
    int,
)) -> bool {
    match best {
        None => true,
        Some(b) => {
            ||| rat_lt(dist, b.1)
            ||| (dist == b.1 && thought && !b.2)
            ||| (dist == b.1 && thought == b.2 && rat_lt(b.3, dur))
        },
    }
}

/// Scan the windows starting at segment `s` and ending at segments `e..`,
/// stopping once a window is longer than the maximum.
pub open spec fn best_scan(
    segs: Seq<TranscriptSegment>,
    d: DurationRange,
    s: int,
    e: int,
    best: Option<BestEnd>,
) -> Result<Option<BestEnd>, ClipFinderError>
    decreases segs.len() - e,
{
    if e < 0 || e >= segs.len() {
        Ok(best)
    } else {
        let wd = rat_sub(segs[e].end@, segs[s].start@);
        if !fits(wd) {
            Err(ClipFinderError::Time(TimeError::Overflow))
        } else if rat_lt(d.max@, wd) {
            Ok(best)
        } else if rat_lt(wd, d.min@) {
            best_scan(segs, d, s, e + 1, best)
        } else {
            let dist = abs_distance(wd, d.target@);
            if !fits(dist) {
                Err(ClipFinderError::Time(TimeError::Overflow))
            } else {
                let thought = ends_thought_spec(segs[e].text@);
                let next = if replaces(best, dist, thought, wd) {
                    Some((e + 1, dist, thought, wd))
                } else {
                    best
                };
                best_scan(segs, d, s, e + 1, next)
            }
        }
    }
}

/// The duration of the window of segments `s..=e`.
pub open spec fn window_length(segs: Seq<TranscriptSegment>, s: int, e: int) -> (int, int) {
    rat_sub(segs[e].end@, segs[s].start@)
}

/// The qualities of the window of segments `s..=e`: its exclusive end, its
/// distance to the target, whether it completes a thought, its duration.
pub open spec fn window_quality(segs: Seq<TranscriptSegment>, d: DurationRange, s: int, e: int) -> BestEnd {
    let wd = window_length(segs, s, e);
    (e + 1, abs_distance(wd, d.target@), ends_thought_spec(segs[e].text@), wd)
}

/// The window of segments `s..=e` fits the exact representation and the
/// duration range.
pub open spec fn window_in_range(segs: Seq<TranscriptSegment>, d: DurationRange, s: int, e: int) -> bool {
    let wd = window_length(segs, s, e);
    fits(wd) && !rat_lt(d.max@, wd) && !rat_lt(wd, d.min@)
}

/// The scan of windows from segment `s` gets as far as end `f`: every
/// shorter window fits and is not longer than the maximum.
pub open spec fn scan_reaches(segs: Seq<TranscriptSegment>, d: DurationRange, s: int, f: int) -> bool {
    forall|g: int|
        s <= g < f ==> fits(#[trigger] window_length(segs, s, g)) && !rat_lt(
            d.max@,
            window_length(segs, s, g),
        )
}

/// Window `b` is strictly better than window `a`: closer to the target; on
/// a tie, it completes a thought and `a` does not; then, longer.
pub open spec fn beats(b: BestEnd, a: BestEnd) -> bool {
    replaces(Some(a), b.1, b.2, b.3)
}

/// Every time and the target have a positive denominator.
pub open spec fn positive_times(segs: Seq<TranscriptSegment>, d: DurationRange) -> bool {
    &&& d.target@.1 > 0
    &&& forall|i: int|
        0 <= i < segs.len() ==> (#[trigger] segs[i]).start@.1 > 0 && segs[i].end@.1 > 0
}

pub(crate) proof fn lemma_sub_positive(a: (int, int), b: (int, int))
    requires
        a.1 > 0,
        b.1 > 0,
    ensures
        rat_sub(a, b).1 > 0,
{
    assert(a.1 * b.1 > 0) by (nonlinear_arith)
        requires
            a.1 > 0,
            b.1 > 0,
    ;
    crate::rational::lemma_reduce_reduced(a.0 * b.1 - b.0 * a.1, a.1 * b.1);
}

proof fn lemma_quality_positive(segs: Seq<TranscriptSegment>, d: DurationRange, s: int, e: int)
    requires
        positive_times(segs, d),
        0 <= s < segs.len(),
        0 <= e < segs.len(),
    ensures
        window_quality(segs, d, s, e).1.1 > 0,
        window_quality(segs, d, s, e).3.1 > 0,
{
    let wd = window_length(segs, s, e);
    lemma_sub_positive(segs[e].end@, segs[s].start@);
    lemma_sub_positive(wd, d.target@);
    lemma_sub_positive(d.target@, wd);
}

/// Being beaten carries over: if `c` beats `b` and `a` does not, `a` does not beat `c`.
proof fn lemma_beats_trans(a: BestEnd, b: BestEnd, c: BestEnd)
    requires
        a.1.1 > 0,
        a.3.1 > 0,
        b.1.1 > 0,
        b.3.1 > 0,
        c.1.1 > 0,
        c.3.1 > 0,
        beats(c, b),
        !beats(a, b),
    ensures
        !beats(a, c),
{
    if rat_lt(c.1, b.1) {
        crate::rational::lemma_lt_trans(c.1, b.1, a.1);
    } else if c.1 == b.1 && c.2 == b.2 && rat_lt(b.3, c.3) {
        if a.1 == c.1 && a.2 == c.2 && rat_lt(c.3, a.3) {
            crate::rational::lemma_lt_trans(b.3, c.3, a.3);
        }
    }
}

proof fn lemma_best_scan_is_best(
    segs: Seq<TranscriptSegment>,
    d: DurationRange,
    s: int,
    e: int,
    best: Option<BestEnd>,
)
    requires
        positive_times(segs, d),
        0 <= s <= e,
        s < segs.len(),
        scan_reaches(segs, d, s, e),
        best matches Some(b) ==> {
            &&& s <= b.0 - 1 < e
            &&& b.0 - 1 < segs.len()
            &&& window_in_range(segs, d, s, b.0 - 1)
            &&& b == window_quality(segs, d, s, b.0 - 1)
        },
        forall|g: int|
            s <= g < e && g < segs.len() && window_in_range(segs, d, s, g) ==> best is Some
                && !beats(window_quality(segs, d, s, g), best->0),
    ensures
        best_scan(segs, d, s, e, best) matches Ok(r) ==> match r {
            Some(b) => {
                &&& s <= b.0 - 1 < segs.len()
                &&& window_in_range(segs, d, s, b.0 - 1)
                &&& b == window_quality(segs, d, s, b.0 - 1)
                &&& forall|f: int|
                    s <= f < segs.len() && scan_reaches(segs, d, s, f) && window_in_range(segs, d, s, f)
                        ==> !beats(window_quality(segs, d, s, f), b)
            },
            None => forall|f: int|
                s <= f < segs.len() && scan_reaches(segs, d, s, f) ==> !window_in_range(segs, d, s, f),
        },
    decreases segs.len() - e,
{
    if 0 <= e < segs.len() {
        let wd = window_length(segs, s, e);
        if fits(wd) && rat_lt(d.max@, wd) {
            assert forall|f: int|
                s <= f < segs.len() && scan_reaches(segs, d, s, f) implies f <= e by {
                if f > e {
                    assert(!rat_lt(d.max@, window_length(segs, s, e)));
                }
            }
        } else if fits(wd) {
            assert(scan_reaches(segs, d, s, e + 1)) by {
                assert forall|g: int| s <= g < e + 1 implies fits(#[trigger] window_length(segs, s, g))
                    && !rat_lt(d.max@, window_length(segs, s, g)) by {
                    if g < e {
                        assert(fits(window_length(segs, s, g)));
                    }
                }
            }
            let dist = abs_distance(wd, d.target@);
            let thought = ends_thought_spec(segs[e].text@);
            let q = window_quality(segs, d, s, e);
            if rat_lt(wd, d.min@) {
                lemma_best_scan_is_best(segs, d, s, e + 1, best);
            } else if fits(dist) && replaces(best, dist, thought, wd) {
                lemma_quality_positive(segs, d, s, e);
                assert forall|g: int|
                    s <= g < e + 1 && g < segs.len() && window_in_range(segs, d, s, g) implies !beats(
                    window_quality(segs, d, s, g),
                    q,
                ) by {
                    lemma_quality_positive(segs, d, s, g);
                    if g < e {
                        let b = best->0;
                        lemma_quality_positive(segs, d, s, b.0 - 1);
                        lemma_beats_trans(window_quality(segs, d, s, g), b, q);
                    }
                }
                lemma_best_scan_is_best(segs, d, s, e + 1, Some(q));
            } else if fits(dist) {
                lemma_best_scan_is_best(segs, d, s, e + 1, best);
            }
        }
    }
}

/// The end chosen for windows starting at segment `s` is the best one the
/// scan reaches (the scan stops at the first window longer than the
/// maximum): its window lies in the duration range, and no reached window
/// in range beats it by being closer to the target, by completing a thought
/// on a tie, or by being longer on a further tie. No end is chosen only when
/// no reached window lies in range.
pub proof fn law_best_window_end(segs: Seq<TranscriptSegment>, d: DurationRange, s: int)
    requires
        positive_times(segs, d),
        0 <= s < segs.len(),
    ensures
        best_scan(segs, d, s, s, None) matches Ok(r) ==> match r {
            Some(b) => {
                &&& s <= b.0 - 1 < segs.len()
                &&& window_in_range(segs, d, s, b.0 - 1)
                &&& b == window_quality(segs, d, s, b.0 - 1)
                &&& forall|f: int|
                    s <= f < segs.len() && scan_reaches(segs, d, s, f) && window_in_range(segs, d, s, f)
                        ==> !beats(window_quality(segs, d, s, f), b)
            },
            None => forall|f: int|
                s <= f < segs.len() && scan_reaches(segs, d, s, f) ==> !window_in_range(segs, d, s, f),
        },
{
    lemma_best_scan_is_best(segs, d, s, s, None);
}

/// How the chosen end compares with every other end the scan reaches whose
/// window lies in the duration range: none is strictly closer to the target
/// duration; among equally close ones, if any completes a thought (its last
/// segment's text, trimmed at the end, ends in `.`, `!` or `?`), the chosen
/// one does too; and among equally close ones that agree on completing a
/// thought, none is longer.
pub proof fn law_best_window_preferences(segs: Seq<TranscriptSegment>, d: DurationRange, s: int)
    requires
        positive_times(segs, d),
        0 <= s < segs.len(),
    ensures
        best_scan(segs, d, s, s, None) matches Ok(Some(b)) ==> {
            let e = b.0 - 1;
            &&& b.0 == e + 1
            &&& forall|f: int|
                s <= f < segs.len() && scan_reaches(segs, d, s, f) && window_in_range(segs, d, s, f)
                    ==> {
                    let df = abs_distance(window_length(segs, s, f), d.target@);
                    let de = abs_distance(window_length(segs, s, e), d.target@);
                    &&& !rat_lt(df, de)
                    &&& (df == de && ends_thought_spec(segs[f].text@)) ==> ends_thought_spec(
                        segs[e].text@,
                    )
                    &&& (df == de && ends_thought_spec(segs[f].text@) == ends_thought_spec(
                        segs[e].text@,
                    )) ==> !rat_lt(window_length(segs, s, e), window_length(segs, s, f))
                }
        },
{
    law_best_window_end(segs, d, s);
}

/// The windows `(start segment, exclusive end segment)` chosen for the first
/// `k` start segments, or the first arithmetic failure.
pub open spec fn windows_upto(segs: Seq<TranscriptSegment>, d: DurationRange, k: int) -> Result<
    Seq<(int, int)>,
    ClipFinderError,
>
    decreases k,
{
    if k <= 0 {
        Ok(Seq::empty())
    } else {
        match windows_upto(segs, d, k - 1) {
            Err(e) => Err(e),
            Ok(ws) => match best_scan(segs, d, k - 1, k - 1, None) {
                Err(e) => Err(e),
                Ok(None) => Ok(ws),
                Ok(Some(b)) => Ok(ws.push((k - 1, b.0))),
            },
        }
    }
}

/// Positions kept when `len` windows are sampled evenly down to `limit`.
pub open spec fn sample_positions(len: int, limit: int) -> Seq<int> {
    if len <= limit {
        Seq::new(len as nat, |i: int| i)
    } else if limit == 1 {
        seq![len / 2]
    } else {
        Seq::new(limit as nat, |i: int| i * (len - 1) / (limit - 1))
    }
}

/// The transcript of segments `s..e`: their trimmed texts joined by spaces.
pub open spec fn window_transcript(segs: Seq<TranscriptSegment>, s: int, e: int) -> Seq<char> {
    join_with_spaces(Seq::new((e - s) as nat, |k: int| trim(segs[s + k].text@)))
}

/// `c` is the candidate built from segments `w.0..w.1`.
pub open spec fn is_window_candidate(c: ClipCandidate, segs: Seq<TranscriptSegment>, w: (
    int,
    int,
)) -> bool {
    &&& c.id@ == w.0
    &&& c.start == segs[w.0].start
    &&& c.end == segs[w.1 - 1].end
    &&& c.start_segment == w.0
    &&& c.end_segment == w.1
    &&& c.transcript@ == window_transcript(segs, w.0, w.1)
    &&& c.word_count == word_count_of(c.transcript@)
}

/// Windows are well placed: `s < e <= segs.len()`, in increasing start order.
pub open spec fn windows_in_range(ws: Seq<(int, int)>, n: int) -> bool {
    forall|i: int| 0 <= i < ws.len() ==> 0 <= (#[trigger] ws[i]).0 < ws[i].1 <= n
}

proof fn lemma_best_scan_bounds(
    segs: Seq<TranscriptSegment>,
    d: DurationRange,
    s: int,
    e: int,
    best: Option<BestEnd>,
)
    requires
        0 <= s <= e,
        best matches Some(b) ==> s < b.0 <= segs.len() && b.3 == rat_sub(
            segs[b.0 - 1].end@,
            segs[s].start@,
        ) && rat_le(d.min@, b.3) && rat_le(b.3, d.max@),
    ensures
        best_scan(segs, d, s, e, best) matches Ok(Some(b)) ==> s < b.0 <= segs.len() && b.3
            == rat_sub(segs[b.0 - 1].end@, segs[s].start@) && rat_le(d.min@, b.3) && rat_le(
            b.3,
            d.max@,
        ),
    decreases segs.len() - e,
{
    if e < segs.len() {
        let wd = rat_sub(segs[e].end@, segs[s].start@);
        if fits(wd) && !rat_lt(d.max@, wd) && rat_lt(wd, d.min@) {
            lemma_best_scan_bounds(segs, d, s, e + 1, best);
        } else if fits(wd) && !rat_lt(d.max@, wd) {
            let dist = abs_distance(wd, d.target@);
            if fits(dist) {
                let thought = ends_thought_spec(segs[e].text@);
                let next = if replaces(best, dist, thought, wd) {
                    Some((e + 1, dist, thought, wd))
                } else {
                    best
                };
                lemma_best_scan_bounds(segs, d, s, e + 1, next);
            }
        }
    }
}

proof fn lemma_windows_err_propagates(segs: Seq<TranscriptSegment>, d: DurationRange, k: int, n: int)
    requires
        0 < k <= n,
        windows_upto(segs, d, k) is Err,
    ensures
        windows_upto(segs, d, n) == windows_upto(segs, d, k),
    decreases n - k,
{
    if k < n {
        lemma_windows_err_propagates(segs, d, k + 1, n);
    }
}

proof fn lemma_windows_bounds(segs: Seq<TranscriptSegment>, d: DurationRange, k: int)
    requires
        0 <= k <= segs.len(),
    ensures
        windows_upto(segs, d, k) matches Ok(ws) ==> {
            &&& ws.len() <= k
            &&& windows_in_range(ws, segs.len() as int)
            &&& forall|i: int| 0 <= i < ws.len() ==> (#[trigger] ws[i]).0 < k
            &&& forall|i: int, j: int| 0 <= i < j < ws.len() ==> (#[trigger] ws[i]).0 < (
            #[trigger] ws[j]).0
            &&& forall|i: int|
                0 <= i < ws.len() ==> {
                    let dur = rat_sub(segs[(#[trigger] ws[i]).1 - 1].end@, segs[ws[i].0].start@);
                    rat_le(d.min@, dur) && rat_le(dur, d.max@)
                }
        },
    decreases k,
{
    if k > 0 {
        lemma_windows_bounds(segs, d, k - 1);
        lemma_best_scan_bounds(segs, d, k - 1, k - 1, None);
    }
}

/// The best exclusive end for windows starting at `start_index`, if any.
fn best_window_end(segments: &[TranscriptSegment], duration: &DurationRange, start_index: usize) -> (r:
    Result<Option<usize>, ClipFinderError>)
    requires
        start_index < segments@.len(),
    ensures
        match best_scan(segments@, *duration, start_index as int, start_index as int, None) {
            Err(e) => r == Err::<Option<usize>, ClipFinderError>(e),
            Ok(None) => r == Ok::<Option<usize>, ClipFinderError>(None),
            Ok(Some(b)) => r == Ok::<Option<usize>, ClipFinderError>(Some(b.0 as usize)),
        },
{
    let ghost segs = segments@;
    let ghost s = start_index as int;
    let n = segments.len();
    let start = segments[start_index].start;
    let mut best: Option<(usize, RationalTime, bool, RationalTime)> = None;
    let ghost mut best_view: Option<BestEnd> = None;
    let mut e = start_index;
    while e < n
        invariant
            n == segs.len(),
            segs == segments@,
            s == start_index as int,
            s <= e <= n,
            start == segs[s].start,
            best_scan(segs, *duration, s, s, None) == best_scan(segs, *duration, s, e as int, best_view),
            best_view matches Some(b) ==> b.0 <= n,
            match best {
                None => best_view is None,
                Some(b) => best_view == Some((b.0 as int, b.1@, b.2, b.3@)),
            },
        ensures
            best_scan(segs, *duration, s, s, None) == Ok::<Option<BestEnd>, ClipFinderError>(best_view),
            match best {
                None => best_view is None,
                Some(b) => best_view == Some((b.0 as int, b.1@, b.2, b.3@)),
            },
        decreases n - e,
    {
        let segment = &segments[e];
        let window_duration = match segment.end.sub(start) {
            Ok(w) => w,
            Err(err) => {
                proof {
                    assert(segs[e as int] == *segment);
                }
                return Err(ClipFinderError::Time(err));
            },
        };
        if duration.max.lt(&window_duration) {
            break;
        }
        if window_duration.lt(&duration.min) {
            e = e + 1;
            continue;
        }
        let distance = match absolute_distance(window_duration, duration.target) {
            Ok(d) => d,
            Err(err) => return Err(err),
        };
        let completes_thought = ends_thought(segment.text.as_str());
        let replace = match best {
            None => true,
            Some((_, best_distance, best_completes_thought, best_duration)) => {
                distance.lt(&best_distance) || (distance == best_distance && completes_thought
                    && !best_completes_thought) || (distance == best_distance && completes_thought
                    == best_completes_thought && best_duration.lt(&window_duration))
            },
        };
        proof {
            if let Some(b) = best {
                if distance@ == b.1@ {
                    RationalTime::lemma_view_injective(distance, b.1);
                }
                if distance == b.1 {
                    assert(distance@ == b.1@);
                }
            }
            assert(replace == replaces(best_view, distance@, completes_thought, window_duration@));
        }
        if replace {
            best = Some((e + 1, distance, completes_thought, window_duration));
            proof {
                best_view = Some((e + 1, distance@, completes_thought, window_duration@));
            }
        }
        e = e + 1;
    }
    match best {
        None => Ok(None),
        Some((end_segment, _, _, _)) => Ok(Some(end_segment)),
    }
}

fn absolute_distance(left: RationalTime, right: RationalTime) -> (r: Result<
    RationalTime,
    ClipFinderError,
>)
    ensures
        match r {
            Ok(d) => fits(abs_distance(left@, right@)) && d@ == abs_distance(left@, right@),
            Err(e) => e == ClipFinderError::Time(TimeError::Overflow) && !fits(
                abs_distance(left@, right@),
            ),
        },
{
    let r = if left.lt(&right) {
        right.sub(left)
    } else {
        left.sub(right)
    };
    match r {
        Ok(d) => Ok(d),
        Err(e) => Err(ClipFinderError::Time(e)),
    }
}

/// Every sampled position indexes one of the `len` windows.
proof fn lemma_sample_positions_bounds(len: int, limit: int)
    requires
        limit > 0,
        len >= 0,
    ensures
        forall|i: int|
            0 <= i < sample_positions(len, limit).len() ==> 0 <= #[trigger] sample_positions(
                len,
                limit,
            )[i] < len,
        sample_positions(len, limit).len() <= limit,
        sample_positions(len, limit).len() <= len,
{
    if len > limit && limit > 1 {
        assert forall|i: int| 0 <= i < limit implies 0 <= #[trigger] (i * (len - 1) / (limit - 1))
            < len by {
            assert(0 <= i * (len - 1) / (limit - 1) < len) by (nonlinear_arith)
                requires
                    0 <= i < limit,
                    1 < limit < len,
            {
                assert(i * (len - 1) <= (limit - 1) * (len - 1));
                assert(i * (len - 1) / (limit - 1) <= (limit - 1) * (len - 1) / (limit - 1));
            }
        }
    }
}

/// Evenly spaced windows: all of them when there are at most `limit`, the
/// middle one when `limit` is one, otherwise `limit` windows spread from the
/// first to the last.
fn evenly_sample(windows: &Vec<(usize, usize)>, limit: usize) -> (r: Vec<(usize, usize)>)
    requires
        limit > 0,
    ensures
        r@ == sample_positions(windows@.len() as int, limit as int).map_values(
            |p: int| windows@[p],
        ),
{
    let len = windows.len();
    let ghost positions = sample_positions(len as int, limit as int);
    proof {
        lemma_sample_positions_bounds(len as int, limit as int);
    }
    let mut out: Vec<(usize, usize)> = Vec::new();
    if len <= limit {
        let mut i: usize = 0;
        while i < len
            invariant
                len == windows@.len(),
                i <= len,
                out@ == windows@.take(i as int),
            decreases len - i,
        {
            out.push(windows[i]);
            proof {
                assert(windows@.take(i + 1) =~= windows@.take(i as int).push(windows@[i as int]));
            }
            i = i + 1;
        }
        proof {
            assert(out@ =~= positions.map_values(|p: int| windows@[p]));
        }
        return out;
    }
    if limit == 1 {
        out.push(windows[len / 2]);
        proof {
            assert(out@ =~= positions.map_values(|p: int| windows@[p]));
        }
        return out;
    }
    let mut sample_index: usize = 0;
    while sample_index < limit
        invariant
            len == windows@.len(),
            1 < limit < len,
            positions == sample_positions(len as int, limit as int),
            positions.len() == limit,
            sample_index <= limit,
            out@ == positions.take(sample_index as int).map_values(|p: int| windows@[p]),
        decreases limit - sample_index,
    {
        let ghost si = sample_index as int;
        proof {
            assert(si * (len - 1) < 0x1_0000_0000_0000_0000_0000_0000_0000_0000) by (nonlinear_arith)
                requires
                    0 <= si < 0x1_0000_0000_0000_0000,
                    0 < len <= 0x1_0000_0000_0000_0000,
            {
                assert(si * (len - 1) <= si * 0x1_0000_0000_0000_0000);
                assert(si * 0x1_0000_0000_0000_0000 < 0x1_0000_0000_0000_0000 * 0x1_0000_0000_0000_0000);
            }
            assert(0 <= si * (len - 1)) by (nonlinear_arith)
                requires
                    0 <= si,
                    0 < len,
            ;
            assert(positions[si] == si * (len - 1) / (limit - 1));
            lemma_sample_positions_bounds(len as int, limit as int);
            assert(0 <= positions[si] < len);
        }
        let numerator: u128 = (sample_index as u128) * ((len - 1) as u128);
        let index = (numerator / ((limit - 1) as u128)) as usize;
        assert(index as int == positions[si]);
        out.push(windows[index]);
        proof {
            assert(positions.take(si + 1) =~= positions.take(si).push(positions[si]));
            assert(out@ =~= positions.take(si + 1).map_values(|p: int| windows@[p]));
        }
        sample_index = sample_index + 1;
    }
    proof {
        assert(positions.take(limit as int) =~= positions);
    }
    out
}

fn build_candidate(segments: &[TranscriptSegment], start_segment: usize, end_segment: usize) -> (r:
    ClipCandidate)
    requires
        start_segment < end_segment <= segments@.len(),
    ensures
        is_window_candidate(r, segments@, (start_segment as int, end_segment as int)),
{
    let ghost segs = segments@;
    let ghost parts = Seq::new(
        (end_segment - start_segment) as nat,
        |k: int| trim(segs[start_segment + k].text@),
    );
    let mut transcript = String::new();
    let mut k = start_segment;
    while k < end_segment
        invariant
            segs == segments@,
            start_segment <= k <= end_segment <= segs.len(),
            parts == Seq::new(
                (end_segment - start_segment) as nat,
                |j: int| trim(segs[start_segment + j].text@),
            ),
            transcript@ == join_with_spaces(parts.take(k - start_segment)),
        decreases end_segment - k,
    {
        let chars = chars_of(segments[k].text.as_str());
        let (a, b) = trim_bounds(&chars);
        append_joined(&mut transcript, &chars, a, b, k == start_segment);
        proof {
            let j = k - start_segment;
            assert(parts[j] == trim(segs[k as int].text@));
            assert(parts.take(j + 1).drop_last() =~= parts.take(j));
            assert(parts.take(j + 1).last() == parts[j]);
            if j == 0 {
                assert(join_with_spaces(parts.take(0)) =~= Seq::<char>::empty());
                assert(transcript@ =~= parts[0]);
                assert(join_with_spaces(parts.take(1)) == parts.take(1)[0]);
            }
        }
        k = k + 1;
    }
    proof {
        assert(parts.take(end_segment - start_segment) =~= parts);
    }
    let word_count = word_count(transcript.as_str());
    ClipCandidate {
        id: CandidateId::new(start_segment as u64),
        start: segments[start_segment].start,
        end: segments[end_segment - 1].end,
        start_segment,
        end_segment,
        transcript,
        word_count,
    }
}

/// Generate transcript-aligned windows near the requested target duration.
///
/// At most one window is created for each starting segment: among the
/// windows within the duration bounds it is the one closest to the target,
/// preferring one that ends a thought, then the longer one. When there are
/// more windows than `candidate_limit`, they are sampled evenly over the
/// source.
pub fn generate_candidates(segments: &[TranscriptSegment], request: &ClipRequest) -> (r: Result<
    Vec<ClipCandidate>,
    ClipFinderError,
>)
    ensures
        match request_error(*request) {
            Some(e) => r == Err::<Vec<ClipCandidate>, ClipFinderError>(e),
            None => match transcript_error(segments@) {
                Some(e) => r == Err::<Vec<ClipCandidate>, ClipFinderError>(e),
                None => match windows_upto(
                    segments@,
                    request.profile.duration,
                    segments@.len() as int,
                ) {
                    Err(e) => r == Err::<Vec<ClipCandidate>, ClipFinderError>(e),
                    Ok(ws) => r matches Ok(cands) && generated_from(
                        cands@,
                        segments@,
                        ws,
                        request.candidate_limit as int,
                    ),
                },
            },
        },
{
    request.validate()?;
    validate_transcript(segments)?;
    let duration = request.profile.duration;
    let n = segments.len();
    let mut windows: Vec<(usize, usize)> = Vec::new();
    let mut start_index: usize = 0;
    while start_index < n
        invariant
            n == segments@.len(),
            duration == request.profile.duration,
            start_index <= n,
            request_error(*request) is None,
            transcript_error(segments@) is None,
            windows_upto(segments@, duration, start_index as int) matches Ok(ws) && ws == windows@.map_values(
                |w: (usize, usize)| (w.0 as int, w.1 as int),
            ),
        decreases n - start_index,
    {
        let found = best_window_end(segments, &duration, start_index);
        proof {
            lemma_best_scan_bounds(segments@, duration, start_index as int, start_index as int, None);
        }
        match found {
            Err(e) => {
                proof {
                    lemma_windows_err_propagates(segments@, duration, start_index as int + 1, n as int);
                }
                return Err(e);
            },
            Ok(None) => {},
            Ok(Some(end_segment)) => {
                let ghost before = windows@;
                windows.push((start_index, end_segment));
                proof {
                    assert(windows@.map_values(|w: (usize, usize)| (w.0 as int, w.1 as int))
                        =~= before.map_values(|w: (usize, usize)| (w.0 as int, w.1 as int)).push(
                        (start_index as int, end_segment as int),
                    ));
                }
            },
        }
        start_index = start_index + 1;
    }
    let ghost ws = windows@.map_values(|w: (usize, usize)| (w.0 as int, w.1 as int));
    proof {
        lemma_windows_bounds(segments@, duration, n as int);
    }
    let sampled = evenly_sample(&windows, request.candidate_limit);
    let ghost picked = sample_positions(ws.len() as int, request.candidate_limit as int).map_values(
        |p: int| ws[p],
    );
    proof {
        lemma_sample_positions_bounds(ws.len() as int, request.candidate_limit as int);
        assert forall|j: int| 0 <= j < sampled@.len() implies #[trigger] picked[j] == (
        sampled@[j].0 as int, sampled@[j].1 as int) by {
            let p = sample_positions(ws.len() as int, request.candidate_limit as int)[j];
            assert(sampled@[j] == windows@[p]);
        }
        assert forall|j: int| 0 <= j < sampled@.len() implies 0 <= (#[trigger] picked[j]).0
            < picked[j].1 <= segments@.len() by {
            let p = sample_positions(ws.len() as int, request.candidate_limit as int)[j];
            assert(picked[j] == ws[p]);
        }
    }
    let m = sampled.len();
    let mut candidates: Vec<ClipCandidate> = Vec::new();
    let mut i: usize = 0;
    while i < m
        invariant
            m == sampled@.len(),
            m == picked.len(),
            i <= m,
            windows_in_range(ws, segments@.len() as int),
            forall|j: int| 0 <= j < m ==> #[trigger] picked[j] == (
            sampled@[j].0 as int, sampled@[j].1 as int),
            forall|j: int| 0 <= j < m ==> 0 <= (#[trigger] picked[j]).0 < picked[j].1 <= segments@.len(),
            candidates@.len() == i,
            forall|j: int|
                0 <= j < i ==> is_window_candidate(#[trigger] candidates@[j], segments@, picked[j]),
        decreases m - i,
    {
        let (s, e) = sampled[i];
        proof {
            assert(picked[i as int] == (s as int, e as int));
        }
        candidates.push(build_candidate(segments, s, e));
        i = i + 1;
    }
    Ok(candidates)
}

/// `cands` are the candidates for the windows `ws`, sampled evenly to `limit`.
pub open spec fn generated_from(
    cands: Seq<ClipCandidate>,
    segs: Seq<TranscriptSegment>,
    ws: Seq<(int, int)>,
    limit: int,
) -> bool {
    let picked = sample_positions(ws.len() as int, limit).map_values(|p: int| ws[p]);
    &&& cands.len() == picked.len()
    &&& forall|j: int| 0 <= j < cands.len() ==> is_window_candidate(#[trigger] cands[j], segs, picked[j])
}

// ---------------------------------------------------------------------------
// batching
// ---------------------------------------------------------------------------

/// `a + b`, capped at `usize::MAX`.
pub open spec fn saturating_add(a: int, b: int) -> int {
    if a + b > usize::MAX {
        usize::MAX as int
    } else {
        a + b
    }
}

/// The capped character total of the first `k` candidates.
pub open spec fn chars_total(cs: Seq<ClipCandidate>, k: int) -> int
    decreases k,
{
    if k <= 0 {
        0
    } else {
        saturating_add(chars_total(cs, k - 1), cs[k - 1].transcript@.len() as int)
    }
}

/// All candidates of the batches, in order.
pub open spec fn batched_candidates(bs: Seq<CandidateBatch>) -> Seq<ClipCandidate>
    decreases bs.len(),
{
    if bs.len() == 0 {
        Seq::empty()
    } else {
        batched_candidates(bs.drop_last()) + bs.last().candidates@
    }
}

/// Candidate `j` of `cs` was allowed to join the batch holding `cs[..j]`.
pub open spec fn may_join(cs: Seq<ClipCandidate>, j: int, max_candidates: int, max_chars: int) -> bool {
    &&& j < max_candidates
    &&& (j == 0 || saturating_add(chars_total(cs, j), cs[j].transcript@.len() as int) <= max_chars)
}

/// One batch: non-empty, every member was allowed to join, and its
/// character count is the capped total of its members.
pub open spec fn batch_valid(b: CandidateBatch, max_candidates: int, max_chars: int) -> bool {
    let cs = b.candidates@;
    &&& cs.len() > 0
    &&& forall|j: int| 0 <= j < cs.len() ==> may_join(cs, j, max_candidates, max_chars)
    &&& b.transcript_chars == chars_total(cs, cs.len() as int)
}

/// A batch was closed only because the next candidate could not join it.
pub open spec fn batch_closed(b: CandidateBatch, next: ClipCandidate, max_candidates: int, max_chars: int) -> bool {
    !may_join(b.candidates@.push(next), b.candidates@.len() as int, max_candidates, max_chars)
}

/// The greedy batching of the candidates: every batch valid, each one closed
/// only when the next candidate could not join, and nothing lost or reordered.
pub open spec fn batches_greedy(
    bs: Seq<CandidateBatch>,
    cs: Seq<ClipCandidate>,
    max_candidates: int,
    max_chars: int,
) -> bool {
    &&& batched_candidates(bs) == cs
    &&& forall|i: int| 0 <= i < bs.len() ==> batch_valid(#[trigger] bs[i], max_candidates, max_chars)
    &&& forall|i: int|
        0 <= i < bs.len() - 1 ==> batch_closed(
            #[trigger] bs[i],
            bs[i + 1].candidates@[0],
            max_candidates,
            max_chars,
        )
}

proof fn lemma_chars_total_prefix(cs: Seq<ClipCandidate>, c: ClipCandidate, k: int)
    requires
        0 <= k <= cs.len(),
    ensures
        chars_total(cs.push(c), k) == chars_total(cs, k),
    decreases k,
{
    if k > 0 {
        lemma_chars_total_prefix(cs, c, k - 1);
        assert(cs.push(c)[k - 1] == cs[k - 1]);
    }
}

proof fn lemma_batch_push(cs: Seq<ClipCandidate>, c: ClipCandidate, max_candidates: int, max_chars: int)
    requires
        forall|j: int| 0 <= j < cs.len() ==> may_join(cs, j, max_candidates, max_chars),
        cs.len() < max_candidates,
        cs.len() == 0 || saturating_add(chars_total(cs, cs.len() as int), c.transcript@.len() as int)
            <= max_chars,
    ensures
        forall|j: int| 0 <= j < cs.len() + 1 ==> may_join(cs.push(c), j, max_candidates, max_chars),
        chars_total(cs.push(c), (cs.len() + 1) as int) == saturating_add(
            chars_total(cs, cs.len() as int),
            c.transcript@.len() as int,
        ),
{
    let n = cs.len() as int;
    lemma_chars_total_prefix(cs, c, n);
    assert(cs.push(c)[n] == c);
    assert forall|j: int| 0 <= j < cs.len() + 1 implies may_join(
        cs.push(c),
        j,
        max_candidates,
        max_chars,
    ) by {
        if j < n {
            lemma_chars_total_prefix(cs, c, j);
            assert(cs.push(c)[j] == cs[j]);
            assert(may_join(cs, j, max_candidates, max_chars));
        }
    }
}

/// Split candidates into bounded request payloads for an external scorer.
///
/// A candidate joins the current batch while the batch has fewer than
/// `max_candidates` members and the character total stays within
/// `max_transcript_chars`; a single candidate larger than the character
/// budget is kept intact in its own batch. Transcript text is never
/// truncated.
pub fn batch_candidates(
    candidates: &[ClipCandidate],
    max_candidates: usize,
    max_transcript_chars: usize,
) -> (r: Result<Vec<CandidateBatch>, ClipFinderError>)
    ensures
        match r {
            Ok(bs) => max_candidates > 0 && max_transcript_chars > 0 && batches_greedy(
                bs@,
                candidates@,
                max_candidates as int,
                max_transcript_chars as int,
            ),
            Err(e) => e == ClipFinderError::InvalidBatchLimit && (max_candidates == 0
                || max_transcript_chars == 0),
        },
{
    if max_candidates == 0 || max_transcript_chars == 0 {
        return Err(ClipFinderError::InvalidBatchLimit);
    }
    let ghost maxn = max_candidates as int;
    let ghost maxc = max_transcript_chars as int;
    let mut batches: Vec<CandidateBatch> = Vec::new();
    let mut current: Vec<ClipCandidate> = Vec::new();
    let mut current_chars: usize = 0;
    let n = candidates.len();
    let mut i: usize = 0;
    while i < n
        invariant
            n == candidates@.len(),
            maxn == max_candidates as int,
            maxc == max_transcript_chars as int,
            max_candidates > 0,
            i <= n,
            batched_candidates(batches@) + current@ == candidates@.take(i as int),
            forall|k: int| 0 <= k < batches@.len() ==> batch_valid(#[trigger] batches@[k], maxn, maxc),
            forall|k: int|
                0 <= k < batches@.len() - 1 ==> batch_closed(
                    #[trigger] batches@[k],
                    batches@[k + 1].candidates@[0],
                    maxn,
                    maxc,
                ),
            batches@.len() > 0 ==> current@.len() > 0 && batch_closed(
                batches@.last(),
                current@[0],
                maxn,
                maxc,
            ),
            i > 0 ==> current@.len() > 0,
            current@.len() <= max_candidates,
            forall|j: int| 0 <= j < current@.len() ==> may_join(current@, j, maxn, maxc),
            current_chars == chars_total(current@, current@.len() as int),
        decreases n - i,
    {
        let candidate = &candidates[i];
        let candidate_chars = char_count(candidate.transcript.as_str());
        let exceeds_count = current.len() == max_candidates;
        let exceeds_chars = current.len() > 0 && current_chars.saturating_add(candidate_chars)
            > max_transcript_chars;
        let ghost before_batches = batches@;
        let ghost before_current = current@;
        if exceeds_count || exceeds_chars {
            let full = CandidateBatch { candidates: current, transcript_chars: current_chars };
            batches.push(full);
            current = Vec::new();
            current_chars = 0;
            proof {
                assert(batches@.drop_last() == before_batches);
                assert(batched_candidates(batches@) == batched_candidates(before_batches)
                    + before_current);
                assert forall|k: int| 0 <= k < batches@.len() - 1 implies batch_closed(
                    #[trigger] batches@[k],
                    batches@[k + 1].candidates@[0],
                    maxn,
                    maxc,
                ) by {
                    assert(batches@[k] == before_batches[k]);
                    if k + 1 < before_batches.len() {
                        assert(batches@[k + 1] == before_batches[k + 1]);
                    }
                }
                assert forall|k: int| 0 <= k < batches@.len() implies batch_valid(
                    #[trigger] batches@[k],
                    maxn,
                    maxc,
                ) by {
                    if k < before_batches.len() {
                        assert(batches@[k] == before_batches[k]);
                    }
                }
                lemma_chars_total_prefix(before_current, *candidate, before_current.len() as int);
                assert(before_current.push(*candidate)[before_current.len() as int] == *candidate);
            }
        }
        let ghost mid_current = current@;
        current_chars = current_chars.saturating_add(candidate_chars);
        current.push(candidate.clone());
        proof {
            if mid_current.len() == 0 {
                assert(current@ =~= seq![*candidate]);
                assert(chars_total(current@, 0) == 0);
                assert(may_join(current@, 0, maxn, maxc));
            } else {
                assert(mid_current == before_current);
                lemma_batch_push(mid_current, *candidate, maxn, maxc);
            }
            lemma_chars_total_prefix(mid_current, *candidate, mid_current.len() as int);
            assert(candidates@.take(i + 1) =~= candidates@.take(i as int).push(candidates@[i as int]));
            assert(current@[0] == if mid_current.len() == 0 { *candidate } else { mid_current[0] });
        }
        i = i + 1;
    }
    if current.len() > 0 {
        let ghost before_batches = batches@;
        let ghost before_current = current@;
        batches.push(CandidateBatch { candidates: current, transcript_chars: current_chars });
        proof {
            assert(batches@.drop_last() == before_batches);
            assert forall|k: int| 0 <= k < batches@.len() - 1 implies batch_closed(
                #[trigger] batches@[k],
                batches@[k + 1].candidates@[0],
                maxn,
                maxc,
            ) by {
                assert(batches@[k] == before_batches[k]);
                if k + 1 < before_batches.len() {
                    assert(batches@[k + 1] == before_batches[k + 1]);
                }
            }
            assert forall|k: int| 0 <= k < batches@.len() implies batch_valid(
                #[trigger] batches@[k],
                maxn,
                maxc,
            ) by {
                if k < before_batches.len() {
                    assert(batches@[k] == before_batches[k]);
                }
            }
        }
    }
    proof {
        assert(candidates@.take(n as int) =~= candidates@);
    }
    Ok(batches)
}

// ---------------------------------------------------------------------------
// laws
// ---------------------------------------------------------------------------

/// Evenly sampled positions are strictly increasing.
proof fn lemma_sample_positions_increasing(len: int, limit: int, i: int, j: int)
    requires
        limit > 0,
        len >= 0,
        0 <= i < j < sample_positions(len, limit).len(),
    ensures
        sample_positions(len, limit)[i] < sample_positions(len, limit)[j],
{
    if len > limit && limit > 1 {
        let m = limit - 1;
        let l = len - 1;
        let a = i * l;
        let b = j * l;
        let qa = a / m;
        let qb = b / m;
        vstd::arithmetic::div_mod::lemma_fundamental_div_mod(a, m);
        vstd::arithmetic::div_mod::lemma_fundamental_div_mod(b, m);
        vstd::arithmetic::div_mod::lemma_mod_pos_bound(a, m);
        vstd::arithmetic::div_mod::lemma_mod_pos_bound(b, m);
        assert(b - a >= l) by (nonlinear_arith)
            requires
                a == i * l,
                b == j * l,
                i < j,
                l > 0,
        ;
        assert(qa < qb) by (nonlinear_arith)
            requires
                a == m * qa + a % m,
                b == m * qb + b % m,
                0 <= a % m < m,
                0 <= b % m < m,
                b - a >= l,
                l > m,
                m > 0,
        ;
    }
}

/// What `generate_candidates` promises of its candidates: at most
/// `candidate_limit` of them, each running from the start of a transcript
/// segment to the end of a later (or the same) segment, lasting between the
/// profile's minimum and maximum, and at most one per start segment, in
/// transcript order.
pub proof fn law_generated_candidates(
    segs: Seq<TranscriptSegment>,
    request: ClipRequest,
    ws: Seq<(int, int)>,
    cands: Seq<ClipCandidate>,
)
    requires
        request_error(request) is None,
        windows_upto(segs, request.profile.duration, segs.len() as int) == Ok::<
            Seq<(int, int)>,
            ClipFinderError,
        >(ws),
        generated_from(cands, segs, ws, request.candidate_limit as int),
    ensures
        cands.len() <= request.candidate_limit,
        forall|i: int|
            0 <= i < cands.len() ==> {
                let c = #[trigger] cands[i];
                let d = request.profile.duration;
                &&& c.start_segment < c.end_segment <= segs.len()
                &&& c.start == segs[c.start_segment as int].start
                &&& c.end == segs[c.end_segment - 1].end
                &&& rat_le(d.min@, rat_sub(c.end@, c.start@))
                &&& rat_le(rat_sub(c.end@, c.start@), d.max@)
            },
        forall|i: int, j: int|
            0 <= i < j < cands.len() ==> (#[trigger] cands[i]).start_segment < (
            #[trigger] cands[j]).start_segment,
{
    let d = request.profile.duration;
    let limit = request.candidate_limit as int;
    lemma_windows_bounds(segs, d, segs.len() as int);
    lemma_sample_positions_bounds(ws.len() as int, limit);
    let positions = sample_positions(ws.len() as int, limit);
    let picked = positions.map_values(|p: int| ws[p]);
    assert forall|i: int| 0 <= i < cands.len() implies {
        let c = #[trigger] cands[i];
        &&& c.start_segment < c.end_segment <= segs.len()
        &&& c.start == segs[c.start_segment as int].start
        &&& c.end == segs[c.end_segment - 1].end
        &&& rat_le(d.min@, rat_sub(c.end@, c.start@))
        &&& rat_le(rat_sub(c.end@, c.start@), d.max@)
    } by {
        let p = positions[i];
        assert(picked[i] == ws[p]);
        assert(is_window_candidate(cands[i], segs, ws[p]));
    }
    assert forall|i: int, j: int| 0 <= i < j < cands.len() implies (#[trigger] cands[i]).start_segment
        < (#[trigger] cands[j]).start_segment by {
        lemma_sample_positions_increasing(ws.len() as int, limit, i, j);
        assert(picked[i] == ws[positions[i]]);
        assert(picked[j] == ws[positions[j]]);
        assert(is_window_candidate(cands[i], segs, picked[i]));
        assert(is_window_candidate(cands[j], segs, picked[j]));
    }
}

/// A batch never has more than `max_candidates` candidates, and only a
/// batch of a single candidate may exceed the character budget.
pub proof fn law_batch_bounds(b: CandidateBatch, max_candidates: int, max_chars: int)
    requires
        batch_valid(b, max_candidates, max_chars),
    ensures
        0 < b.candidates@.len() <= max_candidates,
        b.candidates@.len() > 1 ==> b.transcript_chars <= max_chars,
{
    let cs = b.candidates@;
    let n = cs.len() as int;
    assert(may_join(cs, n - 1, max_candidates, max_chars));
}

} // verus!
