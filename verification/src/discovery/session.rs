//! Discovery sessions: one active session at a time, holding the candidates
//! of a transcript, their batches, and the evaluations submitted so far.
//!
//! The stored evaluation type `E` is chosen by the caller; the session only
//! keeps each one next to the candidate id it scores.
use vstd::prelude::*;

use crate::clip_finder::candidate::{
    batch_candidates, batches_greedy, generate_candidates, generated_from, transcript_error,
    windows_upto,
};
use crate::clip_finder::error::ClipFinderError;
use crate::clip_finder::model::{
    request_error, CandidateBatch, CandidateId, ClipCandidate, ClipRequest, TranscriptSegment,
};
use crate::clip_finder::text::push_char;
use crate::discovery::error::DiscoveryError;
use crate::discovery::params::{
    candidate_view_error, candidate_view_fields, default_rubric, millis_of, request_built,
    request_input_error, rational_to_millis, start_limits_error, validate_start_limits,
    CandidateBatchOutput, CandidateView, ClipDiscoveryStatusOutput, ScoringRubric,
    StartClipDiscoveryOutput, StartClipDiscoveryParams, SubmitCandidateEvaluationsOutput,
};
use crate::rational::RationalTime;

verus! {

// ---------------------------------------------------------------------------
// session ids
// ---------------------------------------------------------------------------

/// The decimal digit for `d < 10`.
pub open spec fn digit_char(d: int) -> char {
    if d == 0 {
        '0'
    } else if d == 1 {
        '1'
    } else if d == 2 {
        '2'
    } else if d == 3 {
        '3'
    } else if d == 4 {
        '4'
    } else if d == 5 {
        '5'
    } else if d == 6 {
        '6'
    } else if d == 7 {
        '7'
    } else if d == 8 {
        '8'
    } else {
        '9'
    }
}

/// The decimal digits of `n`, without leading zeros.
pub open spec fn decimal(n: nat) -> Seq<char>
    decreases n,
{
    if n < 10 {
        seq![digit_char(n as int)]
    } else {
        decimal(n / 10).push(digit_char((n % 10) as int))
    }
}

/// The id of the `n`-th started session.
pub open spec fn session_id_text(n: nat) -> Seq<char> {
    "clip-discovery-"@ + decimal(n)
}

fn digit(d: u64) -> (c: char)
    requires
        d < 10,
    ensures
        c == digit_char(d as int),
{
    if d == 0 {
        '0'
    } else if d == 1 {
        '1'
    } else if d == 2 {
        '2'
    } else if d == 3 {
        '3'
    } else if d == 4 {
        '4'
    } else if d == 5 {
        '5'
    } else if d == 6 {
        '6'
    } else if d == 7 {
        '7'
    } else if d == 8 {
        '8'
    } else {
        '9'
    }
}

fn push_decimal(out: &mut String, n: u64)
    ensures
        final(out)@ == old(out)@ + decimal(n as nat),
    decreases n,
{
    if n >= 10 {
        push_decimal(out, n / 10);
    }
    push_char(out, digit(n % 10));
    proof {
        if n < 10 {
            assert(old(out)@ + decimal(n as nat) =~= old(out)@.push(digit_char(n as int)));
        } else {
            assert(old(out)@ + decimal(n as nat) =~= (old(out)@ + decimal((n / 10) as nat)).push(
                digit_char((n % 10) as int),
            ));
        }
    }
}

/// The id of the `n`-th started session: `clip-discovery-` and `n` in decimal.
pub fn session_id(n: u64) -> (r: String)
    ensures
        r@ == session_id_text(n as nat),
{
    let mut id = "clip-discovery-".to_owned();
    push_decimal(&mut id, n);
    id
}

proof fn lemma_decimal_len(n: nat)
    ensures
        decimal(n).len() >= 1,
        n >= 10 ==> decimal(n).len() >= 2,
    decreases n,
{
    if n >= 10 {
        lemma_decimal_len(n / 10);
    }
}

/// Different numbers have different decimal digits.
proof fn lemma_decimal_injective(n: nat, m: nat)
    requires
        decimal(n) == decimal(m),
    ensures
        n == m,
    decreases n,
{
    lemma_decimal_len(n);
    lemma_decimal_len(m);
    if n >= 10 && m >= 10 {
        let a = decimal(n);
        let b = decimal(m);
        assert(a.last() == digit_char((n % 10) as int));
        assert(b.last() == digit_char((m % 10) as int));
        assert(a.drop_last() =~= decimal(n / 10));
        assert(b.drop_last() =~= decimal(m / 10));
        lemma_decimal_injective(n / 10, m / 10);
    } else if n < 10 && m < 10 {
        assert(decimal(n)[0] == digit_char(n as int));
        assert(decimal(m)[0] == digit_char(m as int));
    }
}

/// Sessions started at different counts have different ids, so once a new
/// session is active, a request naming a session of another count is
/// refused as no longer active.
pub proof fn law_session_ids_differ<E>(active: DiscoverySession<E>, n: nat, m: nat)
    requires
        active.id@ == session_id_text(n),
        m != n,
    ensures
        session_id_text(m) != session_id_text(n),
        session_error(Some(active), session_id_text(m)) == Some(
            DiscoveryError::InactiveSession { active: active.id },
        ),
{
    if session_id_text(m) == session_id_text(n) {
        let p = "clip-discovery-"@;
        assert(session_id_text(m).skip(p.len() as int) =~= decimal(m));
        assert(session_id_text(n).skip(p.len() as int) =~= decimal(n));
        lemma_decimal_injective(m, n);
    }
}

// ---------------------------------------------------------------------------
// preparing a session
// ---------------------------------------------------------------------------

/// What a session is started from: the transcript's end, the clip request,
/// its candidates and their batches.
#[derive(Debug)]
pub struct PreparedDiscovery {
    pub source_duration: RationalTime,
    pub request: ClipRequest,
    pub candidates: Vec<ClipCandidate>,
    pub batches: Vec<CandidateBatch>,
}

/// Given the request `req` a start request describes, what preparing a
/// session from the transcript gives: the transcript's own error, the first
/// arithmetic failure of candidate generation, no candidate at all, or the
/// candidates with their greedy batches.
pub open spec fn prepared_outcome(
    p: StartClipDiscoveryParams,
    segs: Seq<TranscriptSegment>,
    req: ClipRequest,
    r: Result<PreparedDiscovery, DiscoveryError>,
) -> bool {
    match transcript_error(segs) {
        Some(e) => r == Err::<PreparedDiscovery, DiscoveryError>(DiscoveryError::Finder(e)),
        None => match windows_upto(segs, req.profile.duration, segs.len() as int) {
            Err(e) => r == Err::<PreparedDiscovery, DiscoveryError>(DiscoveryError::Finder(e)),
            Ok(ws) => if ws.len() == 0 {
                r == Err::<PreparedDiscovery, DiscoveryError>(DiscoveryError::NoCandidates)
            } else {
                r matches Ok(pd) && {
                    &&& pd.source_duration == segs.last().end
                    &&& request_built(p, pd.request)
                    &&& request_error(pd.request) is None
                    &&& generated_from(pd.candidates@, segs, ws, p.candidate_limit as int)
                    &&& batches_greedy(
                        pd.batches@,
                        pd.candidates@,
                        p.batch_candidate_limit as int,
                        p.batch_transcript_char_limit as int,
                    )
                }
            },
        },
    }
}

/// Everything a session is started from, computed from a start request and
/// its loaded transcript: the limits are checked, the transcript must have a
/// segment, the clip request is built, candidates are generated (at least one
/// must fit) and batched.
pub fn prepare_discovery(params: &StartClipDiscoveryParams, transcript: &Vec<TranscriptSegment>) -> (r:
    Result<PreparedDiscovery, DiscoveryError>)
    ensures
        match start_limits_error(*params) {
            Some(e) => r == Err::<PreparedDiscovery, DiscoveryError>(e),
            None => if transcript@.len() == 0 {
                r == Err::<PreparedDiscovery, DiscoveryError>(DiscoveryError::NoSegments)
            } else {
                match request_input_error(*params) {
                    Some(e) => r == Err::<PreparedDiscovery, DiscoveryError>(e),
                    None => (exists|req: ClipRequest| request_built(*params, req)) && forall|
                        req: ClipRequest,
                    | request_built(*params, req) ==> prepared_outcome(
                        *params,
                        transcript@,
                        req,
                        r,
                    ),
                }
            },
        },
{
    validate_start_limits(params)?;
    let n = transcript.len();
    if n == 0 {
        return Err(DiscoveryError::NoSegments);
    }
    let source_duration = transcript[n - 1].end;
    let request = params.to_request()?;
    proof {
        assert(request_built(*params, request));
        assert forall|req: ClipRequest| request_built(*params, req) implies req.profile.duration
            == request.profile.duration by {
            RationalTime::lemma_view_injective(req.profile.duration.min, request.profile.duration.min);
            RationalTime::lemma_view_injective(
                req.profile.duration.target,
                request.profile.duration.target,
            );
            RationalTime::lemma_view_injective(req.profile.duration.max, request.profile.duration.max);
        }
    }
    let candidates = match generate_candidates(transcript.as_slice(), &request) {
        Ok(c) => c,
        Err(e) => return Err(DiscoveryError::Finder(e)),
    };
    if candidates.len() == 0 {
        return Err(DiscoveryError::NoCandidates);
    }
    let batches = match batch_candidates(
        candidates.as_slice(),
        params.batch_candidate_limit,
        params.batch_transcript_char_limit,
    ) {
        Ok(b) => b,
        Err(e) => return Err(DiscoveryError::Finder(e)),
    };
    Ok(PreparedDiscovery { source_duration, request, candidates, batches })
}

// ---------------------------------------------------------------------------
// sessions
// ---------------------------------------------------------------------------

/// One discovery run over a transcript.
#[derive(Debug)]
pub struct DiscoverySession<E> {
    pub id: String,
    pub source_transcript: String,
    pub source_duration: RationalTime,
    pub request: ClipRequest,
    pub candidates: Vec<ClipCandidate>,
    pub batches: Vec<CandidateBatch>,
    /// Stored evaluations, each next to the candidate it scores, in the
    /// order they were accepted.
    pub evaluations: Vec<(CandidateId, E)>,
}

/// Some candidate of `cands` has the raw id.
pub open spec fn has_candidate(cands: Seq<ClipCandidate>, id: u64) -> bool {
    exists|j: int| 0 <= j < cands.len() && (#[trigger] cands[j]).id@ == id
}

/// Some stored evaluation scores the candidate with the raw id.
pub open spec fn is_evaluated<E>(evals: Seq<(CandidateId, E)>, id: u64) -> bool {
    exists|j: int| 0 <= j < evals.len() && (#[trigger] evals[j]).0@ == id
}

/// The first stored evaluation of the candidate with the raw id, searching
/// `evals[k..]`.
pub open spec fn position_from<E>(evals: Seq<(CandidateId, E)>, id: u64, k: int) -> Option<int>
    decreases evals.len() - k,
{
    if k < 0 || k >= evals.len() {
        None
    } else if evals[k].0@ == id {
        Some(k)
    } else {
        position_from(evals, id, k + 1)
    }
}

/// For the first `k` candidates, in order, the position of the stored
/// evaluation of each one that has one.
pub open spec fn evaluation_order<E>(
    cands: Seq<ClipCandidate>,
    evals: Seq<(CandidateId, E)>,
    k: int,
) -> Seq<int>
    decreases k,
{
    if k <= 0 {
        Seq::empty()
    } else {
        let before = evaluation_order(cands, evals, k - 1);
        match position_from(evals, cands[k - 1].id@, 0) {
            Some(p) => before.push(p),
            None => before,
        }
    }
}

/// Some candidate of the batch has no stored evaluation.
pub open spec fn batch_pending<E>(b: CandidateBatch, evals: Seq<(CandidateId, E)>) -> bool {
    exists|j: int|
        0 <= j < b.candidates@.len() && !is_evaluated(evals, (#[trigger] b.candidates@[j]).id@)
}

/// The indexes among the first `k` batches that still hold a candidate
/// without evaluation, in increasing order.
pub open spec fn pending_batches<E>(bs: Seq<CandidateBatch>, evals: Seq<(CandidateId, E)>, k: int) -> Seq<
    int,
>
    decreases k,
{
    if k <= 0 {
        Seq::empty()
    } else if batch_pending(bs[k - 1], evals) {
        pending_batches(bs, evals, k - 1).push(k - 1)
    } else {
        pending_batches(bs, evals, k - 1)
    }
}

/// The first candidate of `cs[k..]` whose times have no millisecond view.
pub open spec fn first_view_error(cs: Seq<ClipCandidate>, k: int) -> Option<DiscoveryError>
    decreases cs.len() - k,
{
    if k < 0 || k >= cs.len() {
        None
    } else {
        match candidate_view_error(cs[k]) {
            Some(e) => Some(e),
            None => first_view_error(cs, k + 1),
        }
    }
}

/// `a - b`, or zero when `b > a`.
pub open spec fn saturating_sub(a: int, b: int) -> int {
    if a >= b {
        a - b
    } else {
        0
    }
}

/// Which submitted evaluation `i` is refused for, if any: its candidate is
/// not in the session, is already evaluated, appears earlier in the same
/// submission, or its own checks failed.
pub open spec fn submission_error<E>(
    cands: Seq<ClipCandidate>,
    evals: Seq<(CandidateId, E)>,
    inputs: Seq<(u64, Result<E, DiscoveryError>)>,
    i: int,
) -> Option<DiscoveryError> {
    let id = inputs[i].0;
    if !has_candidate(cands, id) {
        Some(DiscoveryError::UnknownCandidate(id))
    } else if is_evaluated(evals, id) {
        Some(DiscoveryError::AlreadyEvaluated(id))
    } else if exists|j: int| 0 <= j < i && (#[trigger] inputs[j]).0 == id {
        Some(DiscoveryError::RepeatedInSubmission(id))
    } else {
        match inputs[i].1 {
            Err(e) => Some(e),
            Ok(_) => None,
        }
    }
}

/// The first refused evaluation among `inputs[i..]`.
pub open spec fn first_submission_error<E>(
    cands: Seq<ClipCandidate>,
    evals: Seq<(CandidateId, E)>,
    inputs: Seq<(u64, Result<E, DiscoveryError>)>,
    i: int,
) -> Option<DiscoveryError>
    decreases inputs.len() - i,
{
    if i < 0 || i >= inputs.len() {
        None
    } else {
        match submission_error(cands, evals, inputs, i) {
            Some(e) => Some(e),
            None => first_submission_error(cands, evals, inputs, i + 1),
        }
    }
}

/// `after` is `before` followed by every submitted evaluation, each stored
/// under its candidate id.
pub open spec fn appended_evaluations<E>(
    before: Seq<(CandidateId, E)>,
    inputs: Seq<(u64, Result<E, DiscoveryError>)>,
    after: Seq<(CandidateId, E)>,
) -> bool {
    &&& after.len() == before.len() + inputs.len()
    &&& forall|k: int| 0 <= k < before.len() ==> after[k] == before[k]
    &&& forall|k: int|
        0 <= k < inputs.len() ==> (#[trigger] after[before.len() + k]).0@ == inputs[k].0 && after[before.len()
            + k].1 == inputs[k].1->Ok_0
}

/// How an evaluation order for ranking is taken from a session.
#[derive(Debug, PartialEq, Eq)]
pub struct FinalizePlan {
    /// Candidates without evaluation.
    pub remaining_count: usize,
    /// Positions in `evaluations`, in candidate order.
    pub evaluation_order: Vec<usize>,
}

/// The reply to a request for batch `batch_index` of session `s`: out of
/// range, the first candidate whose times have no millisecond view, or the
/// batch with the session's prompt and profile texts, the rubric, and each
/// candidate in milliseconds marked when it already has an evaluation.
pub open spec fn batch_reply<E>(
    s: DiscoverySession<E>,
    batch_index: usize,
    r: Result<CandidateBatchOutput, DiscoveryError>,
) -> bool {
    if batch_index >= s.batches@.len() {
        r == Err::<CandidateBatchOutput, DiscoveryError>(
            DiscoveryError::BatchOutOfRange { index: batch_index, count: s.batches@.len() as usize },
        )
    } else {
        let cs = s.batches@[batch_index as int].candidates@;
        match first_view_error(cs, 0) {
            Some(e) => r == Err::<CandidateBatchOutput, DiscoveryError>(e),
            None => r matches Ok(out) && {
                &&& out.session_id == s.id
                &&& out.batch_index == batch_index
                &&& out.batch_count == s.batches@.len()
                &&& out.prompt == s.request.prompt
                &&& out.profile_label == s.request.profile.label
                &&& out.profile_instructions == s.request.profile.instructions
                &&& default_rubric(out.rubric)
                &&& out.candidates@.len() == cs.len()
                &&& forall|k: int|
                    0 <= k < cs.len() ==> candidate_view_fields(
                        #[trigger] out.candidates@[k],
                        cs[k],
                        is_evaluated(s.evaluations@, cs[k].id@),
                    )
            },
        }
    }
}

/// Asking for the same batch again gives the same candidates with the same
/// times and texts, also after evaluations were submitted in between; only
/// the `already_evaluated` marks follow the stored evaluations, and with the
/// same evaluations the candidate lists are equal.
pub proof fn law_batch_repeatable<E>(
    s: DiscoverySession<E>,
    t: DiscoverySession<E>,
    batch_index: usize,
    a: CandidateBatchOutput,
    b: CandidateBatchOutput,
)
    requires
        t.batches == s.batches,
        batch_reply(s, batch_index, Ok(a)),
        batch_reply(t, batch_index, Ok(b)),
    ensures
        a.candidates@.len() == b.candidates@.len(),
        forall|k: int|
            0 <= k < a.candidates@.len() ==> {
                &&& (#[trigger] a.candidates@[k]).candidate_id == b.candidates@[k].candidate_id
                &&& a.candidates@[k].start_ms == b.candidates@[k].start_ms
                &&& a.candidates@[k].end_ms == b.candidates@[k].end_ms
                &&& a.candidates@[k].duration_ms == b.candidates@[k].duration_ms
                &&& a.candidates@[k].transcript == b.candidates@[k].transcript
                &&& a.candidates@[k].word_count == b.candidates@[k].word_count
            },
        t.evaluations@ == s.evaluations@ ==> a.candidates@ == b.candidates@,
{
    if t.evaluations@ == s.evaluations@ {
        assert(a.candidates@ =~= b.candidates@);
    }
}

proof fn lemma_no_view_error(cs: Seq<ClipCandidate>, k: int)
    requires
        0 <= k,
        forall|j: int| 0 <= j < cs.len() ==> candidate_view_error(#[trigger] cs[j]) is None,
    ensures
        first_view_error(cs, k) is None,
    decreases cs.len() - k,
{
    if k < cs.len() {
        lemma_no_view_error(cs, k + 1);
    }
}

/// For a session whose candidate times are all whole milliseconds in `i64`,
/// a batch request fails exactly when the index is out of range.
pub proof fn law_batch_fails_only_out_of_range<E>(
    s: DiscoverySession<E>,
    batch_index: usize,
    r: Result<CandidateBatchOutput, DiscoveryError>,
)
    requires
        batch_reply(s, batch_index, r),
        forall|b: int, k: int|
            0 <= b < s.batches@.len() && 0 <= k < s.batches@[b].candidates@.len()
                ==> candidate_view_error(#[trigger] s.batches@[b].candidates@[k]) is None,
    ensures
        r is Err <==> batch_index >= s.batches@.len(),
{
    if batch_index < s.batches@.len() {
        let cs = s.batches@[batch_index as int].candidates@;
        assert forall|j: int| 0 <= j < cs.len() implies candidate_view_error(#[trigger] cs[j]) is None by {
            assert(cs[j] == s.batches@[batch_index as int].candidates@[j]);
        }
        lemma_no_view_error(cs, 0);
    }
}

/// The pending batch indexes among the first `k` increase, lie below `k`,
/// and are exactly the batches that still hold a candidate without
/// evaluation.
pub proof fn law_pending_batches<E>(bs: Seq<CandidateBatch>, evals: Seq<(CandidateId, E)>, k: int)
    requires
        0 <= k <= bs.len(),
    ensures
        forall|i: int, j: int|
            0 <= i < j < pending_batches(bs, evals, k).len() ==> #[trigger] pending_batches(
                bs,
                evals,
                k,
            )[i] < #[trigger] pending_batches(bs, evals, k)[j],
        forall|i: int|
            0 <= i < pending_batches(bs, evals, k).len() ==> 0 <= #[trigger] pending_batches(
                bs,
                evals,
                k,
            )[i] < k,
        forall|b: int|
            0 <= b < k ==> (pending_batches(bs, evals, k).contains(b) <==> batch_pending(
                #[trigger] bs[b],
                evals,
            )),
    decreases k,
{
    if k > 0 {
        law_pending_batches(bs, evals, k - 1);
        let before = pending_batches(bs, evals, k - 1);
        let now = pending_batches(bs, evals, k);
        assert forall|b: int| 0 <= b < k implies (now.contains(b) <==> batch_pending(
            #[trigger] bs[b],
            evals,
        )) by {
            if batch_pending(bs[k - 1], evals) {
                assert(now == before.push(k - 1));
                if b < k - 1 {
                    if now.contains(b) {
                        let i = choose|i: int| 0 <= i < now.len() && now[i] == b;
                        assert(i < before.len());
                        assert(before.contains(b));
                    }
                    if before.contains(b) {
                        let i = choose|i: int| 0 <= i < before.len() && before[i] == b;
                        assert(now[i] == b);
                    }
                } else {
                    assert(now[before.len() as int] == b);
                }
            } else {
                if b == k - 1 && now.contains(b) {
                    let i = choose|i: int| 0 <= i < now.len() && now[i] == b;
                    assert(now[i] < k - 1);
                }
            }
        }
    }
}

proof fn lemma_position_from<E>(evals: Seq<(CandidateId, E)>, id: u64, j: int)
    requires
        0 <= j,
    ensures
        position_from(evals, id, j) matches Some(p) ==> j <= p < evals.len() && evals[p].0@ == id,
        position_from(evals, id, j) is None ==> forall|q: int|
            j <= q < evals.len() ==> (#[trigger] evals[q]).0@ != id,
    decreases evals.len() - j,
{
    if j < evals.len() {
        lemma_position_from(evals, id, j + 1);
    }
}

/// With distinct stored ids, the evaluation order for the first `k`
/// candidates holds exactly the positions of the evaluations of those
/// candidates.
pub proof fn law_evaluation_order<E>(cands: Seq<ClipCandidate>, evals: Seq<(CandidateId, E)>, k: int)
    requires
        0 <= k <= cands.len(),
        forall|a: int, b: int|
            0 <= a < b < evals.len() ==> (#[trigger] evals[a]).0 != (#[trigger] evals[b]).0,
    ensures
        forall|p: int|
            evaluation_order(cands, evals, k).contains(p) <==> 0 <= p < evals.len() && exists|c: int|
                0 <= c < k && (#[trigger] cands[c]).id@ == evals[p].0@,
    decreases k,
{
    if k > 0 {
        law_evaluation_order(cands, evals, k - 1);
        let before = evaluation_order(cands, evals, k - 1);
        let now = evaluation_order(cands, evals, k);
        let id = cands[k - 1].id@;
        lemma_position_from(evals, id, 0);
        assert forall|p: int| now.contains(p) <==> 0 <= p < evals.len() && exists|c: int|
            0 <= c < k && (#[trigger] cands[c]).id@ == evals[p].0@ by {
            match position_from(evals, id, 0) {
                Some(q) => {
                    assert(now == before.push(q));
                    if now.contains(p) {
                        let i = choose|i: int| 0 <= i < now.len() && now[i] == p;
                        if i < before.len() {
                            assert(before.contains(p));
                        } else {
                            assert(cands[k - 1].id@ == evals[p].0@);
                        }
                    }
                    if 0 <= p < evals.len() && exists|c: int|
                        0 <= c < k && (#[trigger] cands[c]).id@ == evals[p].0@ {
                        let c = choose|c: int| 0 <= c < k && (#[trigger] cands[c]).id@ == evals[p].0@;
                        if c < k - 1 {
                            assert(before.contains(p));
                            let i = choose|i: int| 0 <= i < before.len() && before[i] == p;
                            assert(now[i] == p);
                        } else {
                            if p != q {
                                if evals[p].0 == evals[q].0 {
                                    if p < q {
                                        assert(evals[p].0 != evals[q].0);
                                    } else {
                                        assert(evals[q].0 != evals[p].0);
                                    }
                                }
                                CandidateId::lemma_view_injective(evals[p].0, evals[q].0);
                            }
                            assert(now[before.len() as int] == q);
                        }
                    }
                },
                None => {
                    assert(now == before);
                    if 0 <= p < evals.len() && exists|c: int|
                        0 <= c < k && (#[trigger] cands[c]).id@ == evals[p].0@ {
                        let c = choose|c: int| 0 <= c < k && (#[trigger] cands[c]).id@ == evals[p].0@;
                        if c == k - 1 {
                            assert(evals[p].0@ != id);
                        }
                        assert(before.contains(p));
                    }
                },
            }
        }
    }
}

/// When the session's candidates have distinct ids, it is ready to finalize
/// (as many stored evaluations as candidates) exactly when every candidate
/// has an evaluation.
pub proof fn law_ready_means_all_evaluated<E>(s: DiscoverySession<E>)
    requires
        s.wf(),
        forall|a: int, b: int|
            0 <= a < b < s.candidates@.len() ==> (#[trigger] s.candidates@[a]).id != (
            #[trigger] s.candidates@[b]).id,
    ensures
        (s.evaluations@.len() == s.candidates@.len()) <==> forall|c: int|
            0 <= c < s.candidates@.len() ==> is_evaluated(
                s.evaluations@,
                (#[trigger] s.candidates@[c]).id@,
            ),
{
    let evals = s.evaluations@;
    let cands = s.candidates@;
    let evaluated = evals.map_values(|p: (CandidateId, E)| p.0@);
    let candidate_ids = cands.map_values(|c: ClipCandidate| c.id@);
    assert(evaluated.no_duplicates()) by {
        assert forall|i: int, j: int|
            0 <= i < evaluated.len() && 0 <= j < evaluated.len() && i != j implies evaluated[i]
            != evaluated[j] by {
            if evaluated[i] == evaluated[j] {
                CandidateId::lemma_view_injective(evals[i].0, evals[j].0);
                if i < j {
                    assert(evals[i].0 != evals[j].0);
                } else {
                    assert(evals[j].0 != evals[i].0);
                }
            }
        }
    }
    assert(candidate_ids.no_duplicates()) by {
        assert forall|i: int, j: int|
            0 <= i < candidate_ids.len() && 0 <= j < candidate_ids.len() && i != j implies candidate_ids[i]
            != candidate_ids[j] by {
            if candidate_ids[i] == candidate_ids[j] {
                CandidateId::lemma_view_injective(cands[i].id, cands[j].id);
                if i < j {
                    assert(cands[i].id != cands[j].id);
                } else {
                    assert(cands[j].id != cands[i].id);
                }
            }
        }
    }
    evaluated.unique_seq_to_set();
    candidate_ids.unique_seq_to_set();
    let evaluated_set = evaluated.to_set();
    let candidate_set = candidate_ids.to_set();
    assert(evaluated_set.subset_of(candidate_set)) by {
        assert forall|x: u64| evaluated_set.contains(x) implies candidate_set.contains(x) by {
            let k = choose|k: int| 0 <= k < evaluated.len() && evaluated[k] == x;
            assert(has_candidate(cands, evals[k].0@));
            let j = choose|j: int| 0 <= j < cands.len() && (#[trigger] cands[j]).id@ == evals[k].0@;
            assert(candidate_ids[j] == x);
        }
    }
    vstd::seq_lib::seq_to_set_is_finite(evaluated);
    vstd::seq_lib::seq_to_set_is_finite(candidate_ids);
    if evals.len() == cands.len() {
        vstd::set_lib::lemma_subset_equality(evaluated_set, candidate_set);
        assert forall|c: int| 0 <= c < cands.len() implies is_evaluated(
            evals,
            (#[trigger] cands[c]).id@,
        ) by {
            assert(candidate_ids[c] == cands[c].id@);
            assert(candidate_set.contains(cands[c].id@));
            assert(evaluated_set.contains(cands[c].id@));
            let k = choose|k: int| 0 <= k < evaluated.len() && evaluated[k] == cands[c].id@;
            assert(evals[k].0@ == cands[c].id@);
        }
    }
    if forall|c: int| 0 <= c < cands.len() ==> is_evaluated(evals, (#[trigger] cands[c]).id@) {
        assert(candidate_set.subset_of(evaluated_set)) by {
            assert forall|x: u64| candidate_set.contains(x) implies evaluated_set.contains(x) by {
                let c = choose|c: int| 0 <= c < candidate_ids.len() && candidate_ids[c] == x;
                assert(is_evaluated(evals, cands[c].id@));
                let k = choose|k: int| 0 <= k < evals.len() && (#[trigger] evals[k]).0@ == cands[c].id@;
                assert(evaluated[k] == x);
            }
        }
        assert(candidate_set =~= evaluated_set);
    }
}

impl<E> DiscoverySession<E> {
    /// Every stored evaluation scores a candidate of the session, and no
    /// candidate is scored twice.
    pub open spec fn wf(self) -> bool {
        &&& forall|k: int|
            0 <= k < self.evaluations@.len() ==> has_candidate(
                self.candidates@,
                (#[trigger] self.evaluations@[k]).0@,
            )
        &&& forall|a: int, b: int|
            0 <= a < b < self.evaluations@.len() ==> (#[trigger] self.evaluations@[a]).0 != (
            #[trigger] self.evaluations@[b]).0
    }

    fn contains_candidate(&self, id: u64) -> (r: bool)
        ensures
            r == has_candidate(self.candidates@, id),
    {
        let mut j: usize = 0;
        while j < self.candidates.len()
            invariant
                j <= self.candidates@.len(),
                forall|q: int| 0 <= q < j ==> (#[trigger] self.candidates@[q]).id@ != id,
            decreases self.candidates@.len() - j,
        {
            if self.candidates[j].id.raw() == id {
                return true;
            }
            j = j + 1;
        }
        false
    }

    fn has_evaluation(&self, id: u64) -> (r: bool)
        ensures
            r == is_evaluated(self.evaluations@, id),
    {
        let mut j: usize = 0;
        while j < self.evaluations.len()
            invariant
                j <= self.evaluations@.len(),
                forall|q: int| 0 <= q < j ==> (#[trigger] self.evaluations@[q]).0@ != id,
            decreases self.evaluations@.len() - j,
        {
            if self.evaluations[j].0.raw() == id {
                return true;
            }
            j = j + 1;
        }
        false
    }

    /// Batch `batch_index` with the session's prompt and profile, the
    /// scoring rubric, and each candidate in milliseconds, marked when it is
    /// already evaluated.
    pub fn candidate_batch(&self, batch_index: usize) -> (r: Result<CandidateBatchOutput, DiscoveryError>)
        ensures
            batch_reply(*self, batch_index, r),
    {
        if batch_index >= self.batches.len() {
            return Err(DiscoveryError::BatchOutOfRange { index: batch_index, count: self.batches.len() });
        }
        let batch = &self.batches[batch_index];
        let ghost cs = batch.candidates@;
        let mut views: Vec<CandidateView> = Vec::new();
        let mut k: usize = 0;
        while k < batch.candidates.len()
            invariant
                batch_index < self.batches@.len(),
                *batch == self.batches@[batch_index as int],
                cs == batch.candidates@,
                k <= cs.len(),
                views@.len() == k,
                first_view_error(cs, 0) == first_view_error(cs, k as int),
                forall|q: int|
                    0 <= q < k ==> candidate_view_fields(
                        #[trigger] views@[q],
                        cs[q],
                        is_evaluated(self.evaluations@, cs[q].id@),
                    ),
            decreases cs.len() - k,
        {
            let candidate = &batch.candidates[k];
            let evaluated = self.has_evaluation(candidate.id.raw());
            let view = match CandidateView::from_candidate(candidate, evaluated) {
                Ok(v) => v,
                Err(e) => return Err(e),
            };
            views.push(view);
            k = k + 1;
        }
        Ok(CandidateBatchOutput {
            session_id: self.id.clone(),
            batch_index,
            batch_count: self.batches.len(),
            prompt: self.request.prompt.clone(),
            profile_label: self.request.profile.label.clone(),
            profile_instructions: self.request.profile.instructions.clone(),
            rubric: ScoringRubric::default(),
            candidates: views,
        })
    }

    /// Progress: counts, and the increasing indexes of the batches that
    /// still hold a candidate without evaluation.
    pub fn status(&self) -> (r: ClipDiscoveryStatusOutput)
        ensures
            r.session_id == self.id,
            r.source_transcript == self.source_transcript,
            r.candidate_count == self.candidates@.len(),
            r.evaluated_count == self.evaluations@.len(),
            r.remaining_count == saturating_sub(
                self.candidates@.len() as int,
                self.evaluations@.len() as int,
            ),
            r.batch_count == self.batches@.len(),
            r.unevaluated_batch_indexes@.map_values(|i: usize| i as int) == pending_batches(
                self.batches@,
                self.evaluations@,
                self.batches@.len() as int,
            ),
            r.ready_to_finalize == (self.evaluations@.len() == self.candidates@.len()),
    {
        let mut pending: Vec<usize> = Vec::new();
        let mut b: usize = 0;
        while b < self.batches.len()
            invariant
                b <= self.batches@.len(),
                pending@.map_values(|i: usize| i as int) == pending_batches(
                    self.batches@,
                    self.evaluations@,
                    b as int,
                ),
            decreases self.batches@.len() - b,
        {
            let batch = &self.batches[b];
            let mut open = false;
            let mut k: usize = 0;
            while k < batch.candidates.len()
                invariant_except_break
                    !open,
                invariant
                    k <= batch.candidates@.len(),
                    forall|q: int|
                        0 <= q < k ==> is_evaluated(
                            self.evaluations@,
                            (#[trigger] batch.candidates@[q]).id@,
                        ),
                ensures
                    open == batch_pending(*batch, self.evaluations@),
                decreases batch.candidates@.len() - k,
            {
                if !self.has_evaluation(batch.candidates[k].id.raw()) {
                    open = true;
                    break;
                }
                k = k + 1;
            }
            let ghost before = pending@;
            if open {
                pending.push(b);
                proof {
                    assert(pending@.map_values(|i: usize| i as int) =~= before.map_values(
                        |i: usize| i as int,
                    ).push(b as int));
                }
            }
            b = b + 1;
        }
        let candidate_count = self.candidates.len();
        let evaluated_count = self.evaluations.len();
        ClipDiscoveryStatusOutput {
            session_id: self.id.clone(),
            source_transcript: self.source_transcript.clone(),
            candidate_count,
            evaluated_count,
            remaining_count: candidate_count.saturating_sub(evaluated_count),
            batch_count: self.batches.len(),
            unevaluated_batch_indexes: pending,
            ready_to_finalize: evaluated_count == candidate_count,
        }
    }

    /// Store a submission atomically: every evaluation must pass, in order,
    /// or nothing is stored.
    fn accept_submission(&mut self, inputs: Vec<(u64, Result<E, DiscoveryError>)>) -> (r: Result<
        usize,
        DiscoveryError,
    >)
        requires
            old(self).wf(),
        ensures
            final(self).wf(),
            final(self).id == old(self).id,
            final(self).source_transcript == old(self).source_transcript,
            final(self).source_duration == old(self).source_duration,
            final(self).request == old(self).request,
            final(self).candidates == old(self).candidates,
            final(self).batches == old(self).batches,
            match first_submission_error(
                old(self).candidates@,
                old(self).evaluations@,
                inputs@,
                0,
            ) {
                Some(e) => r == Err::<usize, DiscoveryError>(e) && final(self).evaluations
                    == old(self).evaluations,
                None => r matches Ok(k) && k == inputs@.len() && appended_evaluations(
                    old(self).evaluations@,
                    inputs@,
                    final(self).evaluations@,
                ),
            },
    {
        let ghost ins = inputs@;
        let ghost cands = self.candidates@;
        let ghost evals = self.evaluations@;
        let n = inputs.len();
        let mut rest = inputs;
        let mut accepted: Vec<(CandidateId, E)> = Vec::new();
        let mut i: usize = 0;
        while i < n
            invariant
                n == ins.len(),
                ins == inputs@,
                *self == *old(self),
                cands == self.candidates@,
                evals == self.evaluations@,
                self.wf(),
                i <= n,
                rest@ == ins.subrange(i as int, n as int),
                accepted@.len() == i,
                forall|k: int|
                    0 <= k < i ==> (#[trigger] accepted@[k]).0@ == ins[k].0 && accepted@[k].1
                        == ins[k].1->Ok_0,
                forall|k: int| 0 <= k < i ==> submission_error(cands, evals, ins, k) is None,
                first_submission_error(cands, evals, ins, 0) == first_submission_error(
                    cands,
                    evals,
                    ins,
                    i as int,
                ),
            decreases n - i,
        {
            proof {
                assert(rest@[0] == ins[i as int]);
            }
            let (id, payload) = rest.remove(0);
            proof {
                assert(rest@ =~= ins.subrange(i + 1, n as int));
            }
            proof {
                assert(id == ins[i as int].0);
            }
            if !self.contains_candidate(id) {
                proof {
                    assert(submission_error(cands, evals, ins, i as int) == Some(
                        DiscoveryError::UnknownCandidate(id),
                    ));
                    assert(first_submission_error(cands, evals, ins, i as int) == Some(
                        DiscoveryError::UnknownCandidate(id),
                    ));
                }
                return Err(DiscoveryError::UnknownCandidate(id));
            }
            if self.has_evaluation(id) {
                proof {
                    assert(submission_error(cands, evals, ins, i as int) == Some(
                        DiscoveryError::AlreadyEvaluated(id),
                    ));
                    assert(first_submission_error(cands, evals, ins, i as int) == Some(
                        DiscoveryError::AlreadyEvaluated(id),
                    ));
                }
                return Err(DiscoveryError::AlreadyEvaluated(id));
            }
            let mut j: usize = 0;
            while j < accepted.len()
                invariant
                    ins == inputs@,
                    *self == *old(self),
                    self.wf(),
                    cands == self.candidates@,
                    evals == self.evaluations@,
                    has_candidate(cands, id),
                    !is_evaluated(evals, id),
                    first_submission_error(cands, evals, ins, 0) == first_submission_error(
                        cands,
                        evals,
                        ins,
                        i as int,
                    ),
                    j <= accepted@.len(),
                    accepted@.len() == i,
                    i < n,
                    n == ins.len(),
                    id == ins[i as int].0,
                    forall|k: int| 0 <= k < i ==> (#[trigger] accepted@[k]).0@ == ins[k].0,
                    forall|k: int| 0 <= k < j ==> (#[trigger] ins[k]).0 != id,
                decreases accepted@.len() - j,
            {
                if accepted[j].0.raw() == id {
                    proof {
                        assert(ins[j as int].0 == id);
                        assert(submission_error(cands, evals, ins, i as int) == Some(
                            DiscoveryError::RepeatedInSubmission(id),
                        ));
                        assert(first_submission_error(cands, evals, ins, i as int) == Some(
                            DiscoveryError::RepeatedInSubmission(id),
                        ));
                    }
                    return Err(DiscoveryError::RepeatedInSubmission(id));
                }
                j = j + 1;
            }
            match payload {
                Err(e) => {
                    proof {
                        assert(submission_error(cands, evals, ins, i as int) == Some(e));
                        assert(first_submission_error(cands, evals, ins, i as int) == Some(e));
                    }
                    return Err(e);
                },
                Ok(value) => {
                    accepted.push((CandidateId::new(id), value));
                },
            }
            proof {
                assert(submission_error(cands, evals, ins, i as int) is None);
            }
            i = i + 1;
        }
        proof {
            assert forall|a: int, b: int| 0 <= a < b < accepted@.len() implies (
            #[trigger] accepted@[a]).0 != (#[trigger] accepted@[b]).0 by {
                assert(submission_error(cands, evals, ins, b) is None);
                if accepted@[a].0 == accepted@[b].0 {
                    assert(ins[a].0 == ins[b].0);
                }
            }
        }
        let ghost before = self.evaluations@;
        let ghost acc = accepted@;
        self.evaluations.append(&mut accepted);
        proof {
            let after = self.evaluations@;
            assert forall|k: int| 0 <= k < after.len() implies has_candidate(
                cands,
                (#[trigger] after[k]).0@,
            ) by {
                if k >= before.len() {
                    assert(submission_error(cands, evals, ins, k - before.len()) is None);
                }
            }
            assert forall|a: int, b: int| 0 <= a < b < after.len() implies (#[trigger] after[a]).0
                != (#[trigger] after[b]).0 by {
                if a >= before.len() {
                } else if b >= before.len() {
                    assert(submission_error(cands, evals, ins, b - before.len()) is None);
                    assert(!is_evaluated(evals, after[b].0@));
                    if after[a].0 == after[b].0 {
                        assert(evals[a].0@ == after[b].0@);
                    }
                }
            }
            assert forall|k: int| 0 <= k < ins.len() implies (#[trigger] after[before.len() + k]).0@
                == ins[k].0 && after[before.len() + k].1 == ins[k].1->Ok_0 by {
                assert(after[before.len() + k] == acc[k]);
            }
        }
        Ok(n)
    }

    /// Whether the session may be finalized, and if so the stored
    /// evaluations in candidate order. Unevaluated candidates refuse it
    /// unless partial results are allowed; no evaluation at all refuses it
    /// always.
    pub fn finalize_plan(&self, allow_partial: bool) -> (r: Result<FinalizePlan, DiscoveryError>)
        ensures
            ({
                let remaining = saturating_sub(
                    self.candidates@.len() as int,
                    self.evaluations@.len() as int,
                );
                if remaining > 0 && !allow_partial {
                    r == Err::<FinalizePlan, DiscoveryError>(
                        DiscoveryError::Unevaluated(remaining as usize),
                    )
                } else if self.evaluations@.len() == 0 {
                    r == Err::<FinalizePlan, DiscoveryError>(DiscoveryError::NoEvaluations)
                } else {
                    r matches Ok(plan) && plan.remaining_count == remaining
                        && plan.evaluation_order@.map_values(|i: usize| i as int)
                        == evaluation_order(
                        self.candidates@,
                        self.evaluations@,
                        self.candidates@.len() as int,
                    )
                }
            }),
    {
        let remaining_count = self.candidates.len().saturating_sub(self.evaluations.len());
        if remaining_count > 0 && !allow_partial {
            return Err(DiscoveryError::Unevaluated(remaining_count));
        }
        if self.evaluations.len() == 0 {
            return Err(DiscoveryError::NoEvaluations);
        }
        let mut order: Vec<usize> = Vec::new();
        let mut c: usize = 0;
        while c < self.candidates.len()
            invariant
                c <= self.candidates@.len(),
                order@.map_values(|i: usize| i as int) == evaluation_order(
                    self.candidates@,
                    self.evaluations@,
                    c as int,
                ),
            decreases self.candidates@.len() - c,
        {
            let id = self.candidates[c].id.raw();
            let mut p: usize = 0;
            let mut found = false;
            while p < self.evaluations.len()
                invariant_except_break
                    !found,
                invariant
                    p <= self.evaluations@.len(),
                    position_from(self.evaluations@, id, 0) == position_from(
                        self.evaluations@,
                        id,
                        p as int,
                    ),
                ensures
                    found ==> p < self.evaluations@.len() && position_from(self.evaluations@, id, 0)
                        == Some(p as int),
                    !found ==> position_from(self.evaluations@, id, 0) is None,
                decreases self.evaluations@.len() - p,
            {
                if self.evaluations[p].0.raw() == id {
                    found = true;
                    break;
                }
                p = p + 1;
            }
            let ghost before = order@;
            if found {
                order.push(p);
                proof {
                    assert(order@.map_values(|i: usize| i as int) =~= before.map_values(
                        |i: usize| i as int,
                    ).push(p as int));
                }
            }
            c = c + 1;
        }
        Ok(FinalizePlan { remaining_count, evaluation_order: order })
    }
}

proof fn lemma_first_submission_error_skip<E>(
    cands: Seq<ClipCandidate>,
    evals: Seq<(CandidateId, E)>,
    inputs: Seq<(u64, Result<E, DiscoveryError>)>,
    i: int,
)
    requires
        0 <= i <= inputs.len(),
        forall|j: int| 0 <= j < i ==> submission_error(cands, evals, inputs, j) is None,
    ensures
        first_submission_error(cands, evals, inputs, 0) == first_submission_error(
            cands,
            evals,
            inputs,
            i,
        ),
    decreases i,
{
    if i > 0 {
        lemma_first_submission_error_skip(cands, evals, inputs, i - 1);
    }
}

// ---------------------------------------------------------------------------
// the server's state
// ---------------------------------------------------------------------------

/// Why a request naming session `requested` cannot use the active session.
pub open spec fn session_error<E>(active: Option<DiscoverySession<E>>, requested: Seq<char>) -> Option<
    DiscoveryError,
> {
    match active {
        None => Some(DiscoveryError::NoActiveSession),
        Some(s) => if s.id@ == requested {
            None
        } else {
            Some(DiscoveryError::InactiveSession { active: s.id })
        },
    }
}

/// The next step a started session asks of the scorer.
pub open spec fn start_next_action() -> Seq<char> {
    "Call get_candidate_batch for every batch index, score every candidate, then submit_candidate_evaluations."@
}

/// What starting a session from `prepared` does to the state `before`,
/// giving `after` and the reply `r`: with the counter full nothing changes;
/// otherwise the counter advances, and the new session replaces the active
/// one when the transcript's end is a whole number of milliseconds.
pub open spec fn started<E>(
    before: ServerState<E>,
    source_transcript: String,
    prepared: PreparedDiscovery,
    r: Result<StartClipDiscoveryOutput, DiscoveryError>,
    after: ServerState<E>,
) -> bool {
    &&& (before.sessions_started() == u64::MAX ==> r == Err::<
        StartClipDiscoveryOutput,
        DiscoveryError,
    >(DiscoveryError::SessionCounterOverflow) && after == before)
    &&& (before.sessions_started() < u64::MAX ==> {
        let n = (before.sessions_started() + 1) as nat;
        &&& after.sessions_started() == n
        &&& match millis_of(prepared.source_duration@) {
            Err(e) => r == Err::<StartClipDiscoveryOutput, DiscoveryError>(e)
                && after.active() == before.active(),
            Ok(ms) => {
                &&& after.active() matches Some(s) && {
                    &&& s.id@ == session_id_text(n)
                    &&& s.source_transcript == source_transcript
                    &&& s.source_duration == prepared.source_duration
                    &&& s.request == prepared.request
                    &&& s.candidates == prepared.candidates
                    &&& s.batches == prepared.batches
                    &&& s.evaluations@.len() == 0
                }
                &&& r matches Ok(out) && {
                    &&& out.session_id@ == session_id_text(n)
                    &&& out.source_transcript == source_transcript
                    &&& out.source_duration_ms == ms
                    &&& out.candidate_count == prepared.candidates@.len()
                    &&& out.batch_count == prepared.batches@.len()
                    &&& out.suggestion_limit == prepared.request.suggestion_limit
                    &&& out.next_action@ == start_next_action()
                }
            },
        }
    })
}

/// Starting a session as `ServerState::start` does. On success the new
/// active session carries the id of the next count, distinct from every id
/// issued before, and has no evaluations; the reply names that id and the
/// session's candidate and batch counts; and every request naming an id
/// issued before, the replaced session's among them, is refused as no longer
/// active. On failure the active session is unchanged.
pub proof fn law_start_replaces_session<E>(
    before: ServerState<E>,
    source_transcript: String,
    prepared: PreparedDiscovery,
    r: Result<StartClipDiscoveryOutput, DiscoveryError>,
    after: ServerState<E>,
)
    requires
        started(before, source_transcript, prepared, r, after),
        before.issued_ids(),
    ensures
        r is Err ==> after.active() == before.active(),
        r matches Ok(out) ==> after.active() matches Some(s) && {
            let n = before.sessions_started() + 1;
            &&& after.sessions_started() == n
            &&& s.id@ == session_id_text(n as nat)
            &&& out.session_id@ == s.id@
            &&& s.evaluations@.len() == 0
            &&& out.candidate_count == s.candidates@.len()
            &&& out.batch_count == s.batches@.len()
            &&& forall|k: nat|
                1 <= k <= before.sessions_started() ==> #[trigger] session_id_text(k) != s.id@
                    && session_error(after.active(), session_id_text(k)) == Some(
                    DiscoveryError::InactiveSession { active: s.id },
                )
            &&& before.active() matches Some(a) ==> session_error(after.active(), a.id@) == Some(
                DiscoveryError::InactiveSession { active: s.id },
            )
        },
{
    if r is Ok {
        let s = after.active()->0;
        let n = (before.sessions_started() + 1) as nat;
        assert forall|k: nat| 1 <= k <= before.sessions_started() implies #[trigger] session_id_text(k)
            != s.id@ && session_error(after.active(), session_id_text(k)) == Some(
            DiscoveryError::InactiveSession { active: s.id },
        ) by {
            law_session_ids_differ(s, n, k);
        }
        if before.active() is Some {
            let a = before.active()->0;
            let k = choose|k: nat| 1 <= k <= before.sessions_started() && a.id@ == session_id_text(k);
            assert(session_id_text(k) != s.id@);
        }
    }
}

/// The state behind the tools: how many sessions were started, and the
/// active one. Starting a session replaces the previous one.
#[derive(Debug)]
pub struct ServerState<E> {
    next_session: u64,
    active: Option<DiscoverySession<E>>,
}

impl<E> ServerState<E> {
    #[verifier::type_invariant]
    spec fn inv(self) -> bool {
        &&& self.active matches Some(s) ==> s.wf()
        &&& self.issued_ids()
    }

    /// The active session's id is that of a session started so far.
    pub closed spec fn issued_ids(self) -> bool {
        self.active matches Some(s) ==> exists|k: nat|
            1 <= k <= self.next_session && s.id@ == session_id_text(k)
    }

    /// The number of sessions started so far.
    pub closed spec fn sessions_started(self) -> u64 {
        self.next_session
    }

    /// The active session, if any.
    pub closed spec fn active(self) -> Option<DiscoverySession<E>> {
        self.active
    }

    /// No session started yet.
    pub fn new() -> (r: Self)
        ensures
            r.sessions_started() == 0,
            r.active() is None,
    {
        ServerState { next_session: 0, active: None }
    }

    /// Start the next session from a prepared discovery, replacing the
    /// active one. The counter advances first; the session is installed only
    /// when the transcript's end is a whole number of milliseconds.
    pub fn start(&mut self, source_transcript: String, prepared: PreparedDiscovery) -> (r: Result<
        StartClipDiscoveryOutput,
        DiscoveryError,
    >)
        ensures
            started(*old(self), source_transcript, prepared, r, *final(self)),
            old(self).issued_ids(),
            final(self).issued_ids(),
    {
        proof {
            use_type_invariant(&*self);
        }
        if self.next_session == u64::MAX {
            return Err(DiscoveryError::SessionCounterOverflow);
        }
        let n = self.next_session + 1;
        self.next_session = n;
        let id = session_id(n);
        let source_duration_ms = rational_to_millis(prepared.source_duration)?;
        let output = StartClipDiscoveryOutput {
            session_id: id.clone(),
            source_transcript: source_transcript.clone(),
            source_duration_ms,
            candidate_count: prepared.candidates.len(),
            batch_count: prepared.batches.len(),
            suggestion_limit: prepared.request.suggestion_limit,
            next_action: "Call get_candidate_batch for every batch index, score every candidate, then submit_candidate_evaluations.".to_owned(),
        };
        let session = DiscoverySession {
            id,
            source_transcript,
            source_duration: prepared.source_duration,
            request: prepared.request,
            candidates: prepared.candidates,
            batches: prepared.batches,
            evaluations: Vec::new(),
        };
        self.active = Some(session);
        Ok(output)
    }

    /// The active session, when it is the requested one. Its stored
    /// evaluations each score one of its candidates, and no candidate twice.
    pub fn active_session(&self, requested_id: &str) -> (r: Result<&DiscoverySession<E>, DiscoveryError>)
        ensures
            match session_error(self.active(), requested_id@) {
                Some(e) => r == Err::<&DiscoverySession<E>, DiscoveryError>(e),
                None => r matches Ok(s) && *s == self.active()->0 && s.wf(),
            },
            self.issued_ids(),
    {
        proof {
            use_type_invariant(self);
        }
        match &self.active {
            None => Err(DiscoveryError::NoActiveSession),
            Some(session) => {
                if session.id == requested_id.to_owned() {
                    Ok(session)
                } else {
                    Err(DiscoveryError::InactiveSession { active: session.id.clone() })
                }
            },
        }
    }

    /// Validate and store a submission for the requested session. It must
    /// hold an evaluation; each one must name a candidate of the session that
    /// has no stored evaluation and appears once in the submission, and must
    /// have passed its own checks. Either all are stored or none is.
    pub fn submit_evaluations(
        &mut self,
        requested_id: &str,
        inputs: Vec<(u64, Result<E, DiscoveryError>)>,
    ) -> (r: Result<SubmitCandidateEvaluationsOutput, DiscoveryError>)
        ensures
            final(self).sessions_started() == old(self).sessions_started(),
            inputs@.len() == 0 ==> r == Err::<SubmitCandidateEvaluationsOutput, DiscoveryError>(
                DiscoveryError::EmptySubmission,
            ) && *final(self) == *old(self),
            inputs@.len() > 0 ==> match session_error(old(self).active(), requested_id@) {
                Some(e) => r == Err::<SubmitCandidateEvaluationsOutput, DiscoveryError>(e)
                    && *final(self) == *old(self),
                None => {
                    let s = old(self).active()->0;
                    match first_submission_error(s.candidates@, s.evaluations@, inputs@, 0) {
                        Some(e) => r == Err::<SubmitCandidateEvaluationsOutput, DiscoveryError>(e)
                            && final(self).active() == old(self).active(),
                        None => final(self).active() matches Some(t) && {
                            &&& t.id == s.id
                            &&& t.source_transcript == s.source_transcript
                            &&& t.source_duration == s.source_duration
                            &&& t.request == s.request
                            &&& t.candidates == s.candidates
                            &&& t.batches == s.batches
                            &&& appended_evaluations(s.evaluations@, inputs@, t.evaluations@)
                            &&& r matches Ok(out) && {
                                &&& out.session_id == s.id
                                &&& out.accepted_count == inputs@.len()
                                &&& out.evaluated_count == t.evaluations@.len()
                                &&& out.remaining_count == saturating_sub(
                                    t.candidates@.len() as int,
                                    t.evaluations@.len() as int,
                                )
                                &&& out.ready_to_finalize == (t.evaluations@.len()
                                    == t.candidates@.len())
                            }
                        },
                    }
                },
            },
    {
        if inputs.len() == 0 {
            return Err(DiscoveryError::EmptySubmission);
        }
        proof {
            use_type_invariant(&*self);
        }
        let mut slot: Option<DiscoverySession<E>> = None;
        std::mem::swap(&mut slot, &mut self.active);
        let r = submit_to_active(&mut slot, requested_id, inputs);
        self.active = slot;
        r
    }
}

/// The submission step on the active session slot.
fn submit_to_active<E>(
    active: &mut Option<DiscoverySession<E>>,
    requested_id: &str,
    inputs: Vec<(u64, Result<E, DiscoveryError>)>,
) -> (r: Result<SubmitCandidateEvaluationsOutput, DiscoveryError>)
    requires
        *old(active) matches Some(s) ==> s.wf(),
    ensures
        *final(active) matches Some(s) ==> s.wf(),
        match session_error(*old(active), requested_id@) {
            Some(e) => r == Err::<SubmitCandidateEvaluationsOutput, DiscoveryError>(e)
                && *final(active) == *old(active),
            None => {
                let s = old(active)->0;
                match first_submission_error(s.candidates@, s.evaluations@, inputs@, 0) {
                    Some(e) => r == Err::<SubmitCandidateEvaluationsOutput, DiscoveryError>(e)
                        && *final(active) == *old(active),
                    None => *final(active) matches Some(t) && {
                        &&& t.id == s.id
                        &&& t.source_transcript == s.source_transcript
                        &&& t.source_duration == s.source_duration
                        &&& t.request == s.request
                        &&& t.candidates == s.candidates
                        &&& t.batches == s.batches
                        &&& appended_evaluations(s.evaluations@, inputs@, t.evaluations@)
                        &&& r matches Ok(out) && {
                            &&& out.session_id == s.id
                            &&& out.accepted_count == inputs@.len()
                            &&& out.evaluated_count == t.evaluations@.len()
                            &&& out.remaining_count == saturating_sub(
                                t.candidates@.len() as int,
                                t.evaluations@.len() as int,
                            )
                            &&& out.ready_to_finalize == (t.evaluations@.len()
                                == t.candidates@.len())
                        }
                    },
                }
            },
        },
{
    match active {
        None => Err(DiscoveryError::NoActiveSession),
        Some(session) => {
            if session.id != requested_id.to_owned() {
                return Err(DiscoveryError::InactiveSession { active: session.id.clone() });
            }
            let accepted_count = session.accept_submission(inputs)?;
            let evaluated_count = session.evaluations.len();
            let candidate_count = session.candidates.len();
            Ok(SubmitCandidateEvaluationsOutput {
                session_id: session.id.clone(),
                accepted_count,
                evaluated_count,
                remaining_count: candidate_count.saturating_sub(evaluated_count),
                ready_to_finalize: evaluated_count == candidate_count,
            })
        },
    }
}

} // verus!
