//! Checking external evaluations against the candidates, ordering them, and
//! picking a non-redundant review queue.
//!
//! Scores are computed outside this module; an evaluation reaches it as an
//! `EvaluationKey`: the candidate it refers to, an integer whose order is the
//! order of the overall scores, and the first of its scores that was invalid.
use vstd::prelude::*;

use crate::clip_finder::error::ClipFinderError;
use crate::clip_finder::model::{request_error, CandidateId, ClipCandidate, ClipRequest};
use crate::rational::{fits, rat_lt, rat_sub, RationalTime, TimeError};

verus! {

/// What ranking reads from one external evaluation.
#[derive(Clone, Copy, Debug, PartialEq, Eq)]
pub struct EvaluationKey {
    /// The candidate the evaluation scores.
    pub candidate_id: CandidateId,
    /// Ordered like the evaluation's overall score (higher ranks first).
    pub score_key: u32,
    /// The first score field that is not a finite number in `[0, 1]`.
    pub invalid_score: Option<&'static str>,
}

// ---------------------------------------------------------------------------
// validation
// ---------------------------------------------------------------------------

/// Index of the last candidate in `cands[..k]` with the id, searching backwards.
pub open spec fn last_index_with_id(cands: Seq<ClipCandidate>, id: CandidateId, k: int) -> Option<int>
    decreases k,
{
    if k <= 0 {
        None
    } else if cands[k - 1].id == id {
        Some(k - 1)
    } else {
        last_index_with_id(cands, id, k - 1)
    }
}

/// The candidate an id denotes: the last one carrying it.
pub open spec fn candidate_index(cands: Seq<ClipCandidate>, id: CandidateId) -> Option<int> {
    last_index_with_id(cands, id, cands.len() as int)
}

/// The problem with evaluation `i`, if any: unknown candidate, candidate
/// already evaluated by an earlier evaluation, or an invalid score.
pub open spec fn evaluation_error(cands: Seq<ClipCandidate>, evals: Seq<EvaluationKey>, i: int) -> Option<
    ClipFinderError,
> {
    let id = evals[i].candidate_id;
    if candidate_index(cands, id) is None {
        Some(ClipFinderError::UnknownCandidate(id))
    } else if exists|j: int| 0 <= j < i && (#[trigger] evals[j]).candidate_id == id {
        Some(ClipFinderError::DuplicateEvaluation(id))
    } else {
        match evals[i].invalid_score {
            Some(field) => Some(ClipFinderError::InvalidEvaluationScore { candidate_id: id, field }),
            None => None,
        }
    }
}

/// The first problem among evaluations `i..`.
pub open spec fn first_evaluation_error(
    cands: Seq<ClipCandidate>,
    evals: Seq<EvaluationKey>,
    i: int,
) -> Option<ClipFinderError>
    decreases evals.len() - i,
{
    if i < 0 || i >= evals.len() {
        None
    } else {
        match evaluation_error(cands, evals, i) {
            Some(e) => Some(e),
            None => first_evaluation_error(cands, evals, i + 1),
        }
    }
}

// ---------------------------------------------------------------------------
// order
// ---------------------------------------------------------------------------

/// `a` ranks before `b`: higher score first, then lower candidate id.
pub open spec fn ranks_before(a: EvaluationKey, b: EvaluationKey) -> bool {
    a.score_key > b.score_key || (a.score_key == b.score_key && a.candidate_id@ < b.candidate_id@)
}

/// `order` lists every evaluation index once, best ranked first.
pub open spec fn is_rank_order(evals: Seq<EvaluationKey>, order: Seq<int>) -> bool {
    &&& order.len() == evals.len()
    &&& forall|i: int| 0 <= i < order.len() ==> 0 <= #[trigger] order[i] < evals.len()
    &&& forall|i: int, j: int| 0 <= i < j < order.len() ==> ranks_before(
        evals[#[trigger] order[i]],
        evals[#[trigger] order[j]],
    )
}

// ---------------------------------------------------------------------------
// overlap
// ---------------------------------------------------------------------------

/// `i128` holds `x`.
pub open spec fn fits_i128(x: int) -> bool {
    i128::MIN <= x <= i128::MAX
}

/// `n / d > percent / 100`, computed by cross-multiplication in `i128`;
/// fails when a product does not fit.
pub open spec fn ratio_exceeds(n: (int, int), d: (int, int), percent: int) -> Result<bool, ClipFinderError> {
    let left = n.0 * 100 * d.1;
    let right = percent * d.0 * n.1;
    if !fits_i128(left) || !fits_i128(right) {
        Err(ClipFinderError::Time(TimeError::Overflow))
    } else {
        Ok(left > right)
    }
}

/// Whether the overlap of two candidates exceeds `percent` of the shorter one.
pub open spec fn overlap_exceeds(l: ClipCandidate, r: ClipCandidate, percent: int) -> Result<
    bool,
    ClipFinderError,
> {
    let start = if rat_lt(l.start@, r.start@) {
        r.start@
    } else {
        l.start@
    };
    let end = if rat_lt(l.end@, r.end@) {
        l.end@
    } else {
        r.end@
    };
    if !rat_lt(start, end) {
        Ok(false)
    } else {
        let overlap = rat_sub(end, start);
        let ld = rat_sub(l.end@, l.start@);
        let rd = rat_sub(r.end@, r.start@);
        if !fits(overlap) || !fits(ld) || !fits(rd) {
            Err(ClipFinderError::Time(TimeError::Overflow))
        } else {
            let shorter = if rat_lt(ld, rd) {
                ld
            } else {
                rd
            };
            ratio_exceeds(overlap, shorter, percent)
        }
    }
}

/// `o` is more than `p` percent of `d`: `100 · o > p · d`, for fractions
/// with positive denominators.
pub open spec fn more_than_percent_of(o: (int, int), d: (int, int), p: int) -> bool {
    o.0 * 100 * d.1 > p * d.0 * o.1
}

/// The common part of two candidates: from the later start to the earlier end.
pub open spec fn common_part(l: ClipCandidate, r: ClipCandidate) -> ((int, int), (int, int)) {
    let start = if rat_lt(l.start@, r.start@) {
        r.start@
    } else {
        l.start@
    };
    let end = if rat_lt(l.end@, r.end@) {
        l.end@
    } else {
        r.end@
    };
    (start, end)
}

proof fn lemma_percent_of_longer(o: (int, int), a: (int, int), b: (int, int), p: int)
    requires
        o.1 > 0,
        a.1 > 0,
        b.1 > 0,
        p >= 0,
        a.0 * b.1 <= b.0 * a.1,
        more_than_percent_of(o, b, p),
    ensures
        more_than_percent_of(o, a, p),
{
    let x = o.0 * 100;
    assert(x * b.1 * a.1 > p * o.1 * b.0 * a.1) by (nonlinear_arith)
        requires
            x * b.1 > p * b.0 * o.1,
            a.1 > 0,
    ;
    assert(p * o.1 * b.0 * a.1 >= p * o.1 * a.0 * b.1) by (nonlinear_arith)
        requires
            a.0 * b.1 <= b.0 * a.1,
            p >= 0,
            o.1 > 0,
    ;
    assert(x * a.1 > p * a.0 * o.1) by (nonlinear_arith)
        requires
            x * b.1 * a.1 > p * o.1 * a.0 * b.1,
            b.1 > 0,
    ;
}

/// Two candidates overlap too much exactly when they share a stretch of
/// time longer than the given percentage of the shorter of the two, that is,
/// longer than that percentage of either one.
pub proof fn law_overlap_measured_against_shorter(l: ClipCandidate, r: ClipCandidate, percent: int)
    requires
        0 <= percent,
        l.start@.1 > 0,
        l.end@.1 > 0,
        r.start@.1 > 0,
        r.end@.1 > 0,
    ensures
        overlap_exceeds(l, r, percent) matches Ok(b) ==> {
            let (start, end) = common_part(l, r);
            let o = rat_sub(end, start);
            b == (rat_lt(start, end) && (more_than_percent_of(o, rat_sub(l.end@, l.start@), percent)
                || more_than_percent_of(o, rat_sub(r.end@, r.start@), percent)))
        },
{
    let (start, end) = common_part(l, r);
    let o = rat_sub(end, start);
    let ld = rat_sub(l.end@, l.start@);
    let rd = rat_sub(r.end@, r.start@);
    if rat_lt(start, end) {
        crate::clip_finder::candidate::lemma_sub_positive(end, start);
        crate::clip_finder::candidate::lemma_sub_positive(l.end@, l.start@);
        crate::clip_finder::candidate::lemma_sub_positive(r.end@, r.start@);
        if rat_lt(ld, rd) {
            if more_than_percent_of(o, rd, percent) {
                lemma_percent_of_longer(o, ld, rd, percent);
            }
        } else {
            if more_than_percent_of(o, ld, percent) {
                lemma_percent_of_longer(o, rd, ld, percent);
            }
        }
    }
}

/// The candidate that evaluation `ev` scores.
pub open spec fn scored(cands: Seq<ClipCandidate>, evals: Seq<EvaluationKey>, ev: int) -> ClipCandidate {
    cands[candidate_index(cands, evals[ev].candidate_id)->0]
}

/// Whether the candidate of `ev` overlaps too much with one of `selected[j..]`.
pub open spec fn overlaps_selected(
    cands: Seq<ClipCandidate>,
    evals: Seq<EvaluationKey>,
    ev: int,
    selected: Seq<int>,
    percent: int,
    j: int,
) -> Result<bool, ClipFinderError>
    decreases selected.len() - j,
{
    if j < 0 || j >= selected.len() {
        Ok(false)
    } else {
        match overlap_exceeds(scored(cands, evals, ev), scored(cands, evals, selected[j]), percent) {
            Err(e) => Err(e),
            Ok(true) => Ok(true),
            Ok(false) => overlaps_selected(cands, evals, ev, selected, percent, j + 1),
        }
    }
}

/// Walk `order[k..]`, keeping each evaluation whose candidate does not
/// overlap too much with one already kept, until `limit` are kept.
pub open spec fn select_from(
    cands: Seq<ClipCandidate>,
    evals: Seq<EvaluationKey>,
    order: Seq<int>,
    percent: int,
    limit: int,
    k: int,
    selected: Seq<int>,
) -> Result<Seq<int>, ClipFinderError>
    decreases order.len() - k,
{
    if k < 0 || k >= order.len() {
        Ok(selected)
    } else {
        match overlaps_selected(cands, evals, order[k], selected, percent, 0) {
            Err(e) => Err(e),
            Ok(true) => select_from(cands, evals, order, percent, limit, k + 1, selected),
            Ok(false) => {
                let kept = selected.push(order[k]);
                if kept.len() == limit {
                    Ok(kept)
                } else {
                    select_from(cands, evals, order, percent, limit, k + 1, kept)
                }
            },
        }
    }
}

/// The selection for a request whose evaluations are valid.
pub open spec fn selection(
    cands: Seq<ClipCandidate>,
    evals: Seq<EvaluationKey>,
    order: Seq<int>,
    request: ClipRequest,
) -> Result<Seq<int>, ClipFinderError> {
    select_from(
        cands,
        evals,
        order,
        request.max_overlap_percent as int,
        request.suggestion_limit as int,
        0,
        Seq::empty(),
    )
}

/// `picks` pairs each selected evaluation with the index of its candidate.
pub open spec fn picks_match(
    picks: Seq<(usize, usize)>,
    cands: Seq<ClipCandidate>,
    evals: Seq<EvaluationKey>,
    sel: Seq<int>,
) -> bool {
    &&& picks.len() == sel.len()
    &&& forall|i: int|
        0 <= i < picks.len() ==> (#[trigger] picks[i]).0 == sel[i] && candidate_index(
            cands,
            evals[sel[i]].candidate_id,
        ) == Some(picks[i].1 as int)
}

// ---------------------------------------------------------------------------
// lemmas
// ---------------------------------------------------------------------------

proof fn lemma_first_evaluation_error_skip(
    cands: Seq<ClipCandidate>,
    evals: Seq<EvaluationKey>,
    i: int,
)
    requires
        0 <= i <= evals.len(),
        forall|j: int| 0 <= j < i ==> evaluation_error(cands, evals, j) is None,
    ensures
        first_evaluation_error(cands, evals, 0) == first_evaluation_error(cands, evals, i),
    decreases i,
{
    if i > 0 {
        lemma_first_evaluation_error_skip(cands, evals, i - 1);
    }
}

proof fn lemma_last_index_with_id(cands: Seq<ClipCandidate>, id: CandidateId, k: int)
    requires
        0 <= k <= cands.len(),
    ensures
        last_index_with_id(cands, id, k) matches Some(i) ==> 0 <= i < k && cands[i].id == id,
        last_index_with_id(cands, id, k) is None ==> forall|i: int|
            0 <= i < k ==> (#[trigger] cands[i]).id != id,
    decreases k,
{
    if k > 0 {
        lemma_last_index_with_id(cands, id, k - 1);
    }
}

/// A rank order lists every evaluation index.
proof fn lemma_rank_order_covers(evals: Seq<EvaluationKey>, order: Seq<int>, x: int)
    requires
        is_rank_order(evals, order),
        0 <= x < evals.len(),
    ensures
        exists|p: int| 0 <= p < order.len() && order[p] == x,
{
    let n = evals.len() as int;
    assert(order.no_duplicates()) by {
        assert forall|i: int, j: int| 0 <= i < order.len() && 0 <= j < order.len() && i != j implies order[i]
            != order[j] by {
            if i < j {
                assert(ranks_before(evals[order[i]], evals[order[j]]));
            } else {
                assert(ranks_before(evals[order[j]], evals[order[i]]));
            }
        }
    }
    order.unique_seq_to_set();
    vstd::set_lib::lemma_int_range(0, n);
    let range = vstd::set_lib::set_int_range(0, n);
    assert(order.to_set().subset_of(range));
    vstd::set_lib::lemma_subset_equality(order.to_set(), range);
    assert(range.contains(x));
    assert(order.to_set().contains(x));
}

/// Ranking is deterministic: the evaluations have exactly one rank order.
pub proof fn law_rank_order_unique(evals: Seq<EvaluationKey>, first: Seq<int>, second: Seq<int>)
    requires
        is_rank_order(evals, first),
        is_rank_order(evals, second),
    ensures
        first == second,
{
    lemma_rank_orders_agree_from(evals, first, second, 0);
}

proof fn lemma_rank_orders_agree_from(evals: Seq<EvaluationKey>, first: Seq<int>, second: Seq<int>, k: int)
    requires
        is_rank_order(evals, first),
        is_rank_order(evals, second),
        0 <= k <= first.len(),
        forall|i: int| 0 <= i < k ==> first[i] == second[i],
    ensures
        first == second,
    decreases first.len() - k,
{
    if k == first.len() {
        assert(first =~= second);
    } else {
        let x = first[k];
        let y = second[k];
        if x != y {
            lemma_rank_order_covers(evals, second, x);
            lemma_rank_order_covers(evals, first, y);
            let p = choose|p: int| 0 <= p < second.len() && second[p] == x;
            let q = choose|q: int| 0 <= q < first.len() && first[q] == y;
            if p < k {
                assert(first[p] == x);
                assert(ranks_before(evals[first[p]], evals[first[k]]));
            }
            if q < k {
                assert(second[q] == y);
                assert(ranks_before(evals[second[q]], evals[second[k]]));
            }
            assert(ranks_before(evals[second[k]], evals[second[p]]));
            assert(ranks_before(evals[first[k]], evals[first[q]]));
        }
        lemma_rank_orders_agree_from(evals, first, second, k + 1);
    }
}

/// `overlaps_selected` from `j` is `Ok(false)` exactly when no kept entry
/// from `j` on overlaps too much.
proof fn lemma_overlaps_selected_false(
    cands: Seq<ClipCandidate>,
    evals: Seq<EvaluationKey>,
    ev: int,
    selected: Seq<int>,
    percent: int,
    j: int,
)
    requires
        0 <= j,
        overlaps_selected(cands, evals, ev, selected, percent, j) == Ok::<bool, ClipFinderError>(false),
    ensures
        forall|q: int|
            j <= q < selected.len() ==> overlap_exceeds(
                scored(cands, evals, ev),
                scored(cands, evals, #[trigger] selected[q]),
                percent,
            ) == Ok::<bool, ClipFinderError>(false),
    decreases selected.len() - j,
{
    if j < selected.len() {
        lemma_overlaps_selected_false(cands, evals, ev, selected, percent, j + 1);
    }
}

/// What the walk from position `k` keeps, given that what was kept so far
/// came from positions before `k`.
proof fn lemma_select_from(
    cands: Seq<ClipCandidate>,
    evals: Seq<EvaluationKey>,
    order: Seq<int>,
    percent: int,
    limit: int,
    k: int,
    selected: Seq<int>,
)
    requires
        is_rank_order(evals, order),
        0 <= k,
        selected.len() < limit,
        forall|i: int|
            0 <= i < selected.len() ==> exists|p: int|
                0 <= p < k && p < order.len() && order[p] == #[trigger] selected[i],
        forall|i: int, j: int|
            0 <= i < j < selected.len() ==> ranks_before(
                evals[#[trigger] selected[i]],
                evals[#[trigger] selected[j]],
            ),
        forall|i: int, j: int|
            0 <= i < j < selected.len() ==> overlap_exceeds(
                scored(cands, evals, #[trigger] selected[j]),
                scored(cands, evals, #[trigger] selected[i]),
                percent,
            ) == Ok::<bool, ClipFinderError>(false),
    ensures
        select_from(cands, evals, order, percent, limit, k, selected) matches Ok(sel) ==> {
            &&& sel.len() <= limit
            &&& forall|i: int| 0 <= i < sel.len() ==> 0 <= #[trigger] sel[i] < evals.len()
            &&& forall|i: int, j: int|
                0 <= i < j < sel.len() ==> ranks_before(evals[#[trigger] sel[i]], evals[#[trigger] sel[j]])
            &&& forall|i: int, j: int|
                0 <= i < j < sel.len() ==> overlap_exceeds(
                    scored(cands, evals, #[trigger] sel[j]),
                    scored(cands, evals, #[trigger] sel[i]),
                    percent,
                ) == Ok::<bool, ClipFinderError>(false)
        },
    decreases order.len() - k,
{
    assert forall|i: int| 0 <= i < selected.len() implies 0 <= #[trigger] selected[i] < evals.len() by {
        let p = choose|p: int| 0 <= p < k && p < order.len() && order[p] == selected[i];
        assert(0 <= order[p] < evals.len());
    }
    if k < order.len() {
        match overlaps_selected(cands, evals, order[k], selected, percent, 0) {
            Err(_) => {},
            Ok(true) => {
                lemma_select_from(cands, evals, order, percent, limit, k + 1, selected);
            },
            Ok(false) => {
                let kept = selected.push(order[k]);
                lemma_overlaps_selected_false(cands, evals, order[k], selected, percent, 0);
                assert forall|i: int| 0 <= i < kept.len() implies exists|p: int|
                    0 <= p < k + 1 && p < order.len() && order[p] == #[trigger] kept[i] by {
                    if i < selected.len() {
                        let p = choose|p: int| 0 <= p < k && p < order.len() && order[p] == selected[i];
                        assert(order[p] == kept[i]);
                    } else {
                        assert(order[k] == kept[i]);
                    }
                }
                assert forall|i: int, j: int| 0 <= i < j < kept.len() implies ranks_before(
                    evals[#[trigger] kept[i]],
                    evals[#[trigger] kept[j]],
                ) by {
                    if j == selected.len() {
                        let p = choose|p: int| 0 <= p < k && p < order.len() && order[p] == selected[i];
                        assert(kept[i] == order[p] && kept[j] == order[k]);
                    } else {
                        assert(kept[i] == selected[i] && kept[j] == selected[j]);
                    }
                }
                assert forall|i: int, j: int| 0 <= i < j < kept.len() implies overlap_exceeds(
                    scored(cands, evals, #[trigger] kept[j]),
                    scored(cands, evals, #[trigger] kept[i]),
                    percent,
                ) == Ok::<bool, ClipFinderError>(false) by {
                    if j == selected.len() {
                        assert(kept[i] == selected[i] && kept[j] == order[k]);
                    } else {
                        assert(kept[i] == selected[i] && kept[j] == selected[j]);
                    }
                }
                assert forall|i: int| 0 <= i < kept.len() implies 0 <= #[trigger] kept[i] < evals.len() by {
                    if i < selected.len() {
                        assert(kept[i] == selected[i]);
                    } else {
                        assert(kept[i] == order[k]);
                    }
                }
                if kept.len() < limit {
                    lemma_select_from(cands, evals, order, percent, limit, k + 1, kept);
                }
            },
        }
    }
}

/// `overlaps_selected` from `j` is `Ok(true)` only when some kept entry from
/// `j` on overlaps too much.
proof fn lemma_overlaps_selected_true(
    cands: Seq<ClipCandidate>,
    evals: Seq<EvaluationKey>,
    ev: int,
    selected: Seq<int>,
    percent: int,
    j: int,
)
    requires
        0 <= j,
        overlaps_selected(cands, evals, ev, selected, percent, j) == Ok::<bool, ClipFinderError>(true),
    ensures
        exists|q: int|
            j <= q < selected.len() && overlap_exceeds(
                scored(cands, evals, ev),
                scored(cands, evals, #[trigger] selected[q]),
                percent,
            ) == Ok::<bool, ClipFinderError>(true),
    decreases selected.len() - j,
{
    if j < selected.len() {
        if overlap_exceeds(scored(cands, evals, ev), scored(cands, evals, selected[j]), percent)
            != Ok::<bool, ClipFinderError>(true) {
            lemma_overlaps_selected_true(cands, evals, ev, selected, percent, j + 1);
        }
    }
}

/// `sel` is the greedy overlap filter of `order`: it takes, in rank order,
/// the entries at positions `pos`; and every position before the walk
/// stopped (the end, or the last kept entry once `limit` are kept) that is
/// not kept holds an entry overlapping an earlier kept one too much.
pub open spec fn greedy_kept(
    cands: Seq<ClipCandidate>,
    evals: Seq<EvaluationKey>,
    order: Seq<int>,
    percent: int,
    limit: int,
    sel: Seq<int>,
    pos: Seq<int>,
) -> bool {
    &&& pos.len() == sel.len()
    &&& forall|i: int| 0 <= i < pos.len() ==> 0 <= #[trigger] pos[i] < order.len() && sel[i] == order[pos[i]]
    &&& forall|i: int, j: int| 0 <= i < j < pos.len() ==> #[trigger] pos[i] < #[trigger] pos[j]
    &&& forall|k: int|
        0 <= k < order.len() && (sel.len() < limit || k < pos.last()) && !pos.contains(k) ==> exists|i: int|
            0 <= i < sel.len() && pos[i] < k && overlap_exceeds(
                scored(cands, evals, #[trigger] order[k]),
                scored(cands, evals, #[trigger] sel[i]),
                percent,
            ) == Ok::<bool, ClipFinderError>(true)
}

/// Some choice of positions shows `sel` to be the greedy overlap filter of `order`.
pub open spec fn is_greedy_selection(
    cands: Seq<ClipCandidate>,
    evals: Seq<EvaluationKey>,
    order: Seq<int>,
    percent: int,
    limit: int,
    sel: Seq<int>,
) -> bool {
    exists|pos: Seq<int>| greedy_kept(cands, evals, order, percent, limit, sel, pos)
}

proof fn lemma_select_greedy(
    cands: Seq<ClipCandidate>,
    evals: Seq<EvaluationKey>,
    order: Seq<int>,
    percent: int,
    limit: int,
    k: int,
    selected: Seq<int>,
    pos: Seq<int>,
)
    requires
        0 <= k,
        selected.len() < limit,
        pos.len() == selected.len(),
        forall|i: int| 0 <= i < pos.len() ==> 0 <= #[trigger] pos[i] < k && pos[i] < order.len() && selected[i] == order[pos[i]],
        forall|i: int, j: int| 0 <= i < j < pos.len() ==> #[trigger] pos[i] < #[trigger] pos[j],
        forall|q: int|
            0 <= q < k && q < order.len() && !pos.contains(q) ==> exists|i: int|
                0 <= i < selected.len() && pos[i] < q && overlap_exceeds(
                    scored(cands, evals, #[trigger] order[q]),
                    scored(cands, evals, #[trigger] selected[i]),
                    percent,
                ) == Ok::<bool, ClipFinderError>(true),
    ensures
        select_from(cands, evals, order, percent, limit, k, selected) matches Ok(sel)
            ==> is_greedy_selection(cands, evals, order, percent, limit, sel),
    decreases order.len() - k,
{
    if k >= order.len() {
        assert(select_from(cands, evals, order, percent, limit, k, selected) == Ok::<
            Seq<int>,
            ClipFinderError,
        >(selected));
        assert(greedy_kept(cands, evals, order, percent, limit, selected, pos));
        assert(is_greedy_selection(cands, evals, order, percent, limit, selected));
    } else {
        match overlaps_selected(cands, evals, order[k], selected, percent, 0) {
            Err(_) => {
                assert(select_from(cands, evals, order, percent, limit, k, selected) is Err);
            },
            Ok(true) => {
                lemma_overlaps_selected_true(cands, evals, order[k], selected, percent, 0);
                let w = choose|w: int|
                    0 <= w < selected.len() && overlap_exceeds(
                        scored(cands, evals, order[k]),
                        scored(cands, evals, #[trigger] selected[w]),
                        percent,
                    ) == Ok::<bool, ClipFinderError>(true);
                assert forall|q: int|
                    0 <= q < k + 1 && q < order.len() && !pos.contains(q) implies exists|i: int|
                        0 <= i < selected.len() && pos[i] < q && overlap_exceeds(
                            scored(cands, evals, #[trigger] order[q]),
                            scored(cands, evals, #[trigger] selected[i]),
                            percent,
                        ) == Ok::<bool, ClipFinderError>(true) by {
                    if q == k {
                        assert(pos[w] < k);
                    }
                }
                lemma_select_greedy(cands, evals, order, percent, limit, k + 1, selected, pos);
                assert(select_from(cands, evals, order, percent, limit, k, selected) == select_from(
                    cands,
                    evals,
                    order,
                    percent,
                    limit,
                    k + 1,
                    selected,
                ));
            },
            Ok(false) => {
                let kept = selected.push(order[k]);
                let p2 = pos.push(k);
                assert forall|q: int| 0 <= q < k + 1 && q < order.len() && !p2.contains(q) implies exists|i: int|
                    0 <= i < kept.len() && p2[i] < q && overlap_exceeds(
                        scored(cands, evals, #[trigger] order[q]),
                        scored(cands, evals, #[trigger] kept[i]),
                        percent,
                    ) == Ok::<bool, ClipFinderError>(true) by {
                    if q == k {
                        assert(p2[pos.len() as int] == k);
                    } else {
                        assert(!pos.contains(q)) by {
                            if pos.contains(q) {
                                let i = choose|i: int| 0 <= i < pos.len() && pos[i] == q;
                                assert(p2[i] == q);
                            }
                        }
                        let i = choose|i: int|
                            0 <= i < selected.len() && pos[i] < q && overlap_exceeds(
                                scored(cands, evals, #[trigger] order[q]),
                                scored(cands, evals, #[trigger] selected[i]),
                                percent,
                            ) == Ok::<bool, ClipFinderError>(true);
                        assert(kept[i] == selected[i] && p2[i] == pos[i]);
                    }
                }
                assert forall|i: int| 0 <= i < p2.len() implies 0 <= #[trigger] p2[i] < k + 1 && p2[i] < order.len()
                    && kept[i] == order[p2[i]] by {
                    if i < pos.len() {
                        assert(p2[i] == pos[i] && kept[i] == selected[i]);
                    }
                }
                assert forall|i: int, j: int| 0 <= i < j < p2.len() implies #[trigger] p2[i] < #[trigger] p2[j] by {
                    if j < pos.len() {
                        assert(p2[i] == pos[i] && p2[j] == pos[j]);
                    } else {
                        assert(p2[i] == pos[i]);
                    }
                }
                if kept.len() == limit {
                    assert forall|q: int|
                        0 <= q < order.len() && (kept.len() < limit || q < p2.last()) && !p2.contains(q) implies exists|i: int|
                            0 <= i < kept.len() && p2[i] < q && overlap_exceeds(
                                scored(cands, evals, #[trigger] order[q]),
                                scored(cands, evals, #[trigger] kept[i]),
                                percent,
                            ) == Ok::<bool, ClipFinderError>(true) by {
                        assert(q < k + 1);
                    }
                    assert(greedy_kept(cands, evals, order, percent, limit, kept, p2));
                    assert(select_from(cands, evals, order, percent, limit, k, selected) == Ok::<
                        Seq<int>,
                        ClipFinderError,
                    >(kept));
                    assert(is_greedy_selection(cands, evals, order, percent, limit, kept));
                } else {
                    lemma_select_greedy(cands, evals, order, percent, limit, k + 1, kept, p2);
                    assert(select_from(cands, evals, order, percent, limit, k, selected) == select_from(
                        cands,
                        evals,
                        order,
                        percent,
                        limit,
                        k + 1,
                        kept,
                    ));
                }
            },
        }
    }
}

/// The review queue is exactly the greedy overlap filter of the rank order:
/// it keeps entries in rank order, and every entry it passes over before the
/// walk stops (the end of the ranking, or the last kept entry once the
/// suggestion limit is reached) overlaps an earlier kept entry by more than
/// the allowed percentage of the shorter of the two.
pub proof fn law_selection_is_greedy_filter(
    cands: Seq<ClipCandidate>,
    evals: Seq<EvaluationKey>,
    order: Seq<int>,
    request: ClipRequest,
)
    requires
        request_error(request) is None,
    ensures
        selection(cands, evals, order, request) matches Ok(sel) ==> is_greedy_selection(
            cands,
            evals,
            order,
            request.max_overlap_percent as int,
            request.suggestion_limit as int,
            sel,
        ),
{
    lemma_select_greedy(
        cands,
        evals,
        order,
        request.max_overlap_percent as int,
        request.suggestion_limit as int,
        0,
        Seq::empty(),
        Seq::empty(),
    );
}

/// The review queue holds at most the requested number of suggestions,
/// lists them best ranked first (higher score, then lower candidate id),
/// and no kept candidate overlaps an earlier kept one by more than the
/// request's maximum percentage of the shorter of the two.
pub proof fn law_selection_ranked_and_spread(
    cands: Seq<ClipCandidate>,
    evals: Seq<EvaluationKey>,
    order: Seq<int>,
    request: ClipRequest,
)
    requires
        is_rank_order(evals, order),
        request_error(request) is None,
    ensures
        selection(cands, evals, order, request) matches Ok(sel) ==> {
            &&& sel.len() <= request.suggestion_limit
            &&& forall|i: int| 0 <= i < sel.len() ==> 0 <= #[trigger] sel[i] < evals.len()
            &&& forall|i: int, j: int|
                0 <= i < j < sel.len() ==> ranks_before(evals[#[trigger] sel[i]], evals[#[trigger] sel[j]])
            &&& forall|i: int, j: int|
                0 <= i < j < sel.len() ==> overlap_exceeds(
                    scored(cands, evals, #[trigger] sel[j]),
                    scored(cands, evals, #[trigger] sel[i]),
                    request.max_overlap_percent as int,
                ) == Ok::<bool, ClipFinderError>(false)
        },
{
    lemma_select_from(
        cands,
        evals,
        order,
        request.max_overlap_percent as int,
        request.suggestion_limit as int,
        0,
        Seq::empty(),
    );
}

// ---------------------------------------------------------------------------
// executable code
// ---------------------------------------------------------------------------

/// Index of the candidate an id denotes (the last one carrying it).
fn find_candidate(candidates: &[ClipCandidate], id: CandidateId) -> (r: Option<usize>)
    ensures
        match r {
            Some(i) => candidate_index(candidates@, id) == Some(i as int),
            None => candidate_index(candidates@, id) is None,
        },
{
    let mut k = candidates.len();
    while k > 0
        invariant
            k <= candidates@.len(),
            candidate_index(candidates@, id) == last_index_with_id(candidates@, id, k as int),
        decreases k,
    {
        if candidates[k - 1].id == id {
            return Some(k - 1);
        }
        k = k - 1;
    }
    None
}

/// Whether `a` ranks before `b`.
fn ranks_before_exec(a: &EvaluationKey, b: &EvaluationKey) -> (r: bool)
    ensures
        r == ranks_before(*a, *b),
{
    a.score_key > b.score_key || (a.score_key == b.score_key && a.candidate_id.raw()
        < b.candidate_id.raw())
}

/// Evaluation indices in rank order (insertion sort).
fn rank_order(evaluations: &[EvaluationKey]) -> (r: Vec<usize>)
    requires
        forall|i: int, j: int|
            0 <= i < j < evaluations@.len() ==> (#[trigger] evaluations@[i]).candidate_id != (
            #[trigger] evaluations@[j]).candidate_id,
    ensures
        is_rank_order(evaluations@, r@.map_values(|i: usize| i as int)),
{
    let ghost evals = evaluations@;
    let n = evaluations.len();
    let mut order: Vec<usize> = Vec::new();
    let mut i: usize = 0;
    while i < n
        invariant
            n == evals.len(),
            evals == evaluations@,
            forall|a: int, b: int|
                0 <= a < b < n ==> (#[trigger] evals[a]).candidate_id != (#[trigger] evals[b]).candidate_id,
            i <= n,
            order@.len() == i,
            forall|p: int| 0 <= p < order@.len() ==> (#[trigger] order@[p]) < i,
            forall|p: int, q: int| 0 <= p < q < order@.len() ==> ranks_before(
                evals[#[trigger] order@[p] as int],
                evals[#[trigger] order@[q] as int],
            ),
        decreases n - i,
    {
        let mut k: usize = 0;
        let len = order.len();
        while k < len
            invariant
                len == order@.len(),
                i < n,
                n == evals.len(),
                evals == evaluations@,
                k <= len,
                forall|p: int| 0 <= p < order@.len() ==> (#[trigger] order@[p]) < i,
                forall|p: int| 0 <= p < k ==> !ranks_before(evals[i as int], evals[#[trigger] order@[p] as int]),
            ensures
                k <= len,
                forall|p: int| 0 <= p < k ==> !ranks_before(evals[i as int], evals[#[trigger] order@[p] as int]),
                k < len ==> ranks_before(evals[i as int], evals[order@[k as int] as int]),
            decreases len - k,
        {
            if ranks_before_exec(&evaluations[i], &evaluations[order[k]]) {
                break;
            }
            k = k + 1;
        }
        let ghost before = order@;
        order.insert(k, i);
        proof {
            assert forall|p: int| 0 <= p < k implies ranks_before(evals[before[p] as int], evals[i as int]) by {
                let x = evals[before[p] as int];
                let y = evals[i as int];
                assert(x.candidate_id != y.candidate_id);
                assert(!ranks_before(y, x));
                if x.candidate_id@ == y.candidate_id@ {
                    CandidateId::lemma_view_injective(x.candidate_id, y.candidate_id);
                }
            }
            assert forall|p: int, q: int| 0 <= p < q < order@.len() implies ranks_before(
                evals[#[trigger] order@[p] as int],
                evals[#[trigger] order@[q] as int],
            ) by {
                if q < k {
                    assert(order@[p] == before[p] && order@[q] == before[q]);
                } else if q == k {
                    assert(order@[p] == before[p] && order@[q] == i);
                } else if p < k {
                    assert(order@[p] == before[p] && order@[q] == before[q - 1]);
                } else if p == k {
                    assert(order@[p] == i && order@[q] == before[q - 1]);
                    if q - 1 > k {
                        assert(ranks_before(evals[before[k as int] as int], evals[before[q - 1] as int]));
                    }
                } else {
                    assert(order@[p] == before[p - 1] && order@[q] == before[q - 1]);
                }
            }
            assert forall|p: int| 0 <= p < order@.len() implies (#[trigger] order@[p]) < i + 1 by {
                if p < k {
                    assert(order@[p] == before[p]);
                } else if p > k {
                    assert(order@[p] == before[p - 1]);
                }
            }
        }
        i = i + 1;
    }
    proof {
        let o = order@.map_values(|x: usize| x as int);
        assert forall|p: int, q: int| 0 <= p < q < o.len() implies ranks_before(
            evals[#[trigger] o[p]],
            evals[#[trigger] o[q]],
        ) by {
            assert(o[p] == order@[p] as int && o[q] == order@[q] as int);
        }
    }
    order
}

fn ratio_exceeds_percent(numerator: RationalTime, denominator: RationalTime, percent: u8) -> (r:
    Result<bool, ClipFinderError>)
    ensures
        r == ratio_exceeds(numerator@, denominator@, percent as int),
{
    let n = numerator.numer() as i128;
    let nd = numerator.denom() as i128;
    let d = denominator.numer() as i128;
    let dd = denominator.denom() as i128;
    let ghost left = numerator@.0 * 100 * denominator@.1;
    let ghost right = percent * denominator@.0 * numerator@.1;
    let l = match n.checked_mul(100) {
        Some(v) => v.checked_mul(dd),
        None => None,
    };
    let rr = match (percent as i128).checked_mul(d) {
        Some(v) => v.checked_mul(nd),
        None => None,
    };
    proof {
        assert(fits_i128(numerator@.0 * 100)) by (nonlinear_arith)
            requires
                i64::MIN <= numerator@.0 <= i64::MAX,
        ;
        assert(fits_i128(percent * denominator@.0)) by (nonlinear_arith)
            requires
                0 <= percent <= 255,
                i64::MIN <= denominator@.0 <= i64::MAX,
        ;
    }
    match (l, rr) {
        (Some(a), Some(b)) => Ok(a > b),
        _ => Err(ClipFinderError::Time(TimeError::Overflow)),
    }
}

fn exceeds_overlap(left: &ClipCandidate, right: &ClipCandidate, max_overlap_percent: u8) -> (r:
    Result<bool, ClipFinderError>)
    ensures
        r == overlap_exceeds(*left, *right, max_overlap_percent as int),
{
    let start = if left.start.lt(&right.start) {
        right.start
    } else {
        left.start
    };
    let end = if left.end.lt(&right.end) {
        left.end
    } else {
        right.end
    };
    if !start.lt(&end) {
        return Ok(false);
    }
    let overlap = match end.sub(start) {
        Ok(v) => v,
        Err(e) => return Err(ClipFinderError::Time(e)),
    };
    let left_duration = left.duration()?;
    let right_duration = right.duration()?;
    let shorter = if left_duration.lt(&right_duration) {
        left_duration
    } else {
        right_duration
    };
    ratio_exceeds_percent(overlap, shorter, max_overlap_percent)
}

/// Check every evaluation against the candidates and the request, then
/// walk them best ranked first and keep each one whose candidate does not
/// overlap an already kept candidate by more than the request's maximum
/// percentage of the shorter of the two, up to the suggestion limit.
///
/// Each pick is `(evaluation index, candidate index)`.
pub fn rank_selection(
    candidates: &[ClipCandidate],
    evaluations: &[EvaluationKey],
    request: &ClipRequest,
) -> (r: Result<Vec<(usize, usize)>, ClipFinderError>)
    ensures
        match request_error(*request) {
            Some(e) => r == Err::<Vec<(usize, usize)>, ClipFinderError>(e),
            None => match first_evaluation_error(candidates@, evaluations@, 0) {
                Some(e) => r == Err::<Vec<(usize, usize)>, ClipFinderError>(e),
                None => exists|order: Seq<int>|
                    is_rank_order(evaluations@, order) && match selection(
                        candidates@,
                        evaluations@,
                        order,
                        *request,
                    ) {
                        Err(e) => r == Err::<Vec<(usize, usize)>, ClipFinderError>(e),
                        Ok(sel) => r matches Ok(picks) && picks_match(
                            picks@,
                            candidates@,
                            evaluations@,
                            sel,
                        ),
                    },
            },
        },
{
    request.validate()?;
    let ghost cands = candidates@;
    let ghost evals = evaluations@;
    let n = evaluations.len();
    let mut candidate_of: Vec<usize> = Vec::new();
    let mut i: usize = 0;
    while i < n
        invariant
            n == evals.len(),
            cands == candidates@,
            evals == evaluations@,
            request_error(*request) is None,
            i <= n,
            candidate_of@.len() == i,
            forall|j: int| 0 <= j < i ==> evaluation_error(cands, evals, j) is None,
            forall|j: int|
                0 <= j < i ==> candidate_index(cands, evals[j].candidate_id) == Some(
                    #[trigger] candidate_of@[j] as int,
                ),
            forall|j: int| 0 <= j < i ==> (#[trigger] candidate_of@[j]) < cands.len(),
        decreases n - i,
    {
        proof {
            lemma_first_evaluation_error_skip(cands, evals, i as int);
        }
        let id = evaluations[i].candidate_id;
        let found = find_candidate(candidates, id);
        let index = match found {
            None => return Err(ClipFinderError::UnknownCandidate(id)),
            Some(index) => index,
        };
        proof {
            lemma_last_index_with_id(cands, id, cands.len() as int);
        }
        let mut j: usize = 0;
        while j < i
            invariant
                i < n,
                n == evals.len(),
                evals == evaluations@,
                cands == candidates@,
                request_error(*request) is None,
                first_evaluation_error(cands, evals, 0) == first_evaluation_error(cands, evals, i as int),
                candidate_index(cands, id) is Some,
                id == evals[i as int].candidate_id,
                j <= i,
                forall|p: int| 0 <= p < j ==> (#[trigger] evals[p]).candidate_id != id,
            decreases i - j,
        {
            if evaluations[j].candidate_id == id {
                proof {
                    assert(evals[j as int].candidate_id == id);
                    assert(evaluation_error(cands, evals, i as int) == Some(ClipFinderError::DuplicateEvaluation(id)));
                }
                return Err(ClipFinderError::DuplicateEvaluation(id));
            }
            j = j + 1;
        }
        match evaluations[i].invalid_score {
            Some(field) => {
                return Err(ClipFinderError::InvalidEvaluationScore { candidate_id: id, field });
            },
            None => {},
        }
        candidate_of.push(index);
        i = i + 1;
    }
    proof {
        lemma_first_evaluation_error_skip(cands, evals, n as int);
        assert forall|a: int, b: int| 0 <= a < b < n implies (#[trigger] evals[a]).candidate_id != (
        #[trigger] evals[b]).candidate_id by {
            assert(evaluation_error(cands, evals, b) is None);
        }
    }
    let order = rank_order(evaluations);
    let ghost order_view = order@.map_values(|x: usize| x as int);
    let percent = request.max_overlap_percent;
    let limit = request.suggestion_limit;
    let mut picks: Vec<(usize, usize)> = Vec::new();
    proof {
        assert(picks@.map_values(|p: (usize, usize)| p.0 as int) =~= Seq::<int>::empty());
    }
    let mut k: usize = 0;
    while k < n
        invariant_except_break
            picks@.len() < limit,
            selection(cands, evals, order_view, *request) == select_from(
                cands,
                evals,
                order_view,
                percent as int,
                limit as int,
                k as int,
                picks@.map_values(|p: (usize, usize)| p.0 as int),
            ),
        invariant
            n == evals.len(),
            cands == candidates@,
            evals == evaluations@,
            order@.len() == n,
            order_view == order@.map_values(|x: usize| x as int),
            is_rank_order(evals, order_view),
            candidate_of@.len() == n,
            forall|j: int|
                0 <= j < n ==> candidate_index(cands, evals[j].candidate_id) == Some(
                    #[trigger] candidate_of@[j] as int,
                ),
            forall|j: int| 0 <= j < n ==> (#[trigger] candidate_of@[j]) < cands.len(),
            request_error(*request) is None,
            first_evaluation_error(cands, evals, 0) is None,
            percent == request.max_overlap_percent,
            limit == request.suggestion_limit,
            limit > 0,
            k <= n,
            forall|p: int| 0 <= p < picks@.len() ==> (#[trigger] picks@[p]).0 < n && picks@[p].1 == candidate_of@[picks@[p].0 as int],
        ensures
            selection(cands, evals, order_view, *request) == Ok::<Seq<int>, ClipFinderError>(
                picks@.map_values(|p: (usize, usize)| p.0 as int),
            ),
        decreases n - k,
    {
        let ev = order[k];
        proof {
            assert(order_view[k as int] == ev as int);
        }
        let ghost sel = picks@.map_values(|p: (usize, usize)| p.0 as int);
        let candidate = &candidates[candidate_of[ev]];
        let mut overlaps_selected_flag = false;
        let mut j: usize = 0;
        let m = picks.len();
        while j < m
            invariant_except_break
                !overlaps_selected_flag,
            invariant
                m == picks@.len(),
                n == evals.len(),
                cands == candidates@,
                evals == evaluations@,
                ev < n,
                *candidate == scored(cands, evals, ev as int),
                sel == picks@.map_values(|p: (usize, usize)| p.0 as int),
                candidate_of@.len() == n,
                forall|p: int| 0 <= p < picks@.len() ==> (#[trigger] picks@[p]).0 < n && picks@[p].1 == candidate_of@[picks@[p].0 as int],
                forall|q: int|
                    0 <= q < n ==> candidate_index(cands, evals[q].candidate_id) == Some(
                        #[trigger] candidate_of@[q] as int,
                    ),
                forall|q: int| 0 <= q < n ==> (#[trigger] candidate_of@[q]) < cands.len(),
                request_error(*request) is None,
                first_evaluation_error(cands, evals, 0) is None,
                is_rank_order(evals, order_view),
                0 <= k < n,
                order_view[k as int] == ev as int,
                percent == request.max_overlap_percent,
                limit == request.suggestion_limit,
                selection(cands, evals, order_view, *request) == select_from(
                    cands,
                    evals,
                    order_view,
                    percent as int,
                    limit as int,
                    k as int,
                    sel,
                ),
                j <= m,
                overlaps_selected(cands, evals, ev as int, sel, percent as int, 0)
                    == overlaps_selected(cands, evals, ev as int, sel, percent as int, j as int),
            ensures
                overlaps_selected(cands, evals, ev as int, sel, percent as int, 0)
                    == Ok::<bool, ClipFinderError>(overlaps_selected_flag),
            decreases m - j,
        {
            let existing = &candidates[picks[j].1];
            proof {
                assert(sel[j as int] == picks@[j as int].0 as int);
                assert(*existing == scored(cands, evals, sel[j as int]));
            }
            match exceeds_overlap(candidate, existing, percent) {
                Err(e) => return Err(e),
                Ok(true) => {
                    overlaps_selected_flag = true;
                    break;
                },
                Ok(false) => {},
            }
            j = j + 1;
        }
        if !overlaps_selected_flag {
            let ghost before = picks@;
            picks.push((ev, candidate_of[ev]));
            proof {
                assert(picks@.map_values(|p: (usize, usize)| p.0 as int) =~= sel.push(ev as int));
            }
            if picks.len() == limit {
                proof {
                    assert(order_view[k as int] == ev as int);
                }
                break;
            }
        }
        k = k + 1;
    }
    proof {
        // the selection's picks pair each evaluation with its candidate
        let sel = picks@.map_values(|p: (usize, usize)| p.0 as int);
        assert(picks_match(picks@, cands, evals, sel));
    }
    Ok(picks)
}

} // verus!
