//! Timelines: an ordered set of tracks around exactly one main track, and
//! the tracks themselves, whose clips are laid out by flow (prefix sums of
//! durations) or by fixed starts.
use vstd::prelude::*;

use crate::clips::{kind_category, Clip, ClipCategory, ClipPlacement};
use crate::ids::{TimelineId, TrackId};
use crate::rational::{
    fits, lemma_lt_trans, lemma_reduce_reduced, rat_add, rat_le, rat_lt, rat_zero, reduced,
    RationalTime,
};
use crate::timelines::error::TimelineError;

verus! {

#[derive(Clone, Copy, Debug, PartialEq, Eq, Structural)]
pub enum TrackRole {
    Main,
    Overlay,
    Audio,
}

#[derive(Clone, Copy, Debug, PartialEq, Eq, Structural)]
pub enum TrackType {
    Video,
    Audio,
    Text,
    Vector,
    Adjustment,
    Effect,
}

#[derive(Clone, Copy, Debug, PartialEq, Eq, Structural)]
pub enum TrackLayout {
    Flow,
    Fixed,
}

/// The layout a role implies: the main track flows, the others are fixed.
pub open spec fn role_layout(role: TrackRole) -> TrackLayout {
    match role {
        TrackRole::Main => TrackLayout::Flow,
        TrackRole::Overlay | TrackRole::Audio => TrackLayout::Fixed,
    }
}

/// Position of a role in the timeline's track order (audio, main, overlay).
pub open spec fn order_index(role: TrackRole) -> nat {
    match role {
        TrackRole::Audio => 0,
        TrackRole::Main => 1,
        TrackRole::Overlay => 2,
    }
}

/// A clip placement suits a layout.
pub open spec fn layout_accepts(layout: TrackLayout, placement: ClipPlacement) -> bool {
    match (layout, placement) {
        (TrackLayout::Flow, ClipPlacement::Flow) => true,
        (TrackLayout::Fixed, ClipPlacement::Fixed { .. }) => true,
        _ => false,
    }
}

/// A track type accepts clips of a category (spacers fit everywhere).
pub open spec fn accepts_category(track_type: TrackType, category: ClipCategory) -> bool {
    category == ClipCategory::Spacer || match (track_type, category) {
        (TrackType::Video, ClipCategory::Video) => true,
        (TrackType::Audio, ClipCategory::Audio) => true,
        (TrackType::Text, ClipCategory::Text) => true,
        (TrackType::Vector, ClipCategory::Vector) => true,
        (TrackType::Adjustment, ClipCategory::Adjustment) => true,
        (TrackType::Effect, ClipCategory::Effect) => true,
        _ => false,
    }
}

/// Start of the `k`-th clip of a flow track: the sum of the durations before it.
pub open spec fn flow_offset(clips: Seq<Clip>, k: int) -> (int, int)
    decreases k,
{
    if k <= 0 {
        rat_zero()
    } else {
        rat_add(flow_offset(clips, k - 1), clips[k - 1].spec_duration()@)
    }
}

/// The latest end among the first `k` clips of a fixed track (zero when none).
pub open spec fn fixed_max_end(clips: Seq<Clip>, k: int) -> (int, int)
    decreases k,
{
    if k <= 0 {
        rat_zero()
    } else {
        let m = fixed_max_end(clips, k - 1);
        let e = clips[k - 1].spec_end();
        if rat_lt(m, e) {
            e
        } else {
            m
        }
    }
}

/// The half-open interval `[start, end)` meets the fixed clip `c`.
pub open spec fn overlaps(c: Clip, start: (int, int), end: (int, int)) -> bool {
    rat_lt(start, c.spec_end()) && rat_lt(c.spec_start()@, end)
}

/// `at` falls in `[offset(i), offset(i + 1))` of a flow track.
pub open spec fn flow_hit(clips: Seq<Clip>, at: (int, int), i: int) -> bool {
    rat_le(flow_offset(clips, i), at) && rat_lt(at, flow_offset(clips, i + 1))
}

/// `at` falls in `[start, end)` of a fixed clip.
pub open spec fn fixed_hit(c: Clip, at: (int, int)) -> bool {
    rat_le(c.spec_start()@, at) && rat_lt(at, c.spec_end())
}

/// The abstract content of a track.
pub struct TrackModel {
    pub id: TrackId,
    pub role: TrackRole,
    pub kind: TrackType,
    pub clips: Seq<Clip>,
    pub muted: bool,
    pub hidden: bool,
}

/// Clip-level promises every track keeps, whatever its layout.
pub open spec fn clips_wf(kind: TrackType, clips: Seq<Clip>) -> bool {
    &&& forall|i: int| 0 <= i < clips.len() ==> (#[trigger] clips[i]).wf()
    &&& forall|i: int|
        0 <= i < clips.len() ==> accepts_category(kind, kind_category((#[trigger] clips[i]).kind))
}

/// A flow track: flow clips whose running sums all fit the exact representation.
pub open spec fn flow_wf(clips: Seq<Clip>) -> bool {
    &&& forall|i: int| 0 <= i < clips.len() ==> (#[trigger] clips[i]).spec_placement() is Flow
    &&& forall|k: int| 0 <= k <= clips.len() ==> fits(#[trigger] flow_offset(clips, k))
}

/// A fixed track: fixed clips sorted by start, no two of them overlapping.
pub open spec fn fixed_wf(clips: Seq<Clip>) -> bool {
    &&& forall|i: int| 0 <= i < clips.len() ==> (#[trigger] clips[i]).spec_placement() is Fixed
    &&& forall|i: int, j: int|
        0 <= i < j < clips.len() ==> !overlaps(
            #[trigger] clips[i],
            (#[trigger] clips[j]).spec_start()@,
            clips[j].spec_end(),
        )
    &&& forall|i: int, j: int|
        0 <= i < j < clips.len() ==> rat_le(
            (#[trigger] clips[i]).spec_start()@,
            (#[trigger] clips[j]).spec_start()@,
        )
}

#[verifier::opaque]
pub open spec fn track_wf(t: TrackModel) -> bool {
    &&& clips_wf(t.kind, t.clips)
    &&& match role_layout(t.role) {
        TrackLayout::Flow => flow_wf(t.clips),
        TrackLayout::Fixed => fixed_wf(t.clips),
    }
}

/// The point in time the track reaches: the flow total, or the latest fixed end.
pub open spec fn track_duration(t: TrackModel) -> (int, int) {
    match role_layout(t.role) {
        TrackLayout::Flow => flow_offset(t.clips, t.clips.len() as int),
        TrackLayout::Fixed => fixed_max_end(t.clips, t.clips.len() as int),
    }
}

#[derive(Clone, Debug)]
pub struct Track {
    pub id: TrackId,
    pub role: TrackRole,
    pub kind: TrackType,
    clips: Vec<Clip>,
    pub muted: bool,
    pub hidden: bool,
}

impl View for Track {
    type V = TrackModel;

    closed spec fn view(&self) -> TrackModel {
        TrackModel {
            id: self.id,
            role: self.role,
            kind: self.kind,
            clips: self.clips@,
            muted: self.muted,
            hidden: self.hidden,
        }
    }
}

// ---------------------------------------------------------------------------
// lemmas
// ---------------------------------------------------------------------------

pub proof fn lemma_rat_add_reduced(a: (int, int), b: (int, int))
    requires
        a.1 > 0,
        b.1 > 0,
    ensures
        reduced(rat_add(a, b)),
{
    assert(a.1 * b.1 > 0) by (nonlinear_arith)
        requires
            a.1 > 0,
            b.1 > 0,
    ;
    lemma_reduce_reduced(a.0 * b.1 + b.0 * a.1, a.1 * b.1);
}

pub proof fn lemma_zero_reduced()
    ensures
        reduced(rat_zero()),
{
    assert(crate::rational::gcd(1, 0) == 1);
    assert(crate::rational::gcd(0, 1) == 1);
}

/// Every running sum of positive-denominator durations has a positive denominator.
pub proof fn lemma_flow_offset_reduced(clips: Seq<Clip>, k: int)
    requires
        forall|i: int| 0 <= i < clips.len() ==> (#[trigger] clips[i]).wf(),
        0 <= k <= clips.len(),
    ensures
        reduced(flow_offset(clips, k)),
    decreases k,
{
    if k == 0 {
        lemma_zero_reduced();
    } else {
        lemma_flow_offset_reduced(clips, k - 1);
        assert(clips[k - 1].wf());
        lemma_rat_add_reduced(flow_offset(clips, k - 1), clips[k - 1].spec_duration()@);
    }
}

/// The latest fixed end always has a positive denominator.
pub proof fn lemma_fixed_max_end_reduced(clips: Seq<Clip>, k: int)
    requires
        forall|i: int| 0 <= i < clips.len() ==> (#[trigger] clips[i]).wf(),
        forall|i: int| 0 <= i < clips.len() ==> (#[trigger] clips[i]).spec_placement() is Fixed,
        0 <= k <= clips.len(),
    ensures
        reduced(fixed_max_end(clips, k)),
    decreases k,
{
    if k == 0 {
        lemma_zero_reduced();
    } else {
        lemma_fixed_max_end_reduced(clips, k - 1);
        assert(clips[k - 1].wf());
        lemma_rat_add_reduced(clips[k - 1].spec_start()@, clips[k - 1].spec_duration()@);
    }
}

/// The running sums of a prefix do not depend on the clips after it.
pub proof fn lemma_flow_offset_prefix(clips: Seq<Clip>, extra: Clip, k: int)
    requires
        0 <= k <= clips.len(),
    ensures
        flow_offset(clips.push(extra), k) == flow_offset(clips, k),
    decreases k,
{
    if k > 0 {
        lemma_flow_offset_prefix(clips, extra, k - 1);
        assert(clips.push(extra)[k - 1] == clips[k - 1]);
    }
}

impl Track {
    pub open spec fn wf(&self) -> bool {
        track_wf(self@)
    }

    pub(crate) fn new(id: TrackId, role: TrackRole, kind: TrackType) -> (r: Self)
        ensures
            r@ == (TrackModel {
                id,
                role,
                kind,
                clips: Seq::<Clip>::empty(),
                muted: false,
                hidden: false,
            }),
            r.wf(),
    {
        reveal(track_wf);
        let r = Track { id, role, kind, clips: Vec::new(), muted: false, hidden: false };
        proof {
            if role_layout(role) == TrackLayout::Flow {
                assert forall|k: int| 0 <= k <= r@.clips.len() implies fits(
                    #[trigger] flow_offset(r@.clips, k),
                ) by {
                    assert(k == 0);
                }
            }
        }
        r
    }

    /// The clips of this track, in timeline order.
    pub fn clips(&self) -> (r: &[Clip])
        ensures
            r@ == self@.clips,
    {
        self.clips.as_slice()
    }

    /// Add a clip: appended to a flow track, or placed by start on a fixed
    /// track when it overlaps no existing clip.
    pub(crate) fn insert_clip(&mut self, clip: Clip) -> (r: Result<(), TimelineError>)
        requires
            old(self).wf(),
        ensures
            final(self).wf(),
            final(self)@.id == old(self)@.id,
            final(self)@.role == old(self)@.role,
            final(self)@.kind == old(self)@.kind,
            final(self)@.muted == old(self)@.muted,
            final(self)@.hidden == old(self)@.hidden,
            r is Err ==> final(self)@ == old(self)@,
            insert_outcome(old(self)@, clip, r, final(self)@.clips),
    {
        reveal(track_wf);
        proof {
            use_type_invariant(&clip.timing);
        }
        let layout = self.role.layout();
        if !placement_matches(layout, clip.placement()) {
            return Err(TimelineError::LayoutMismatch);
        }
        if !type_accepts(self.kind, clip.kind.category()) {
            return Err(TimelineError::ClipTypeMismatch);
        }
        match layout {
            TrackLayout::Fixed => {
                let ghost before = self@;
                let r = self.insert_fixed(clip);
                proof {
                    assert(insert_outcome(before, clip, r, self@.clips));
                }
                r
            },
            TrackLayout::Flow => self.insert_flow(clip),
        }
    }

    fn insert_flow(&mut self, clip: Clip) -> (r: Result<(), TimelineError>)
        requires
            old(self).wf(),
            role_layout(old(self).role) == TrackLayout::Flow,
            clip.spec_placement() is Flow,
            clip.wf(),
            accepts_category(old(self).kind, kind_category(clip.kind)),
        ensures
            final(self).id == old(self).id,
            final(self).role == old(self).role,
            final(self).kind == old(self).kind,
            final(self).muted == old(self).muted,
            final(self).hidden == old(self).hidden,
            final(self).wf(),
            match r {
                Ok(()) => {
                    &&& fits(rat_add(track_duration(old(self)@), clip.spec_duration()@))
                    &&& final(self)@.clips == old(self)@.clips.push(clip)
                },
                Err(e) => {
                    &&& e == TimelineError::TimeOverflow
                    &&& !fits(rat_add(track_duration(old(self)@), clip.spec_duration()@))
                    &&& final(self)@ == old(self)@
                },
            },
    {
        reveal(track_wf);
        let total = self.duration();
        let ghost old_clips = self.clips@;
        match total.add(clip.duration()) {
            Ok(_) => {},
            Err(_) => return Err(TimelineError::TimeOverflow),
        }
        self.clips.push(clip);
        proof {
            let clips = self.clips@;
            assert(clips == old_clips.push(clip));
            assert forall|k: int| 0 <= k <= clips.len() implies fits(
                #[trigger] flow_offset(clips, k),
            ) by {
                if k < clips.len() {
                    lemma_flow_offset_prefix(old_clips, clip, k);
                } else {
                    lemma_flow_offset_prefix(old_clips, clip, k - 1);
                    assert(clips[k - 1] == clip);
                }
            }
            assert forall|i: int| 0 <= i < clips.len() implies (#[trigger] clips[i]).wf() by {
                if i < old_clips.len() {
                    assert(clips[i] == old_clips[i]);
                }
            }
            assert forall|i: int| 0 <= i < clips.len() implies accepts_category(
                self.kind,
                kind_category((#[trigger] clips[i]).kind),
            ) by {
                if i < old_clips.len() {
                    assert(clips[i] == old_clips[i]);
                }
            }
            assert forall|i: int| 0 <= i < clips.len() implies (
            #[trigger] clips[i]).spec_placement() is Flow by {
                if i < old_clips.len() {
                    assert(clips[i] == old_clips[i]);
                }
            }
        }
        Ok(())
    }

    fn insert_fixed(&mut self, clip: Clip) -> (r: Result<(), TimelineError>)
        requires
            old(self).wf(),
            role_layout(old(self).role) == TrackLayout::Fixed,
            clip.spec_placement() is Fixed,
            clip.wf(),
            accepts_category(old(self).kind, kind_category(clip.kind)),
        ensures
            final(self).id == old(self).id,
            final(self).role == old(self).role,
            final(self).kind == old(self).kind,
            final(self).muted == old(self).muted,
            final(self).hidden == old(self).hidden,
            final(self).wf(),
            match r {
                Ok(()) => {
                    &&& forall|i: int|
                        0 <= i < old(self)@.clips.len() ==> !overlaps(
                            #[trigger] old(self)@.clips[i],
                            clip.spec_start()@,
                            clip.spec_end(),
                        )
                    &&& fixed_inserted(old(self)@.clips, clip, final(self)@.clips)
                },
                Err(e) => {
                    &&& e == TimelineError::ClipOverlap
                    &&& exists|i: int|
                        0 <= i < old(self)@.clips.len() && overlaps(
                            #[trigger] old(self)@.clips[i],
                            clip.spec_start()@,
                            clip.spec_end(),
                        )
                    &&& final(self)@ == old(self)@
                },
            },
    {
        reveal(track_wf);
        let ghost old_clips = self.clips@;
        let start = clip.start_time().unwrap();
        let end = match clip.fixed_end_time() {
            Ok(Some(end)) => end,
            _ => {
                proof {
                    assert(false);
                }
                return Err(TimelineError::TimeOverflow);
            },
        };
        let n = self.clips.len();
        let mut i: usize = 0;
        while i < n
            invariant
                n == self.clips.len(),
                self.clips@ == old_clips,
                old(self)@.clips == old_clips,
                old(self).wf(),
                role_layout(old(self)@.role) == TrackLayout::Fixed,
                self@ == old(self)@,
                0 <= i <= n,
                start@ == clip.spec_start()@,
                end@ == clip.spec_end(),
                forall|j: int| 0 <= j < i ==> !overlaps(#[trigger] old_clips[j], start@, end@),
            decreases n - i,
        {
            proof {
                reveal(track_wf);
                assert(old(self)@.clips[i as int].wf());
                assert(old(self)@.clips[i as int].spec_placement() is Fixed);
            }
            let existing_start = self.clips[i].start_time().unwrap();
            let existing_end = self.clips[i].fixed_end_time().unwrap().unwrap();
            if start.lt(&existing_end) && existing_start.lt(&end) {
                return Err(TimelineError::ClipOverlap);
            }
            i = i + 1;
        }
        let mut k: usize = 0;
        while k < n
            invariant
                n == self.clips.len(),
                self.clips@ == old_clips,
                old(self)@.clips == old_clips,
                old(self).wf(),
                role_layout(old(self)@.role) == TrackLayout::Fixed,
                0 <= k <= n,
                start@ == clip.spec_start()@,
                forall|j: int| 0 <= j < k ==> !rat_lt(start@, (#[trigger] old_clips[j]).spec_start()@),
            ensures
                0 <= k <= n,
                k < n ==> rat_lt(start@, old_clips[k as int].spec_start()@),
            decreases n - k,
        {
            proof {
                reveal(track_wf);
                assert(old(self)@.clips[k as int].spec_placement() is Fixed);
            }
            let existing_start = self.clips[k].start_time().unwrap();
            if start.lt(&existing_start) {
                break;
            }
            k = k + 1;
        }
        self.clips.insert(k, clip);
        proof {
            lemma_fixed_insert_wf(old(self)@, clip, k as int);
        }
        Ok(())
    }

    /// The clip active at `at`, using a half-open `[start, end)` interval.
    pub fn clip_at(&self, at: RationalTime) -> (r: Option<&Clip>)
        requires
            self.wf(),
        ensures
            clip_at_outcome(self@, at@, r),
    {
        reveal(track_wf);
        let zero = RationalTime::zero();
        if at.lt(&zero) {
            return None;
        }
        proof {
            use_type_invariant(&at);
        }
        match self.role.layout() {
            TrackLayout::Flow => {
                let n = self.clips.len();
                let mut cursor = RationalTime::zero();
                let mut i: usize = 0;
                while i < n
                    invariant
                        n == self.clips.len(),
                        self.wf(),
                        role_layout(self@.role) == TrackLayout::Flow,
                        !rat_lt(at@, rat_zero()),
                        0 <= i <= n,
                        cursor@ == flow_offset(self@.clips, i as int),
                        forall|j: int| 0 <= j < i ==> !flow_hit(self@.clips, at@, j),
                    decreases n - i,
                {
                    proof {
                        reveal(track_wf);
                        assert(self@.clips[i as int].wf());
                        reveal(track_wf);
                        assert(fits(flow_offset(self@.clips, i as int + 1)));
                    }
                    let end = match cursor.add(self.clips[i].duration()) {
                        Ok(end) => end,
                        Err(_) => {
                            proof {
                                assert(false);
                            }
                            return None;
                        },
                    };
                    if !at.lt(&cursor) && at.lt(&end) {
                        proof {
                            assert(flow_hit(self@.clips, at@, i as int));
                            assert(self.clips@[i as int] == self@.clips[i as int]);
                            assert(exists|i0: int|
                                0 <= i0 < self@.clips.len() && self.clips@[i as int]
                                    == self@.clips[i0] && flow_hit(self@.clips, at@, i0) && (
                                forall|j: int| 0 <= j < i0 ==> !flow_hit(self@.clips, at@, j)));
                        }
                        return Some(&self.clips[i]);
                    }
                    cursor = end;
                    i = i + 1;
                }
                None
            },
            TrackLayout::Fixed => {
                let n = self.clips.len();
                let mut i: usize = 0;
                while i < n
                    invariant
                        n == self.clips.len(),
                        self.wf(),
                        role_layout(self@.role) == TrackLayout::Fixed,
                        !rat_lt(at@, rat_zero()),
                        0 <= i <= n,
                        forall|j: int| 0 <= j < i ==> !fixed_hit(#[trigger] self@.clips[j], at@),
                    decreases n - i,
                {
                    proof {
                        reveal(track_wf);
                        assert(self@.clips[i as int].wf());
                        assert(self@.clips[i as int].spec_placement() is Fixed);
                    }
                    let start = self.clips[i].start_time().unwrap();
                    let end = self.clips[i].fixed_end_time().unwrap().unwrap();
                    if !at.lt(&start) && at.lt(&end) {
                        proof {
                            assert(fixed_hit(self@.clips[i as int], at@));
                            assert(self.clips@[i as int] == self@.clips[i as int]);
                            assert(exists|i0: int|
                                0 <= i0 < self@.clips.len() && self.clips@[i as int]
                                    == self@.clips[i0] && fixed_hit(self@.clips[i0], at@) && (
                                forall|j: int|
                                    0 <= j < i0 ==> !fixed_hit(#[trigger] self@.clips[j], at@)));
                        }
                        return Some(&self.clips[i]);
                    }
                    i = i + 1;
                }
                None
            },
        }
    }

    /// The point in time this track reaches (zero when empty).
    pub(crate) fn duration(&self) -> (r: RationalTime)
        requires
            self.wf(),
        ensures
            r@ == track_duration(self@),
    {
        reveal(track_wf);
        let n = self.clips.len();
        let mut acc = RationalTime::zero();
        let mut i: usize = 0;
        match self.role.layout() {
            TrackLayout::Flow => {
                while i < n
                    invariant
                        n == self.clips.len(),
                        self.wf(),
                        role_layout(self@.role) == TrackLayout::Flow,
                        0 <= i <= n,
                        acc@ == flow_offset(self@.clips, i as int),
                    decreases n - i,
                {
                    proof {
                        reveal(track_wf);
                        assert(fits(flow_offset(self@.clips, i as int + 1)));
                    }
                    acc = match acc.add(self.clips[i].duration()) {
                        Ok(sum) => sum,
                        Err(_) => {
                            proof {
                                assert(false);
                            }
                            acc
                        },
                    };
                    i = i + 1;
                }
            },
            TrackLayout::Fixed => {
                while i < n
                    invariant
                        n == self.clips.len(),
                        self.wf(),
                        role_layout(self@.role) == TrackLayout::Fixed,
                        0 <= i <= n,
                        acc@ == fixed_max_end(self@.clips, i as int),
                    decreases n - i,
                {
                    proof {
                        reveal(track_wf);
                        assert(self@.clips[i as int].wf());
                    }
                    let end = self.clips[i].fixed_end_time().unwrap().unwrap();
                    if acc.lt(&end) {
                        acc = end;
                    }
                    i = i + 1;
                }
            },
        }
        acc
    }
}

/// `after` is `before` with `clip` inserted at the first position whose
/// start is later than the clip's start (at the end when there is none).
pub open spec fn fixed_inserted(before: Seq<Clip>, clip: Clip, after: Seq<Clip>) -> bool {
    exists|k: int|
        0 <= k <= before.len() && after == before.insert(k, clip) && (forall|j: int|
            0 <= j < k ==> !rat_lt(clip.spec_start()@, (#[trigger] before[j]).spec_start()@)) && (k
            < before.len() ==> rat_lt(clip.spec_start()@, before[k].spec_start()@))
}

/// What inserting `clip` into a track with content `t` yields: `r` and the new clips.
pub open spec fn insert_outcome(
    t: TrackModel,
    clip: Clip,
    r: Result<(), TimelineError>,
    clips_after: Seq<Clip>,
) -> bool {
    let layout = role_layout(t.role);
    if !layout_accepts(layout, clip.spec_placement()) {
        r == Err::<(), TimelineError>(TimelineError::LayoutMismatch)
    } else if !accepts_category(t.kind, kind_category(clip.kind)) {
        r == Err::<(), TimelineError>(TimelineError::ClipTypeMismatch)
    } else if layout == TrackLayout::Fixed {
        if exists|i: int|
            0 <= i < t.clips.len() && overlaps(
                #[trigger] t.clips[i],
                clip.spec_start()@,
                clip.spec_end(),
            ) {
            r == Err::<(), TimelineError>(TimelineError::ClipOverlap)
        } else {
            r is Ok && fixed_inserted(t.clips, clip, clips_after)
        }
    } else {
        if !fits(rat_add(track_duration(t), clip.spec_duration()@)) {
            r == Err::<(), TimelineError>(TimelineError::TimeOverflow)
        } else {
            r is Ok && clips_after == t.clips.push(clip)
        }
    }
}

/// The clip found at `at` on a track with content `t`: none before zero,
/// otherwise the first clip whose half-open interval contains `at`.
pub open spec fn clip_at_outcome(t: TrackModel, at: (int, int), r: Option<&Clip>) -> bool {
    if rat_lt(at, rat_zero()) {
        r is None
    } else {
        match role_layout(t.role) {
            TrackLayout::Flow => match r {
                Some(c) => exists|i: int|
                    0 <= i < t.clips.len() && *c == t.clips[i] && flow_hit(t.clips, at, i) && (
                    forall|j: int| 0 <= j < i ==> !flow_hit(t.clips, at, j)),
                None => forall|j: int| 0 <= j < t.clips.len() ==> !flow_hit(t.clips, at, j),
            },
            TrackLayout::Fixed => match r {
                Some(c) => exists|i: int|
                    0 <= i < t.clips.len() && *c == t.clips[i] && fixed_hit(t.clips[i], at) && (
                    forall|j: int| 0 <= j < i ==> !fixed_hit(#[trigger] t.clips[j], at)),
                None => forall|j: int|
                    0 <= j < t.clips.len() ==> !fixed_hit(#[trigger] t.clips[j], at),
            },
        }
    }
}

/// Inserting a non-overlapping fixed clip at its sorted position keeps the
/// track well formed.
proof fn lemma_fixed_insert_wf(t: TrackModel, clip: Clip, k: int)
    requires
        track_wf(t),
        role_layout(t.role) == TrackLayout::Fixed,
        clip.spec_placement() is Fixed,
        clip.wf(),
        accepts_category(t.kind, kind_category(clip.kind)),
        0 <= k <= t.clips.len(),
        forall|j: int| 0 <= j < k ==> !rat_lt(clip.spec_start()@, (#[trigger] t.clips[j]).spec_start()@),
        k < t.clips.len() ==> rat_lt(clip.spec_start()@, t.clips[k].spec_start()@),
        forall|j: int|
            0 <= j < t.clips.len() ==> !overlaps(
                #[trigger] t.clips[j],
                clip.spec_start()@,
                clip.spec_end(),
            ),
    ensures
        track_wf(TrackModel { clips: t.clips.insert(k, clip), ..t }),
{
    reveal(track_wf);
    let old_clips = t.clips;
    let clips = old_clips.insert(k, clip);
    assert(clips.len() == old_clips.len() + 1);
    assert forall|i: int| 0 <= i < clips.len() implies (#[trigger] clips[i]).wf() && accepts_category(
        t.kind,
        kind_category(clips[i].kind),
    ) && clips[i].spec_placement() is Fixed by {
        if i < k {
            assert(clips[i] == old_clips[i]);
        } else if i > k {
            assert(clips[i] == old_clips[i - 1]);
        }
    }
    assert forall|i: int, j: int| 0 <= i < j < clips.len() implies rat_le(
        (#[trigger] clips[i]).spec_start()@,
        (#[trigger] clips[j]).spec_start()@,
    ) && !overlaps(clips[i], clips[j].spec_start()@, clips[j].spec_end()) by {
        let ci = clips[i];
        let cj = clips[j];
        assert(ci.wf() && cj.wf());
        if i < k && j < k {
            assert(ci == old_clips[i] && cj == old_clips[j]);
        } else if i < k && j == k {
            assert(ci == old_clips[i] && cj == clip);
            assert(!overlaps(old_clips[i], clip.spec_start()@, clip.spec_end()));
        } else if i < k && j > k {
            assert(ci == old_clips[i] && cj == old_clips[j - 1]);
        } else if i == k {
            assert(ci == clip && cj == old_clips[j - 1]);
            let oj = old_clips[j - 1];
            assert(!overlaps(oj, clip.spec_start()@, clip.spec_end()));
            assert(old_clips[k].wf());
            if j - 1 > k {
                assert(rat_le(old_clips[k].spec_start()@, oj.spec_start()@));
            }
            lemma_lt_trans(clip.spec_start()@, old_clips[k].spec_start()@, oj.spec_start()@);
        } else {
            assert(ci == old_clips[i - 1] && cj == old_clips[j - 1]);
        }
    }
}

fn placement_matches(layout: TrackLayout, placement: ClipPlacement) -> (r: bool)
    ensures
        r == layout_accepts(layout, placement),
{
    match (layout, placement) {
        (TrackLayout::Flow, ClipPlacement::Flow) => true,
        (TrackLayout::Fixed, ClipPlacement::Fixed { .. }) => true,
        _ => false,
    }
}

fn type_accepts(track_type: TrackType, category: ClipCategory) -> (r: bool)
    ensures
        r == accepts_category(track_type, category),
{
    category == ClipCategory::Spacer || match (track_type, category) {
        (TrackType::Video, ClipCategory::Video) => true,
        (TrackType::Audio, ClipCategory::Audio) => true,
        (TrackType::Text, ClipCategory::Text) => true,
        (TrackType::Vector, ClipCategory::Vector) => true,
        (TrackType::Adjustment, ClipCategory::Adjustment) => true,
        (TrackType::Effect, ClipCategory::Effect) => true,
        _ => false,
    }
}

impl TrackRole {
    /// The layout this role implies.
    pub fn layout(self) -> (r: TrackLayout)
        ensures
            r == role_layout(self),
    {
        match self {
            TrackRole::Main => TrackLayout::Flow,
            TrackRole::Overlay | TrackRole::Audio => TrackLayout::Fixed,
        }
    }
}

pub(crate) fn track_order_index(role: TrackRole) -> (r: usize)
    ensures
        r == order_index(role),
{
    match role {
        TrackRole::Audio => 0,
        TrackRole::Main => 1,
        TrackRole::Overlay => 2,
    }
}

// ---------------------------------------------------------------------------
// timelines
// ---------------------------------------------------------------------------


/// A role admits a track type: main tracks are video, audio tracks are
/// audio, overlays are anything but audio.
pub open spec fn role_allows_type(role: TrackRole, kind: TrackType) -> bool {
    match role {
        TrackRole::Main => kind == TrackType::Video,
        TrackRole::Audio => kind == TrackType::Audio,
        TrackRole::Overlay => kind != TrackType::Audio,
    }
}

/// The abstract content of a timeline.
pub struct TimelineModel {
    pub id: TimelineId,
    pub fps: RationalTime,
    pub tracks: Seq<Track>,
    pub next_track_id: nat,
}

/// Every track is well formed and of a type its role admits.
#[verifier::opaque]
pub open spec fn tracks_valid(tracks: Seq<Track>) -> bool {
    forall|i: int|
        0 <= i < tracks.len() ==> track_wf((#[trigger] tracks[i])@) && role_allows_type(
            tracks[i]@.role,
            tracks[i]@.kind,
        )
}

/// Tracks are ordered audio, then main, then overlays.
#[verifier::opaque]
pub open spec fn tracks_ordered(tracks: Seq<Track>) -> bool {
    forall|i: int, j: int|
        0 <= i < j < tracks.len() ==> order_index((#[trigger] tracks[i])@.role) <= order_index(
            (#[trigger] tracks[j])@.role,
        )
}

/// Exactly one track of the sequence is the main track.
#[verifier::opaque]
pub open spec fn has_single_main(tracks: Seq<Track>) -> bool {
    exists|m: int|
        0 <= m < tracks.len() && is_main_at(tracks, m) && (forall|j: int|
            0 <= j < tracks.len() && j != m ==> !is_main_at(tracks, j))
}

pub open spec fn is_main_at(tracks: Seq<Track>, i: int) -> bool {
    tracks[i]@.role == TrackRole::Main
}

/// Track ids are distinct and all below the next id to hand out.
#[verifier::opaque]
pub open spec fn ids_fresh(tracks: Seq<Track>, next: nat) -> bool {
    &&& forall|i: int| 0 <= i < tracks.len() ==> (#[trigger] tracks[i])@.id.0 < next
    &&& forall|i: int, j: int|
        0 <= i < j < tracks.len() ==> (#[trigger] tracks[i])@.id != (#[trigger] tracks[j])@.id
}

pub open spec fn timeline_wf(m: TimelineModel) -> bool {
    &&& tracks_valid(m.tracks)
    &&& tracks_ordered(m.tracks)
    &&& has_single_main(m.tracks)
    &&& ids_fresh(m.tracks, m.next_track_id)
    &&& m.next_track_id <= u64::MAX
}

/// The latest point reached by the first `k` tracks (zero when none).
pub open spec fn max_track_duration(tracks: Seq<Track>, k: int) -> (int, int)
    decreases k,
{
    if k <= 0 {
        rat_zero()
    } else {
        let m = max_track_duration(tracks, k - 1);
        let d = track_duration(tracks[k - 1]@);
        if rat_lt(m, d) {
            d
        } else {
            m
        }
    }
}

/// The timeline contains a track with this id.
pub open spec fn contains_track(tracks: Seq<Track>, track_id: TrackId) -> bool {
    exists|i: int| 0 <= i < tracks.len() && (#[trigger] tracks[i])@.id == track_id
}

/// The fresh, empty track a timeline creates.
pub open spec fn empty_track(id: TrackId, role: TrackRole, kind: TrackType) -> TrackModel {
    TrackModel { id, role, kind, clips: Seq::empty(), muted: false, hidden: false }
}

pub struct Timeline {
    pub id: TimelineId,
    pub fps: RationalTime,
    tracks: Vec<Track>,
    next_track_id: u64,
}

impl View for Timeline {
    type V = TimelineModel;

    closed spec fn view(&self) -> TimelineModel {
        TimelineModel {
            id: self.id,
            fps: self.fps,
            tracks: self.tracks@,
            next_track_id: self.next_track_id as nat,
        }
    }
}

impl Timeline {
    pub open spec fn wf(&self) -> bool {
        timeline_wf(self@)
    }

    /// Construct a timeline with its always-present flow-layout main track.
    pub fn new(id: TimelineId, fps: RationalTime) -> (r: Self)
        ensures
            r.wf(),
            r@.id == id,
            r@.fps == fps,
            r@.tracks.len() == 1,
            r@.tracks[0]@ == empty_track(TrackId(0), TrackRole::Main, TrackType::Video),
            r@.next_track_id == 1,
    {
        let main = Track::new(TrackId(0), TrackRole::Main, TrackType::Video);
        let mut tracks = Vec::new();
        tracks.push(main);
        let r = Timeline { id, fps, tracks, next_track_id: 1 };
        proof {
            let t = r@.tracks;
            assert(t[0] == main);
            reveal(tracks_valid);
            reveal(tracks_ordered);
            reveal(ids_fresh);
            reveal(has_single_main);
            assert(is_main_at(t, 0));
        }
        r
    }

    /// Add an empty track of a role and type, keeping the audio, main,
    /// overlay order; it goes after the existing tracks of its own role.
    pub fn create_track(&mut self, role: TrackRole, kind: TrackType) -> (r: Result<
        TrackId,
        TimelineError,
    >)
        requires
            old(self).wf(),
            old(self)@.next_track_id < u64::MAX,
        ensures
            final(self).wf(),
            final(self)@.id == old(self)@.id,
            final(self)@.fps == old(self)@.fps,
            match r {
                Ok(track_id) => {
                    &&& role_allows_type(role, kind)
                    &&& role != TrackRole::Main
                    &&& track_id == TrackId(old(self)@.next_track_id as u64)
                    &&& final(self)@.next_track_id == old(self)@.next_track_id + 1
                    &&& exists|k: int| track_inserted_at(old(self)@.tracks, final(self)@.tracks, k, empty_track(track_id, role, kind))
                },
                Err(TimelineError::TrackRoleTypeMismatch) => {
                    &&& !role_allows_type(role, kind)
                    &&& final(self)@ == old(self)@
                },
                Err(TimelineError::DuplicateMainTrack) => {
                    &&& role_allows_type(role, kind)
                    &&& role == TrackRole::Main
                    &&& exists|i: int|
                        0 <= i < old(self)@.tracks.len() && is_main_at(old(self)@.tracks, i)
                    &&& final(self)@ == old(self)@
                },
                Err(_) => false,
            },
            role == TrackRole::Overlay && kind != TrackType::Audio ==> r is Ok,
            role == TrackRole::Audio && kind == TrackType::Audio ==> r is Ok,
            kind != TrackType::Video ==> role == TrackRole::Main ==> r == Err::<TrackId, TimelineError>(
                TimelineError::TrackRoleTypeMismatch,
            ),
    {
        if !role_accepts_type(role, kind) {
            return Err(TimelineError::TrackRoleTypeMismatch);
        }
        let n = self.tracks.len();
        if role == TrackRole::Main {
            let mut i: usize = 0;
            while i < n
                invariant
                    n == self.tracks.len(),
                    self@ == old(self)@,
                    old(self).wf(),
                    role == TrackRole::Main,
                    role_allows_type(role, kind),
                    0 <= i <= n,
                    forall|j: int| 0 <= j < i ==> !is_main_at(self@.tracks, j),
                decreases n - i,
            {
                if self.tracks[i].role == TrackRole::Main {
                    proof {
                        assert(is_main_at(self@.tracks, i as int));
                    }
                    return Err(TimelineError::DuplicateMainTrack);
                }
                i = i + 1;
            }
            proof {
                reveal(has_single_main);
                let m = choose|m: int|
                    0 <= m < self@.tracks.len() && is_main_at(self@.tracks, m) && (forall|j: int|
                        0 <= j < self@.tracks.len() && j != m ==> !is_main_at(self@.tracks, j));
                assert(!is_main_at(self@.tracks, m));
            }
        }
        let id = TrackId(self.next_track_id);
        let ghost old_tracks = self.tracks@;
        let mut k: usize = 0;
        while k < n
            invariant
                n == self.tracks.len(),
                self.tracks@ == old_tracks,
                0 <= k <= n,
                forall|j: int|
                    0 <= j < k ==> order_index((#[trigger] old_tracks[j])@.role) <= order_index(
                        role,
                    ),
            ensures
                0 <= k <= n,
                k < n ==> order_index(role) < order_index(old_tracks[k as int]@.role),
            decreases n - k,
        {
            if track_order_index(self.tracks[k].role) > track_order_index(role) {
                break;
            }
            k = k + 1;
        }
        let track = Track::new(id, role, kind);
        self.tracks.insert(k, track);
        self.next_track_id = self.next_track_id + 1;
        proof {
            assert(self@.tracks[k as int] == track);
            assert(track_inserted_at(old(self)@.tracks, self@.tracks, k as int, empty_track(id, role, kind)));
            lemma_create_track_wf(old(self)@, self@, role, kind, k as int);
        }
        Ok(id)
    }

    /// Remove a non-main track and hand it back.
    pub fn remove_track(&mut self, track_id: TrackId) -> (r: Result<Track, TimelineError>)
        requires
            old(self).wf(),
            contains_track(old(self)@.tracks, track_id),
        ensures
            final(self).wf(),
            final(self)@.id == old(self)@.id,
            final(self)@.fps == old(self)@.fps,
            final(self)@.next_track_id == old(self)@.next_track_id,
            forall|i: int|
                0 <= i < old(self)@.tracks.len() && (#[trigger] old(self)@.tracks[i])@.id
                    == track_id ==> match r {
                    Ok(t) => {
                        &&& old(self)@.tracks[i]@.role != TrackRole::Main
                        &&& t == old(self)@.tracks[i]
                        &&& final(self)@.tracks == old(self)@.tracks.remove(i)
                    },
                    Err(e) => {
                        &&& e == TimelineError::CannotDeleteMainTrack
                        &&& old(self)@.tracks[i]@.role == TrackRole::Main
                        &&& final(self)@ == old(self)@
                    },
                },
    {
        let index = self.position_of(track_id);
        proof {
            lemma_unique_id(self@, index as int);
        }
        if self.tracks[index].role == TrackRole::Main {
            return Err(TimelineError::CannotDeleteMainTrack);
        }
        let removed = self.tracks.remove(index);
        proof {
            lemma_remove_track_wf(old(self)@, self@, index as int);
        }
        Ok(removed)
    }

    /// Add a clip to the track with the given id, following that track's layout.
    pub fn insert_clip(&mut self, track_id: TrackId, clip: Clip) -> (r: Result<(), TimelineError>)
        requires
            old(self).wf(),
            contains_track(old(self)@.tracks, track_id),
        ensures
            final(self).wf(),
            timeline_clip_inserted(old(self)@, track_id, clip, r, final(self)@),
    {
        let index = self.position_of(track_id);
        proof {
            lemma_unique_id(self@, index as int);
            lemma_track_wf(self@, index as int);
        }
        let r = self.tracks[index].insert_clip(clip);
        proof {
            lemma_update_track_wf(old(self)@, self@, index as int);
        }
        r
    }

    /// The id of the timeline's single main track.
    pub fn main_track_id(&self) -> (r: TrackId)
        requires
            self.wf(),
        ensures
            exists|i: int|
                0 <= i < self@.tracks.len() && is_main_at(self@.tracks, i) && r == self@.tracks[i]@.id,
    {
        let n = self.tracks.len();
        let mut i: usize = 0;
        while i < n
            invariant
                n == self.tracks.len(),
                0 <= i <= n,
                forall|j: int| 0 <= j < i ==> !is_main_at(self@.tracks, j),
            decreases n - i,
        {
            if self.tracks[i].role == TrackRole::Main {
                proof {
                    assert(is_main_at(self@.tracks, i as int));
                }
                return self.tracks[i].id;
            }
            i = i + 1;
        }
        proof {
            reveal(has_single_main);
            let m = choose|m: int|
                0 <= m < self@.tracks.len() && is_main_at(self@.tracks, m) && (forall|j: int|
                    0 <= j < self@.tracks.len() && j != m ==> !is_main_at(self@.tracks, j));
            assert(!is_main_at(self@.tracks, m));
        }
        self.tracks[0].id
    }

    /// The first track with the given id, if any.
    pub fn track(&self, track_id: TrackId) -> (r: Option<&Track>)
        ensures
            match r {
                Some(t) => exists|i: int|
                    0 <= i < self@.tracks.len() && *t == self@.tracks[i] && t@.id == track_id
                        && (forall|j: int|
                        0 <= j < i ==> (#[trigger] self@.tracks[j])@.id != track_id),
                None => !contains_track(self@.tracks, track_id),
            },
            self.wf() && r is Some ==> r->0.wf(),
    {
        let n = self.tracks.len();
        let mut i: usize = 0;
        while i < n
            invariant
                n == self.tracks.len(),
                0 <= i <= n,
                forall|j: int| 0 <= j < i ==> (#[trigger] self@.tracks[j])@.id != track_id,
            decreases n - i,
        {
            if self.tracks[i].id == track_id {
                proof {
                    assert(self@.tracks[i as int] == self.tracks@[i as int]);
                    if self.wf() {
                        lemma_track_wf(self@, i as int);
                    }
                }
                return Some(&self.tracks[i]);
            }
            i = i + 1;
        }
        None
    }

    /// All tracks in order: audio tracks, the main track, overlays.
    pub fn tracks(&self) -> (r: &[Track])
        ensures
            r@ == self@.tracks,
    {
        self.tracks.as_slice()
    }

    /// Latest point in time reached by any track, or zero when empty.
    pub fn duration(&self) -> (r: RationalTime)
        requires
            self.wf(),
        ensures
            r@ == max_track_duration(self@.tracks, self@.tracks.len() as int),
    {
        let n = self.tracks.len();
        let mut acc = RationalTime::zero();
        let mut i: usize = 0;
        while i < n
            invariant
                n == self.tracks.len(),
                self.wf(),
                0 <= i <= n,
                acc@ == max_track_duration(self@.tracks, i as int),
            decreases n - i,
        {
            proof {
                lemma_track_wf(self@, i as int);
            }
            let d = self.tracks[i].duration();
            if acc.lt(&d) {
                acc = d;
            }
            i = i + 1;
        }
        acc
    }

    /// Index of the first track with the given id.
    fn position_of(&self, track_id: TrackId) -> (r: usize)
        requires
            contains_track(self@.tracks, track_id),
        ensures
            r < self@.tracks.len(),
            self@.tracks[r as int]@.id == track_id,
            forall|j: int| 0 <= j < r ==> (#[trigger] self@.tracks[j])@.id != track_id,
    {
        let n = self.tracks.len();
        let mut i: usize = 0;
        while i < n
            invariant
                n == self.tracks.len(),
                0 <= i <= n,
                contains_track(self@.tracks, track_id),
                forall|j: int| 0 <= j < i ==> (#[trigger] self@.tracks[j])@.id != track_id,
            decreases n - i,
        {
            if self.tracks[i].id == track_id {
                return i;
            }
            i = i + 1;
        }
        proof {
            let w = choose|w: int| 0 <= w < self@.tracks.len() && (#[trigger] self@.tracks[w])@.id
                == track_id;
            assert(self@.tracks[w]@.id != track_id);
        }
        0
    }
}

/// `after` is `before` with a track of content `t` inserted at `k`, where
/// `k` is the first position whose role sorts after the new track's role.
pub open spec fn track_inserted_at(before: Seq<Track>, after: Seq<Track>, k: int, t: TrackModel) -> bool {
    &&& 0 <= k <= before.len()
    &&& after == before.insert(k, after[k])
    &&& after[k]@ == t
    &&& forall|j: int| 0 <= j < k ==> order_index((#[trigger] before[j])@.role) <= order_index(t.role)
    &&& k < before.len() ==> order_index(t.role) < order_index(before[k]@.role)
}

/// A track with content `before` received `clip` with outcome `r` and now has content `after`.
pub open spec fn clip_inserted(before: TrackModel, clip: Clip, r: Result<(), TimelineError>, after: TrackModel) -> bool {
    &&& insert_outcome(before, clip, r, after.clips)
    &&& after.id == before.id
    &&& after.role == before.role
    &&& after.kind == before.kind
    &&& after.muted == before.muted
    &&& after.hidden == before.hidden
    &&& r is Err ==> after == before
}

/// `after` is `before` with `clip` inserted into the track `track_id` as
/// `clip_inserted` describes, with result `r`; every other track and the
/// timeline's own fields are unchanged.
pub open spec fn timeline_clip_inserted(
    before: TimelineModel,
    track_id: TrackId,
    clip: Clip,
    r: Result<(), TimelineError>,
    after: TimelineModel,
) -> bool {
    &&& after.id == before.id
    &&& after.fps == before.fps
    &&& after.next_track_id == before.next_track_id
    &&& after.tracks.len() == before.tracks.len()
    &&& forall|i: int|
        0 <= i < before.tracks.len() && (#[trigger] before.tracks[i])@.id != track_id
            ==> after.tracks[i] == before.tracks[i]
    &&& forall|i: int|
        0 <= i < before.tracks.len() && (#[trigger] before.tracks[i])@.id == track_id
            ==> clip_inserted(before.tracks[i]@, clip, r, after.tracks[i]@)
}

fn role_accepts_type(role: TrackRole, kind: TrackType) -> (r: bool)
    ensures
        r == role_allows_type(role, kind),
{
    match role {
        TrackRole::Main => kind == TrackType::Video,
        TrackRole::Audio => kind == TrackType::Audio,
        TrackRole::Overlay => kind != TrackType::Audio,
    }
}

/// Every track of a well-formed timeline is a well-formed track.
pub proof fn lemma_track_wf(m: TimelineModel, i: int)
    requires
        timeline_wf(m),
        0 <= i < m.tracks.len(),
    ensures
        track_wf(m.tracks[i]@),
        role_allows_type(m.tracks[i]@.role, m.tracks[i]@.kind),
{
    reveal(tracks_valid);
}

/// The track at `i` is the only one with its id.
pub proof fn lemma_unique_id(m: TimelineModel, i: int)
    requires
        timeline_wf(m),
        0 <= i < m.tracks.len(),
    ensures
        forall|j: int| 0 <= j < m.tracks.len() && (#[trigger] m.tracks[j])@.id == m.tracks[i]@.id ==> j == i,
{
    reveal(ids_fresh);
    assert forall|j: int| 0 <= j < m.tracks.len() && (#[trigger] m.tracks[j])@.id == m.tracks[i]@.id implies j == i by {
        if j < i {
            assert(m.tracks[j]@.id != m.tracks[i]@.id);
        } else if j > i {
            assert(m.tracks[i]@.id != m.tracks[j]@.id);
        }
    }
}

proof fn lemma_create_track_wf(
    before: TimelineModel,
    after: TimelineModel,
    role: TrackRole,
    kind: TrackType,
    k: int,
)
    requires
        timeline_wf(before),
        role_allows_type(role, kind),
        role != TrackRole::Main,
        before.next_track_id < u64::MAX,
        after.next_track_id == before.next_track_id + 1,
        track_inserted_at(before.tracks, after.tracks, k, empty_track(TrackId(before.next_track_id as u64), role, kind)),
        track_wf(after.tracks[k]@),
    ensures
        timeline_wf(after),
{
    let bt = before.tracks;
    let at = after.tracks;
    assert forall|i: int| 0 <= i < at.len() && i != k implies at[i] == bt[if i < k { i } else { i - 1 }] by {}
    assert(tracks_valid(at)) by {
        reveal(tracks_valid);
        assert forall|i: int| 0 <= i < at.len() implies track_wf((#[trigger] at[i])@) && role_allows_type(at[i]@.role, at[i]@.kind) by {
            if i != k {
                let s = if i < k { i } else { i - 1 };
                assert(at[i] == bt[s]);
            }
        }
    }
    assert(tracks_ordered(at)) by {
        reveal(tracks_ordered);
        assert forall|i: int, j: int| 0 <= i < j < at.len() implies order_index((#[trigger] at[i])@.role) <= order_index((#[trigger] at[j])@.role) by {
            if i < k && j < k {
                assert(at[i] == bt[i] && at[j] == bt[j]);
            } else if i < k && j == k {
                assert(at[i] == bt[i]);
            } else if i < k && j > k {
                assert(at[i] == bt[i] && at[j] == bt[j - 1]);
            } else if i == k {
                assert(at[j] == bt[j - 1]);
                if j - 1 > k {
                    assert(order_index(bt[k]@.role) <= order_index(bt[j - 1]@.role));
                }
            } else {
                assert(at[i] == bt[i - 1] && at[j] == bt[j - 1]);
            }
        }
    }
    assert(has_single_main(at)) by {
        reveal(has_single_main);
        let m = choose|m: int|
            0 <= m < bt.len() && is_main_at(bt, m) && (forall|j: int|
                0 <= j < bt.len() && j != m ==> !is_main_at(bt, j));
        let m2 = if m < k { m } else { m + 1 };
        assert(at[m2] == bt[m]);
        assert(is_main_at(at, m2));
        assert forall|j: int| 0 <= j < at.len() && j != m2 implies !is_main_at(at, j) by {
            if j != k {
                let s = if j < k { j } else { j - 1 };
                assert(at[j] == bt[s]);
                assert(s != m);
                assert(!is_main_at(bt, s));
            }
        }
    }
    assert(ids_fresh(at, after.next_track_id)) by {
        reveal(ids_fresh);
        assert forall|i: int| 0 <= i < at.len() implies (#[trigger] at[i])@.id.0 < after.next_track_id && (i != k ==> at[i]@.id.0 < before.next_track_id) by {
            if i != k {
                let s = if i < k { i } else { i - 1 };
                assert(at[i] == bt[s]);
            }
        }
        assert forall|i: int, j: int| 0 <= i < j < at.len() implies (#[trigger] at[i])@.id != (#[trigger] at[j])@.id by {
            if i != k && j != k {
                let si = if i < k { i } else { i - 1 };
                let sj = if j < k { j } else { j - 1 };
                assert(at[i] == bt[si] && at[j] == bt[sj]);
            }
        }
    }
}

proof fn lemma_remove_track_wf(before: TimelineModel, after: TimelineModel, index: int)
    requires
        timeline_wf(before),
        0 <= index < before.tracks.len(),
        before.tracks[index]@.role != TrackRole::Main,
        after.tracks == before.tracks.remove(index),
        after.next_track_id == before.next_track_id,
    ensures
        timeline_wf(after),
{
    let bt = before.tracks;
    let at = after.tracks;
    assert forall|i: int| 0 <= i < at.len() implies #[trigger] at[i] == bt[if i < index { i } else { i + 1 }] by {}
    assert(tracks_valid(at)) by {
        reveal(tracks_valid);
        assert forall|i: int| 0 <= i < at.len() implies track_wf((#[trigger] at[i])@) && role_allows_type(at[i]@.role, at[i]@.kind) by {
            assert(at[i] == bt[if i < index { i } else { i + 1 }]);
        }
    }
    assert(tracks_ordered(at)) by {
        reveal(tracks_ordered);
        assert forall|i: int, j: int| 0 <= i < j < at.len() implies order_index((#[trigger] at[i])@.role) <= order_index((#[trigger] at[j])@.role) by {
            assert(at[i] == bt[if i < index { i } else { i + 1 }]);
            assert(at[j] == bt[if j < index { j } else { j + 1 }]);
        }
    }
    assert(has_single_main(at)) by {
        reveal(has_single_main);
        let m = choose|m: int|
            0 <= m < bt.len() && is_main_at(bt, m) && (forall|j: int|
                0 <= j < bt.len() && j != m ==> !is_main_at(bt, j));
        assert(m != index);
        let m2 = if m < index { m } else { m - 1 };
        assert(at[m2] == bt[m]);
        assert(is_main_at(at, m2));
        assert forall|j: int| 0 <= j < at.len() && j != m2 implies !is_main_at(at, j) by {
            let s = if j < index { j } else { j + 1 };
            assert(at[j] == bt[s]);
            assert(s != m);
            assert(!is_main_at(bt, s));
        }
    }
    assert(ids_fresh(at, after.next_track_id)) by {
        reveal(ids_fresh);
        assert forall|i: int| 0 <= i < at.len() implies (#[trigger] at[i])@.id.0 < after.next_track_id by {
            assert(at[i] == bt[if i < index { i } else { i + 1 }]);
        }
        assert forall|i: int, j: int| 0 <= i < j < at.len() implies (#[trigger] at[i])@.id != (#[trigger] at[j])@.id by {
            assert(at[i] == bt[if i < index { i } else { i + 1 }]);
            assert(at[j] == bt[if j < index { j } else { j + 1 }]);
        }
    }
}

proof fn lemma_update_track_wf(before: TimelineModel, after: TimelineModel, index: int)
    requires
        timeline_wf(before),
        0 <= index < before.tracks.len(),
        after.next_track_id == before.next_track_id,
        after.tracks.len() == before.tracks.len(),
        forall|j: int| 0 <= j < before.tracks.len() && j != index ==> after.tracks[j] == before.tracks[j],
        track_wf(after.tracks[index]@),
        after.tracks[index]@.id == before.tracks[index]@.id,
        after.tracks[index]@.role == before.tracks[index]@.role,
        after.tracks[index]@.kind == before.tracks[index]@.kind,
    ensures
        timeline_wf(after),
{
    let bt = before.tracks;
    let at = after.tracks;
    assert forall|i: int| 0 <= i < at.len() implies (#[trigger] at[i])@.role == bt[i]@.role && at[i]@.id == bt[i]@.id && at[i]@.kind == bt[i]@.kind by {
        if i != index {
            assert(at[i] == bt[i]);
        }
    }
    assert(tracks_valid(at)) by {
        reveal(tracks_valid);
        assert forall|i: int| 0 <= i < at.len() implies track_wf((#[trigger] at[i])@) && role_allows_type(at[i]@.role, at[i]@.kind) by {
            if i != index {
                assert(at[i] == bt[i]);
            }
        }
    }
    assert(tracks_ordered(at)) by {
        reveal(tracks_ordered);
        assert forall|i: int, j: int| 0 <= i < j < at.len() implies order_index((#[trigger] at[i])@.role) <= order_index((#[trigger] at[j])@.role) by {
            assert(at[i]@.role == bt[i]@.role);
            assert(at[j]@.role == bt[j]@.role);
        }
    }
    assert(has_single_main(at)) by {
        reveal(has_single_main);
        let m = choose|m: int|
            0 <= m < bt.len() && is_main_at(bt, m) && (forall|j: int|
                0 <= j < bt.len() && j != m ==> !is_main_at(bt, j));
        assert(is_main_at(at, m));
        assert forall|j: int| 0 <= j < at.len() && j != m implies !is_main_at(at, j) by {
            assert(at[j]@.role == bt[j]@.role);
            assert(!is_main_at(bt, j));
        }
    }
    assert(ids_fresh(at, after.next_track_id)) by {
        reveal(ids_fresh);
        assert forall|i: int| 0 <= i < at.len() implies (#[trigger] at[i])@.id.0 < after.next_track_id by {
            assert(at[i]@.id == bt[i]@.id);
        }
        assert forall|i: int, j: int| 0 <= i < j < at.len() implies (#[trigger] at[i])@.id != (#[trigger] at[j])@.id by {
            assert(at[i]@.id == bt[i]@.id);
            assert(at[j]@.id == bt[j]@.id);
        }
    }
}

// ---------------------------------------------------------------------------
// laws
// ---------------------------------------------------------------------------

/// On a flow track each clip starts strictly later than every clip before
/// it: the running sums of positive durations increase.
pub proof fn law_flow_offsets_increase(clips: Seq<Clip>, i: int, j: int)
    requires
        forall|k: int| 0 <= k < clips.len() ==> (#[trigger] clips[k]).wf(),
        0 <= i < j <= clips.len(),
    ensures
        rat_lt(flow_offset(clips, i), flow_offset(clips, j)),
    decreases j - i,
{
    lemma_flow_offset_reduced(clips, i);
    lemma_flow_offset_reduced(clips, j - 1);
    lemma_flow_offset_reduced(clips, j);
    assert(clips[j - 1].wf());
    crate::rational::lemma_add_positive_is_later(
        flow_offset(clips, j - 1),
        clips[j - 1].spec_duration()@,
    );
    if i < j - 1 {
        law_flow_offsets_increase(clips, i, j - 1);
        lemma_lt_trans(flow_offset(clips, i), flow_offset(clips, j - 1), flow_offset(clips, j));
    }
}

/// A point in time falls inside at most one clip of a well-formed track.
pub proof fn law_at_most_one_clip_at(t: TrackModel, at: (int, int), i: int, j: int)
    requires
        track_wf(t),
        at.1 > 0,
        0 <= i < t.clips.len(),
        0 <= j < t.clips.len(),
        match role_layout(t.role) {
            TrackLayout::Flow => flow_hit(t.clips, at, i) && flow_hit(t.clips, at, j),
            TrackLayout::Fixed => fixed_hit(t.clips[i], at) && fixed_hit(t.clips[j], at),
        },
    ensures
        i == j,
{
    reveal(track_wf);
    if i != j {
        let (a, b) = if i < j {
            (i, j)
        } else {
            (j, i)
        };
        let clips = t.clips;
        match role_layout(t.role) {
            TrackLayout::Flow => {
                lemma_flow_offset_reduced(clips, a + 1);
                lemma_flow_offset_reduced(clips, b);
                if a + 1 < b {
                    law_flow_offsets_increase(clips, a + 1, b);
                }
                // at < offset(a + 1) <= offset(b) <= at
                lemma_le_trans_strict(at, flow_offset(clips, a + 1), flow_offset(clips, b));
            },
            TrackLayout::Fixed => {
                let ca = clips[a];
                let cb = clips[b];
                assert(ca.wf() && cb.wf());
                lemma_rat_add_reduced(ca.spec_start()@, ca.spec_duration()@);
                lemma_rat_add_reduced(cb.spec_start()@, cb.spec_duration()@);
                // start_b <= at < end_a and start_a <= at < end_b
                crate::rational::lemma_le_lt_trans(cb.spec_start()@, at, ca.spec_end());
                crate::rational::lemma_le_lt_trans(ca.spec_start()@, at, cb.spec_end());
                assert(overlaps(ca, cb.spec_start()@, cb.spec_end()));
            },
        }
    }
}

/// `at < x <= y` makes `y <= at` impossible.
proof fn lemma_le_trans_strict(at: (int, int), x: (int, int), y: (int, int))
    requires
        at.1 > 0,
        x.1 > 0,
        y.1 > 0,
        rat_lt(at, x),
        x == y || rat_lt(x, y),
    ensures
        !rat_le(y, at),
{
    if x != y {
        lemma_lt_trans(at, x, y);
    }
}

/// Every time point a track reaches is reduced.
pub proof fn lemma_track_duration_reduced(t: TrackModel)
    requires
        track_wf(t),
    ensures
        reduced(track_duration(t)),
{
    reveal(track_wf);
    match role_layout(t.role) {
        TrackLayout::Flow => lemma_flow_offset_reduced(t.clips, t.clips.len() as int),
        TrackLayout::Fixed => lemma_fixed_max_end_reduced(t.clips, t.clips.len() as int),
    }
}

/// The timeline's duration is reached by no track less than: it is at
/// least the duration of every track.
pub proof fn law_timeline_duration_covers_tracks(m: TimelineModel, i: int)
    requires
        timeline_wf(m),
        0 <= i < m.tracks.len(),
    ensures
        rat_le(track_duration(m.tracks[i]@), max_track_duration(m.tracks, m.tracks.len() as int)),
{
    lemma_max_track_duration(m, m.tracks.len() as int, i);
}

proof fn lemma_max_track_duration(m: TimelineModel, k: int, i: int)
    requires
        timeline_wf(m),
        0 <= i < k <= m.tracks.len(),
    ensures
        reduced(max_track_duration(m.tracks, k)),
        rat_le(track_duration(m.tracks[i]@), max_track_duration(m.tracks, k)),
    decreases k,
{
    lemma_track_wf(m, k - 1);
    lemma_track_duration_reduced(m.tracks[k - 1]@);
    lemma_track_wf(m, i);
    lemma_track_duration_reduced(m.tracks[i]@);
    if k - 1 == 0 {
        lemma_zero_reduced();
    } else {
        lemma_max_track_duration(m, k - 1, 0);
    }
    let prev = max_track_duration(m.tracks, k - 1);
    let d = track_duration(m.tracks[k - 1]@);
    if i < k - 1 {
        lemma_max_track_duration(m, k - 1, i);
        if rat_lt(prev, d) {
            crate::rational::lemma_le_trans(track_duration(m.tracks[i]@), prev, d);
        }
    }
}

/// On a flow track, a successful insertion extends the track's duration by
/// exactly the clip's duration.
pub proof fn law_flow_insert_extends_duration(before: TrackModel, clip: Clip, after: TrackModel)
    requires
        role_layout(before.role) == TrackLayout::Flow,
        after.role == before.role,
        after.clips == before.clips.push(clip),
    ensures
        track_duration(after) == rat_add(track_duration(before), clip.spec_duration()@),
{
    lemma_flow_offset_prefix(before.clips, clip, before.clips.len() as int);
    assert(after.clips[before.clips.len() as int] == clip);
}

/// The clip category named like a track type.
pub open spec fn category_named(track_type: TrackType) -> ClipCategory {
    match track_type {
        TrackType::Video => ClipCategory::Video,
        TrackType::Audio => ClipCategory::Audio,
        TrackType::Text => ClipCategory::Text,
        TrackType::Vector => ClipCategory::Vector,
        TrackType::Adjustment => ClipCategory::Adjustment,
        TrackType::Effect => ClipCategory::Effect,
    }
}

/// A track of a type holds exactly the clips of the category with the same
/// name, and spacers: inserting such a clip is never refused for its kind,
/// and inserting a clip of any other category always is (once its placement
/// suits the track).
pub proof fn law_track_type_holds_its_category(t: TrackModel, clip: Clip, r: Result<(), TimelineError>, clips_after: Seq<Clip>)
    requires
        insert_outcome(t, clip, r, clips_after),
    ensures
        forall|c: ClipCategory|
            accepts_category(t.kind, c) <==> (c == ClipCategory::Spacer || c == category_named(t.kind)),
        (kind_category(clip.kind) == ClipCategory::Spacer || kind_category(clip.kind) == category_named(t.kind))
            ==> r != Err::<(), TimelineError>(TimelineError::ClipTypeMismatch),
        layout_accepts(role_layout(t.role), clip.spec_placement()) && kind_category(clip.kind)
            != ClipCategory::Spacer && kind_category(clip.kind) != category_named(t.kind) ==> r
            == Err::<(), TimelineError>(TimelineError::ClipTypeMismatch),
{
}

/// Which track types each role admits: a main track is video, an audio
/// track is audio, and an overlay is any type but audio.
pub proof fn law_role_track_types(kind: TrackType)
    ensures
        role_allows_type(TrackRole::Main, kind) <==> kind == TrackType::Video,
        role_allows_type(TrackRole::Audio, kind) <==> kind == TrackType::Audio,
        role_allows_type(TrackRole::Overlay, kind) <==> kind != TrackType::Audio,
{
}

} // verus!
