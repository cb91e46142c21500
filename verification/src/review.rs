//! The human review of suggested clips: each suggestion is pending until it
//! is accepted onto the timeline or skipped. Accepting is the only step that
//! changes the timeline.
use vstd::prelude::*;

use crate::clip_finder::model::ClipCandidate;
use crate::clips::{is_negative, is_positive, Clip, ClipKind, ClipPlacement, VideoClip};
use crate::ids::{AssetId, ClipId};
use crate::rational::{fits, rat_lt, rat_sub, rat_zero, RationalTime};
use crate::timelines::error::TimelineError;
use crate::timelines::timeline::{is_main_at, timeline_clip_inserted, Timeline};

verus! {

/// Where a suggestion stands in the review.
#[derive(Clone, Copy, Debug, PartialEq, Eq, Structural)]
pub enum ReviewStatus {
    Pending,
    Accepted,
    Skipped,
}

/// One suggested clip under review.
#[derive(Clone, Debug)]
pub struct ReviewItem {
    pub candidate: ClipCandidate,
    pub status: ReviewStatus,
}

/// The review queue and the timeline that accepted suggestions are added to.
pub struct ClipReview {
    pub profile_label: String,
    pub source_duration: RationalTime,
    pub items: Vec<ReviewItem>,
    pub timeline: Timeline,
    /// The id the next accepted clip gets.
    pub next_clip_id: u64,
    /// The asset that accepted clips play from.
    pub source_asset_id: AssetId,
}

/// The number of accepted items among the first `k`.
pub open spec fn accepted_among(items: Seq<ReviewItem>, k: int) -> nat
    decreases k,
{
    if k <= 0 {
        0
    } else {
        accepted_among(items, k - 1) + if items[k - 1].status == ReviewStatus::Accepted {
            1nat
        } else {
            0nat
        }
    }
}

/// `clip` is the flow video clip a review adds for `candidate`: the source
/// asset from the candidate's start, as long as the candidate.
pub open spec fn review_clip(clip: Clip, id: u64, asset: AssetId, candidate: ClipCandidate) -> bool {
    &&& clip.id == ClipId(id)
    &&& clip.kind == ClipKind::Video(VideoClip { asset_id: asset, source_start: candidate.start })
    &&& clip.spec_duration()@ == rat_sub(candidate.end@, candidate.start@)
    &&& clip.spec_placement() == ClipPlacement::Flow
}

/// Accepting `candidate` cannot even build its clip: its start is negative,
/// or it does not last a positive time.
pub open spec fn clip_refused(candidate: ClipCandidate) -> bool {
    is_negative(candidate.start) || !rat_lt(rat_zero(), rat_sub(candidate.end@, candidate.start@))
}

impl ClipReview {
    /// The timeline is well formed.
    pub open spec fn wf(&self) -> bool {
        self.timeline.wf()
    }

    /// A review of the candidates, all pending, adding clips from the
    /// source asset to the timeline with ids from 1.
    pub fn new(
        profile_label: String,
        source_duration: RationalTime,
        candidates: Vec<ClipCandidate>,
        timeline: Timeline,
        source_asset_id: AssetId,
    ) -> (r: Self)
        requires
            timeline.wf(),
        ensures
            r.wf(),
            r.profile_label == profile_label,
            r.source_duration == source_duration,
            r.timeline == timeline,
            r.items@.len() == candidates@.len(),
            forall|i: int|
                0 <= i < candidates@.len() ==> (#[trigger] r.items@[i]).candidate == candidates@[i]
                    && r.items@[i].status == ReviewStatus::Pending,
            r.next_clip_id == 1,
            r.source_asset_id == source_asset_id,
    {
        let ghost cs = candidates@;
        let mut items: Vec<ReviewItem> = Vec::new();
        let mut rest = candidates;
        let n = rest.len();
        let mut i: usize = 0;
        while i < n
            invariant
                n == cs.len(),
                i <= n,
                rest@ == cs.subrange(i as int, n as int),
                items@.len() == i,
                forall|k: int|
                    0 <= k < i ==> (#[trigger] items@[k]).candidate == cs[k] && items@[k].status
                        == ReviewStatus::Pending,
            decreases n - i,
        {
            proof {
                assert(rest@[0] == cs[i as int]);
            }
            let candidate = rest.remove(0);
            proof {
                assert(rest@ =~= cs.subrange(i + 1, n as int));
            }
            items.push(ReviewItem { candidate, status: ReviewStatus::Pending });
            i = i + 1;
        }
        ClipReview {
            profile_label,
            source_duration,
            items,
            timeline,
            next_clip_id: 1,
            source_asset_id,
        }
    }

    /// Accept suggestion `index`: add its candidate to the timeline's main
    /// track as a flow video clip of the source asset, then mark it accepted.
    /// Refused (with nothing changed) for an index out of range, an item
    /// already accepted, a clip that cannot be built, or a timeline that
    /// refuses the clip.
    pub fn accept(&mut self, index: usize) -> (r: bool)
        requires
            old(self).wf(),
            old(self).next_clip_id < u64::MAX,
            index < old(self).items@.len() && old(self).items@[index as int].status
                != ReviewStatus::Accepted && !is_negative(old(self).items@[index as int].candidate.start)
                ==> fits(
                rat_sub(
                    old(self).items@[index as int].candidate.end@,
                    old(self).items@[index as int].candidate.start@,
                ),
            ),
        ensures
            final(self).wf(),
            acceptance_refused(*old(self), index) ==> !r && *final(self) == *old(self),
            !acceptance_refused(*old(self), index) ==> exists|
                clip: Clip,
                main: int,
                inserted: Result<(), TimelineError>,
            | accepted_with(*old(self), *final(self), index, clip, main, inserted, r),
    {
        if index >= self.items.len() {
            return false;
        }
        if self.items[index].status == ReviewStatus::Accepted {
            return false;
        }
        let candidate = &self.items[index].candidate;
        let video = match VideoClip::new(self.source_asset_id, candidate.start) {
            Ok(v) => v,
            Err(_) => return false,
        };
        let duration = match candidate.duration() {
            Ok(d) => d,
            Err(_) => return false,
        };
        let clip = match Clip::flow(ClipId(self.next_clip_id), ClipKind::Video(video), duration) {
            Ok(c) => c,
            Err(_) => return false,
        };
        let ghost built = clip;
        let main = self.timeline.main_track_id();
        let ghost before = *self;
        let ghost mi = choose|i: int|
            0 <= i < self.timeline@.tracks.len() && is_main_at(self.timeline@.tracks, i) && main
                == self.timeline@.tracks[i]@.id;
        let inserted = self.timeline.insert_clip(main, clip);
        if inserted.is_err() {
            proof {
                assert(accepted_with(before, *self, index, built, mi, inserted, false));
            }
            return false;
        }
        self.next_clip_id = self.next_clip_id + 1;
        let accepted = ReviewItem {
            candidate: self.items[index].candidate.clone(),
            status: ReviewStatus::Accepted,
        };
        self.items.set(index, accepted);
        proof {
            assert(accepted_with(before, *self, index, built, mi, inserted, true));
        }
        true
    }

    /// Skip suggestion `index` while it is pending; nothing else changes.
    pub fn skip(&mut self, index: usize) -> (r: bool)
        ensures
            index >= old(self).items@.len() || old(self).items@[index as int].status
                != ReviewStatus::Pending ==> !r && *final(self) == *old(self),
            index < old(self).items@.len() && old(self).items@[index as int].status
                == ReviewStatus::Pending ==> r && final(self).items@ == old(self).items@.update(
                index as int,
                ReviewItem {
                    candidate: old(self).items@[index as int].candidate,
                    status: ReviewStatus::Skipped,
                },
            ) && final(self).timeline == old(self).timeline && final(self).profile_label
                == old(self).profile_label && final(self).source_duration
                == old(self).source_duration && final(self).next_clip_id
                == old(self).next_clip_id && final(self).source_asset_id
                == old(self).source_asset_id,
    {
        if index >= self.items.len() {
            return false;
        }
        if self.items[index].status != ReviewStatus::Pending {
            return false;
        }
        let skipped = ReviewItem {
            candidate: self.items[index].candidate.clone(),
            status: ReviewStatus::Skipped,
        };
        self.items.set(index, skipped);
        true
    }

    /// The number of accepted suggestions.
    pub fn accepted_count(&self) -> (r: usize)
        ensures
            r == accepted_among(self.items@, self.items@.len() as int),
    {
        let mut count: usize = 0;
        let mut i: usize = 0;
        while i < self.items.len()
            invariant
                i <= self.items@.len(),
                count == accepted_among(self.items@, i as int),
                count <= i,
            decreases self.items@.len() - i,
        {
            if self.items[i].status == ReviewStatus::Accepted {
                count = count + 1;
            }
            i = i + 1;
        }
        count
    }
}

/// Accepting item `index` is refused outright: the index is out of range,
/// the item is already accepted, or its clip cannot be built.
pub open spec fn acceptance_refused(review: ClipReview, index: usize) -> bool {
    ||| index >= review.items@.len()
    ||| review.items@[index as int].status == ReviewStatus::Accepted
    ||| clip_refused(review.items@[index as int].candidate)
}

/// `after` is `before` once the review clip for item `index` was offered to
/// the main track (`main`), with timeline result `inserted` and answer `r`:
/// on success the clip id advances and the item is accepted; on failure the
/// timeline refused the clip and nothing else changed.
pub open spec fn accepted_with(
    before: ClipReview,
    after: ClipReview,
    index: usize,
    clip: Clip,
    main: int,
    inserted: Result<(), TimelineError>,
    r: bool,
) -> bool {
    &&& 0 <= main < before.timeline@.tracks.len()
    &&& is_main_at(before.timeline@.tracks, main)
    &&& review_clip(
        clip,
        before.next_clip_id,
        before.source_asset_id,
        before.items@[index as int].candidate,
    )
    &&& timeline_clip_inserted(
        before.timeline@,
        before.timeline@.tracks[main]@.id,
        clip,
        inserted,
        after.timeline@,
    )
    &&& r == inserted is Ok
    &&& after.profile_label == before.profile_label
    &&& after.source_duration == before.source_duration
    &&& after.source_asset_id == before.source_asset_id
    &&& r ==> {
        &&& after.next_clip_id == before.next_clip_id + 1
        &&& after.items@ == before.items@.update(
            index as int,
            ReviewItem {
                candidate: before.items@[index as int].candidate,
                status: ReviewStatus::Accepted,
            },
        )
    }
    &&& !r ==> {
        &&& after.next_clip_id == before.next_clip_id
        &&& after.items@ == before.items@
    }
}

} // verus!
