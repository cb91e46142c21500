use opencut::{
    generate_candidates, rank_selection, AspectRatio, AssetId, CandidateId, ClipCandidate,
    ClipProfile, ClipRequest, ClipReview, DurationRange, EvaluationKey, RationalTime,
    ReviewStatus, Timeline, TimelineId, TranscriptSegment,
};

fn seconds(value: i64) -> RationalTime {
    RationalTime::new(value, 1).unwrap()
}

fn candidate(id: u64, start: i64, end: i64) -> ClipCandidate {
    ClipCandidate {
        id: CandidateId::new(id),
        start: seconds(start),
        end: seconds(end),
        start_segment: 0,
        end_segment: 1,
        transcript: "A complete lesson.".into(),
        word_count: 3,
    }
}

fn review(candidates: Vec<ClipCandidate>) -> ClipReview {
    ClipReview::new(
        "TikTok 61s+".into(),
        seconds(3 * 60 * 60),
        candidates,
        Timeline::new(TimelineId(1), RationalTime::new(30, 1).unwrap()),
        AssetId(1),
    )
}

/// Key whose unsigned order is the total order of `f32` values.
fn score_key(value: f32) -> u32 {
    let bits = value.to_bits();
    if bits & 0x8000_0000 != 0 {
        !bits
    } else {
        bits | 0x8000_0000
    }
}

/// The desktop demo: a three-hour transcript and three scored candidates,
/// ranked with the default weights (0.3, 0.3, 0.2, 0.2).
fn demo() -> ClipReview {
    let transcript = (0..2_160)
        .map(|index| TranscriptSegment {
            start: seconds(index * 5),
            end: seconds(index * 5 + 5),
            text: format!(
                "At this point in the conversation, the speaker develops practical lesson {index}."
            ),
            speaker: Some("Host".into()),
        })
        .collect::<Vec<_>>();
    let request = ClipRequest {
        profile: ClipProfile {
            id: "tiktok-rewards".into(),
            label: "TikTok 61s+".into(),
            duration: DurationRange::new(seconds(61), seconds(65), seconds(75)).unwrap(),
            aspect_ratio: Some(AspectRatio {
                width: 9,
                height: 16,
            }),
            instructions: "Prioritize a clear hook and a complete payoff.".into(),
        },
        prompt: "Find practical lessons that stand alone for a new viewer.".into(),
        suggestion_limit: 3,
        candidate_limit: 300,
        max_overlap_percent: 35,
    };
    let candidates = generate_candidates(&transcript, &request).unwrap();
    let keys = [30usize, 150, 270]
        .into_iter()
        .enumerate()
        .map(|(index, candidate_index)| {
            let (hook, relevance, coherence, standalone) = (
                0.94 - index as f32 * 0.03,
                0.91 - index as f32 * 0.02,
                0.93f32,
                0.9 + index as f32 * 0.02,
            );
            let overall = (hook * 0.3 + relevance * 0.3 + coherence * 0.2 + standalone * 0.2)
                / (0.3 + 0.3 + 0.2 + 0.2);
            EvaluationKey {
                candidate_id: candidates[candidate_index].id,
                score_key: score_key(overall),
                invalid_score: None,
            }
        })
        .collect::<Vec<_>>();
    let picks = rank_selection(&candidates, &keys, &request).unwrap();
    ClipReview::new(
        request.profile.label.clone(),
        seconds(3 * 60 * 60),
        picks
            .into_iter()
            .map(|(_, candidate_index)| candidates[candidate_index].clone())
            .collect(),
        Timeline::new(TimelineId(1), RationalTime::new(30, 1).unwrap()),
        AssetId(1),
    )
}

#[test]
fn accepting_a_suggestion_updates_the_shared_timeline() {
    let mut review = demo();
    let duration = review.items[0].candidate.duration().unwrap();

    assert!(review.accept(0));
    assert_eq!(review.accepted_count(), 1);
    assert_eq!(review.timeline.duration(), duration);
    assert!(!review.accept(0));
}

#[test]
fn demo_review_lists_the_three_suggestions_best_first() {
    let review = demo();
    assert_eq!(review.items.len(), 3);
    assert!(review.items[0].candidate.id.raw() < review.items[1].candidate.id.raw());
    assert!(review.items[1].candidate.id.raw() < review.items[2].candidate.id.raw());
    assert!(review
        .items
        .iter()
        .all(|item| item.candidate.duration().unwrap() == seconds(65)));
    assert!(review
        .items
        .iter()
        .all(|item| item.status == ReviewStatus::Pending));
    assert_eq!(review.next_clip_id, 1);
    assert_eq!(review.accepted_count(), 0);
}

#[test]
fn accepted_clips_play_the_candidate_range_in_order() {
    let mut review = review(vec![candidate(30, 150, 215), candidate(150, 750, 813)]);
    assert!(review.accept(1));
    assert!(review.accept(0));
    let main = review.timeline.main_track_id();
    let clips = review.timeline.track(main).unwrap().clips();
    assert_eq!(clips.len(), 2);
    assert_eq!(clips[0].id.0, 1);
    assert_eq!(clips[0].duration(), seconds(63));
    assert_eq!(clips[1].id.0, 2);
    assert_eq!(clips[1].duration(), seconds(65));
    assert_eq!(review.timeline.duration(), seconds(128));
    assert_eq!(review.accepted_count(), 2);
}

#[test]
fn skipping_only_changes_pending_items() {
    let mut review = review(vec![candidate(1, 0, 61), candidate(2, 61, 122)]);
    assert!(review.skip(1));
    assert_eq!(review.items[1].status, ReviewStatus::Skipped);
    assert!(!review.skip(1));
    assert!(!review.skip(7));
    assert_eq!(review.timeline.duration(), seconds(0));
    // A skipped suggestion can still be accepted; an accepted one cannot be skipped.
    assert!(review.accept(1));
    assert_eq!(review.items[1].status, ReviewStatus::Accepted);
    assert!(!review.skip(1));
    assert_eq!(review.items[0].status, ReviewStatus::Pending);
}

#[test]
fn unusable_suggestions_are_refused_without_changes() {
    let mut review = review(vec![candidate(1, -5, 10), candidate(2, 10, 10)]);
    assert!(!review.accept(0));
    assert!(!review.accept(1));
    assert!(!review.accept(2));
    assert_eq!(review.accepted_count(), 0);
    assert_eq!(review.next_clip_id, 1);
    assert_eq!(review.timeline.duration(), seconds(0));
}

#[test]
fn reviews_may_hold_candidates_whose_length_overflows() {
    let mut huge = candidate(9, 0, 1);
    huge.start = RationalTime::new(1, i64::MAX).unwrap();
    huge.end = RationalTime::new(1, i64::MAX - 1).unwrap();
    assert!(huge.duration().is_err());
    let mut review = review(vec![candidate(1, 0, 61), huge]);
    assert!(review.accept(0));
    assert_eq!(review.accepted_count(), 1);
    assert_eq!(review.items[1].status, ReviewStatus::Pending);
}
