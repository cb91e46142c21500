use opencut::{
    batch_candidates, generate_candidates, rank_selection, AspectRatio, AssetId, CandidateId,
    Clip, ClipCandidate, ClipFinderError, ClipId, ClipKind, ClipProfile, ClipRequest,
    DurationRange, EvaluationKey, RationalTime, TimeError, Timeline, TimelineId,
    TranscriptSegment, VideoClip,
};

fn seconds(value: i64) -> RationalTime {
    RationalTime::new(value, 1).unwrap()
}

fn segment(start: i64, end: i64, text: &str) -> TranscriptSegment {
    TranscriptSegment {
        start: seconds(start),
        end: seconds(end),
        text: text.into(),
        speaker: None,
    }
}

fn request(min: i64, target: i64, max: i64, candidate_limit: usize) -> ClipRequest {
    ClipRequest {
        profile: ClipProfile {
            id: "custom".into(),
            label: "Custom".into(),
            duration: DurationRange::new(seconds(min), seconds(target), seconds(max)).unwrap(),
            aspect_ratio: Some(AspectRatio {
                width: 9,
                height: 16,
            }),
            instructions: String::new(),
        },
        prompt: String::new(),
        suggestion_limit: 5,
        candidate_limit,
        max_overlap_percent: 50,
    }
}

/// Key whose unsigned order is the total order of `f32` values.
fn score_key(value: f32) -> u32 {
    let bits = value.to_bits();
    if bits & 0x8000_0000 != 0 {
        !bits
    } else {
        bits | 0x8000_0000
    }
}

/// The default-weighted overall score (0.3, 0.3, 0.2, 0.2) of four scores.
fn overall(hook: f32, relevance: f32, coherence: f32, standalone: f32) -> f32 {
    (hook * 0.3 + relevance * 0.3 + coherence * 0.2 + standalone * 0.2) / (0.3 + 0.3 + 0.2 + 0.2)
}

#[test]
fn windows_align_to_segments_and_prefer_complete_thoughts() {
    let transcript = vec![
        segment(0, 5, "Here is the setup"),
        segment(5, 10, "and an incomplete idea"),
        segment(10, 16, "that now lands."),
        segment(16, 22, "A new thought begins."),
    ];

    let candidates = generate_candidates(&transcript, &request(10, 15, 18, 20)).unwrap();
    let first = &candidates[0];
    assert_eq!(first.start, seconds(0));
    assert_eq!(first.end, seconds(16));
    assert_eq!(first.start_segment, 0);
    assert_eq!(first.end_segment, 3);
    assert_eq!(
        first.transcript,
        "Here is the setup and an incomplete idea that now lands."
    );
}

#[test]
fn rejects_overlapping_segments() {
    let transcript = vec![segment(0, 5, "First."), segment(4, 8, "Second.")];
    assert_eq!(
        generate_candidates(&transcript, &request(3, 4, 8, 20)),
        Err(ClipFinderError::SegmentsOutOfOrder { index: 1 })
    );
}

#[test]
fn evenly_samples_a_three_hour_transcript() {
    let transcript = (0..2_160)
        .map(|index| {
            let start = index * 5;
            segment(start, start + 5, &format!("Segment {index}."))
        })
        .collect::<Vec<_>>();

    let candidates = generate_candidates(&transcript, &request(55, 61, 67, 300)).unwrap();
    assert_eq!(candidates.len(), 300);
    assert_eq!(candidates.first().unwrap().start, seconds(0));
    assert!(seconds(10_700).lt(&candidates.last().unwrap().start));
    let range = request(55, 61, 67, 300).profile.duration;
    assert!(candidates.iter().all(|candidate| {
        let duration = candidate.duration().unwrap();
        !duration.lt(&range.min) && !range.max.lt(&duration)
    }));
}

#[test]
fn batches_by_count_and_character_budget_without_truncating() {
    let transcript = (0..8)
        .map(|index| segment(index * 5, index * 5 + 5, "12345"))
        .collect::<Vec<_>>();
    let candidates = generate_candidates(&transcript, &request(5, 5, 5, 20)).unwrap();
    let batches = batch_candidates(&candidates, 3, 11).unwrap();

    assert_eq!(batches.len(), 4);
    assert!(batches.iter().all(|batch| batch.candidates.len() <= 2));
    assert_eq!(
        batches
            .iter()
            .map(|batch| batch.candidates.len())
            .sum::<usize>(),
        candidates.len()
    );
}

#[test]
fn transcript_problems_are_reported_by_index() {
    let req = request(3, 4, 8, 20);
    assert_eq!(generate_candidates(&[], &req), Err(ClipFinderError::EmptyTranscript));
    assert_eq!(
        generate_candidates(&[segment(0, 5, "One."), segment(5, 9, " \t ")], &req),
        Err(ClipFinderError::EmptySegmentText { index: 1 })
    );
    assert_eq!(
        generate_candidates(&[segment(-1, 5, "One.")], &req),
        Err(ClipFinderError::NegativeSegmentTime { index: 0 })
    );
    assert_eq!(
        generate_candidates(&[segment(3, 3, "One.")], &req),
        Err(ClipFinderError::InvalidSegmentDuration { index: 0 })
    );
}

#[test]
fn request_problems_come_first() {
    let transcript = vec![segment(0, 5, "One.")];
    let mut req = request(3, 4, 8, 20);
    req.profile.label = "   ".into();
    assert_eq!(generate_candidates(&transcript, &req), Err(ClipFinderError::InvalidProfile));
    let mut req = request(3, 4, 8, 0);
    assert_eq!(generate_candidates(&transcript, &req), Err(ClipFinderError::InvalidRequestLimit));
    req.candidate_limit = 1;
    req.max_overlap_percent = 101;
    assert_eq!(generate_candidates(&transcript, &req), Err(ClipFinderError::InvalidOverlapPercent));
    assert_eq!(
        DurationRange::new(seconds(5), seconds(4), seconds(8)),
        Err(ClipFinderError::InvalidDurationRange)
    );
    assert_eq!(
        DurationRange::new(seconds(0), seconds(4), seconds(8)),
        Err(ClipFinderError::InvalidDurationRange)
    );
}

#[test]
fn candidates_carry_words_and_ids() {
    let transcript = vec![segment(0, 5, "  two   words "), segment(5, 10, "and three more.")];
    let candidates = generate_candidates(&transcript, &request(5, 10, 10, 20)).unwrap();
    assert_eq!(candidates.len(), 2);
    assert_eq!(candidates[0].id, CandidateId::new(0));
    assert_eq!(candidates[0].transcript, "two   words and three more.");
    assert_eq!(candidates[0].word_count, 5);
    assert_eq!(candidates[1].id.raw(), 1);
    assert_eq!(candidates[1].word_count, 3);
}

#[test]
fn single_sample_takes_the_middle_window() {
    let transcript = (0..5)
        .map(|index| segment(index * 5, index * 5 + 5, "Words."))
        .collect::<Vec<_>>();
    let candidates = generate_candidates(&transcript, &request(5, 5, 5, 1)).unwrap();
    assert_eq!(candidates.len(), 1);
    assert_eq!(candidates[0].start_segment, 2);
}

#[test]
fn batch_limits_must_be_positive_and_large_candidates_stay_whole() {
    let transcript = vec![segment(0, 5, "0123456789"), segment(5, 10, "abc")];
    let candidates = generate_candidates(&transcript, &request(5, 5, 5, 20)).unwrap();
    assert_eq!(batch_candidates(&candidates, 0, 10), Err(ClipFinderError::InvalidBatchLimit));
    assert_eq!(batch_candidates(&candidates, 3, 0), Err(ClipFinderError::InvalidBatchLimit));
    let batches = batch_candidates(&candidates, 3, 4).unwrap();
    assert_eq!(batches.len(), 2);
    assert_eq!(batches[0].transcript_chars, 10);
    assert_eq!(batches[0].candidates[0].transcript, "0123456789");
    assert_eq!(batches[1].transcript_chars, 3);
}

fn ranking_request() -> ClipRequest {
    ClipRequest {
        profile: ClipProfile {
            id: "short".into(),
            label: "Short".into(),
            duration: DurationRange::new(seconds(10), seconds(10), seconds(10)).unwrap(),
            aspect_ratio: Some(AspectRatio {
                width: 9,
                height: 16,
            }),
            instructions: String::new(),
        },
        prompt: "Find concise product lessons".into(),
        suggestion_limit: 3,
        candidate_limit: 20,
        max_overlap_percent: 40,
    }
}

fn ranking_candidates() -> Vec<ClipCandidate> {
    let transcript = (0..5)
        .map(|index| TranscriptSegment {
            start: seconds(index * 5),
            end: seconds(index * 5 + 5),
            text: format!("Thought {index}."),
            speaker: None,
        })
        .collect::<Vec<_>>();
    generate_candidates(&transcript, &ranking_request()).unwrap()
}

fn key(candidate_id: CandidateId, score: f32) -> EvaluationKey {
    EvaluationKey {
        candidate_id,
        score_key: score_key(overall(score, score, score, score)),
        invalid_score: None,
    }
}

#[test]
fn ranking_filters_highly_overlapping_candidates() {
    let candidates = ranking_candidates();
    let evaluations = candidates
        .iter()
        .enumerate()
        .map(|(index, candidate)| key(candidate.id, 1.0 - index as f32 * 0.1))
        .collect::<Vec<_>>();

    let ranked = rank_selection(&candidates, &evaluations, &ranking_request()).unwrap();

    assert_eq!(ranked.len(), 2);
    assert_eq!(candidates[ranked[0].1].id, CandidateId::new(0));
    assert_eq!(candidates[ranked[1].1].id, CandidateId::new(2));
}

#[test]
fn rejects_unknown_and_duplicate_evaluations() {
    let candidates = ranking_candidates();
    let unknown = key(CandidateId::new(99), 0.5);
    assert_eq!(
        rank_selection(&candidates, &[unknown], &ranking_request()),
        Err(ClipFinderError::UnknownCandidate(CandidateId::new(99)))
    );

    let duplicate = key(candidates[0].id, 0.5);
    assert_eq!(
        rank_selection(&candidates, &[duplicate, duplicate], &ranking_request()),
        Err(ClipFinderError::DuplicateEvaluation(candidates[0].id))
    );
}

#[test]
fn invalid_scores_are_reported_after_identity_checks() {
    let candidates = ranking_candidates();
    let mut bad = key(candidates[1].id, 0.5);
    bad.invalid_score = Some("coherence");
    assert_eq!(
        rank_selection(&candidates, &[key(candidates[0].id, 0.2), bad], &ranking_request()),
        Err(ClipFinderError::InvalidEvaluationScore {
            candidate_id: candidates[1].id,
            field: "coherence"
        })
    );
}

#[test]
fn equal_scores_rank_by_candidate_id() {
    let candidates = ranking_candidates();
    let evaluations = vec![key(candidates[2].id, 0.5), key(candidates[0].id, 0.5)];
    let ranked = rank_selection(&candidates, &evaluations, &ranking_request()).unwrap();
    assert_eq!(ranked, vec![(1, 0), (0, 2)]);
}

#[test]
fn overlap_arithmetic_failure_is_reported() {
    let huge = RationalTime::new(i64::MAX, 1).unwrap();
    let tiny = RationalTime::new(1, 3).unwrap();
    let candidates = vec![
        ClipCandidate {
            id: CandidateId::new(0),
            start: RationalTime::new(0, 1).unwrap(),
            end: huge,
            start_segment: 0,
            end_segment: 1,
            transcript: "a".into(),
            word_count: 1,
        },
        ClipCandidate {
            id: CandidateId::new(1),
            start: tiny,
            end: huge,
            start_segment: 0,
            end_segment: 1,
            transcript: "b".into(),
            word_count: 1,
        },
    ];
    let evaluations = vec![key(CandidateId::new(0), 0.9), key(CandidateId::new(1), 0.8)];
    assert_eq!(
        rank_selection(&candidates, &evaluations, &ranking_request()),
        Err(ClipFinderError::Time(TimeError::Overflow))
    );
}

#[test]
fn accepted_suggestion_becomes_an_exact_source_range_clip() {
    let transcript = (0..20)
        .map(|index| TranscriptSegment {
            start: seconds(index * 5),
            end: seconds(index * 5 + 5),
            text: format!("Transcript segment {index}."),
            speaker: None,
        })
        .collect::<Vec<_>>();
    let request = ClipRequest {
        profile: ClipProfile {
            id: "one-minute".into(),
            label: "One minute".into(),
            duration: DurationRange::new(seconds(60), seconds(65), seconds(70)).unwrap(),
            aspect_ratio: None,
            instructions: String::new(),
        },
        prompt: "Find a complete lesson".into(),
        suggestion_limit: 1,
        candidate_limit: 50,
        max_overlap_percent: 50,
    };
    let candidates = generate_candidates(&transcript, &request).unwrap();
    let chosen = &candidates[3];
    let picks = rank_selection(
        &candidates,
        &[EvaluationKey {
            candidate_id: chosen.id,
            score_key: score_key(overall(0.9, 0.95, 0.9, 0.85)),
            invalid_score: None,
        }],
        &request,
    )
    .unwrap();
    let accepted = &candidates[picks[0].1];

    let video = VideoClip::new(AssetId(7), accepted.start).unwrap();
    let clip = Clip::flow(
        ClipId(1),
        ClipKind::Video(video),
        accepted.duration().unwrap(),
    )
    .unwrap();
    let mut timeline = Timeline::new(TimelineId(1), RationalTime::new(30, 1).unwrap());
    let main_track = timeline.main_track_id();
    timeline.insert_clip(main_track, clip).unwrap();

    let inserted = timeline.track(main_track).unwrap().clips().first().unwrap();
    let ClipKind::Video(inserted_video) = &inserted.kind else {
        panic!("accepted clip must stay a video clip");
    };
    assert_eq!(inserted_video.asset_id, AssetId(7));
    assert_eq!(inserted_video.source_start, accepted.start);
    assert_eq!(inserted.duration(), accepted.duration().unwrap());
    assert_eq!(timeline.duration(), accepted.duration().unwrap());
}
