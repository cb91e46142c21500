use opencut::{
    default_batch_candidate_limit, default_batch_char_limit, default_candidate_limit,
    default_overlap_percent, default_suggestion_limit, millis_to_rational, prepare_discovery,
    rational_to_millis, session_id, validate_start_limits, AspectRatio, CandidateId,
    ClipCandidate, ClipFinderError, ClipProfileInput, DiscoveryError, EvaluationText,
    RationalTime, ScoringRubric, ServerState, StartClipDiscoveryParams,
    TranscriptSegment,
};

fn params() -> StartClipDiscoveryParams {
    StartClipDiscoveryParams {
        transcript_path: "transcript.json".into(),
        prompt: "Find practical lessons with a strong hook".into(),
        profile: ClipProfileInput {
            id: "quick-reel".into(),
            label: "Quick Reel".into(),
            min_duration_ms: 10_000,
            target_duration_ms: 15_000,
            max_duration_ms: 20_000,
            aspect_width: Some(9),
            aspect_height: Some(16),
            instructions: "Prefer a complete payoff.".into(),
        },
        suggestion_limit: 2,
        candidate_limit: 10,
        max_overlap_percent: 35,
        batch_candidate_limit: 2,
        batch_transcript_char_limit: 10_000,
    }
}

fn transcript() -> Vec<TranscriptSegment> {
    (0..8)
        .map(|index| TranscriptSegment {
            start: millis_to_rational(index * 5_000).unwrap(),
            end: millis_to_rational(index * 5_000 + 5_000).unwrap(),
            text: format!("Practical lesson number {index} lands clearly."),
            speaker: Some("Host".into()),
        })
        .collect()
}

fn started(state: &mut ServerState<f32>) -> String {
    let prepared = prepare_discovery(&params(), &transcript()).unwrap();
    state
        .start("/data/transcript.json".into(), prepared)
        .unwrap()
        .session_id
}

#[test]
fn discovery_session_scores_every_batch_then_finalizes() {
    let mut state: ServerState<f32> = ServerState::new();
    let prepared = prepare_discovery(&params(), &transcript()).unwrap();
    let output = state.start("/data/transcript.json".into(), prepared).unwrap();
    assert_eq!(output.session_id, "clip-discovery-1");
    assert_eq!(output.source_transcript, "/data/transcript.json");
    assert_eq!(output.source_duration_ms, 40_000);
    // Windows of three 5 s segments start at segments 0..=5; the window at
    // segment 6 only reaches 10 s, and segment 7 alone is too short.
    assert_eq!(output.candidate_count, 7);
    assert_eq!(output.batch_count, 4);
    assert_eq!(output.suggestion_limit, 2);

    let mut seen = Vec::new();
    for batch_index in 0..output.batch_count {
        let batch = state
            .active_session(&output.session_id)
            .unwrap()
            .candidate_batch(batch_index)
            .unwrap();
        assert_eq!(batch.batch_count, 4);
        assert_eq!(batch.prompt, "Find practical lessons with a strong hook");
        assert_eq!(batch.profile_label, "Quick Reel");
        assert_eq!(batch.profile_instructions, "Prefer a complete payoff.");
        let inputs = batch
            .candidates
            .iter()
            .map(|candidate| {
                seen.push(candidate.candidate_id);
                (candidate.candidate_id, Ok(0.8))
            })
            .collect();
        let submitted = state.submit_evaluations(&output.session_id, inputs).unwrap();
        assert_eq!(submitted.evaluated_count, seen.len());
        assert_eq!(submitted.remaining_count, 7 - seen.len());
        assert_eq!(submitted.ready_to_finalize, seen.len() == 7);
    }
    assert_eq!(seen, vec![0, 1, 2, 3, 4, 5, 6]);

    let session = state.active_session(&output.session_id).unwrap();
    let status = session.status();
    assert!(status.ready_to_finalize);
    assert!(status.unevaluated_batch_indexes.is_empty());
    let plan = session.finalize_plan(false).unwrap();
    assert_eq!(plan.remaining_count, 0);
    assert_eq!(plan.evaluation_order, vec![0, 1, 2, 3, 4, 5, 6]);
}

#[test]
fn incomplete_and_duplicate_evaluations_are_safe() {
    let mut state: ServerState<f32> = ServerState::new();
    let id = started(&mut state);
    let batch = state
        .active_session(&id)
        .unwrap()
        .candidate_batch(0)
        .unwrap();
    let candidate_id = batch.candidates[0].candidate_id;
    state
        .submit_evaluations(&id, vec![(candidate_id, Ok(0.9))])
        .unwrap();
    let duplicate = state
        .submit_evaluations(&id, vec![(candidate_id, Ok(0.7))])
        .err()
        .expect("duplicate evaluation must fail");
    assert_eq!(duplicate, DiscoveryError::AlreadyEvaluated(candidate_id));

    let incomplete = state
        .active_session(&id)
        .unwrap()
        .finalize_plan(false)
        .err()
        .expect("incomplete finalization must fail");
    assert_eq!(incomplete, DiscoveryError::Unevaluated(6));
}

#[test]
fn repeated_batch_requests_return_the_same_candidates() {
    let mut state: ServerState<f32> = ServerState::new();
    let id = started(&mut state);
    let first = state.active_session(&id).unwrap().candidate_batch(1).unwrap();
    let again = state.active_session(&id).unwrap().candidate_batch(1).unwrap();
    assert_eq!(first, again);
    assert_eq!(first.candidates.len(), 2);
    assert_eq!(first.candidates[0].candidate_id, 2);
    assert_eq!(first.candidates[0].start_ms, 10_000);
    assert_eq!(first.candidates[0].end_ms, 25_000);
    assert_eq!(first.candidates[0].duration_ms, 15_000);
    assert!(!first.candidates[0].already_evaluated);

    state.submit_evaluations(&id, vec![(2, Ok(0.5))]).unwrap();
    let after = state.active_session(&id).unwrap().candidate_batch(1).unwrap();
    assert!(after.candidates[0].already_evaluated);
    assert!(!after.candidates[1].already_evaluated);
    assert_eq!(after.candidates[0].transcript, first.candidates[0].transcript);
}

#[test]
fn batch_index_out_of_range_names_the_batch_count() {
    let mut state: ServerState<f32> = ServerState::new();
    let id = started(&mut state);
    assert_eq!(
        state.active_session(&id).unwrap().candidate_batch(4),
        Err(DiscoveryError::BatchOutOfRange { index: 4, count: 4 })
    );
}

#[test]
fn rubric_describes_each_score() {
    let rubric = ScoringRubric::default();
    assert_eq!(rubric.hook, "0 to 1: strength of the opening in stopping a scroll");
    assert_eq!(
        rubric.relevance,
        "0 to 1: fit to the user's prompt and publishing profile"
    );
    assert_eq!(rubric.coherence, "0 to 1: completeness and clarity of the idea");
    assert_eq!(
        rubric.standalone,
        "0 to 1: how well it works without surrounding context"
    );
}

#[test]
fn submissions_are_atomic() {
    let mut state: ServerState<f32> = ServerState::new();
    let id = started(&mut state);
    let refused = state.submit_evaluations(
        &id,
        vec![(0, Ok(0.9)), (1, Ok(0.8)), (99, Ok(0.7)), (2, Ok(0.6))],
    );
    assert_eq!(refused, Err(DiscoveryError::UnknownCandidate(99)));
    let status = state.active_session(&id).unwrap().status();
    assert_eq!(status.evaluated_count, 0);
    assert_eq!(status.unevaluated_batch_indexes, vec![0, 1, 2, 3]);

    let repeated = state.submit_evaluations(&id, vec![(0, Ok(0.9)), (0, Ok(0.8))]);
    assert_eq!(repeated, Err(DiscoveryError::RepeatedInSubmission(0)));

    let invalid = state.submit_evaluations(
        &id,
        vec![
            (0, Ok(0.9)),
            (
                1,
                Err(DiscoveryError::InvalidScore {
                    candidate_id: 1,
                    field: "hook",
                }),
            ),
        ],
    );
    assert_eq!(
        invalid,
        Err(DiscoveryError::InvalidScore {
            candidate_id: 1,
            field: "hook"
        })
    );
    assert_eq!(
        state.submit_evaluations(&id, Vec::new()),
        Err(DiscoveryError::EmptySubmission)
    );
    assert_eq!(
        state.active_session(&id).unwrap().status().evaluated_count,
        0
    );
}

#[test]
fn status_lists_batches_with_unevaluated_candidates() {
    let mut state: ServerState<f32> = ServerState::new();
    let id = started(&mut state);
    state
        .submit_evaluations(&id, vec![(0, Ok(0.1)), (1, Ok(0.2)), (4, Ok(0.3))])
        .unwrap();
    let status = state.active_session(&id).unwrap().status();
    assert_eq!(status.candidate_count, 7);
    assert_eq!(status.evaluated_count, 3);
    assert_eq!(status.remaining_count, 4);
    assert_eq!(status.batch_count, 4);
    assert_eq!(status.unevaluated_batch_indexes, vec![1, 2, 3]);
    assert!(!status.ready_to_finalize);
    assert_eq!(status.source_transcript, "/data/transcript.json");
}

#[test]
fn partial_finalization_orders_evaluations_by_candidate() {
    let mut state: ServerState<f32> = ServerState::new();
    let id = started(&mut state);
    assert_eq!(
        state.active_session(&id).unwrap().finalize_plan(true).err(),
        Some(DiscoveryError::NoEvaluations)
    );
    state
        .submit_evaluations(&id, vec![(5, Ok(0.1)), (2, Ok(0.2))])
        .unwrap();
    let plan = state
        .active_session(&id)
        .unwrap()
        .finalize_plan(true)
        .unwrap();
    assert_eq!(plan.remaining_count, 5);
    // Candidate 2 comes before candidate 5, whose evaluation was stored first.
    assert_eq!(plan.evaluation_order, vec![1, 0]);
}

#[test]
fn starting_again_replaces_the_active_session() {
    let mut state: ServerState<f32> = ServerState::new();
    assert_eq!(
        state.active_session("clip-discovery-1").err(),
        Some(DiscoveryError::NoActiveSession)
    );
    let first = started(&mut state);
    let second = started(&mut state);
    assert_eq!(first, "clip-discovery-1");
    assert_eq!(second, "clip-discovery-2");
    assert_eq!(
        state.active_session(&first).err(),
        Some(DiscoveryError::InactiveSession {
            active: "clip-discovery-2".into()
        })
    );
    assert_eq!(
        state.submit_evaluations(&first, vec![(0, Ok(0.5))]),
        Err(DiscoveryError::InactiveSession {
            active: "clip-discovery-2".into()
        })
    );
}

#[test]
fn session_ids_count_in_decimal() {
    assert_eq!(session_id(1), "clip-discovery-1");
    assert_eq!(session_id(10), "clip-discovery-10");
    assert_eq!(session_id(907), "clip-discovery-907");
    assert_eq!(
        session_id(u64::MAX),
        "clip-discovery-18446744073709551615"
    );
}

#[test]
fn start_limits_are_checked_in_order() {
    assert_eq!(validate_start_limits(&params()), Ok(()));
    let mut blank = params();
    blank.prompt = "  \n".into();
    blank.suggestion_limit = 0;
    assert_eq!(validate_start_limits(&blank), Err(DiscoveryError::EmptyPrompt));
    let mut many = params();
    many.suggestion_limit = 101;
    assert_eq!(
        validate_start_limits(&many),
        Err(DiscoveryError::SuggestionLimitOutOfRange)
    );
    let mut candidates = params();
    candidates.candidate_limit = 2_001;
    assert_eq!(
        validate_start_limits(&candidates),
        Err(DiscoveryError::CandidateLimitOutOfRange)
    );
    let mut batch = params();
    batch.batch_candidate_limit = 0;
    assert_eq!(
        validate_start_limits(&batch),
        Err(DiscoveryError::BatchCandidateLimitOutOfRange)
    );
    let mut chars = params();
    chars.batch_transcript_char_limit = 250_001;
    assert_eq!(
        validate_start_limits(&chars),
        Err(DiscoveryError::BatchCharLimitOutOfRange)
    );
    let mut largest = params();
    largest.suggestion_limit = 100;
    largest.candidate_limit = 2_000;
    largest.batch_candidate_limit = 100;
    largest.batch_transcript_char_limit = 250_000;
    assert_eq!(validate_start_limits(&largest), Ok(()));
}

#[test]
fn requests_trim_texts_and_convert_milliseconds() {
    let mut input = params();
    input.prompt = "  Find lessons  ".into();
    input.profile.id = " quick-reel ".into();
    input.profile.label = "\tQuick Reel\n".into();
    input.profile.instructions = " Prefer a payoff. ".into();
    input.profile.min_duration_ms = 1_500;
    let request = input.to_request().unwrap();
    assert_eq!(request.prompt, "Find lessons");
    assert_eq!(request.profile.id, "quick-reel");
    assert_eq!(request.profile.label, "Quick Reel");
    assert_eq!(request.profile.instructions, "Prefer a payoff.");
    assert_eq!(request.profile.duration.min, RationalTime::new(3, 2).unwrap());
    assert_eq!(request.profile.duration.target, RationalTime::new(15, 1).unwrap());
    assert_eq!(
        request.profile.aspect_ratio,
        Some(AspectRatio {
            width: 9,
            height: 16
        })
    );
    assert_eq!(request.suggestion_limit, 2);
    assert_eq!(request.max_overlap_percent, 35);
}

#[test]
fn request_problems_are_reported() {
    let mut one_side = params();
    one_side.profile.aspect_height = None;
    assert_eq!(one_side.to_request(), Err(DiscoveryError::AspectRatioMismatch));
    let mut zero_side = params();
    zero_side.profile.aspect_width = Some(0);
    assert_eq!(zero_side.to_request(), Err(DiscoveryError::AspectRatioMismatch));
    let mut no_aspect = params();
    no_aspect.profile.aspect_width = None;
    no_aspect.profile.aspect_height = None;
    assert_eq!(no_aspect.to_request().unwrap().profile.aspect_ratio, None);
    let mut inverted = params();
    inverted.profile.max_duration_ms = 12_000;
    assert_eq!(
        inverted.to_request(),
        Err(DiscoveryError::Finder(ClipFinderError::InvalidDurationRange))
    );
    let mut blank_id = params();
    blank_id.profile.id = "   ".into();
    assert_eq!(
        blank_id.to_request(),
        Err(DiscoveryError::Finder(ClipFinderError::InvalidProfile))
    );
    let mut overlap = params();
    overlap.max_overlap_percent = 101;
    assert_eq!(
        overlap.to_request(),
        Err(DiscoveryError::Finder(ClipFinderError::InvalidOverlapPercent))
    );
}

#[test]
fn preparing_needs_segments_and_fitting_candidates() {
    assert_eq!(
        prepare_discovery(&params(), &Vec::new()).err(),
        Some(DiscoveryError::NoSegments)
    );
    let mut short = params();
    short.profile.min_duration_ms = 60_000;
    short.profile.target_duration_ms = 61_000;
    short.profile.max_duration_ms = 62_000;
    assert_eq!(
        prepare_discovery(&short, &transcript()).err(),
        Some(DiscoveryError::NoCandidates)
    );
    let mut blank = params();
    blank.prompt = String::new();
    assert_eq!(
        prepare_discovery(&blank, &Vec::new()).err(),
        Some(DiscoveryError::EmptyPrompt)
    );
    let mut empty_text = transcript();
    empty_text[3].text = " ".into();
    assert_eq!(
        prepare_discovery(&params(), &empty_text).err(),
        Some(DiscoveryError::Finder(ClipFinderError::EmptySegmentText {
            index: 3
        }))
    );
    let prepared = prepare_discovery(&params(), &transcript()).unwrap();
    assert_eq!(prepared.source_duration, RationalTime::new(40, 1).unwrap());
    assert_eq!(prepared.candidates.len(), 7);
    assert_eq!(prepared.batches.len(), 4);
}

#[test]
fn milliseconds_round_trip_exactly() {
    let time = millis_to_rational(1_500).unwrap();
    assert_eq!(time, RationalTime::new(3, 2).unwrap());
    assert_eq!(rational_to_millis(time), Ok(1_500));
    assert_eq!(
        rational_to_millis(millis_to_rational(-2_250).unwrap()),
        Ok(-2_250)
    );
    assert_eq!(
        rational_to_millis(millis_to_rational(i64::MIN).unwrap()),
        Ok(i64::MIN)
    );
    assert_eq!(
        rational_to_millis(RationalTime::new(1, 3).unwrap()),
        Err(DiscoveryError::NotWholeMillis)
    );
    assert_eq!(
        rational_to_millis(RationalTime::new(i64::MAX, 1).unwrap()),
        Err(DiscoveryError::MillisOverflow)
    );
    assert_eq!(
        rational_to_millis(RationalTime::new(-i64::MAX / 100, 1).unwrap()),
        Err(DiscoveryError::MillisOverflow)
    );
}

#[test]
fn candidate_views_need_millisecond_times() {
    let candidate = ClipCandidate {
        id: CandidateId::new(3),
        start: RationalTime::new(1, 3).unwrap(),
        end: RationalTime::new(2, 1).unwrap(),
        start_segment: 0,
        end_segment: 1,
        transcript: "Hi.".into(),
        word_count: 1,
    };
    assert_eq!(
        opencut::CandidateView::from_candidate(&candidate, false),
        Err(DiscoveryError::NotWholeMillis)
    );
    let overflowing = ClipCandidate {
        start: RationalTime::new(i64::MIN, 1).unwrap(),
        end: RationalTime::new(i64::MAX, 1).unwrap(),
        ..candidate.clone()
    };
    assert_eq!(
        opencut::CandidateView::from_candidate(&overflowing, false),
        Err(DiscoveryError::MillisOverflow)
    );
    let whole = ClipCandidate {
        start: RationalTime::new(1, 4).unwrap(),
        ..candidate
    };
    let view = opencut::CandidateView::from_candidate(&whole, true).unwrap();
    assert_eq!(view.candidate_id, 3);
    assert_eq!(view.start_ms, 250);
    assert_eq!(view.end_ms, 2_000);
    assert_eq!(view.duration_ms, 1_750);
    assert_eq!(view.word_count, 1);
    assert!(view.already_evaluated);
}

#[test]
fn evaluation_texts_are_trimmed_and_bounded() {
    let keywords = vec![" lesson ".to_string(), "business".to_string()];
    let text = EvaluationText::validate(7, "  Lesson 7 ", " A clear hook. ", &keywords).unwrap();
    assert_eq!(text.title, "Lesson 7");
    assert_eq!(text.reason, "A clear hook.");
    assert_eq!(text.keywords, vec!["lesson".to_string(), "business".to_string()]);

    assert_eq!(
        EvaluationText::validate(7, "   ", "Reason", &keywords),
        Err(DiscoveryError::InvalidTitle(7))
    );
    let long_title = "x".repeat(121);
    assert_eq!(
        EvaluationText::validate(7, &long_title, "Reason", &keywords),
        Err(DiscoveryError::InvalidTitle(7))
    );
    assert!(EvaluationText::validate(7, &"x".repeat(120), "Reason", &keywords).is_ok());
    assert_eq!(
        EvaluationText::validate(7, "Title", &"y".repeat(501), &keywords),
        Err(DiscoveryError::InvalidReason(7))
    );
    let too_many = vec!["k".to_string(); 13];
    assert_eq!(
        EvaluationText::validate(7, "Title", "Reason", &too_many),
        Err(DiscoveryError::InvalidKeywords(7))
    );
    let blank = vec!["ok".to_string(), " ".to_string()];
    assert_eq!(
        EvaluationText::validate(7, "Title", "Reason", &blank),
        Err(DiscoveryError::InvalidKeywords(7))
    );
    let long_keyword = vec![format!(" {} ", "z".repeat(79))];
    assert_eq!(
        EvaluationText::validate(7, "Title", "Reason", &long_keyword),
        Err(DiscoveryError::InvalidKeywords(7))
    );
}

#[test]
fn defaults_match_the_documented_values() {
    assert_eq!(default_suggestion_limit(), 8);
    assert_eq!(default_candidate_limit(), 300);
    assert_eq!(default_overlap_percent(), 35);
    assert_eq!(default_batch_candidate_limit(), 20);
    assert_eq!(default_batch_char_limit(), 40_000);
}
