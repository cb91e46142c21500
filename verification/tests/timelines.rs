use opencut::{Clip, ClipId, ClipKind, RationalTime, TextClip, Timeline, TimelineError, TimelineId, TrackRole, TrackType};

fn seconds(value: i64) -> RationalTime {
    RationalTime::new(value, 1).unwrap()
}

#[test]
fn creates_main_track_and_preserves_track_order() {
    let mut timeline = Timeline::new(TimelineId(1), RationalTime::new(30, 1).unwrap());
    timeline
        .create_track(TrackRole::Overlay, TrackType::Text)
        .unwrap();
    timeline
        .create_track(TrackRole::Audio, TrackType::Audio)
        .unwrap();

    assert_eq!(
        timeline
            .tracks()
            .iter()
            .map(|track| track.role)
            .collect::<Vec<_>>(),
        vec![TrackRole::Audio, TrackRole::Main, TrackRole::Overlay]
    );
    assert_eq!(
        timeline.create_track(TrackRole::Main, TrackType::Video),
        Err(TimelineError::DuplicateMainTrack)
    );
    assert_eq!(
        timeline.create_track(TrackRole::Audio, TrackType::Video),
        Err(TimelineError::TrackRoleTypeMismatch)
    );
}

#[test]
fn flow_track_positions_are_prefix_sums() {
    let mut timeline = Timeline::new(TimelineId(1), RationalTime::new(30, 1).unwrap());
    let main = timeline.main_track_id();
    timeline
        .insert_clip(
            main,
            Clip::flow(ClipId(1), ClipKind::Spacer, seconds(5)).unwrap(),
        )
        .unwrap();
    timeline
        .insert_clip(
            main,
            Clip::flow(ClipId(2), ClipKind::Spacer, seconds(7)).unwrap(),
        )
        .unwrap();

    let track = timeline.track(main).unwrap();
    assert_eq!(track.clip_at(seconds(4)).unwrap().id, ClipId(1));
    assert_eq!(track.clip_at(seconds(5)).unwrap().id, ClipId(2));
    assert_eq!(track.clip_at(seconds(12)), None);
    assert_eq!(timeline.duration(), seconds(12));
}

#[test]
fn fixed_tracks_reject_overlaps_and_drive_timeline_duration() {
    let mut timeline = Timeline::new(TimelineId(1), RationalTime::new(30, 1).unwrap());
    let overlay = timeline
        .create_track(TrackRole::Overlay, TrackType::Video)
        .unwrap();
    timeline
        .insert_clip(
            overlay,
            Clip::fixed(ClipId(1), ClipKind::Spacer, seconds(20), seconds(5)).unwrap(),
        )
        .unwrap();

    assert_eq!(
        timeline.insert_clip(
            overlay,
            Clip::fixed(ClipId(2), ClipKind::Spacer, seconds(24), seconds(3)).unwrap(),
        ),
        Err(TimelineError::ClipOverlap)
    );
    assert_eq!(timeline.duration(), seconds(25));
    assert_eq!(
        timeline
            .track(overlay)
            .unwrap()
            .clip_at(seconds(24))
            .unwrap()
            .id,
        ClipId(1)
    );
}

#[test]
fn layout_mismatch_is_rejected() {
    let mut timeline = Timeline::new(TimelineId(1), RationalTime::new(30, 1).unwrap());
    assert_eq!(
        timeline.insert_clip(
            timeline.main_track_id(),
            Clip::fixed(ClipId(1), ClipKind::Spacer, seconds(0), seconds(1)).unwrap(),
        ),
        Err(TimelineError::LayoutMismatch)
    );
}

#[test]
fn flow_duration_overflow_is_a_domain_error() {
    let mut timeline = Timeline::new(TimelineId(1), RationalTime::new(30, 1).unwrap());
    let main = timeline.main_track_id();
    timeline
        .insert_clip(
            main,
            Clip::flow(
                ClipId(1),
                ClipKind::Spacer,
                RationalTime::new(i64::MAX, 1).unwrap(),
            )
            .unwrap(),
        )
        .unwrap();
    assert_eq!(
        timeline.insert_clip(
            main,
            Clip::flow(ClipId(2), ClipKind::Spacer, seconds(1)).unwrap(),
        ),
        Err(TimelineError::TimeOverflow)
    );
}

#[test]
fn fixed_clips_are_kept_sorted_by_start() {
    let mut timeline = Timeline::new(TimelineId(1), seconds(30));
    let overlay = timeline.create_track(TrackRole::Overlay, TrackType::Video).unwrap();
    for (id, start) in [(1, 10), (2, 0), (3, 5)] {
        timeline
            .insert_clip(overlay, Clip::fixed(ClipId(id), ClipKind::Spacer, seconds(start), seconds(2)).unwrap())
            .unwrap();
    }
    let ids = timeline.track(overlay).unwrap().clips().iter().map(|clip| clip.id).collect::<Vec<_>>();
    assert_eq!(ids, vec![ClipId(2), ClipId(3), ClipId(1)]);
    assert_eq!(timeline.duration(), seconds(12));
    assert_eq!(timeline.track(overlay).unwrap().clip_at(seconds(3)), None);
}

#[test]
fn clip_kinds_must_fit_the_track_type() {
    let mut timeline = Timeline::new(TimelineId(1), seconds(30));
    let text = timeline.create_track(TrackRole::Overlay, TrackType::Text).unwrap();
    let kind = ClipKind::Text(TextClip { content: "Title".into() });
    assert_eq!(
        timeline.insert_clip(timeline.main_track_id(), Clip::flow(ClipId(1), kind.clone(), seconds(1)).unwrap()),
        Err(TimelineError::ClipTypeMismatch)
    );
    timeline
        .insert_clip(text, Clip::fixed(ClipId(2), kind, seconds(0), seconds(1)).unwrap())
        .unwrap();
}

#[test]
fn main_track_cannot_be_removed_but_others_can() {
    let mut timeline = Timeline::new(TimelineId(1), seconds(30));
    let audio = timeline.create_track(TrackRole::Audio, TrackType::Audio).unwrap();
    assert_eq!(
        timeline.remove_track(timeline.main_track_id()).err(),
        Some(TimelineError::CannotDeleteMainTrack)
    );
    let removed = timeline.remove_track(audio).unwrap();
    assert_eq!(removed.id, audio);
    assert_eq!(timeline.tracks().len(), 1);
    assert!(timeline.track(audio).is_none());
}

#[test]
fn negative_times_hit_no_clip() {
    let mut timeline = Timeline::new(TimelineId(1), seconds(30));
    let main = timeline.main_track_id();
    timeline.insert_clip(main, Clip::flow(ClipId(1), ClipKind::Spacer, seconds(5)).unwrap()).unwrap();
    assert_eq!(timeline.track(main).unwrap().clip_at(seconds(-1)), None);
    assert_eq!(timeline.track(main).unwrap().clip_at(seconds(0)).unwrap().id, ClipId(1));
}
