use opencut::{AssetId, Clip, ClipError, ClipId, ClipKind, ClipPlacement, RationalTime, VideoClip};

fn seconds(value: i64) -> RationalTime {
    RationalTime::new(value, 1).unwrap()
}

#[test]
fn flow_clips_do_not_store_timeline_positions() {
    let clip = Clip::flow(ClipId(1), ClipKind::Spacer, seconds(5)).unwrap();
    assert_eq!(clip.placement(), ClipPlacement::Flow);
    assert_eq!(clip.start_time(), None);
}

#[test]
fn fixed_clip_end_is_exact() {
    let clip = Clip::fixed(
        ClipId(1),
        ClipKind::Spacer,
        RationalTime::new(1, 3).unwrap(),
        RationalTime::new(2, 3).unwrap(),
    )
    .unwrap();
    assert_eq!(clip.fixed_end_time().unwrap(), Some(seconds(1)));
}

#[test]
fn negative_source_times_are_rejected() {
    assert_eq!(
        VideoClip::new(AssetId(1), seconds(-1)),
        Err(ClipError::NegativeTime)
    );
}

#[test]
fn overflowing_fixed_ranges_are_rejected() {
    assert_eq!(
        Clip::fixed(
            ClipId(1),
            ClipKind::Spacer,
            RationalTime::new(i64::MAX, 1).unwrap(),
            seconds(1),
        ),
        Err(ClipError::TimeOverflow)
    );
}

#[test]
fn non_positive_durations_are_rejected() {
    assert_eq!(
        Clip::flow(ClipId(1), ClipKind::Spacer, seconds(0)),
        Err(ClipError::InvalidDuration)
    );
    assert_eq!(
        Clip::fixed(ClipId(1), ClipKind::Spacer, seconds(0), seconds(-2)),
        Err(ClipError::InvalidDuration)
    );
}

#[test]
fn negative_fixed_start_is_rejected() {
    assert_eq!(
        Clip::fixed(ClipId(1), ClipKind::Spacer, seconds(-1), seconds(2)),
        Err(ClipError::NegativeTime)
    );
}

#[test]
fn clip_kind_with_negative_source_is_rejected() {
    let video = VideoClip {
        asset_id: AssetId(3),
        source_start: seconds(-4),
    };
    assert_eq!(
        Clip::flow(ClipId(1), ClipKind::Video(video), seconds(2)),
        Err(ClipError::NegativeTime)
    );
}

#[test]
fn rational_times_are_reduced_and_exact() {
    let a = RationalTime::new(2, -4).unwrap();
    assert_eq!((a.numer(), a.denom()), (-1, 2));
    let sum = RationalTime::new(1, 6).unwrap().add(RationalTime::new(1, 3).unwrap()).unwrap();
    assert_eq!((sum.numer(), sum.denom()), (1, 2));
    let diff = seconds(1).sub(RationalTime::new(1, 4).unwrap()).unwrap();
    assert_eq!((diff.numer(), diff.denom()), (3, 4));
    assert!(RationalTime::new(1, 3).unwrap().lt(&RationalTime::new(1, 2).unwrap()));
    assert!(!seconds(2).lt(&seconds(2)));
    assert_eq!(RationalTime::new(1, 0), Err(opencut::TimeError::ZeroDenominator));
    assert_eq!(RationalTime::new(i64::MIN, -1), Err(opencut::TimeError::Overflow));
    assert_eq!(seconds(i64::MAX).add(seconds(1)), Err(opencut::TimeError::Overflow));
    assert_eq!(seconds(3).add(seconds(4)), seconds(4).add(seconds(3)));
}
