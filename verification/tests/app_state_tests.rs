use football_coach_poc::app_state::{find_first, AnalysisTab, BrowserCookieSource, CoachApp, LiveToggle};
use football_coach_poc::pitch_mapping::PitchReferencePoint;
use football_coach_poc::trim::{sort_by_start, RelevantSegment};

fn seg(start_idx: usize, end_idx: usize, enabled: bool, tag: usize) -> RelevantSegment {
    RelevantSegment { start_idx, end_idx, enabled, tag }
}

fn loaded(frames: usize, segs: Option<Vec<RelevantSegment>>) -> CoachApp {
    let mut app = CoachApp::new();
    app.frame_count = frames;
    app.trim_segments = segs;
    app
}

#[test]
fn fresh_app_state() {
    let app = CoachApp::new();
    assert_eq!(app.frame_count, 0);
    assert!(app.playback_trimmed_only);
    assert!(!app.is_playing);
    assert!(app.trim_segments.is_none());
    assert_eq!(app.analysis_range(), None);
    assert_eq!(app.displayed_frame_count(), 0);
    assert_eq!(app.selected_reference_point(), PitchReferencePoint::TopLeftCorner);
    assert_ne!(AnalysisTab::Coach, AnalysisTab::Report);
}

#[test]
fn browser_names() {
    assert_eq!(BrowserCookieSource::Chrome.yt_dlp_name(), "chrome");
    assert_eq!(BrowserCookieSource::Safari.yt_dlp_name(), "safari");
    assert_eq!(BrowserCookieSource::Firefox.yt_dlp_name(), "firefox");
    assert_eq!(BrowserCookieSource::Firefox.label(), "Firefox");
    assert_eq!(BrowserCookieSource::Chrome.label(), "Chrome");
}

#[test]
fn analysis_range_is_clamped_and_ordered() {
    let mut app = loaded(100, None);
    app.analysis_start_idx = 250;
    app.analysis_end_idx = 10;
    assert_eq!(app.analysis_range(), Some((10, 99)));
    app.analysis_start_idx = 5;
    app.analysis_end_idx = 20;
    assert_eq!(app.analysis_range(), Some((5, 20)));
}

#[test]
fn trimmed_frames_follow_enabled_segments() {
    let app = loaded(50, Some(vec![seg(2, 4, true, 0), seg(10, 11, false, 1), seg(20, 21, true, 2)]));
    assert_eq!(app.enabled_trim_segments(), vec![seg(2, 4, true, 0), seg(20, 21, true, 2)]);
    assert_eq!(app.trimmed_frame_indices(), vec![2, 3, 4, 20, 21]);
    assert_eq!(app.displayed_frame_count(), 5);
}

#[test]
fn displayed_position_roundtrips_through_the_trim() {
    let mut app = loaded(50, Some(vec![seg(2, 4, true, 0), seg(20, 21, true, 1)]));
    app.set_displayed_frame_position(3);
    assert_eq!(app.current_frame_idx, 20);
    assert_eq!(app.displayed_frame_position(), 3);
    app.set_displayed_frame_position(40);
    assert_eq!(app.current_frame_idx, 40);
    assert_eq!(app.displayed_frame_position(), 40);
    app.playback_trimmed_only = false;
    app.set_displayed_frame_position(400);
    assert_eq!(app.current_frame_idx, 49);
    assert_eq!(app.displayed_frame_count(), 50);
}

#[test]
fn playback_steps_through_trimmed_frames_and_wraps() {
    let mut app = loaded(50, Some(vec![seg(2, 3, true, 0), seg(20, 20, true, 1)]));
    app.current_frame_idx = 7;
    app.advance_playback_frame();
    assert_eq!(app.current_frame_idx, 2);
    app.advance_playback_frame();
    assert_eq!(app.current_frame_idx, 3);
    app.advance_playback_frame();
    assert_eq!(app.current_frame_idx, 20);
    app.advance_playback_frame();
    assert_eq!(app.current_frame_idx, 2);

    let mut plain = loaded(3, None);
    plain.current_frame_idx = 2;
    plain.advance_playback_frame();
    assert_eq!(plain.current_frame_idx, 0);

    let mut empty = CoachApp::new();
    empty.advance_playback_frame();
    assert_eq!(empty.current_frame_idx, 0);
}

#[test]
fn jumping_to_a_segment_pauses_at_its_start() {
    let mut app = loaded(50, Some(vec![seg(2, 4, true, 0), seg(30, 35, true, 1)]));
    app.is_playing = true;
    app.jump_to_segment(1);
    assert_eq!(app.current_frame_idx, 30);
    assert!(!app.is_playing);
    app.is_playing = true;
    app.jump_to_segment(5);
    assert_eq!(app.current_frame_idx, 30);
    assert!(app.is_playing);
}

#[test]
fn normalizing_clamps_sorts_and_separates() {
    let mut app = loaded(20, Some(vec![seg(12, 30, true, 0), seg(9, 3, true, 1), seg(5, 8, false, 2)]));
    app.normalize_trim_segments();
    let segs = app.trim_segments.clone().unwrap();
    assert_eq!(segs, vec![seg(3, 9, true, 1), seg(10, 10, false, 2), seg(12, 19, true, 0)]);
    let mut again = app.clone();
    again.normalize_trim_segments();
    assert_eq!(again.trim_segments.unwrap(), segs);
}

#[test]
fn normalizing_without_frames_changes_nothing() {
    let mut app = loaded(0, Some(vec![seg(9, 3, true, 1)]));
    app.normalize_trim_segments();
    assert_eq!(app.trim_segments.unwrap(), vec![seg(9, 3, true, 1)]);
}

#[test]
fn trim_suggestion_cuts_to_the_range() {
    let app = loaded(100, Some(vec![seg(0, 9, true, 0), seg(20, 29, false, 1), seg(40, 60, true, 2), seg(90, 95, true, 3)]));
    let (segs, kept) = app.trim_suggestion_for_range(5, 50).unwrap();
    assert_eq!(segs, vec![seg(0, 4, true, 0), seg(15, 24, false, 1), seg(35, 45, true, 2)]);
    assert_eq!(kept, 5 + 11);
    assert!(app.trim_suggestion_for_range(70, 80).is_none());
    assert!(loaded(100, None).trim_suggestion_for_range(0, 99).is_none());
}

#[test]
fn live_capture_toggle() {
    let mut app = loaded(30, Some(vec![seg(1, 2, true, 0)]));
    app.current_frame_idx = 12;
    assert_eq!(app.toggle_live_capture(false, 3), LiveToggle::MissingModel);
    assert!(!app.live_enabled);
    assert_eq!(app.toggle_live_capture(true, 0), LiveToggle::NoSources);
    assert_eq!(app.frame_count, 30);
    assert_eq!(app.toggle_live_capture(true, 2), LiveToggle::Started);
    assert!(app.live_enabled && app.live_requested);
    assert_eq!(app.frame_count, 0);
    assert_eq!(app.current_frame_idx, 0);
    assert!(app.trim_segments.is_none());
    assert_eq!(app.toggle_live_capture(true, 2), LiveToggle::Stopped);
    assert!(!app.live_enabled && !app.live_requested);
}

#[test]
fn reset_live_view_clears_frames() {
    let mut app = loaded(30, Some(vec![seg(1, 2, true, 0)]));
    app.analysis_start_idx = 3;
    app.analysis_end_idx = 9;
    app.is_playing = true;
    app.reset_live_view();
    assert_eq!((app.frame_count, app.analysis_start_idx, app.analysis_end_idx), (0, 0, 0));
    assert!(!app.is_playing);
    assert!(app.trim_segments.is_none());
}

#[test]
fn find_first_position() {
    assert_eq!(find_first(&vec![4, 7, 7, 1], 7), Some(1));
    assert_eq!(find_first(&vec![4, 7], 9), None);
}

#[test]
fn stable_sort_by_start_frame() {
    let out = sort_by_start(&vec![seg(5, 6, true, 0), seg(1, 2, true, 1), seg(5, 9, false, 2), seg(0, 0, true, 3)]);
    let tags: Vec<usize> = out.iter().map(|g| g.tag).collect();
    assert_eq!(tags, vec![3, 1, 0, 2]);
}

#[test]
fn state_after_loading_a_video() {
    let mut app = loaded(10, Some(vec![seg(1, 2, true, 0)]));
    app.current_frame_idx = 7;
    app.selected_reference_point = 2;
    app.homography_calibration.image_points_set = [true, true, false, false];
    app.video_loaded(120);
    assert_eq!(app.frame_count, 120);
    assert_eq!((app.current_frame_idx, app.analysis_start_idx, app.analysis_end_idx), (0, 0, 119));
    assert!(app.trim_segments.is_none());
    assert_eq!(app.selected_reference_point, 0);
    assert_eq!(app.homography_calibration.completion_count(), 0);
    app.video_loaded(0);
    assert_eq!(app.analysis_end_idx, 0);
}

#[test]
fn state_while_live_and_after_errors() {
    let mut app = loaded(40, None);
    app.current_frame_idx = 9;
    app.live_enabled = true;
    app.live_requested = true;
    app.live_frame_shown();
    assert_eq!((app.frame_count, app.current_frame_idx, app.analysis_end_idx), (1, 0, 0));
    assert!(app.live_enabled);
    app.analysis_failed();
    assert!(!app.live_enabled && !app.live_requested);
}
