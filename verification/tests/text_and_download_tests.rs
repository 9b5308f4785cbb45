use football_coach_poc::app_state::BrowserCookieSource;
use football_coach_poc::downloader::{
    download_failure_message, downloaded_path, lowered_needs_browser_cookies, needs_browser_cookies,
};
use football_coach_poc::live_capture::{bgra_to_rgb, window_source, CaptureTarget, ScreenCapture, WindowInfo};
use football_coach_poc::text::{push_decimal, push_str, string_of};

#[test]
fn decimal_text() {
    let mut s = String::from("n=");
    push_decimal(&mut s, 0);
    push_str(&mut s, ",");
    push_decimal(&mut s, 40213);
    push_str(&mut s, ",");
    push_decimal(&mut s, u64::MAX);
    assert_eq!(s, "n=0,40213,18446744073709551615");
    assert_eq!(string_of("abc"), "abc");
}

#[test]
fn downloaded_path_from_destination_line() {
    let out = "[youtube] abc: Downloading webpage\n[download] Destination: /tmp/dl/Derby highlights.mp4  \n[download] 100% of 3.2MiB\n";
    assert_eq!(downloaded_path(out), Some("/tmp/dl/Derby highlights.mp4".to_string()));
}

#[test]
fn downloaded_path_prefers_the_last_named_file() {
    let out = "[download] Destination: /tmp/dl/a.f137.mp4\r\n[download] Destination: /tmp/dl/a.f140.m4a\r\n[Merger] Merging formats into \"/tmp/dl/a.mp4\"\r\nDeleting original file /tmp/dl/a.f137.mp4\r\n";
    assert_eq!(downloaded_path(out), Some("/tmp/dl/a.mp4".to_string()));
}

#[test]
fn downloaded_path_for_an_earlier_download() {
    let out = "[download] /tmp/dl/b.mp4 has already been downloaded\n";
    assert_eq!(downloaded_path(out), Some("/tmp/dl/b.mp4".to_string()));
    assert_eq!(downloaded_path("nothing useful\n"), None);
    assert_eq!(downloaded_path(""), None);
}

#[test]
fn cookie_retry_is_asked_for_in_any_case() {
    assert!(needs_browser_cookies("ERROR: [youtube] x: Sign in to confirm you're not a bot."));
    assert!(needs_browser_cookies("Use --cookies-from-browser or --cookies for the AUTHENTICATION."));
    assert!(needs_browser_cookies("AUTHENTICATION required"));
    assert!(!needs_browser_cookies("ERROR: unable to download video data: HTTP Error 403"));
}

#[test]
fn failure_messages() {
    assert_eq!(
        download_failure_message("WARNING: slow\nERROR: boom\n", Some(BrowserCookieSource::Chrome)),
        "yt-dlp failed: ERROR: boom Tried browser cookies from Chrome."
    );
    assert_eq!(download_failure_message("", None), "yt-dlp failed: unknown error");
    assert_eq!(download_failure_message("a\r\nlast line\r\n", None), "yt-dlp failed: last line");
}

#[test]
fn capture_target_labels() {
    assert_eq!(CaptureTarget::Display(1).path_label(), "live-display-1");
    assert_eq!(CaptureTarget::Window(4021).path_label(), "live-window-4021");
}

#[test]
fn windows_offered_as_sources() {
    let w = WindowInfo { window_id: Some(77), owner: Some("Safari".to_string()), title: Some("  Match stream \n".to_string()) };
    let src = window_source(&w).unwrap();
    assert_eq!(src.target, CaptureTarget::Window(77));
    assert_eq!(src.label, "Safari - Match stream");
    let untitled = WindowInfo { window_id: Some(5), owner: None, title: Some("   ".to_string()) };
    assert_eq!(window_source(&untitled).unwrap().label, "Unknown App");
    let server = WindowInfo { window_id: Some(1), owner: Some("Window Server".to_string()), title: Some("Menubar".to_string()) };
    assert!(window_source(&server).is_none());
    let dock = WindowInfo { window_id: Some(2), owner: Some("Dock".to_string()), title: None };
    assert!(window_source(&dock).is_none());
    let no_id = WindowInfo { window_id: None, owner: Some("VLC".to_string()), title: Some("clip".to_string()) };
    assert!(window_source(&no_id).is_none());
}

#[test]
fn available_sources_start_with_the_main_display() {
    let ws = vec![
        WindowInfo { window_id: Some(1), owner: Some("Window Server".to_string()), title: None },
        WindowInfo { window_id: Some(9), owner: Some("QuickTime Player".to_string()), title: Some("game.mov".to_string()) },
    ];
    let sources = ScreenCapture::available_sources(&ws);
    assert_eq!(sources.len(), 2);
    assert_eq!(sources[0].target, CaptureTarget::Display(1));
    assert_eq!(sources[0].label, "Main Display");
    assert_eq!(sources[1].target, CaptureTarget::Window(9));
    assert_eq!(sources[1].label, "QuickTime Player - game.mov");
    assert_eq!(ScreenCapture::available_sources(&vec![]).len(), 1);
}

#[test]
fn capture_session_numbers_frames() {
    let mut cap = ScreenCapture::new(CaptureTarget::Window(3), 1280);
    assert_eq!(cap.capture_target(), CaptureTarget::Window(3));
    assert_eq!(cap.capture_max_width(), 1280);
    assert_eq!(cap.next_frame_index(), (0, 1));
    assert_eq!(cap.next_frame_index(), (1, 2));
    assert!(cap.started_at().elapsed().as_secs() < 60);
}

#[test]
fn bgra_capture_becomes_rgb() {
    // two pixels per row, row stride of ten bytes, two rows
    let bytes: Vec<u8> = vec![
        1, 2, 3, 255, 4, 5, 6, 255, 0, 0, //
        7, 8, 9, 255, 10, 11, 12, 255, 0, 0,
    ];
    assert_eq!(bgra_to_rgb(&bytes, 2, 2, 10), vec![3, 2, 1, 6, 5, 4, 9, 8, 7, 12, 11, 10]);
    // a buffer that ends early leaves the missing pixels black
    let short: Vec<u8> = vec![1, 2, 3, 255, 4, 5];
    assert_eq!(bgra_to_rgb(&short, 2, 1, 8), vec![3, 2, 1, 0, 0, 0]);
    assert!(bgra_to_rgb(&bytes, 0, 2, 10).is_empty());
}

#[test]
fn capture_session_reports_frames_read() {
    let mut cap = ScreenCapture::new(CaptureTarget::Display(1), 640);
    assert_eq!(cap.frames_read(), 0);
    cap.next_frame_index();
    assert_eq!(cap.frames_read(), 1);
}

#[test]
fn lowered_cookie_request_is_case_sensitive() {
    assert!(lowered_needs_browser_cookies("error: sign in to confirm you're not a bot."));
    assert!(lowered_needs_browser_cookies("please use --cookies for this"));
    assert!(!lowered_needs_browser_cookies("AUTHENTICATION required"));
    assert!(!lowered_needs_browser_cookies("http error 403"));
}
