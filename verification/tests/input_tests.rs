use viua::input::{classify_input, contains_glob_chars, get_glob_options, has_image_extension, is_url, starts_with, InputAction};
use viua::playback::{frame_delay_ms, loop_count, remaining_delay, rewinds_after, GifRepeat};

#[test]
fn test_glob_chars() {
    assert!(contains_glob_chars("*.png"));
    assert!(contains_glob_chars("img?.jpg"));
    assert!(contains_glob_chars("img[12].png"));
    assert!(!contains_glob_chars("img.png"));
    assert!(!contains_glob_chars(""));
}

#[test]
fn test_glob_options_are_permissive() {
    let o = get_glob_options();
    assert!(!o.case_sensitive);
    assert!(!o.require_literal_separator);
    assert!(!o.require_literal_leading_dot);
}

#[test]
fn test_starts_with() {
    assert!(starts_with("https://x", "https://"));
    assert!(starts_with("abc", ""));
    assert!(!starts_with("ab", "abc"));
    assert!(!starts_with("xbc", "abc"));
}

#[test]
fn test_is_url() {
    assert!(is_url("http://example.com/a.png"));
    assert!(is_url("https://example.com/a.png"));
    assert!(!is_url("ftp://example.com/a.png"));
    assert!(!is_url("http:/a.png"));
    assert!(!is_url("a.png"));
}

#[test]
fn test_classify_input() {
    assert_eq!(classify_input("https://e.com/a.png", false, false), InputAction::Download);
    assert_eq!(classify_input("dir", true, true), InputAction::Traverse);
    assert_eq!(classify_input("dir", true, false), InputAction::SkipDirectory);
    assert_eq!(classify_input("a.png", false, true), InputAction::Open);
}

#[test]
fn test_image_extensions() {
    for ext in ["png", "jpg", "jpeg", "gif", "webp", "bmp", "ico", "tiff", "tga", "PNG", "Jpeg"] {
        assert!(has_image_extension(ext), "{ext}");
    }
    for ext in ["txt", "", "pngs", "pn", "svg"] {
        assert!(!has_image_extension(ext), "{ext}");
    }
}

#[test]
fn test_loop_count() {
    assert_eq!(loop_count(GifRepeat::Infinite, true), 1);
    assert_eq!(loop_count(GifRepeat::Infinite, false), usize::MAX);
    assert_eq!(loop_count(GifRepeat::Finite(3), false), 3);
    assert_eq!(loop_count(GifRepeat::Finite(3), true), 1);
    assert_eq!(loop_count(GifRepeat::Finite(0), false), 0);
}

#[test]
fn test_frame_delay() {
    assert_eq!(frame_delay_ms(0), 100);
    assert_eq!(frame_delay_ms(19), 100);
    assert_eq!(frame_delay_ms(20), 20);
    assert_eq!(frame_delay_ms(70), 70);
}

#[test]
fn test_remaining_delay() {
    assert_eq!(remaining_delay(100, 30), 70);
    assert_eq!(remaining_delay(100, 100), 0);
    assert_eq!(remaining_delay(100, 150), 0);
}

#[test]
fn test_rewinds_after() {
    assert!(rewinds_after(0, 1, 0, 2));
    assert!(!rewinds_after(0, 1, 1, 2));
    assert!(rewinds_after(0, 2, 1, 2));
    assert!(!rewinds_after(1, 2, 1, 2));
}
