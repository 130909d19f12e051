use viua::config::{CliArgs, Config, ViewMode};
use viua::layout::{fit_gif_dimensions, footer, resolve_dimensions, round_div, scaled_height, scaled_width, separator};

fn conf(width: u32, height: u32) -> Config {
    let args = CliArgs { width, height, recursive: false, monochrome: false, info: false, once: false };
    Config::new(&args, ViewMode::Ascii, None)
}

fn size(c: &Config, term_w: u32, w: u32, h: u32) -> (u32, u32, Option<u32>) {
    let d = resolve_dimensions(c, term_w, w, h);
    (d.width, d.height, d.clamped_from)
}

#[test]
fn test_round_div_halves_up() {
    assert_eq!(round_div(5, 2), 3);
    assert_eq!(round_div(4, 2), 2);
    assert_eq!(round_div(7, 3), 2);
    assert_eq!(round_div(0, 9), 0);
    assert_eq!(round_div(1 << 40, 1), u32::MAX);
}

#[test]
fn test_scaled_sizes() {
    assert_eq!(scaled_height(80, 100, 50), 20);
    assert_eq!(scaled_height(50, 200, 100), 13);
    assert_eq!(scaled_width(40, 100, 100), 80);
    assert_eq!(scaled_height(10, 0, 5), u32::MAX);
    assert_eq!(scaled_width(10, 5, 0), u32::MAX);
}

#[test]
fn test_resolve_from_terminal_width() {
    assert_eq!(size(&conf(0, 0), 80, 100, 50), (80, 20, None));
    assert_eq!(size(&conf(0, 0), 80, 640, 480), (80, 30, None));
}

#[test]
fn test_resolve_from_width() {
    assert_eq!(size(&conf(60, 0), 80, 200, 100), (60, 15, None));
}

#[test]
fn test_resolve_from_height() {
    assert_eq!(size(&conf(0, 40), 100, 100, 100), (80, 40, None));
}

#[test]
fn test_resolve_clamps_to_terminal() {
    assert_eq!(size(&conf(0, 40), 60, 100, 100), (60, 30, Some(80)));
    assert_eq!(size(&conf(120, 0), 100, 300, 200), (100, 33, Some(120)));
}

#[test]
fn test_resolve_both_given() {
    assert_eq!(size(&conf(30, 10), 80, 5, 5), (30, 10, None));
}

#[test]
fn test_resolve_at_least_one_row() {
    assert_eq!(size(&conf(10, 0), 80, 1000, 1), (10, 1, None));
}

#[test]
fn test_fit_gif_dimensions() {
    assert_eq!(fit_gif_dimensions(100, None, 80, 24, 100, 100), (46, 23));
    assert_eq!(fit_gif_dimensions(40, Some(10), 80, 24, 100, 100), (40, 10));
    assert_eq!(fit_gif_dimensions(50, None, 80, 24, 200, 100), (50, 13));
    assert_eq!(fit_gif_dimensions(10, Some(30), 80, 5, 1, 1), (1, 4));
}

#[test]
fn test_separator() {
    assert_eq!(separator(3), "\u{2500}\u{2500}\u{2500}");
    assert_eq!(separator(0), "");
}

#[test]
fn test_footer_with_info() {
    let lines = footer("a.png", 10, 20, "PNG", "1.0 KB", true, false, 40).unwrap();
    let text = "a.png \u{b7} 10\u{d7}20 \u{b7} PNG \u{b7} 1.0 KB";
    assert_eq!(lines.len(), 3);
    assert_eq!(lines[0], format!("\u{256d}{}\u{256e}", "\u{2500}".repeat(38)));
    assert_eq!(lines[1], format!("\u{2502}{}{}{}\u{2502}", " ".repeat(5), text, " ".repeat(5)));
    assert_eq!(lines[2], format!("\u{2570}{}\u{256f}", "\u{2500}".repeat(38)));
}

#[test]
fn test_footer_ascii_tag_only() {
    let lines = footer("a.png", 10, 20, "PNG", "1.0 KB", false, true, 20).unwrap();
    assert_eq!(lines[1], format!("\u{2502}  ascii by viua   \u{2502}"));
}

#[test]
fn test_footer_info_and_ascii() {
    let lines = footer("f", 1, 2, "GIF", "3 B", true, true, 60).unwrap();
    assert!(lines[1].contains("f \u{b7} 1\u{d7}2 \u{b7} GIF \u{b7} 3 B \u{b7} ascii by viua"));
    assert_eq!(lines[1].chars().count(), 60);
}

#[test]
fn test_footer_none() {
    assert!(footer("a.png", 1, 1, "PNG", "1 B", false, false, 80).is_none());
    assert!(footer("a.png", 1, 1, "PNG", "1 B", true, true, 3).is_none());
}

#[test]
fn test_footer_text_wider_than_terminal() {
    let lines = footer("a-long-file-name.png", 1, 1, "PNG", "1 B", true, false, 6).unwrap();
    assert_eq!(lines[0].chars().count(), 6);
    assert!(lines[1].starts_with("\u{2502}a-long"));
}

#[test]
fn test_exact_halves_round_up() {
    // 27 * 13 / 3 / 2 = 58.5 exactly
    assert_eq!(scaled_height(27, 3, 13), 59);
}

#[test]
fn test_needs_separator() {
    assert!(viua::layout::needs_separator(0, 2));
    assert!(!viua::layout::needs_separator(1, 2));
    assert!(!viua::layout::needs_separator(0, 1));
    assert!(!viua::layout::needs_separator(3, 2));
    assert!(viua::layout::needs_separator(usize::MAX - 2, usize::MAX));
}
