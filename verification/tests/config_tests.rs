use viua::ascii::Algorithm;
use viua::config::{parse_algorithm, AsciiArgs, CliArgs, Config, ViewMode};

/// The global options of `viua img.png`: every flag off, sizes left to the terminal.
fn defaults() -> CliArgs {
    CliArgs { width: 0, height: 0, recursive: false, monochrome: false, info: false, once: false }
}

/// The `ascii` subcommand's options with clap's defaults filled in.
fn ascii_args(charset: &str, algorithm: &str) -> AsciiArgs {
    AsciiArgs { charset: Some(charset.to_string()), algorithm: Some(algorithm.to_string()) }
}

#[test]
fn test_default_mode_is_image() {
    let conf = Config::new(&defaults(), ViewMode::Image, None);
    assert!(matches!(conf.mode, ViewMode::Image));
    assert_eq!(conf.width, 0);
    assert_eq!(conf.height, 0);
    assert!(!conf.monochrome);
    assert!(!conf.info);
    assert!(!conf.recursive);
    assert_eq!(conf.charset, "");
}

#[test]
fn test_ascii_mode() {
    let sub = ascii_args(" .:-=+*#%@", "lum");
    let conf = Config::new(&defaults(), ViewMode::Ascii, Some(&sub));
    assert!(matches!(conf.mode, ViewMode::Ascii));
    assert_eq!(conf.charset, " .:-=+*#%@");
    assert!(matches!(conf.algorithm, Algorithm::Luminance));
}

#[test]
fn test_ascii_algorithm_clahe() {
    let sub = ascii_args(" .:-=+*#%@", "lum-clahe");
    let conf = Config::new(&defaults(), ViewMode::Ascii, Some(&sub));
    assert!(matches!(conf.algorithm, Algorithm::LuminanceClahe));
}

#[test]
fn test_ascii_charset_custom() {
    let sub = ascii_args(" .-+#", "lum");
    let conf = Config::new(&defaults(), ViewMode::Ascii, Some(&sub));
    assert_eq!(conf.charset, " .-+#");
}

#[test]
fn test_ascii_algorithm_sobel() {
    let sub = ascii_args(" .:-=+*#%@", "sobel");
    let conf = Config::new(&defaults(), ViewMode::Ascii, Some(&sub));
    assert!(matches!(conf.algorithm, Algorithm::Sobel));
}

#[test]
fn test_halfblock_mode() {
    let conf = Config::new(&defaults(), ViewMode::HalfBlock, None);
    assert!(matches!(conf.mode, ViewMode::HalfBlock));
    assert_eq!(conf.charset, "");
}

#[test]
fn test_monochrome() {
    let args = CliArgs { monochrome: true, ..defaults() };
    let conf = Config::new(&args, ViewMode::Image, None);
    assert!(conf.monochrome);
}

#[test]
fn test_info() {
    let args = CliArgs { info: true, ..defaults() };
    let conf = Config::new(&args, ViewMode::Image, None);
    assert!(conf.info);
}

#[test]
fn test_width_custom() {
    let args = CliArgs { width: 60, ..defaults() };
    let conf = Config::new(&args, ViewMode::Image, None);
    assert_eq!(conf.width, 60);
}

#[test]
fn test_height_custom() {
    let args = CliArgs { height: 40, ..defaults() };
    let conf = Config::new(&args, ViewMode::Image, None);
    assert_eq!(conf.height, 40);
}

#[test]
fn test_recursive() {
    let args = CliArgs { recursive: true, ..defaults() };
    let conf = Config::new(&args, ViewMode::Image, None);
    assert!(conf.recursive);
}

#[test]
fn test_gif_once_follows_flag() {
    let args = CliArgs { once: true, ..defaults() };
    let conf = Config::new(&args, ViewMode::Image, None);
    assert!(conf.gif_once);
}

#[test]
fn test_unknown_algorithm_is_luminance() {
    let sub = ascii_args(" .:-=+*#%@", "edges");
    let conf = Config::new(&defaults(), ViewMode::Ascii, Some(&sub));
    assert!(matches!(conf.algorithm, Algorithm::Luminance));
}

#[test]
fn test_ascii_without_values() {
    let sub = AsciiArgs { charset: None, algorithm: None };
    let conf = Config::new(&defaults(), ViewMode::Ascii, Some(&sub));
    assert_eq!(conf.charset, "");
    assert!(matches!(conf.algorithm, Algorithm::Luminance));
}

#[test]
fn test_parse_algorithm_names() {
    assert!(matches!(parse_algorithm("lum"), Algorithm::Luminance));
    assert!(matches!(parse_algorithm("lum-clahe"), Algorithm::LuminanceClahe));
    assert!(matches!(parse_algorithm("sobel"), Algorithm::Sobel));
    assert!(matches!(parse_algorithm("Sobel"), Algorithm::Luminance));
}
