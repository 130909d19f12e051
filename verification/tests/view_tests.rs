use viua::ascii::charset::DEFAULT_CHARSET;
use viua::ascii::raster::{grayscale, RgbaRaster};
use viua::config::{AsciiArgs, CliArgs, Config, ViewMode};
use viua::layout::Dimensions;
use viua::view::{ascii_view, plan_output, Output, Placement};

fn conf(monochrome: bool, height: u32) -> Config {
    let args = CliArgs { width: 0, height, recursive: false, monochrome, info: false, once: false };
    let sub = AsciiArgs { charset: None, algorithm: Some("lum".to_string()) };
    Config::new(&args, ViewMode::Ascii, Some(&sub))
}

fn dims() -> Dimensions {
    Dimensions { width: 30, height: 12, clamped_from: None }
}

#[test]
fn plan_ascii_mode() {
    assert_eq!(plan_output(ViewMode::Ascii, "GIF", &dims(), 0), Output::Ascii);
}

#[test]
fn plan_image_mode() {
    let still = Placement { width: 30, height: None, protocols: true };
    assert_eq!(plan_output(ViewMode::Image, "PNG", &dims(), 0), Output::Still(still));
    let anim = Placement { width: 30, height: Some(12), protocols: true };
    assert_eq!(plan_output(ViewMode::Image, "GIF", &dims(), 12), Output::Animation(anim));
}

#[test]
fn plan_halfblock_mode() {
    let p = Placement { width: 30, height: None, protocols: false };
    assert_eq!(plan_output(ViewMode::HalfBlock, "GIF", &dims(), 0), Output::Animation(p));
    assert_eq!(plan_output(ViewMode::HalfBlock, "gif", &dims(), 0), Output::Still(p));
}

#[test]
fn grayscale_uses_rec709_luma() {
    let img = RgbaRaster { width: 2, height: 1, data: vec![255, 0, 0, 7, 10, 20, 30, 255] };
    let grey = grayscale(&img);
    assert_eq!(grey.width, 2);
    assert_eq!(grey.height, 1);
    // (2126 * 255) / 10000 = 54; (2126 * 10 + 7152 * 20 + 722 * 30) / 10000 = 18
    assert_eq!(grey.data, vec![54, 54, 54, 7, 18, 18, 18, 255]);
}

#[test]
fn ascii_view_in_colour() {
    let charset: Vec<char> = DEFAULT_CHARSET.chars().collect();
    let img = RgbaRaster::from_pixel(4, 4, [255, 0, 0, 255]);
    let text = ascii_view(&conf(false, 0), &img, 2, 1, &charset);
    assert_eq!(text, "\x1b[38;2;255;0;0m:\x1b[38;2;255;0;0m:\x1b[0m\r\n");
}

#[test]
fn ascii_view_in_monochrome() {
    let charset: Vec<char> = DEFAULT_CHARSET.chars().collect();
    let img = RgbaRaster::from_pixel(4, 4, [255, 0, 0, 255]);
    let text = ascii_view(&conf(true, 0), &img, 2, 1, &charset);
    assert_eq!(text, "..\r\n");
}
