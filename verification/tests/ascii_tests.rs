use viua::ascii::charset::DEFAULT_CHARSET;
use viua::ascii::raster::RgbaRaster;
use viua::ascii::{char_index, convert, luminance, pick_glyph, Algorithm};

fn ramp() -> Vec<char> {
    DEFAULT_CHARSET.chars().collect()
}

#[test]
fn luminance_weights() {
    assert_eq!(luminance(0, 0, 0), 0);
    assert_eq!(luminance(255, 255, 255), 255);
    assert_eq!(luminance(100, 150, 200), 140);
    assert_eq!(luminance(255, 0, 0), 76);
    assert_eq!(luminance(0, 255, 0), 149);
    assert_eq!(luminance(0, 0, 255), 29);
}

#[test]
fn grey_luminance_is_its_level() {
    for v in [0u8, 1, 77, 128, 254, 255] {
        assert_eq!(luminance(v, v, v), v);
    }
}

#[test]
fn glyph_positions() {
    assert_eq!(char_index(0, 10), 0);
    assert_eq!(char_index(255, 10), 9);
    assert_eq!(char_index(128, 10), 4);
    assert_eq!(char_index(200, 1), 0);
}

#[test]
fn glyphs_brighten_with_level() {
    let chars = ramp();
    let mut last = 0;
    for level in 0..=255u8 {
        let idx = char_index(level, chars.len());
        assert!(idx >= last);
        last = idx;
    }
    assert_eq!(pick_glyph(0, &chars), ' ');
    assert_eq!(pick_glyph(255, &chars), '@');
}

#[test]
fn convert_dispatch_shapes() {
    let img = RgbaRaster::from_pixel(12, 12, [255, 255, 255, 255]);
    for algo in [Algorithm::Luminance, Algorithm::LuminanceClahe, Algorithm::Sobel] {
        let art = convert(&img, 6, 3, &ramp(), algo);
        assert_eq!(art.lines.len(), 3);
        assert!(art.lines.iter().all(|row| row.len() == 6));
    }
}

#[test]
fn convert_dispatch_glyphs() {
    let img = RgbaRaster::from_pixel(12, 12, [255, 255, 255, 255]);
    assert_eq!(convert(&img, 6, 3, &ramp(), Algorithm::Luminance).lines[1][1].char, '@');
    assert_eq!(convert(&img, 6, 3, &ramp(), Algorithm::LuminanceClahe).lines[1][1].char, '@');
    // a flat image has no edges, which map to the last glyph
    assert_eq!(convert(&img, 6, 3, &ramp(), Algorithm::Sobel).lines[1][1].char, '@');
    let dark = RgbaRaster::from_pixel(12, 12, [0, 0, 0, 255]);
    assert_eq!(convert(&dark, 6, 3, &ramp(), Algorithm::Luminance).lines[1][1].char, ' ');
}
