use viua::ascii::charset::DEFAULT_CHARSET;
use viua::ascii::lum::{convert, convert_exact, from_resized, from_resized_gray};
use viua::ascii::raster::{GrayRaster, RgbaRaster};

fn test_charset() -> Vec<char> {
    DEFAULT_CHARSET.chars().collect()
}

#[test]
fn test_convert_output_dimensions() {
    let img = RgbaRaster::new(100, 100);
    let art = convert(&img, 50, &test_charset());
    assert_eq!(art.lines.len(), 25);
    assert_eq!(art.lines[0].len(), 50);
}

#[test]
fn test_convert_black_to_first_char() {
    let img = RgbaRaster::from_pixel(10, 10, [0, 0, 0, 255]);
    let art = convert(&img, 10, &test_charset());
    assert_eq!(art.lines[0][0].char, ' ');
}

#[test]
fn test_convert_white_to_last_char() {
    let img = RgbaRaster::from_pixel(10, 10, [255, 255, 255, 255]);
    let art = convert(&img, 10, &test_charset());
    assert_eq!(art.lines[0][0].char, '@');
}

#[test]
fn test_convert_preserves_rgb() {
    let img = RgbaRaster::from_pixel(10, 10, [100, 150, 200, 255]);
    let art = convert(&img, 10, &test_charset());
    let p = &art.lines[0][0];
    assert_eq!(p.r, 100);
    assert_eq!(p.g, 150);
    assert_eq!(p.b, 200);
}

#[test]
fn resize_wrapper_changes_size() {
    let img = RgbaRaster::from_pixel(8, 8, [10, 20, 30, 255]);
    let art = convert_exact(&img, 3, 2, &test_charset());
    assert_eq!(art.lines.len(), 2);
    assert!(art.lines.iter().all(|row| row.len() == 3));
}

#[test]
fn from_resized_maps_each_pixel_by_luminance() {
    // luminance of (100, 150, 200) is (29900 + 88050 + 22800) / 1000 = 140
    // glyph index 140 * 9 / 255 = 4, the '='
    let img = RgbaRaster {
        width: 2,
        height: 1,
        data: vec![100, 150, 200, 255, 0, 0, 0, 0],
    };
    let art = from_resized(&img, &test_charset());
    assert_eq!(art.lines.len(), 1);
    assert_eq!(art.lines[0][0].char, '=');
    assert_eq!(art.lines[0][1].char, ' ');
    assert_eq!((art.lines[0][0].r, art.lines[0][0].g, art.lines[0][0].b), (100, 150, 200));
}

#[test]
fn gray_pixels_keep_their_level() {
    let img = GrayRaster { width: 3, height: 1, data: vec![0, 128, 255] };
    let art = from_resized_gray(&img, &test_charset());
    let chars: Vec<char> = art.lines[0].iter().map(|p| p.char).collect();
    // 128 * 9 / 255 = 4
    assert_eq!(chars, vec![' ', '=', '@']);
    assert_eq!(art.lines[0][1].r, 128);
    assert_eq!(art.lines[0][1].b, 128);
}

#[test]
fn height_follows_aspect_ratio_with_tall_cells() {
    // 40 columns of a 200 x 100 image: 40 * 100 / 200 / 2 = 10 rows
    let img = RgbaRaster::new(200, 100);
    let art = convert(&img, 40, &test_charset());
    assert_eq!(art.lines.len(), 10);
}

#[test]
fn convert_at_own_size_maps_each_pixel() {
    let mut img = RgbaRaster::new(2, 1);
    img.put_pixel(0, 0, [255, 255, 255, 255]);
    img.put_pixel(1, 0, [100, 150, 200, 255]);
    let art = convert_exact(&img, 2, 1, &test_charset());
    assert_eq!(art.lines.len(), 1);
    assert_eq!(art.lines[0][0].char, '@');
    // luminance (29900 + 88050 + 22800) / 1000 = 140, glyph 140 * 9 / 255 = 4
    assert_eq!(art.lines[0][1].char, '=');
    assert_eq!((art.lines[0][1].r, art.lines[0][1].g, art.lines[0][1].b), (100, 150, 200));
}

#[test]
fn convert_uniform_colour_gives_uniform_cells() {
    let img = RgbaRaster::from_pixel(40, 30, [30, 200, 90, 255]);
    let art = convert_exact(&img, 7, 5, &test_charset());
    // luminance (8970 + 117400 + 10260) / 1000 = 136, glyph 136 * 9 / 255 = 4
    for row in &art.lines {
        for p in row {
            assert_eq!((p.char, p.r, p.g, p.b), ('=', 30, 200, 90));
        }
    }
}
