use viua::ascii::charset::DEFAULT_CHARSET;
use viua::ascii::clahe::{apply, convert, equalize, CLAHE_CLIP_DEN, CLAHE_CLIP_NUM, CLAHE_TILE_SIZE};
use viua::ascii::raster::{GrayRaster, RgbaRaster};

fn gray(width: u32, height: u32, data: Vec<u8>) -> GrayRaster {
    GrayRaster { width, height, data }
}

#[test]
fn test_equalize_gradient() {
    let g = gray(4, 4, vec![10, 20, 30, 40, 50, 60, 70, 80, 90, 100, 110, 120, 130, 140, 150, 160]);
    let out = equalize(&g, 2, 256, 1);
    assert_eq!(out.width, 4);
    assert_eq!(out.height, 4);
    assert_eq!(out.data, vec![64, 128, 96, 128, 191, 255, 223, 255, 160, 192, 176, 192, 191, 255, 223, 255]);
}

#[test]
fn test_equalize_gradient_clipped() {
    let g = gray(4, 4, vec![10, 20, 30, 40, 50, 60, 70, 80, 90, 100, 110, 120, 130, 140, 150, 160]);
    let out = equalize(&g, 2, 2, 1);
    assert_eq!(out.data, vec![64, 128, 96, 128, 191, 255, 223, 255, 160, 192, 176, 192, 191, 255, 223, 255]);
}

#[test]
fn test_equalize_constant_image() {
    let out = equalize(&gray(4, 4, vec![100; 16]), 2, 2, 1);
    assert_eq!(out.data, vec![255; 16]);
    let dark = equalize(&gray(4, 4, vec![0; 16]), 2, 2, 1);
    assert_eq!(dark.data, vec![128; 16]);
}

#[test]
fn test_equalize_blocks() {
    let g = gray(4, 4, vec![0, 0, 255, 255, 0, 0, 255, 255, 64, 64, 128, 128, 64, 64, 128, 128]);
    let out = equalize(&g, 2, 256, 1);
    assert_eq!(out.data, vec![255, 255, 255, 255, 255, 255, 255, 255, 255, 255, 191, 128, 255, 255, 255, 255]);
}

#[test]
fn test_equalize_uneven_tiles() {
    let data: Vec<u8> = (0..18u8).map(|i| i * 6).collect();
    let out = equalize(&gray(6, 3, data), 2, 3, 1);
    assert_eq!(
        out.data,
        vec![64, 128, 96, 128, 96, 128, 191, 255, 223, 255, 223, 255, 192, 255, 223, 255, 223, 255]
    );
}

#[test]
fn test_equalize_single_tile_is_unchanged() {
    let g = gray(3, 3, vec![7, 8, 9, 10, 11, 12, 13, 14, 15]);
    let out = equalize(&g, 4, 2, 1);
    assert_eq!(out.data, g.data);
    let narrow = gray(2, 2, vec![0, 0, 200, 200]);
    assert_eq!(equalize(&narrow, 1, 1, 1).data, vec![255, 255, 255, 255]);
}

#[test]
fn test_apply_uses_luma() {
    let white = RgbaRaster::from_pixel(4, 4, [255, 255, 255, 255]);
    assert_eq!(apply(&white, 2, 2, 1).data, vec![255; 16]);
    let black = RgbaRaster::from_pixel(4, 4, [0, 0, 0, 255]);
    assert_eq!(apply(&black, 2, 2, 1).data, vec![128; 16]);
}

#[test]
fn test_apply_small_image_is_plain_luma() {
    let img = RgbaRaster::from_pixel(3, 2, [255, 255, 255, 255]);
    let out = apply(&img, CLAHE_TILE_SIZE, CLAHE_CLIP_NUM, CLAHE_CLIP_DEN);
    assert_eq!(out.width, 3);
    assert_eq!(out.height, 2);
    assert_eq!(out.data, vec![255; 6]);
}

#[test]
fn test_clahe_convert_dimensions_and_grey() {
    let charset: Vec<char> = DEFAULT_CHARSET.chars().collect();
    let img = RgbaRaster::from_pixel(10, 10, [255, 255, 255, 255]);
    let art = convert(&img, 8, 4, &charset);
    assert_eq!(art.lines.len(), 4);
    assert_eq!(art.lines[0].len(), 8);
    let p = &art.lines[0][0];
    assert_eq!(p.char, '@');
    assert_eq!((p.r, p.g, p.b), (255, 255, 255));
}

fn pattern_64() -> GrayRaster {
    let mut data = Vec::new();
    for y in 0..64u32 {
        for x in 0..64u32 {
            data.push(((x * 7 + y * 13 + (x * y) % 11) % 256) as u8);
        }
    }
    gray(64, 64, data)
}

#[test]
fn test_equalize_fractional_clip_limit() {
    let g = pattern_64();
    let half = equalize(&g, 32, 5, 2);
    let sum: u32 = half.data.iter().map(|&v| v as u32).sum();
    assert_eq!(sum, 524562);
    assert_eq!(
        [half.data[0], half.data[65], half.data[1000], half.data[2000], half.data[4095]],
        [1, 21, 227, 5, 245]
    );
    let whole = equalize(&g, 32, 2, 1);
    let sum2: u32 = whole.data.iter().map(|&v| v as u32).sum();
    assert_eq!(sum2, 524882);
}

#[test]
fn test_equalize_uniform_16x16() {
    for (level, expected) in [(0u8, 8u8), (10, 48), (62, 255), (63, 255), (200, 255), (255, 255)] {
        let out = equalize(&gray(16, 16, vec![level; 256]), 8, 2, 1);
        assert_eq!(out.data, vec![expected; 256], "level {level}");
    }
}

#[test]
fn test_apply_luma_lies_between_channels() {
    let mut img = RgbaRaster::new(3, 2);
    img.put_pixel(0, 0, [200, 10, 20, 255]);
    img.put_pixel(1, 0, [77, 77, 77, 255]);
    img.put_pixel(2, 0, [0, 255, 0, 255]);
    img.put_pixel(0, 1, [5, 6, 7, 255]);
    img.put_pixel(1, 1, [255, 255, 255, 255]);
    img.put_pixel(2, 1, [0, 0, 0, 255]);
    // a single tile: the result is the luma itself
    let out = apply(&img, CLAHE_TILE_SIZE, CLAHE_CLIP_NUM, CLAHE_CLIP_DEN);
    let bounds = [(10, 200), (77, 77), (0, 255), (5, 7), (255, 255), (0, 0)];
    for (k, (lo, hi)) in bounds.iter().enumerate() {
        assert!(*lo <= out.data[k] && out.data[k] <= *hi, "pixel {k}: {}", out.data[k]);
    }
    // and near the Rec. 709 luma: 0.2126 R + 0.7152 G + 0.0722 B
    let colours = [[200, 10, 20], [77, 77, 77], [0, 255, 0], [5, 6, 7], [255, 255, 255], [0, 0, 0]];
    for (k, [r, g, b]) in colours.iter().enumerate() {
        let exact: i64 = 2126 * r + 7152 * g + 722 * b;
        let diff = 10000 * out.data[k] as i64 - exact;
        assert!(-5800 <= diff && diff <= 5800, "pixel {k}: {}", out.data[k]);
    }
}
