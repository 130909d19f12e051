use viua::ascii::charset::DEFAULT_CHARSET;
use viua::ascii::raster::{GrayRaster, RgbaRaster};
use viua::ascii::sobel::{convert, round_sqrt, sobel_magnitude};

fn test_charset() -> Vec<char> {
    DEFAULT_CHARSET.chars().collect()
}

#[test]
fn test_sobel_output_dimensions() {
    let img = RgbaRaster::new(100, 100);
    let art = convert(&img, 50, 25, &test_charset());
    assert_eq!(art.lines.len(), 25);
    assert_eq!(art.lines[0].len(), 50);
}

#[test]
fn test_sobel_black_image_no_edges() {
    let img = RgbaRaster::from_pixel(10, 10, [0, 0, 0, 255]);
    let art = convert(&img, 10, 5, &test_charset());
    assert_eq!(art.lines[0][0].char, '@');
}

#[test]
fn test_sobel_white_image_no_edges() {
    let img = RgbaRaster::from_pixel(10, 10, [255, 255, 255, 255]);
    let art = convert(&img, 10, 5, &test_charset());
    assert_eq!(art.lines[0][0].char, '@');
}

#[test]
fn test_sobel_edge_detects_contrast() {
    let mut img = RgbaRaster::new(20, 20);
    for y in 0..20 {
        for x in 0..20 {
            img.put_pixel(x, y, [if x < 10 { 0 } else { 255 }, 0, 0, 255]);
        }
    }
    let art = convert(&img, 20, 10, &test_charset());
    let mid_char = art.lines[5][10].char;
    assert!(
        mid_char != '@',
        "edge column should have a darker char than solid area"
    );
}

#[test]
fn round_sqrt_rounds_to_nearest() {
    assert_eq!(round_sqrt(0), 0);
    assert_eq!(round_sqrt(2), 1);
    assert_eq!(round_sqrt(3), 2);
    assert_eq!(round_sqrt(6), 2);
    assert_eq!(round_sqrt(7), 3);
    assert_eq!(round_sqrt(1_040_400), 1020);
}

#[test]
fn magnitude_of_a_vertical_step() {
    // columns 0, 0, 100, 100 in three rows
    let row = [0u8, 0, 100, 100];
    let mut data = Vec::new();
    for _ in 0..3 {
        data.extend_from_slice(&row);
    }
    let img = GrayRaster { width: 4, height: 3, data };
    let out = sobel_magnitude(&img);
    assert_eq!(out.width, 4);
    assert_eq!(out.height, 3);
    // interior (1,1): gx = 100 + 200 + 100 = 400, gy = 0 -> 400, saturated to 255
    assert_eq!(out.data[4 + 1], 255);
    assert_eq!(out.data[4 + 2], 255);
    // the border stays zero
    assert_eq!(out.data[0], 0);
    assert_eq!(out.data[4 + 3], 0);
    assert_eq!(out.data[8 + 1], 0);
}

#[test]
fn magnitude_rounds_the_root() {
    // a single step of 10 between columns: gx = 10 + 20 + 10 = 40 at (1,1)
    let row = [0u8, 0, 10];
    let mut data = Vec::new();
    for _ in 0..3 {
        data.extend_from_slice(&row);
    }
    let img = GrayRaster { width: 3, height: 3, data };
    let out = sobel_magnitude(&img);
    assert_eq!(out.data[4], 40);
}

#[test]
fn sobel_on_an_image_without_columns() {
    let img = RgbaRaster { width: 0, height: 2, data: vec![] };
    let art = convert(&img, 3, 2, &test_charset());
    assert_eq!(art.lines.len(), 2);
    assert_eq!(art.lines[0].len(), 3);
    assert_eq!(art.lines[1][2].char, '@');
    let edges = sobel_magnitude(&GrayRaster { width: 0, height: 1, data: vec![] });
    assert_eq!((edges.width, edges.height, edges.data.len()), (0, 1, 0));
}

#[test]
fn sobel_at_own_size_keeps_colours() {
    let mut img = RgbaRaster::new(3, 3);
    img.put_pixel(1, 1, [200, 10, 20, 255]);
    img.put_pixel(2, 0, [5, 6, 7, 255]);
    let art = convert(&img, 3, 3, &test_charset());
    let p = &art.lines[1][1];
    assert_eq!((p.r, p.g, p.b), (200, 10, 20));
    let q = &art.lines[0][2];
    assert_eq!((q.r, q.g, q.b), (5, 6, 7));
    // the border has no edges
    assert_eq!(art.lines[0][0].char, '@');
}
