//! Luminance mapping: resize, then pick each glyph by the NTSC luminance of
//! the pixel it stands for.

use vstd::prelude::*;
use super::raster::{
    is_uniform, lemma_sample_in_bounds, moderate_scale, precise_scale, resize_result, resize_rgba, sample_at,
    uniform_around, GrayRaster, RgbaRaster,
};
use super::{
    cells_grey, glyph_for, glyphs_follow_colour, has_shape, luminance, ntsc_luma, pick_glyph, usable_charset, AsciiArt,
    AsciiPixel,
};
use crate::layout::{aspect_height, scaled_height};

verus! {

/// The cell for pixel `(x, y)` of an RGBA buffer `w` pixels wide.
pub open spec fn luma_cell(data: Seq<u8>, w: nat, x: int, y: int, charset: Seq<char>) -> AsciiPixel {
    let r = sample_at(data, w, 4, x, y, 0);
    let g = sample_at(data, w, 4, x, y, 1);
    let b = sample_at(data, w, 4, x, y, 2);
    AsciiPixel { char: glyph_for(ntsc_luma(r, g, b), charset), r, g, b }
}

/// Row `y` of the luminance art of a `w`-pixel-wide RGBA buffer.
pub open spec fn luma_row(data: Seq<u8>, w: nat, y: int, charset: Seq<char>) -> Seq<AsciiPixel> {
    Seq::new(w, |x: int| luma_cell(data, w, x, y, charset))
}

/// The luminance art of a `w` by `h` RGBA buffer: one cell per pixel.
pub open spec fn luma_art(data: Seq<u8>, w: nat, h: nat, charset: Seq<char>) -> Seq<Seq<AsciiPixel>> {
    Seq::new(h, |y: int| luma_row(data, w, y, charset))
}

/// Every cell is drawn in the colour `p` with the glyph for its luminance.
pub open spec fn uniform_cells(cells: Seq<Seq<AsciiPixel>>, p: Seq<u8>, charset: Seq<char>) -> bool {
    forall|y: int, x: int|
        0 <= y < cells.len() && 0 <= x < cells[y].len() ==> #[trigger] cells[y][x] == (AsciiPixel {
            char: glyph_for(ntsc_luma(p[0], p[1], p[2]), charset),
            r: p[0],
            g: p[1],
            b: p[2],
        })
}

/// What luminance mapping makes of a `width` by `height` image with samples `data`
/// at `new_width` by `new_height` cells, whatever the resampling gave: the shape,
/// every glyph picked by its cell's colour; at the image's own size, one cell per
/// pixel of the image; at a moderate scale, an image of one colour gives cells of
/// that colour only; and at every size the cells are, in place, the luminance cells
/// of a resize of the image.
pub open spec fn luma_fits(
    cells: Seq<Seq<AsciiPixel>>,
    width: u32,
    height: u32,
    data: Seq<u8>,
    new_width: u32,
    new_height: u32,
    charset: Seq<char>,
) -> bool {
    &&& has_shape(cells, new_width as nat, new_height as nat)
    &&& glyphs_follow_colour(cells, charset)
    &&& (new_width == width && new_height == height ==> cells == luma_art(
        data,
        new_width as nat,
        new_height as nat,
        charset,
    ))
    &&& (moderate_scale(width, height, new_width, new_height) ==> forall|p: Seq<u8>|
        #[trigger] is_uniform(data, width as nat, height as nat, 4, p) ==> uniform_cells(cells, p, charset))
    &&& exists|resized: Seq<u8>|
        #[trigger] resize_result(data, width, height, 4, resized, new_width, new_height) && cells == luma_art(
            resized,
            new_width as nat,
            new_height as nat,
            charset,
        )
}

/// Luminance art keeps the picture in place: at a precise scale, a cell whose
/// source pixels within reach all have the colour `p` is drawn in `p` with the glyph
/// for its luminance, so each cell shows the part of the image at its own position.
pub proof fn lemma_luma_cell_in_place(
    cells: Seq<Seq<AsciiPixel>>,
    width: u32,
    height: u32,
    data: Seq<u8>,
    new_width: u32,
    new_height: u32,
    charset: Seq<char>,
    x: int,
    y: int,
    p: Seq<u8>,
)
    requires
        luma_fits(cells, width, height, data, new_width, new_height, charset),
        precise_scale(width, height, new_width, new_height),
        0 <= x < new_width,
        0 <= y < new_height,
        uniform_around(data, width as nat, height as nat, 4, new_width as nat, new_height as nat, x, y, p),
    ensures
        cells[y][x] == (AsciiPixel {
            char: glyph_for(ntsc_luma(p[0], p[1], p[2]), charset),
            r: p[0],
            g: p[1],
            b: p[2],
        }),
{
    let resized = choose|resized: Seq<u8>|
        #[trigger] resize_result(data, width, height, 4, resized, new_width, new_height) && cells == luma_art(
            resized,
            new_width as nat,
            new_height as nat,
            charset,
        );
    let w = new_width as nat;
    assert(sample_at(resized, w, 4, x, y, 0) == p[0]);
    assert(sample_at(resized, w, 4, x, y, 1) == p[1]);
    assert(sample_at(resized, w, 4, x, y, 2) == p[2]);
    assert(cells[y][x] == luma_cell(resized, w, x, y, charset));
}

/// Luminance art has its size and draws every cell with the glyph for its colour.
pub proof fn lemma_luma_art_fits(data: Seq<u8>, w: nat, h: nat, charset: Seq<char>)
    ensures
        has_shape(luma_art(data, w, h, charset), w, h),
        glyphs_follow_colour(luma_art(data, w, h, charset), charset),
{
    let cells = luma_art(data, w, h, charset);
    assert forall|y: int| 0 <= y < h implies (#[trigger] cells[y]).len() == w by {}
    assert forall|y: int, x: int| 0 <= y < cells.len() && 0 <= x < cells[y].len() implies #[trigger] cells[y][x].char
        == glyph_for(ntsc_luma(cells[y][x].r, cells[y][x].g, cells[y][x].b), charset) by {
        assert(cells[y][x] == luma_cell(data, w, x, y, charset));
    }
}

/// One cell per pixel of an already resized image: the glyph for its luminance,
/// drawn in its colour.
pub fn from_resized(img: &RgbaRaster, char_set: &[char]) -> (art: AsciiArt)
    requires
        img.wf(),
        usable_charset(char_set@),
    ensures
        art.cells() == luma_art(img.data@, img.width as nat, img.height as nat, char_set@),
{
    let w = img.width;
    let h = img.height;
    let ghost data = img.data@;
    let ghost target = luma_art(data, w as nat, h as nat, char_set@);
    let mut lines: Vec<Vec<AsciiPixel>> = Vec::new();
    let mut y: u32 = 0;
    while y < h
        invariant
            img.wf(),
            w == img.width,
            h == img.height,
            data == img.data@,
            usable_charset(char_set@),
            target == luma_art(data, w as nat, h as nat, char_set@),
            y <= h,
            lines@.len() == y,
            forall|i: int| 0 <= i < y ==> (#[trigger] lines@[i])@ == target[i],
        decreases h - y,
    {
        let mut row: Vec<AsciiPixel> = Vec::new();
        let mut x: u32 = 0;
        while x < w
            invariant
                img.wf(),
                w == img.width,
                h == img.height,
                data == img.data@,
                usable_charset(char_set@),
                target == luma_art(data, w as nat, h as nat, char_set@),
                y < h,
                x <= w,
                row@ =~= target[y as int].take(x as int),
            decreases w - x,
        {
            proof {
                lemma_sample_in_bounds(x as int, y as int, w as int, h as int, 4, 3);
                assert(img.data.len() <= usize::MAX);
            }
            let base: usize = ((y as usize) * (w as usize) + (x as usize)) * 4;
            let r = img.data[base];
            let g = img.data[base + 1];
            let b = img.data[base + 2];
            let level = luminance(r, g, b);
            let c = pick_glyph(level, char_set);
            row.push(AsciiPixel { char: c, r, g, b });
            x = x + 1;
        }
        lines.push(row);
        y = y + 1;
    }
    let art = AsciiArt { lines };
    assert(art.cells() =~= target);
    art
}

/// Resizes `img` to exactly `new_width` by `new_height` and maps every pixel of the
/// result to a glyph by its luminance.
pub fn convert_exact(img: &RgbaRaster, new_width: u32, new_height: u32, char_set: &[char]) -> (art: AsciiArt)
    requires
        img.wf(),
        usable_charset(char_set@),
        img.width * new_height * 4 <= usize::MAX,
        new_width * new_height * 4 <= usize::MAX,
    ensures
        luma_fits(art.cells(), img.width, img.height, img.data@, new_width, new_height, char_set@),
{
    let resized = resize_rgba(img, new_width, new_height);
    let art = from_resized(&resized, char_set);
    proof {
        lemma_luma_art_fits(resized.data@, new_width as nat, new_height as nat, char_set@);
        assert(resize_result(img.data@, img.width, img.height, 4, resized.data@, new_width, new_height));
        if moderate_scale(img.width, img.height, new_width, new_height) {
            assert forall|p: Seq<u8>|
                #[trigger] is_uniform(img.data@, img.width as nat, img.height as nat, 4, p) implies uniform_cells(
                art.cells(),
                p,
                char_set@,
            ) by {
                let data = resized.data@;
                let w = new_width as nat;
                assert(is_uniform(data, w, new_height as nat, 4, p));
                assert forall|y: int, x: int|
                    0 <= y < art.cells().len() && 0 <= x < art.cells()[y].len() implies #[trigger] art.cells()[y][x]
                    == (AsciiPixel {
                    char: glyph_for(ntsc_luma(p[0], p[1], p[2]), char_set@),
                    r: p[0],
                    g: p[1],
                    b: p[2],
                }) by {
                    assert(art.cells()[y][x] == luma_cell(data, w, x, y, char_set@));
                    assert(sample_at(data, w, 4, x, y, 0) == p[0]);
                    assert(sample_at(data, w, 4, x, y, 1) == p[1]);
                    assert(sample_at(data, w, 4, x, y, 2) == p[2]);
                }
            }
        }
    }
    art
}

/// Converts `img` to ASCII art `new_width` cells wide; the number of rows keeps the
/// image's aspect ratio with cells twice as tall as wide.
pub fn convert(img: &RgbaRaster, new_width: u32, char_set: &[char]) -> (art: AsciiArt)
    requires
        img.wf(),
        usable_charset(char_set@),
        img.width * aspect_height(new_width, img.width, img.height) * 4 <= usize::MAX,
        new_width * aspect_height(new_width, img.width, img.height) * 4 <= usize::MAX,
    ensures
        luma_fits(
            art.cells(),
            img.width,
            img.height,
            img.data@,
            new_width,
            aspect_height(new_width, img.width, img.height),
            char_set@,
        ),
{
    let new_height = scaled_height(new_width, img.width, img.height);
    convert_exact(img, new_width, new_height, char_set)
}

/// The cell for pixel `(x, y)` of a single-channel buffer `w` pixels wide: a grey
/// pixel of that level.
pub open spec fn gray_cell(data: Seq<u8>, w: nat, x: int, y: int, charset: Seq<char>) -> AsciiPixel {
    let v = sample_at(data, w, 1, x, y, 0);
    AsciiPixel { char: glyph_for(ntsc_luma(v, v, v), charset), r: v, g: v, b: v }
}

/// Row `y` of the luminance art of a single-channel buffer.
pub open spec fn gray_row(data: Seq<u8>, w: nat, y: int, charset: Seq<char>) -> Seq<AsciiPixel> {
    Seq::new(w, |x: int| gray_cell(data, w, x, y, charset))
}

/// The luminance art of a `w` by `h` single-channel buffer: one grey cell per pixel.
pub open spec fn gray_luma_art(data: Seq<u8>, w: nat, h: nat, charset: Seq<char>) -> Seq<Seq<AsciiPixel>> {
    Seq::new(h, |y: int| gray_row(data, w, y, charset))
}

/// Grey luminance art has its size, is grey, and draws every cell with the glyph
/// for its colour.
pub proof fn lemma_gray_art_fits(data: Seq<u8>, w: nat, h: nat, charset: Seq<char>)
    ensures
        has_shape(gray_luma_art(data, w, h, charset), w, h),
        cells_grey(gray_luma_art(data, w, h, charset)),
        glyphs_follow_colour(gray_luma_art(data, w, h, charset), charset),
{
    let cells = gray_luma_art(data, w, h, charset);
    assert forall|y: int| 0 <= y < h implies (#[trigger] cells[y]).len() == w by {}
    assert forall|y: int, x: int| 0 <= y < cells.len() && 0 <= x < cells[y].len() implies #[trigger] cells[y][x].r
        == cells[y][x].g && cells[y][x].g == cells[y][x].b by {
        assert(cells[y][x] == gray_cell(data, w, x, y, charset));
    }
    assert forall|y: int, x: int| 0 <= y < cells.len() && 0 <= x < cells[y].len() implies #[trigger] cells[y][x].char
        == glyph_for(ntsc_luma(cells[y][x].r, cells[y][x].g, cells[y][x].b), charset) by {
        assert(cells[y][x] == gray_cell(data, w, x, y, charset));
    }
}

/// One cell per pixel of an already resized single-channel image: the glyph for its
/// luminance, drawn in its grey.
pub fn from_resized_gray(img: &GrayRaster, char_set: &[char]) -> (art: AsciiArt)
    requires
        img.wf(),
        usable_charset(char_set@),
    ensures
        art.cells() == gray_luma_art(img.data@, img.width as nat, img.height as nat, char_set@),
{
    let w = img.width;
    let h = img.height;
    let ghost data = img.data@;
    let ghost target = gray_luma_art(data, w as nat, h as nat, char_set@);
    let mut lines: Vec<Vec<AsciiPixel>> = Vec::new();
    let mut y: u32 = 0;
    while y < h
        invariant
            img.wf(),
            w == img.width,
            h == img.height,
            data == img.data@,
            usable_charset(char_set@),
            target == gray_luma_art(data, w as nat, h as nat, char_set@),
            y <= h,
            lines@.len() == y,
            forall|i: int| 0 <= i < y ==> (#[trigger] lines@[i])@ == target[i],
        decreases h - y,
    {
        let mut row: Vec<AsciiPixel> = Vec::new();
        let mut x: u32 = 0;
        while x < w
            invariant
                img.wf(),
                w == img.width,
                h == img.height,
                data == img.data@,
                usable_charset(char_set@),
                target == gray_luma_art(data, w as nat, h as nat, char_set@),
                y < h,
                x <= w,
                row@ =~= target[y as int].take(x as int),
            decreases w - x,
        {
            proof {
                lemma_sample_in_bounds(x as int, y as int, w as int, h as int, 1, 0);
                assert(img.data.len() <= usize::MAX);
            }
            let v = img.data[(y as usize) * (w as usize) + (x as usize)];
            let level = luminance(v, v, v);
            let c = pick_glyph(level, char_set);
            row.push(AsciiPixel { char: c, r: v, g: v, b: v });
            x = x + 1;
        }
        lines.push(row);
        y = y + 1;
    }
    let art = AsciiArt { lines };
    assert(art.cells() =~= target);
    art
}

} // verus!
