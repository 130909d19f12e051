//! Edge mapping: Sobel gradient magnitude of the luma image, inverted, picks the
//! glyph; the colour comes from the resized input image.

use vstd::prelude::*;
use super::raster::{
    grid, lemma_distinct_pixels, lemma_grid_sample, lemma_sample_in_bounds, rec709_levels, resize_gray, resize_result,
    resize_rgba, sample_at, to_luma, GrayRaster, RgbaRaster,
};
use super::{glyph_for, glyphs_from_ramp, has_shape, is_ramp_glyph, pick_glyph, usable_charset, AsciiArt, AsciiPixel};

verus! {

/// The level of pixel `(x, y)` of a single-channel buffer `w` pixels wide.
pub open spec fn level_at(data: Seq<u8>, w: nat, x: int, y: int) -> int {
    sample_at(data, w, 1, x, y, 0) as int
}

/// Horizontal Sobel response at `(x, y)`.
pub open spec fn sobel_gx(data: Seq<u8>, w: nat, x: int, y: int) -> int {
    -level_at(data, w, x - 1, y - 1) + level_at(data, w, x + 1, y - 1)
        - 2 * level_at(data, w, x - 1, y) + 2 * level_at(data, w, x + 1, y)
        - level_at(data, w, x - 1, y + 1) + level_at(data, w, x + 1, y + 1)
}

/// Vertical Sobel response at `(x, y)`.
pub open spec fn sobel_gy(data: Seq<u8>, w: nat, x: int, y: int) -> int {
    -level_at(data, w, x - 1, y - 1) - 2 * level_at(data, w, x, y - 1)
        - level_at(data, w, x + 1, y - 1) + level_at(data, w, x - 1, y + 1)
        + 2 * level_at(data, w, x, y + 1) + level_at(data, w, x + 1, y + 1)
}

/// `m` is the square root of `n` rounded to the nearest whole number:
/// `m - 1/2 <= sqrt(n) < m + 1/2`.
pub open spec fn is_rounded_sqrt(m: nat, n: nat) -> bool {
    &&& (m == 0 ==> n == 0)
    &&& (m > 0 ==> (2 * m - 1) * (2 * m - 1) <= 4 * n)
    &&& 4 * n < (2 * m + 1) * (2 * m + 1)
}

/// The square root of `n` rounded to the nearest whole number.
pub open spec fn rounded_sqrt(n: nat) -> nat {
    choose|m: nat| is_rounded_sqrt(m, n)
}

/// A rounded square root is unique.
pub proof fn lemma_rounded_sqrt_unique(m1: nat, m2: nat, n: nat)
    requires
        is_rounded_sqrt(m1, n),
        is_rounded_sqrt(m2, n),
    ensures
        m1 == m2,
{
    if m1 < m2 {
        assert(false) by (nonlinear_arith)
            requires
                m1 < m2,
                m2 > 0,
                (2 * m2 - 1) * (2 * m2 - 1) <= 4 * n,
                4 * n < (2 * m1 + 1) * (2 * m1 + 1),
        ;
    } else if m2 < m1 {
        assert(false) by (nonlinear_arith)
            requires
                m2 < m1,
                m1 > 0,
                (2 * m1 - 1) * (2 * m1 - 1) <= 4 * n,
                4 * n < (2 * m2 + 1) * (2 * m2 + 1),
        ;
    }
}

/// The Sobel gradient magnitude at `(x, y)`, rounded and saturated to a level;
/// zero on the one-pixel border.
pub open spec fn edge_level(data: Seq<u8>, w: nat, h: nat, x: int, y: int) -> u8 {
    if 1 <= x < w - 1 && 1 <= y < h - 1 {
        let gx = sobel_gx(data, w, x, y);
        let gy = sobel_gy(data, w, x, y);
        let m = rounded_sqrt((gx * gx + gy * gy) as nat);
        if m > 255 { 255 } else { m as u8 }
    } else {
        0
    }
}

/// The edge levels of a `w` by `h` buffer, row-major.
pub open spec fn sobel_plane(data: Seq<u8>, w: nat, h: nat) -> Seq<u8> {
    Seq::new(w * h, |i: int| edge_level(data, w, h, i % (w as int), i / (w as int)))
}

/// A row-major buffer is determined by its pixels.
proof fn lemma_plane_from_pixels(out: Seq<u8>, data: Seq<u8>, w: nat, h: nat)
    requires
        w >= 1,
        out.len() == w * h,
        forall|x: int, y: int|
            0 <= x < w && 0 <= y < h ==> #[trigger] sample_at(out, w, 1, x, y, 0) == edge_level(
                data,
                w,
                h,
                x,
                y,
            ),
    ensures
        out == sobel_plane(data, w, h),
{
    assert forall|i: int| 0 <= i < w * h implies out[i] == #[trigger] sobel_plane(data, w, h)[i] by {
        let x = i % (w as int);
        let y = i / (w as int);
        vstd::arithmetic::div_mod::lemma_fundamental_div_mod(i, w as int);
        vstd::arithmetic::div_mod::lemma_mod_bound(i, w as int);
        assert(0 <= y < h) by (nonlinear_arith)
            requires
                0 <= i < w * h,
                i == w * y + x,
                0 <= x < w,
        ;
        assert((y * w + x) * 1 + 0 == i) by (nonlinear_arith)
            requires
                i == w * y + x,
        ;
        assert(sample_at(out, w, 1, x, y, 0) == out[i]);
    }
    assert(out =~= sobel_plane(data, w, h));
}

/// A flat image has no edges: every edge level of a buffer whose pixels all have
/// the same level is zero.
pub proof fn lemma_flat_image_has_no_edges(data: Seq<u8>, w: nat, h: nat, c: u8, x: int, y: int)
    requires
        data.len() == w * h,
        forall|xx: int, yy: int| 0 <= xx < w && 0 <= yy < h ==> #[trigger] level_at(data, w, xx, yy) == c,
        0 <= x < w,
        0 <= y < h,
    ensures
        edge_level(data, w, h, x, y) == 0,
{
    if 1 <= x < w - 1 && 1 <= y < h - 1 {
        assert(level_at(data, w, x - 1, y - 1) == c);
        assert(level_at(data, w, x, y - 1) == c);
        assert(level_at(data, w, x + 1, y - 1) == c);
        assert(level_at(data, w, x - 1, y) == c);
        assert(level_at(data, w, x + 1, y) == c);
        assert(level_at(data, w, x - 1, y + 1) == c);
        assert(level_at(data, w, x, y + 1) == c);
        assert(level_at(data, w, x + 1, y + 1) == c);
        assert(sobel_gx(data, w, x, y) == 0);
        assert(sobel_gy(data, w, x, y) == 0);
        assert((2 * 0nat + 1) * (2 * 0nat + 1) == 1) by (nonlinear_arith);
        assert(is_rounded_sqrt(0, 0));
        lemma_rounded_sqrt_unique(0, rounded_sqrt(0), 0);
        assert(rounded_sqrt(0) == 0);
        let gx = sobel_gx(data, w, x, y);
        let gy = sobel_gy(data, w, x, y);
        assert(gx * gx + gy * gy == 0) by (nonlinear_arith)
            requires
                gx == 0,
                gy == 0,
        ;
    }
}

/// The transpose of a `w` by `h` single-channel buffer: the `h` by `w` buffer whose
/// pixel `(x, y)` is pixel `(y, x)` of `data`.
pub open spec fn transposed(data: Seq<u8>, w: nat, h: nat) -> Seq<u8> {
    grid(h, w, |x: int, y: int| sample_at(data, w, 1, y, x, 0))
}

/// The Sobel operator treats both axes alike: the vertical response of an image is
/// the horizontal response of its transpose at the transposed position, and the
/// other way round, so an edge has the same strength whichever way it runs.
pub proof fn lemma_sobel_transpose(data: Seq<u8>, w: nat, h: nat, x: int, y: int)
    requires
        1 <= x < w - 1,
        1 <= y < h - 1,
    ensures
        sobel_gy(data, w, x, y) == sobel_gx(transposed(data, w, h), h, y, x),
        sobel_gx(data, w, x, y) == sobel_gy(transposed(data, w, h), h, y, x),
        edge_level(data, w, h, x, y) == edge_level(transposed(data, w, h), h, w, y, x),
{
    let f = |a: int, b: int| sample_at(data, w, 1, b, a, 0);
    let t = transposed(data, w, h);
    lemma_grid_sample(h, w, f, y - 1, x - 1);
    lemma_grid_sample(h, w, f, y - 1, x);
    lemma_grid_sample(h, w, f, y - 1, x + 1);
    lemma_grid_sample(h, w, f, y, x - 1);
    lemma_grid_sample(h, w, f, y, x + 1);
    lemma_grid_sample(h, w, f, y + 1, x - 1);
    lemma_grid_sample(h, w, f, y + 1, x);
    lemma_grid_sample(h, w, f, y + 1, x + 1);
    let gx = sobel_gx(data, w, x, y);
    let gy = sobel_gy(data, w, x, y);
    assert(gx * gx + gy * gy == gy * gy + gx * gx);
}

/// A stronger edge never gets a later (lighter) glyph than a weaker one.
pub proof fn lemma_stronger_edge_darker_glyph(e1: u8, e2: u8, n: nat)
    requires
        e1 <= e2,
        n >= 1,
    ensures
        super::glyph_index((255 - e2) as nat, n) <= super::glyph_index((255 - e1) as nat, n),
{
    super::lemma_glyph_index_monotone((255 - e2) as nat, (255 - e1) as nat, n);
}

/// The square root of `n`, rounded to the nearest whole number.
pub fn round_sqrt(n: u32) -> (m: u32)
    requires
        n < 2048 * 2048,
    ensures
        is_rounded_sqrt(m as nat, n as nat),
        m as nat == rounded_sqrt(n as nat),
{
    let mut lo: u32 = 0;
    let mut hi: u32 = 2048;
    while hi - lo > 1
        invariant
            lo < hi <= 2048,
            lo * lo <= n,
            n < hi * hi,
        decreases hi - lo,
    {
        let mid = lo + (hi - lo) / 2;
        assert(mid * mid <= 2048 * 2048) by (nonlinear_arith)
            requires
                mid <= 2048,
        ;
        if mid * mid <= n {
            lo = mid;
        } else {
            hi = mid;
        }
    }
    assert(hi == lo + 1);
    let sq = lo * lo;
    let m = if n - sq > lo {
        lo + 1
    } else {
        lo
    };
    proof {
        let r = lo as int;
        let nn = n as int;
        if n - sq > lo {
            assert((2 * (r + 1) - 1) * (2 * (r + 1) - 1) <= 4 * nn) by (nonlinear_arith)
                requires
                    nn - r * r > r,
            ;
            assert(4 * nn < (2 * (r + 1) + 1) * (2 * (r + 1) + 1)) by (nonlinear_arith)
                requires
                    r >= 0,
                    nn < (r + 1) * (r + 1),
            ;
        } else {
            assert(r > 0 ==> (2 * r - 1) * (2 * r - 1) <= 4 * nn) by (nonlinear_arith)
                requires
                    r * r <= nn,
            ;
            assert(4 * nn < (2 * r + 1) * (2 * r + 1)) by (nonlinear_arith)
                requires
                    nn - r * r <= r,
            ;
            assert(r == 0 ==> nn == 0);
        }
        assert(is_rounded_sqrt(m as nat, n as nat));
        lemma_rounded_sqrt_unique(m as nat, rounded_sqrt(n as nat), n as nat);
    }
    m
}

/// The level of pixel `(x, y)`.
fn level_of(img: &GrayRaster, x: u32, y: u32) -> (v: i32)
    requires
        img.wf(),
        x < img.width,
        y < img.height,
    ensures
        v == level_at(img.data@, img.width as nat, x as int, y as int),
{
    proof {
        lemma_sample_in_bounds(x as int, y as int, img.width as int, img.height as int, 1, 0);
        assert(img.data.len() <= usize::MAX);
    }
    img.data[(y as usize) * (img.width as usize) + (x as usize)] as i32
}

/// The Sobel gradient magnitude of every pixel, rounded and saturated to a level;
/// the one-pixel border is zero. An image without columns must be at most two rows
/// high: taller ones would be scanned from column one.
pub fn sobel_magnitude(img: &GrayRaster) -> (out: GrayRaster)
    requires
        img.wf(),
        img.height >= 1,
        img.width >= 1 || img.height <= 2,
    ensures
        out.wf(),
        out.width == img.width,
        out.height == img.height,
        out.data@ == sobel_plane(img.data@, img.width as nat, img.height as nat),
        forall|x: int, y: int|
            0 <= x < img.width && 0 <= y < img.height ==> #[trigger] out.level(x, y) == edge_level(
                img.data@,
                img.width as nat,
                img.height as nat,
                x,
                y,
            ),
{
    let w = img.width;
    let h = img.height;
    let ghost data = img.data@;
    let ghost wn = w as nat;
    let ghost hn = h as nat;
    if w == 0 {
        let empty = GrayRaster { width: w, height: h, data: Vec::new() };
        proof {
            assert(wn * hn == 0) by (nonlinear_arith)
                requires
                    wn == 0,
            ;
            assert(empty.data@ =~= sobel_plane(data, wn, hn));
        }
        return empty;
    }
    let n: usize = img.data.len();
    let mut out: Vec<u8> = vec![0u8; n];
    proof {
        assert forall|i: int| 0 <= i < n implies out@[i] == 0u8 by {
            assert(cloned(0u8, out@[i]));
        }
        assert forall|xx: int, yy: int|
            0 <= xx < w && 0 <= yy < h implies #[trigger] sample_at(out@, wn, 1, xx, yy, 0) == if yy
                < 1 {
                edge_level(data, wn, hn, xx, yy)
            } else {
                0
            } by {
            lemma_sample_in_bounds(xx, yy, w as int, h as int, 1, 0);
        }
    }
    let mut y: u32 = 1;
    while y < h - 1
        invariant
            img.wf(),
            w == img.width,
            h == img.height,
            data == img.data@,
            wn == w,
            hn == h,
            w >= 1,
            h >= 1,
            1 <= y <= h,
            out@.len() == w * h,
            n == w * h,
            forall|xx: int, yy: int|
                0 <= xx < w && 0 <= yy < h ==> #[trigger] sample_at(out@, wn, 1, xx, yy, 0) == if yy
                    < y {
                    edge_level(data, wn, hn, xx, yy)
                } else {
                    0
                },
        decreases h - y,
    {
        let mut x: u32 = 1;
        while x < w - 1
            invariant
                img.wf(),
                w == img.width,
                h == img.height,
                data == img.data@,
                wn == w,
                hn == h,
                w >= 1,
                1 <= y,
                y + 1 < h,
                1 <= x <= w,
                out@.len() == w * h,
                n == w * h,
                forall|xx: int, yy: int|
                    0 <= xx < w && 0 <= yy < h ==> #[trigger] sample_at(out@, wn, 1, xx, yy, 0)
                        == if yy < y || (yy == y && xx < x) {
                        edge_level(data, wn, hn, xx, yy)
                    } else {
                        0
                    },
            decreases w - x,
        {
            let a = level_of(img, x - 1, y - 1);
            let b = level_of(img, x, y - 1);
            let c = level_of(img, x + 1, y - 1);
            let d = level_of(img, x - 1, y);
            let e = level_of(img, x + 1, y);
            let f = level_of(img, x - 1, y + 1);
            let g = level_of(img, x, y + 1);
            let k = level_of(img, x + 1, y + 1);
            assert(0 <= a <= 255 && 0 <= b <= 255 && 0 <= c <= 255 && 0 <= d <= 255);
            assert(0 <= e <= 255 && 0 <= f <= 255 && 0 <= g <= 255 && 0 <= k <= 255);
            let gx: i32 = -a + c - 2 * d + 2 * e - f + k;
            let gy: i32 = -a - 2 * b - c + f + 2 * g + k;
            assert(-1020 <= gx <= 1020 && -1020 <= gy <= 1020);
            assert(0 <= gx * gx <= 1020 * 1020 && 0 <= gy * gy <= 1020 * 1020) by (nonlinear_arith)
                requires
                    -1020 <= gx <= 1020,
                    -1020 <= gy <= 1020,
            ;
            let sq: i32 = gx * gx + gy * gy;
            let mag = round_sqrt(sq as u32);
            let level: u8 = if mag > 255 {
                255
            } else {
                mag as u8
            };
            proof {
                lemma_sample_in_bounds(x as int, y as int, w as int, h as int, 1, 0);
            }
            assert(gx == sobel_gx(data, wn, x as int, y as int));
            assert(gy == sobel_gy(data, wn, x as int, y as int));
            assert(level == edge_level(data, wn, hn, x as int, y as int));
            let idx: usize = (y as usize) * (w as usize) + (x as usize);
            let ghost before = out@;
            out.set(idx, level);
            proof {
                assert forall|xx: int, yy: int|
                    0 <= xx < w && 0 <= yy < h implies #[trigger] sample_at(out@, wn, 1, xx, yy, 0)
                        == if yy < y || (yy == y && xx < x + 1) {
                        edge_level(data, wn, hn, xx, yy)
                    } else {
                        0
                    } by {
                    lemma_sample_in_bounds(xx, yy, w as int, h as int, 1, 0);
                    if xx != x || yy != y {
                        lemma_distinct_pixels(xx, yy, x as int, y as int, w as int);
                        assert(sample_at(out@, wn, 1, xx, yy, 0) == sample_at(before, wn, 1, xx, yy, 0));
                    }
                }
            }
            x = x + 1;
        }
        proof {
            assert forall|xx: int, yy: int|
                0 <= xx < w && 0 <= yy < h implies #[trigger] sample_at(out@, wn, 1, xx, yy, 0)
                    == if yy < y + 1 {
                    edge_level(data, wn, hn, xx, yy)
                } else {
                    0
                } by {
                if yy == y && xx >= x {
                    assert(edge_level(data, wn, hn, xx, yy) == 0);
                }
            }
        }
        y = y + 1;
    }
    let res = GrayRaster { width: w, height: h, data: out };
    proof {
        assert forall|x: int, y2: int|
            0 <= x < w && 0 <= y2 < h implies #[trigger] res.level(x, y2) == edge_level(
                data,
                wn,
                hn,
                x,
                y2,
            ) by {
            assert(sample_at(out@, wn, 1, x, y2, 0) == res.level(x, y2));
            if y2 >= y {
                assert(edge_level(data, wn, hn, x, y2) == 0);
            }
        }
        lemma_plane_from_pixels(out@, data, wn, hn);
    }
    res
}

/// The cell for pixel `(x, y)`: the glyph for the inverted edge level, drawn in the
/// colour of the same pixel of `colors`.
pub open spec fn edge_cell(edges: Seq<u8>, colors: Seq<u8>, w: nat, x: int, y: int, charset: Seq<char>) -> AsciiPixel {
    let e = sample_at(edges, w, 1, x, y, 0);
    AsciiPixel {
        char: glyph_for((255 - e) as nat, charset),
        r: sample_at(colors, w, 4, x, y, 0),
        g: sample_at(colors, w, 4, x, y, 1),
        b: sample_at(colors, w, 4, x, y, 2),
    }
}

/// Row `y` of the edge art.
pub open spec fn edge_row(edges: Seq<u8>, colors: Seq<u8>, w: nat, y: int, charset: Seq<char>) -> Seq<AsciiPixel> {
    Seq::new(w, |x: int| edge_cell(edges, colors, w, x, y, charset))
}

/// The edge art of `w` by `h` edge levels and colours: one cell per pixel.
pub open spec fn edge_art(edges: Seq<u8>, colors: Seq<u8>, w: nat, h: nat, charset: Seq<char>) -> Seq<Seq<AsciiPixel>> {
    Seq::new(h, |y: int| edge_row(edges, colors, w, y, charset))
}

/// One cell per pixel of already resized edge levels and colours: strong edges get
/// dark glyphs, flat areas light ones.
pub fn from_resized(edges: &GrayRaster, colors: &RgbaRaster, char_set: &[char]) -> (art: AsciiArt)
    requires
        edges.wf(),
        colors.wf(),
        edges.width == colors.width,
        edges.height == colors.height,
        usable_charset(char_set@),
    ensures
        art.cells() == edge_art(
            edges.data@,
            colors.data@,
            edges.width as nat,
            edges.height as nat,
            char_set@,
        ),
{
    let w = edges.width;
    let h = edges.height;
    let ghost target = edge_art(edges.data@, colors.data@, w as nat, h as nat, char_set@);
    let mut lines: Vec<Vec<AsciiPixel>> = Vec::new();
    let mut y: u32 = 0;
    while y < h
        invariant
            edges.wf(),
            colors.wf(),
            w == edges.width,
            h == edges.height,
            w == colors.width,
            h == colors.height,
            usable_charset(char_set@),
            target == edge_art(edges.data@, colors.data@, w as nat, h as nat, char_set@),
            y <= h,
            lines@.len() == y,
            forall|i: int| 0 <= i < y ==> (#[trigger] lines@[i])@ == target[i],
        decreases h - y,
    {
        let mut row: Vec<AsciiPixel> = Vec::new();
        let mut x: u32 = 0;
        while x < w
            invariant
                edges.wf(),
                colors.wf(),
                w == edges.width,
                h == edges.height,
                w == colors.width,
                h == colors.height,
                usable_charset(char_set@),
                target == edge_art(edges.data@, colors.data@, w as nat, h as nat, char_set@),
                y < h,
                x <= w,
                row@ =~= target[y as int].take(x as int),
            decreases w - x,
        {
            proof {
                lemma_sample_in_bounds(x as int, y as int, w as int, h as int, 4, 3);
                lemma_sample_in_bounds(x as int, y as int, w as int, h as int, 1, 0);
                assert(edges.data.len() <= usize::MAX);
                assert(colors.data.len() <= usize::MAX);
            }
            let pos: usize = (y as usize) * (w as usize) + (x as usize);
            let e = edges.data[pos];
            let inverted: u8 = 255 - e;
            let c = pick_glyph(inverted, char_set);
            let base: usize = pos * 4;
            let r = colors.data[base];
            let g = colors.data[base + 1];
            let b = colors.data[base + 2];
            row.push(AsciiPixel { char: c, r, g, b });
            x = x + 1;
        }
        lines.push(row);
        y = y + 1;
    }
    let art = AsciiArt { lines };
    assert(art.cells() =~= target);
    art
}

/// What edge mapping makes of a `width` by `height` image with samples `data` at
/// `new_width` by `new_height` cells, whatever the luma conversion and resampling
/// gave: the shape, every glyph the glyph of some level, and, at the image's own
/// size, one cell per pixel, drawn in the pixel's colour with the glyph for the
/// inverted Sobel magnitude of a luma image of that size whose levels are near
/// the Rec. 709 luma of the pixels; and at every size the cells are, in place, the
/// edge cells of a resize of such a magnitude image coloured by a resize of the
/// image.
pub open spec fn edge_fits(
    cells: Seq<Seq<AsciiPixel>>,
    width: u32,
    height: u32,
    data: Seq<u8>,
    new_width: u32,
    new_height: u32,
    charset: Seq<char>,
) -> bool {
    &&& has_shape(cells, new_width as nat, new_height as nat)
    &&& glyphs_from_ramp(cells, charset)
    &&& (new_width == width && new_height == height ==> exists|luma: Seq<u8>|
        luma.len() == width * height && rec709_levels(luma, data) && #[trigger] edge_art(
            sobel_plane(luma, width as nat, height as nat),
            data,
            width as nat,
            height as nat,
            charset,
        ) == cells)
    &&& exists|luma: Seq<u8>, edges: Seq<u8>, colors: Seq<u8>|
        #![trigger resize_result(sobel_plane(luma, width as nat, height as nat), width, height, 1, edges, new_width, new_height), resize_result(data, width, height, 4, colors, new_width, new_height)]
        luma.len() == width * height && rec709_levels(luma, data) && resize_result(
            sobel_plane(luma, width as nat, height as nat),
            width,
            height,
            1,
            edges,
            new_width,
            new_height,
        ) && resize_result(data, width, height, 4, colors, new_width, new_height) && cells == edge_art(
            edges,
            colors,
            new_width as nat,
            new_height as nat,
            charset,
        )
}

/// Edge art has its size, and every glyph is the glyph of some level.
pub proof fn lemma_edge_art_fits(edges: Seq<u8>, colors: Seq<u8>, w: nat, h: nat, charset: Seq<char>)
    ensures
        has_shape(edge_art(edges, colors, w, h, charset), w, h),
        glyphs_from_ramp(edge_art(edges, colors, w, h, charset), charset),
{
    let cells = edge_art(edges, colors, w, h, charset);
    assert forall|y: int| 0 <= y < h implies (#[trigger] cells[y]).len() == w by {}
    assert forall|y: int, x: int| 0 <= y < cells.len() && 0 <= x < cells[y].len() implies is_ramp_glyph(
        #[trigger] cells[y][x].char,
        charset,
    ) by {
        let e = sample_at(edges, w, 1, x, y, 0);
        let level: u8 = (255 - e) as u8;
        assert(cells[y][x] == edge_cell(edges, colors, w, x, y, charset));
        assert(glyph_for(level as nat, charset) == cells[y][x].char);
    }
}

/// Converts `img` to ASCII art of exactly `new_width` by `new_height` cells by edge
/// strength: luma, Sobel magnitude, resize; the colours come from the resized
/// input image.
pub fn convert(img: &RgbaRaster, new_width: u32, new_height: u32, char_set: &[char]) -> (art: AsciiArt)
    requires
        img.wf(),
        img.height >= 1,
        img.width >= 1 || img.height <= 2,
        usable_charset(char_set@),
        img.width * new_height * 4 <= usize::MAX,
        new_width * new_height * 4 <= usize::MAX,
    ensures
        edge_fits(art.cells(), img.width, img.height, img.data@, new_width, new_height, char_set@),
{
    let gray = to_luma(img);
    let edges = sobel_magnitude(&gray);
    let resized = resize_gray(&edges, new_width, new_height);
    let orig_resized = resize_rgba(img, new_width, new_height);
    let art = from_resized(&resized, &orig_resized, char_set);
    proof {
        lemma_edge_art_fits(resized.data@, orig_resized.data@, new_width as nat, new_height as nat, char_set@);
        assert(resize_result(
            sobel_plane(gray.data@, img.width as nat, img.height as nat),
            img.width,
            img.height,
            1,
            resized.data@,
            new_width,
            new_height,
        ));
        assert(resize_result(img.data@, img.width, img.height, 4, orig_resized.data@, new_width, new_height));
        if new_width == img.width && new_height == img.height {
            assert(edge_art(
                sobel_plane(gray.data@, img.width as nat, img.height as nat),
                img.data@,
                img.width as nat,
                img.height as nat,
                char_set@,
            ) == art.cells());
        }
    }
    art
}

} // verus!
