//! ASCII-art conversion: every output cell is a glyph chosen by brightness,
//! coloured with the pixel it stands for.

pub mod charset;
pub mod clahe;
pub mod lum;
pub mod raster;
pub mod sobel;

use vstd::prelude::*;
use raster::RgbaRaster;
use lum::luma_fits;
use sobel::edge_fits;
use clahe::clahe_fits;

verus! {

/// How an image is turned into glyphs.
#[derive(Clone, Copy, Debug, PartialEq, Eq, Structural)]
pub enum Algorithm {
    /// Glyph chosen by the luminance of the resized image.
    Luminance,
    /// Contrast-limited adaptive histogram equalisation, then luminance.
    LuminanceClahe,
    /// Glyph chosen by inverted Sobel edge strength.
    Sobel,
}

/// One output cell: a glyph and the colour it is drawn in.
#[derive(Clone, Copy, Debug)]
pub struct AsciiPixel {
    pub char: char,
    pub r: u8,
    pub g: u8,
    pub b: u8,
}

/// Rows of output cells, top to bottom.
pub struct AsciiArt {
    pub lines: Vec<Vec<AsciiPixel>>,
}

impl AsciiArt {
    /// The cells, row by row.
    pub open spec fn cells(&self) -> Seq<Seq<AsciiPixel>> {
        self.lines@.map_values(|row: Vec<AsciiPixel>| row@)
    }
}

/// The position in a charset of `n` glyphs (dark to light) that stands for
/// brightness `level` (0 to 255).
pub open spec fn glyph_index(level: nat, n: nat) -> nat {
    level * ((n - 1) as nat) / 255
}

/// The NTSC luminance `0.299 R + 0.587 G + 0.114 B` of a colour, truncated to a
/// whole level.
pub open spec fn ntsc_luma(r: u8, g: u8, b: u8) -> nat {
    ((299 * r + 587 * g + 114 * b) / 1000) as nat
}

/// A charset the glyph arithmetic can index: not empty, and small enough that
/// `level * (n - 1)` fits a `usize`.
pub open spec fn usable_charset(charset: Seq<char>) -> bool {
    &&& charset.len() >= 1
    &&& (charset.len() - 1) * 255 <= usize::MAX
}

/// The glyph for brightness `level`.
pub open spec fn glyph_for(level: nat, charset: Seq<char>) -> char {
    charset[glyph_index(level, charset.len()) as int]
}

/// A glyph position never leaves the charset.
pub proof fn lemma_glyph_index_in_range(level: nat, n: nat)
    requires
        level <= 255,
        n >= 1,
    ensures
        glyph_index(level, n) < n,
        glyph_index(level, n) <= n - 1,
{
    let m = (n - 1) as nat;
    assert(level * m <= 255 * m) by (nonlinear_arith)
        requires
            level <= 255,
    ;
    assert(level * m / 255 <= m) by (nonlinear_arith)
        requires
            level * m <= 255 * m,
    ;
}

/// Brighter pixels never get a glyph earlier (darker) in the charset.
pub proof fn lemma_glyph_index_monotone(a: nat, b: nat, n: nat)
    requires
        a <= b <= 255,
        n >= 1,
    ensures
        glyph_index(a, n) <= glyph_index(b, n),
{
    let m = (n - 1) as nat;
    assert(a * m <= b * m) by (nonlinear_arith)
        requires
            a <= b,
    ;
    assert(a * m / 255 <= b * m / 255) by (nonlinear_arith)
        requires
            a * m <= b * m,
    ;
}

/// Black maps to the first glyph and white to the last.
pub proof fn lemma_glyph_index_extremes(n: nat)
    requires
        n >= 1,
    ensures
        glyph_index(0, n) == 0,
        glyph_index(255, n) == n - 1,
{
    let m = (n - 1) as nat;
    assert(0 * m / 255 == 0) by (nonlinear_arith);
    assert(255 * m / 255 == m) by (nonlinear_arith);
}

/// A grey colour's luminance is its level.
pub proof fn lemma_gray_luminance(v: u8)
    ensures
        ntsc_luma(v, v, v) == v,
{
}

/// Luminance never exceeds the top level, and a colour that is at least as bright
/// in every channel has at least the luminance.
pub proof fn lemma_luminance_bounded_monotone(r1: u8, g1: u8, b1: u8, r2: u8, g2: u8, b2: u8)
    ensures
        ntsc_luma(r1, g1, b1) <= 255,
        r1 <= r2 && g1 <= g2 && b1 <= b2 ==> ntsc_luma(r1, g1, b1) <= ntsc_luma(r2, g2, b2),
{
}

/// A colour at least as bright in every channel never gets an earlier (darker) glyph.
pub proof fn lemma_brighter_colour_lighter_glyph(r1: u8, g1: u8, b1: u8, r2: u8, g2: u8, b2: u8, n: nat)
    requires
        r1 <= r2,
        g1 <= g2,
        b1 <= b2,
        n >= 1,
    ensures
        glyph_index(ntsc_luma(r1, g1, b1), n) <= glyph_index(ntsc_luma(r2, g2, b2), n),
{
    lemma_luminance_bounded_monotone(r1, g1, b1, r2, g2, b2);
    lemma_luminance_bounded_monotone(r2, g2, b2, r2, g2, b2);
    lemma_glyph_index_monotone(ntsc_luma(r1, g1, b1), ntsc_luma(r2, g2, b2), n);
}

/// The position of the glyph for brightness `level` in a charset of `n` glyphs.
pub fn char_index(level: u8, n: usize) -> (idx: usize)
    requires
        n >= 1,
        (n - 1) * 255 <= usize::MAX,
    ensures
        idx == glyph_index(level as nat, n as nat),
        idx < n,
{
    proof {
        lemma_glyph_index_in_range(level as nat, n as nat);
        assert((level as nat) * ((n - 1) as nat) <= 255 * ((n - 1) as nat)) by (nonlinear_arith)
            requires
                level <= 255,
        ;
    }
    let idx = (level as usize) * (n - 1) / 255;
    if idx < n - 1 {
        idx
    } else {
        n - 1
    }
}

/// The glyph for brightness `level`.
pub fn pick_glyph(level: u8, charset: &[char]) -> (c: char)
    requires
        usable_charset(charset@),
    ensures
        c == glyph_for(level as nat, charset@),
{
    let idx = char_index(level, charset.len());
    charset[idx]
}

/// The NTSC luminance of a colour.
pub fn luminance(r: u8, g: u8, b: u8) -> (l: u8)
    ensures
        l == ntsc_luma(r, g, b),
{
    let sum: u32 = 299 * (r as u32) + 587 * (g as u32) + 114 * (b as u32);
    (sum / 1000) as u8
}

/// `h` rows of `w` cells.
pub open spec fn has_shape(cells: Seq<Seq<AsciiPixel>>, w: nat, h: nat) -> bool {
    &&& cells.len() == h
    &&& forall|y: int| 0 <= y < h ==> (#[trigger] cells[y]).len() == w
}

/// Every cell is drawn with the glyph for the luminance of its own colour.
pub open spec fn glyphs_follow_colour(cells: Seq<Seq<AsciiPixel>>, charset: Seq<char>) -> bool {
    forall|y: int, x: int|
        0 <= y < cells.len() && 0 <= x < cells[y].len() ==> #[trigger] cells[y][x].char == glyph_for(
            ntsc_luma(cells[y][x].r, cells[y][x].g, cells[y][x].b),
            charset,
        )
}

/// Every cell is grey.
pub open spec fn cells_grey(cells: Seq<Seq<AsciiPixel>>) -> bool {
    forall|y: int, x: int|
        0 <= y < cells.len() && 0 <= x < cells[y].len() ==> #[trigger] cells[y][x].r == cells[y][x].g
            && cells[y][x].g == cells[y][x].b
}

/// `c` is the glyph of some brightness level.
pub open spec fn is_ramp_glyph(c: char, charset: Seq<char>) -> bool {
    exists|level: u8| #[trigger] glyph_for(level as nat, charset) == c
}

/// Every cell's glyph is the glyph of some brightness level.
pub open spec fn glyphs_from_ramp(cells: Seq<Seq<AsciiPixel>>, charset: Seq<char>) -> bool {
    forall|y: int, x: int|
        0 <= y < cells.len() && 0 <= x < cells[y].len() ==> is_ramp_glyph(#[trigger] cells[y][x].char, charset)
}

/// What `algo` makes of a `width` by `height` RGBA image with samples `data` at
/// `new_width` by `new_height` cells, whatever the resampling and luma conversion
/// of the `image` crate gave.
pub open spec fn conversion_fits(
    cells: Seq<Seq<AsciiPixel>>,
    width: u32,
    height: u32,
    data: Seq<u8>,
    new_width: u32,
    new_height: u32,
    charset: Seq<char>,
    algo: Algorithm,
) -> bool {
    match algo {
        Algorithm::Luminance => luma_fits(cells, width, height, data, new_width, new_height, charset),
        Algorithm::LuminanceClahe => clahe_fits(cells, width, height, data, new_width, new_height, charset),
        Algorithm::Sobel => edge_fits(cells, width, height, data, new_width, new_height, charset),
    }
}

/// Every algorithm gives exactly `new_height` rows of `new_width` cells.
pub proof fn lemma_conversion_shape(
    cells: Seq<Seq<AsciiPixel>>,
    width: u32,
    height: u32,
    data: Seq<u8>,
    new_width: u32,
    new_height: u32,
    charset: Seq<char>,
    algo: Algorithm,
)
    requires
        conversion_fits(cells, width, height, data, new_width, new_height, charset, algo),
    ensures
        has_shape(cells, new_width as nat, new_height as nat),
{
}

/// Converts `img` to ASCII art of exactly `new_width` by `new_height` cells with
/// the chosen algorithm.
pub fn convert(img: &RgbaRaster, new_width: u32, new_height: u32, char_set: &[char], algo: Algorithm) -> (art: AsciiArt)
    requires
        img.wf(),
        usable_charset(char_set@),
        img.width * new_height * 4 <= usize::MAX,
        new_width * new_height * 4 <= usize::MAX,
        algo == Algorithm::Sobel ==> img.height >= 1 && (img.width >= 1 || img.height <= 2),
    ensures
        conversion_fits(art.cells(), img.width, img.height, img.data@, new_width, new_height, char_set@, algo),
{
    match algo {
        Algorithm::Luminance => lum::convert_exact(img, new_width, new_height, char_set),
        Algorithm::LuminanceClahe => clahe::convert(img, new_width, new_height, char_set),
        Algorithm::Sobel => sobel::convert(img, new_width, new_height, char_set),
    }
}

} // verus!
