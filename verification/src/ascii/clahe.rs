//! Contrast-limited adaptive histogram equalisation (CLAHE) of the luma image:
//! one clipped, redistributed histogram per tile, its cumulative distribution as
//! a lookup table, and bilinear blending of the four nearest tables per pixel.

use vstd::prelude::*;
use super::raster::{
    grid, lemma_distinct_pixels, lemma_grid_ext, lemma_grid_sample, lemma_sample_in_bounds, rec709_levels, resize_gray,
    precise_scale, resize_result, sample_at, to_luma, uniform_around, GrayRaster, RgbaRaster,
};
use super::lum::{from_resized_gray, gray_cell, gray_luma_art, lemma_gray_art_fits};
use super::{cells_grey, glyph_for, glyphs_follow_colour, has_shape, ntsc_luma, usable_charset, AsciiArt, AsciiPixel};

verus! {

/// How often level `v` occurs in `s`.
pub open spec fn count_level(s: Seq<u8>, v: int) -> nat
    decreases s.len(),
{
    if s.len() == 0 {
        0
    } else {
        count_level(s.drop_last(), v) + if s.last() == v { 1nat } else { 0nat }
    }
}

/// The 256-bin histogram of `s`.
pub open spec fn histogram(s: Seq<u8>) -> Seq<nat> {
    Seq::new(256, |v: int| count_level(s, v))
}

/// The clip threshold of a tile of `pixels` pixels with the clip limit
/// `clip_num / clip_den`: `pixels / 256 * clip_num / clip_den`, truncated, at
/// least one.
pub open spec fn clip_level(pixels: nat, clip_num: nat, clip_den: nat) -> nat {
    let c = pixels * clip_num / (256 * clip_den);
    if c < 1 { 1 } else { c }
}

/// The counts above `clip`, summed over all bins.
pub open spec fn excess(hist: Seq<nat>, clip: nat) -> nat
    decreases hist.len(),
{
    if hist.len() == 0 {
        0
    } else {
        excess(hist.drop_last(), clip) + if hist.last() > clip { (hist.last() - clip) as nat } else { 0nat }
    }
}

/// Every bin clipped to `clip`, the excess spread evenly over all 256 bins and its
/// remainder one each over the lowest bins.
pub open spec fn redistribute(hist: Seq<nat>, clip: nat) -> Seq<nat> {
    let ex = excess(hist, clip);
    Seq::new(
        hist.len(),
        |v: int|
            (if hist[v] > clip { clip } else { hist[v] }) + ex / 256 + if v < ex % 256 { 1nat } else { 0nat },
    )
}

/// The sum of `s`.
pub open spec fn total(s: Seq<nat>) -> nat
    decreases s.len(),
{
    if s.len() == 0 {
        0
    } else {
        total(s.drop_last()) + s.last()
    }
}

/// The lookup table of a tile of `pixels` pixels with histogram `hist`: the
/// cumulative count of the redistributed histogram up to each level, scaled to
/// 0..255 and rounded.
pub open spec fn lut_from(hist: Seq<nat>, pixels: nat, clip_num: nat, clip_den: nat) -> Seq<u8> {
    let r = redistribute(hist, clip_level(pixels, clip_num, clip_den));
    Seq::new(
        256,
        |v: int|
            {
                let q = (510 * total(r.take(v + 1)) + pixels) / (2 * pixels);
                if q > 255 { 255u8 } else { q as u8 }
            },
    )
}

/// Row `y` of a tile that starts at column `x0` and is `tw` pixels wide.
pub open spec fn tile_row(g: Seq<u8>, w: nat, x0: int, y: int, tw: nat) -> Seq<u8> {
    Seq::new(tw, |dx: int| sample_at(g, w, 1, x0 + dx, y, 0))
}

/// The first `rows` rows of a tile, row-major.
pub open spec fn tile_rows(g: Seq<u8>, w: nat, x0: int, y0: int, tw: nat, rows: nat) -> Seq<u8>
    decreases rows,
{
    if rows == 0 {
        Seq::empty()
    } else {
        tile_rows(g, w, x0, y0, tw, (rows - 1) as nat) + tile_row(g, w, x0, y0 + rows - 1, tw)
    }
}

/// The number of tiles of size `ts` that cover `n` pixels.
pub open spec fn tiles_along(n: nat, ts: nat) -> nat {
    ((n + ts - 1) / ts as int) as nat
}

/// The extent of tile `t` along an axis of `n` pixels: `ts`, or what is left.
pub open spec fn tile_extent(n: nat, ts: nat, t: nat) -> nat {
    if ts < n - t * ts { ts } else { (n - t * ts) as nat }
}

/// The lookup table of tile `(tx, ty)`.
pub open spec fn tile_lut(g: Seq<u8>, w: nat, h: nat, ts: nat, clip_num: nat, clip_den: nat, tx: nat, ty: nat) -> Seq<u8> {
    let tw = tile_extent(w, ts, tx);
    let th = tile_extent(h, ts, ty);
    lut_from(histogram(tile_rows(g, w, (tx * ts) as int, (ty * ts) as int, tw, th)), tw * th, clip_num, clip_den)
}

/// Adding one level to the end of a sequence adds one to its bin.
proof fn lemma_count_push(s: Seq<u8>, p: u8, v: int)
    ensures
        count_level(s.push(p), v) == count_level(s, v) + if p == v { 1nat } else { 0nat },
{
    assert(s.push(p).drop_last() =~= s);
}

/// No bin counts more than the whole sequence.
proof fn lemma_count_bound(s: Seq<u8>, v: int)
    ensures
        count_level(s, v) <= s.len(),
    decreases s.len(),
{
    if s.len() > 0 {
        lemma_count_bound(s.drop_last(), v);
    }
}

/// The number of levels in the first `rows` rows of a tile.
proof fn lemma_tile_rows_len(g: Seq<u8>, w: nat, x0: int, y0: int, tw: nat, rows: nat)
    ensures
        tile_rows(g, w, x0, y0, tw, rows).len() == tw * rows,
    decreases rows,
{
    if rows > 0 {
        lemma_tile_rows_len(g, w, x0, y0, tw, (rows - 1) as nat);
        assert(tw * rows == tw * ((rows - 1) as nat) + tw) by (nonlinear_arith)
            requires
                rows > 0,
        ;
    } else {
        assert(tw * rows == 0) by (nonlinear_arith)
            requires
                rows == 0,
        ;
    }
}

/// The histogram of the tile whose top-left pixel is `(x0, y0)` and whose size is
/// `tw` by `th`.
fn tile_histogram(gray: &GrayRaster, x0: u32, y0: u32, tw: u32, th: u32) -> (hist: Vec<u64>)
    requires
        gray.wf(),
        x0 + tw <= gray.width,
        y0 + th <= gray.height,
        tw * th <= u32::MAX,
    ensures
        hist@.len() == 256,
        forall|v: int|
            0 <= v < 256 ==> #[trigger] hist@[v] as nat == count_level(
                tile_rows(gray.data@, gray.width as nat, x0 as int, y0 as int, tw as nat, th as nat),
                v,
            ),
        forall|v: int| 0 <= v < 256 ==> #[trigger] hist@[v] <= tw * th,
{
    let ghost g = gray.data@;
    let ghost w = gray.width as nat;
    let mut hist: Vec<u64> = Vec::new();
    let mut i: usize = 0;
    while i < 256
        invariant
            i <= 256,
            hist@.len() == i,
            forall|v: int| 0 <= v < i ==> #[trigger] hist@[v] == 0,
        decreases 256 - i,
    {
        hist.push(0);
        i = i + 1;
    }
    let mut dy: u32 = 0;
    while dy < th
        invariant
            gray.wf(),
            g == gray.data@,
            w == gray.width,
            x0 + tw <= gray.width,
            y0 + th <= gray.height,
            tw * th <= u32::MAX,
            dy <= th,
            hist@.len() == 256,
            forall|v: int|
                0 <= v < 256 ==> #[trigger] hist@[v] as nat == count_level(
                    tile_rows(g, w, x0 as int, y0 as int, tw as nat, dy as nat),
                    v,
                ),
        decreases th - dy,
    {
        let ghost done = tile_rows(g, w, x0 as int, y0 as int, tw as nat, dy as nat);
        let ghost row = tile_row(g, w, x0 as int, (y0 + dy) as int, tw as nat);
        proof {
            lemma_tile_rows_len(g, w, x0 as int, y0 as int, tw as nat, dy as nat);
            assert(tw * dy + tw <= tw * th) by (nonlinear_arith)
                requires
                    dy < th,
            ;
        }
        let mut dx: u32 = 0;
        while dx < tw
            invariant
                gray.wf(),
                g == gray.data@,
                w == gray.width,
                x0 + tw <= gray.width,
                y0 + th <= gray.height,
                tw * th <= u32::MAX,
                dy < th,
                dx <= tw,
                done == tile_rows(g, w, x0 as int, y0 as int, tw as nat, dy as nat),
                done.len() == tw * dy,
                tw * dy + tw <= tw * th,
                row == tile_row(g, w, x0 as int, (y0 + dy) as int, tw as nat),
                hist@.len() == 256,
                forall|v: int|
                    0 <= v < 256 ==> #[trigger] hist@[v] as nat == count_level(done + row.take(dx as int), v),
            decreases tw - dx,
        {
            let x = x0 + dx;
            let y = y0 + dy;
            proof {
                lemma_sample_in_bounds(x as int, y as int, gray.width as int, gray.height as int, 1, 0);
                assert(gray.data.len() <= usize::MAX);
            }
            let p = gray.data[(y as usize) * (gray.width as usize) + (x as usize)];
            let ghost before = done + row.take(dx as int);
            proof {
                lemma_count_bound(before, p as int);
                assert(before.len() == tw * dy + dx);
            }
            let cur = hist[p as usize];
            hist.set(p as usize, cur + 1);
            proof {
                assert(before.push(p) =~= done + row.take(dx + 1));
                assert forall|v: int|
                    0 <= v < 256 implies #[trigger] hist@[v] as nat == count_level(done + row.take(dx + 1), v) by {
                    lemma_count_push(before, p, v);
                }
            }
            dx = dx + 1;
        }
        proof {
            assert(row.take(tw as int) =~= row);
            assert(tile_rows(g, w, x0 as int, y0 as int, tw as nat, (dy + 1) as nat) =~= done + row);
        }
        dy = dy + 1;
    }
    proof {
        lemma_tile_rows_len(g, w, x0 as int, y0 as int, tw as nat, th as nat);
        assert forall|v: int| 0 <= v < 256 implies #[trigger] hist@[v] <= tw * th by {
            lemma_count_bound(tile_rows(g, w, x0 as int, y0 as int, tw as nat, th as nat), v);
        }
    }
    hist
}

/// The counts of a histogram as natural numbers.
pub open spec fn as_nats(s: Seq<u64>) -> Seq<nat> {
    Seq::new(s.len(), |i: int| s[i] as nat)
}

/// Adding one more bin to the excess.
proof fn lemma_excess_step(hist: Seq<nat>, clip: nat, v: int)
    requires
        0 <= v < hist.len(),
    ensures
        excess(hist.take(v + 1), clip) == excess(hist.take(v), clip) + if hist[v] > clip {
            (hist[v] - clip) as nat
        } else {
            0nat
        },
{
    assert(hist.take(v + 1).drop_last() =~= hist.take(v));
}

/// Adding one more bin to the running total.
proof fn lemma_total_step(s: Seq<nat>, v: int)
    requires
        0 <= v < s.len(),
    ensures
        total(s.take(v + 1)) == total(s.take(v)) + s[v],
{
    assert(s.take(v + 1).drop_last() =~= s.take(v));
}

/// Prefix sums of the clipped and of the redistributed histogram.
proof fn lemma_redistribute_prefix(hist: Seq<nat>, clip: nat, k: int)
    requires
        hist.len() == 256,
        0 <= k <= 256,
    ensures
        ({
            let ex = excess(hist, clip);
            let clipped = Seq::new(256, |v: int| if hist[v] > clip { clip } else { hist[v] });
            &&& total(redistribute(hist, clip).take(k)) == total(clipped.take(k)) + k * (ex / 256) + if k
                < ex % 256 {
                k
            } else {
                (ex % 256) as int
            }
            &&& total(hist.take(k)) == total(clipped.take(k)) + excess(hist.take(k), clip)
        }),
    decreases k,
{
    let ex = excess(hist, clip);
    let clipped = Seq::new(256, |v: int| if hist[v] > clip { clip } else { hist[v] });
    let r = redistribute(hist, clip);
    if k == 0 {
        assert(r.take(0) =~= Seq::<nat>::empty());
        assert(clipped.take(0) =~= Seq::<nat>::empty());
        assert(hist.take(0) =~= Seq::<nat>::empty());
    } else {
        lemma_redistribute_prefix(hist, clip, k - 1);
        lemma_total_step(r, k - 1);
        lemma_total_step(clipped, k - 1);
        lemma_total_step(hist, k - 1);
        lemma_excess_step(hist, clip, k - 1);
        assert(k * (ex / 256) == (k - 1) * (ex / 256) + ex / 256) by (nonlinear_arith);
    }
}

/// Redistribution keeps the number of pixels: clipping removes exactly the excess
/// and spreading puts all of it back.
pub proof fn lemma_redistribute_conserves(hist: Seq<nat>, clip: nat)
    requires
        hist.len() == 256,
    ensures
        total(redistribute(hist, clip)) == total(hist),
{
    let ex = excess(hist, clip);
    lemma_redistribute_prefix(hist, clip, 256);
    assert(redistribute(hist, clip).take(256) =~= redistribute(hist, clip));
    assert(hist.take(256) =~= hist);
    vstd::arithmetic::div_mod::lemma_fundamental_div_mod(ex as int, 256);
}

/// Raising one entry by one raises the sum by one.
proof fn lemma_total_bump(a: Seq<nat>, b: Seq<nat>, p: int)
    requires
        a.len() == b.len(),
        0 <= p < a.len(),
        b[p] == a[p] + 1,
        forall|i: int| 0 <= i < a.len() && i != p ==> b[i] == a[i],
    ensures
        total(b) == total(a) + 1,
    decreases a.len(),
{
    if p == a.len() - 1 {
        assert(b.drop_last() =~= a.drop_last());
    } else {
        lemma_total_bump(a.drop_last(), b.drop_last(), p);
    }
}

/// A histogram counts every level once.
pub proof fn lemma_histogram_total(s: Seq<u8>)
    ensures
        total(histogram(s)) == s.len(),
    decreases s.len(),
{
    if s.len() == 0 {
        lemma_total_zero(histogram(s), 256);
    } else {
        let t = s.drop_last();
        lemma_histogram_total(t);
        assert(t.push(s.last()) =~= s);
        assert forall|v: int| 0 <= v < 256 && v != s.last() implies histogram(s)[v] == histogram(t)[v] by {
            lemma_count_push(t, s.last(), v);
        }
        lemma_count_push(t, s.last(), s.last() as int);
        lemma_total_bump(histogram(t), histogram(s), s.last() as int);
    }
}

/// The sum of zeros is zero.
proof fn lemma_total_zero(s: Seq<nat>, n: nat)
    requires
        s.len() == n,
        forall|i: int| 0 <= i < n ==> s[i] == 0,
    ensures
        total(s) == 0,
    decreases n,
{
    if n > 0 {
        lemma_total_zero(s.drop_last(), (n - 1) as nat);
    }
}

/// Longer prefixes never sum to less.
proof fn lemma_total_prefix_monotone(s: Seq<nat>, a: int, b: int)
    requires
        0 <= a <= b <= s.len(),
    ensures
        total(s.take(a)) <= total(s.take(b)),
    decreases b - a,
{
    if a < b {
        lemma_total_prefix_monotone(s, a, b - 1);
        lemma_total_step(s, b - 1);
    }
}

/// A tile's lookup table never maps a darker level above a brighter one.
pub proof fn lemma_lut_monotone(hist: Seq<nat>, pixels: nat, clip_num: nat, clip_den: nat, a: int, b: int)
    requires
        hist.len() == 256,
        pixels >= 1,
        0 <= a <= b < 256,
    ensures
        lut_from(hist, pixels, clip_num, clip_den)[a] <= lut_from(hist, pixels, clip_num, clip_den)[b],
{
    let r = redistribute(hist, clip_level(pixels, clip_num, clip_den));
    lemma_total_prefix_monotone(r, a + 1, b + 1);
    let ca = total(r.take(a + 1));
    let cb = total(r.take(b + 1));
    assert((510 * ca + pixels) / (2 * pixels) <= (510 * cb + pixels) / (2 * pixels)) by (nonlinear_arith)
        requires
            ca <= cb,
            pixels >= 1,
    {
        vstd::arithmetic::div_mod::lemma_div_is_ordered(
            (510 * ca + pixels) as int,
            (510 * cb + pixels) as int,
            (2 * pixels) as int,
        );
    }
}

/// The brightest level of a tile maps to white when the histogram counts all the
/// tile's pixels.
pub proof fn lemma_lut_reaches_white(hist: Seq<nat>, pixels: nat, clip_num: nat, clip_den: nat)
    requires
        hist.len() == 256,
        pixels >= 1,
        total(hist) == pixels,
    ensures
        lut_from(hist, pixels, clip_num, clip_den)[255] == 255,
{
    let r = redistribute(hist, clip_level(pixels, clip_num, clip_den));
    lemma_redistribute_conserves(hist, clip_level(pixels, clip_num, clip_den));
    assert(r.take(256) =~= r);
    assert(510 * pixels + pixels == 255 * (2 * pixels) + pixels);
    vstd::arithmetic::div_mod::lemma_fundamental_div_mod_converse(
        (510 * pixels + pixels) as int,
        (2 * pixels) as int,
        255,
        pixels as int,
    );
}

/// Every tile's table maps the brightest level to white.
pub proof fn lemma_tile_lut_reaches_white(g: Seq<u8>, w: nat, h: nat, ts: nat, clip_num: nat, clip_den: nat, tx: nat, ty: nat)
    requires
        ts > 0,
        tx * ts < w,
        ty * ts < h,
    ensures
        tile_lut(g, w, h, ts, clip_num, clip_den, tx, ty)[255] == 255,
{
    let tw = tile_extent(w, ts, tx);
    let th = tile_extent(h, ts, ty);
    let s = tile_rows(g, w, (tx * ts) as int, (ty * ts) as int, tw, th);
    lemma_tile_rows_len(g, w, (tx * ts) as int, (ty * ts) as int, tw, th);
    lemma_histogram_total(s);
    assert(tw * th >= 1) by (nonlinear_arith)
        requires
            tw >= 1,
            th >= 1,
    ;
    lemma_lut_reaches_white(histogram(s), tw * th, clip_num, clip_den);
}

/// The lookup table of a tile of `pixels` pixels with histogram `hist`.
fn lut_of(hist: &Vec<u64>, pixels: u64, clip_num: u32, clip_den: u32) -> (lut: Vec<u8>)
    requires
        clip_den > 0,
        hist@.len() == 256,
        forall|v: int| 0 <= v < 256 ==> #[trigger] hist@[v] <= u32::MAX,
        1 <= pixels <= u32::MAX,
    ensures
        lut@ == lut_from(as_nats(hist@), pixels as nat, clip_num as nat, clip_den as nat),
{
    let ghost hn = as_nats(hist@);
    let ghost clip_n = clip_level(pixels as nat, clip_num as nat, clip_den as nat);
    assert((pixels as nat) * (clip_num as nat) <= (u32::MAX as nat) * (u32::MAX as nat)) by (nonlinear_arith)
        requires
            pixels <= u32::MAX,
            clip_num <= u32::MAX,
    ;
    let scaled: u64 = pixels * (clip_num as u64) / (256 * (clip_den as u64));
    let clip: u64 = if scaled < 1 {
        1
    } else {
        scaled
    };
    assert(clip == clip_n);
    let mut bins: Vec<u64> = hist.clone();
    let mut ex: u64 = 0;
    let mut v: usize = 0;
    while v < 256
        invariant
            hist@.len() == 256,
            forall|u: int| 0 <= u < 256 ==> #[trigger] hist@[u] <= u32::MAX,
            hn == as_nats(hist@),
            clip == clip_n,
            v <= 256,
            bins@.len() == 256,
            ex == excess(hn.take(v as int), clip as nat),
            ex <= v * 4294967295,
            forall|u: int| 0 <= u < v ==> #[trigger] bins@[u] == if hist@[u] > clip { clip } else { hist@[u] },
            forall|u: int| v <= u < 256 ==> #[trigger] bins@[u] == hist@[u],
        decreases 256 - v,
    {
        proof {
            lemma_excess_step(hn, clip as nat, v as int);
        }
        let b = bins[v];
        if b > clip {
            ex = ex + (b - clip);
            bins.set(v, clip);
        }
        v = v + 1;
    }
    assert(hn.take(256) =~= hn);
    let ghost ex_n = excess(hn, clip as nat);
    let ghost red = redistribute(hn, clip as nat);
    let share = ex / 256;
    let rem = ex % 256;
    let mut v: usize = 0;
    while v < 256
        invariant
            hist@.len() == 256,
            forall|u: int| 0 <= u < 256 ==> #[trigger] hist@[u] <= u32::MAX,
            hn == as_nats(hist@),
            clip == clip_n,
            clip <= u32::MAX || clip == clip_n,
            ex == ex_n,
            ex <= 256 * 4294967295,
            ex_n == excess(hn, clip as nat),
            red == redistribute(hn, clip as nat),
            share == ex / 256,
            rem == ex % 256,
            v <= 256,
            bins@.len() == 256,
            forall|u: int| 0 <= u < v ==> #[trigger] bins@[u] as nat == red[u],
            forall|u: int| v <= u < 256 ==> #[trigger] bins@[u] == if hist@[u] > clip { clip } else { hist@[u] },
            forall|u: int| 0 <= u < 256 ==> #[trigger] bins@[u] <= 8589934591,
        decreases 256 - v,
    {
        let b = bins[v];
        let extra: u64 = if (v as u64) < rem {
            1
        } else {
            0
        };
        bins.set(v, b + share + extra);
        v = v + 1;
    }
    assert(as_nats(bins@) =~= red);
    let mut lut: Vec<u8> = Vec::new();
    let mut cdf: u64 = 0;
    let mut v: usize = 0;
    while v < 256
        invariant
            1 <= pixels <= u32::MAX,
            red == redistribute(hn, clip_n),
            clip_n == clip_level(pixels as nat, clip_num as nat, clip_den as nat),
            hn == as_nats(hist@),
            clip == clip_n,
            bins@.len() == 256,
            as_nats(bins@) == red,
            forall|u: int| 0 <= u < 256 ==> #[trigger] bins@[u] <= 8589934591,
            v <= 256,
            cdf == total(red.take(v as int)),
            cdf <= v * (8589934591),
            lut@.len() == v,
            forall|u: int| 0 <= u < v ==> #[trigger] lut@[u] == lut_from(hn, pixels as nat, clip_num as nat, clip_den as nat)[u],
        decreases 256 - v,
    {
        proof {
            lemma_total_step(red, v as int);
            assert(red[v as int] == bins@[v as int] as nat);
        }
        cdf = cdf + bins[v];
        let q: u64 = (510 * cdf + pixels) / (2 * pixels);
        let level: u8 = if q > 255 {
            255
        } else {
            q as u8
        };
        lut.push(level);
        assert(lut@[v as int] == lut_from(hn, pixels as nat, clip_num as nat, clip_den as nat)[v as int]);
        v = v + 1;
    }
    assert(lut@ =~= lut_from(hn, pixels as nat, clip_num as nat, clip_den as nat));
    lut
}

/// Clamps a tile coordinate to `0 ..= n - 1`.
pub open spec fn clamp_tile(t: int, n: nat) -> nat {
    if t < 0 {
        0
    } else if t > n - 1 {
        (n - 1) as nat
    } else {
        t as nat
    }
}

/// The equalised level of pixel `(x, y)`: its level looked up in the tables of the
/// four tiles whose centres surround it, blended bilinearly by its offset from
/// those centres and rounded. An image that is less than two tiles wide or high
/// keeps its levels.
pub open spec fn clahe_level(g: Seq<u8>, w: nat, h: nat, ts: nat, clip_num: nat, clip_den: nat, x: int, y: int) -> u8 {
    let nx = tiles_along(w, ts);
    let ny = tiles_along(h, ts);
    let p = sample_at(g, w, 1, x, y, 0);
    if nx < 2 || ny < 2 {
        p
    } else {
        let half = (ts / 2) as int;
        let tx = (x - half) / (ts as int);
        let ax = (x - half) % (ts as int);
        let ty = (y - half) / (ts as int);
        let ay = (y - half) % (ts as int);
        let tx0 = clamp_tile(tx, nx);
        let tx1 = clamp_tile(tx + 1, nx);
        let ty0 = clamp_tile(ty, ny);
        let ty1 = clamp_tile(ty + 1, ny);
        let v00 = tile_lut(g, w, h, ts, clip_num, clip_den, tx0, ty0)[p as int] as int;
        let v10 = tile_lut(g, w, h, ts, clip_num, clip_den, tx1, ty0)[p as int] as int;
        let v01 = tile_lut(g, w, h, ts, clip_num, clip_den, tx0, ty1)[p as int] as int;
        let v11 = tile_lut(g, w, h, ts, clip_num, clip_den, tx1, ty1)[p as int] as int;
        let t = ts as int;
        let top = v00 * (t - ax) + v10 * ax;
        let bottom = v01 * (t - ax) + v11 * ax;
        let num = top * (t - ay) + bottom * ay;
        let den = t * t;
        let q = (2 * num + den) / (2 * den);
        if q > 255 { 255u8 } else { q as u8 }
    }
}

/// The equalised levels of a `w` by `h` buffer, row-major.
pub open spec fn clahe_plane(g: Seq<u8>, w: nat, h: nat, ts: nat, clip_num: nat, clip_den: nat) -> Seq<u8> {
    grid(w, h, |x: int, y: int| clahe_level(g, w, h, ts, clip_num, clip_den, x, y))
}

/// When every tile has the same lookup table, blending the tables changes nothing:
/// each pixel gets the table's entry for its level. So an image whose tiles all hold
/// the same histogram has each level `l` equalised to one value, `table[l]`,
/// wherever it occurs.
pub proof fn lemma_equal_tables_blend(
    g: Seq<u8>,
    w: nat,
    h: nat,
    ts: nat,
    clip_num: nat,
    clip_den: nat,
    table: Seq<u8>,
    x: int,
    y: int,
)
    requires
        ts >= 1,
        0 <= x < w,
        0 <= y < h,
        tiles_along(w, ts) >= 2,
        tiles_along(h, ts) >= 2,
        table.len() == 256,
        forall|tx: nat, ty: nat|
            tx < tiles_along(w, ts) && ty < tiles_along(h, ts) ==> #[trigger] tile_lut(g, w, h, ts, clip_num, clip_den, tx, ty)
                == table,
    ensures
        clahe_level(g, w, h, ts, clip_num, clip_den, x, y) == table[sample_at(g, w, 1, x, y, 0) as int],
{
    let nx = tiles_along(w, ts);
    let ny = tiles_along(h, ts);
    let p = sample_at(g, w, 1, x, y, 0);
    let half = (ts / 2) as int;
    let tx = (x - half) / (ts as int);
    let ax = (x - half) % (ts as int);
    let ty = (y - half) / (ts as int);
    let ay = (y - half) % (ts as int);
    let t = ts as int;
    let v = table[p as int] as int;
    assert(tile_lut(g, w, h, ts, clip_num, clip_den, clamp_tile(tx, nx), clamp_tile(ty, ny)) == table);
    assert(tile_lut(g, w, h, ts, clip_num, clip_den, clamp_tile(tx + 1, nx), clamp_tile(ty, ny)) == table);
    assert(tile_lut(g, w, h, ts, clip_num, clip_den, clamp_tile(tx, nx), clamp_tile(ty + 1, ny)) == table);
    assert(tile_lut(g, w, h, ts, clip_num, clip_den, clamp_tile(tx + 1, nx), clamp_tile(ty + 1, ny)) == table);
    let top = v * (t - ax) + v * ax;
    let num = top * (t - ay) + top * ay;
    let den = t * t;
    assert(top == v * t) by (nonlinear_arith)
        requires
            top == v * (t - ax) + v * ax,
    ;
    assert(num == v * (t * t)) by (nonlinear_arith)
        requires
            top == v * t,
            num == top * (t - ay) + top * ay,
    ;
    assert(den >= 1) by (nonlinear_arith)
        requires
            t >= 1,
            den == t * t,
    ;
    assert((2 * num + den) / (2 * den) == v) by (nonlinear_arith)
        requires
            num == v * den,
            den >= 1,
            v >= 0,
    {
        vstd::arithmetic::div_mod::lemma_fundamental_div_mod_converse(2 * num + den, 2 * den, v, den);
    }
}

/// The number of tiles of size `ts` that cover `n` pixels.
fn tile_count(n: u32, ts: u32) -> (c: u32)
    requires
        ts > 0,
    ensures
        c == tiles_along(n as nat, ts as nat),
        c as int * ts as int >= n,
        c <= n,
{
    let q = n / ts;
    let r = n % ts;
    proof {
        vstd::arithmetic::div_mod::lemma_fundamental_div_mod(n as int, ts as int);
        let extra: int = if r != 0 { 1 } else { 0 };
        assert(n + ts - 1 == (q + extra) * ts + (if r != 0 { r - 1 } else { ts - 1 })) by (nonlinear_arith)
            requires
                n == ts * q + r,
                extra == if r != 0 { 1int } else { 0int },
        ;
        vstd::arithmetic::div_mod::lemma_fundamental_div_mod_converse(
            n + ts - 1,
            ts as int,
            q + extra,
            if r != 0 { r - 1 } else { ts - 1 },
        );
        assert((q + extra) * ts >= n) by (nonlinear_arith)
            requires
                n == ts * q + r,
                0 <= r < ts,
                extra == if r != 0 { 1int } else { 0int },
        ;
        assert(q + extra <= n) by (nonlinear_arith)
            requires
                n == ts * q + r,
                0 <= r < ts,
                ts >= 1,
                q >= 0,
                extra == if r != 0 { 1int } else { 0int },
        ;
    }
    if r != 0 {
        q + 1
    } else {
        q
    }
}

/// Every tile starts inside the image.
proof fn lemma_tile_start(t: nat, n: nat, ts: nat)
    requires
        ts > 0,
        t < tiles_along(n, ts),
    ensures
        t * ts < n,
{
    let c = tiles_along(n, ts);
    vstd::arithmetic::div_mod::lemma_fundamental_div_mod((n + ts - 1) as int, ts as int);
    vstd::arithmetic::div_mod::lemma_mod_bound((n + ts - 1) as int, ts as int);
    assert(t * ts < n) by (nonlinear_arith)
        requires
            t < c,
            n + ts - 1 == ts * c + (n + ts - 1) % (ts as int),
            0 <= (n + ts - 1) % (ts as int) < ts,
    ;
}

/// The tile coordinate of `x` and its offset from that tile's centre.
fn axis_cell(x: u32, ts: u32) -> (res: (i64, u64))
    requires
        ts > 0,
    ensures
        res.0 == (x - (ts / 2) as int) / (ts as int),
        res.1 == (x - (ts / 2) as int) % (ts as int),
        -1 <= res.0 <= x,
        res.1 < ts,
{
    let half = ts / 2;
    if x >= half {
        let d = x - half;
        proof {
            vstd::arithmetic::div_mod::lemma_fundamental_div_mod(d as int, ts as int);
            vstd::arithmetic::div_mod::lemma_div_is_ordered_by_denominator(d as int, 1, ts as int);
        }
        ((d / ts) as i64, (d % ts) as u64)
    } else {
        let a: u64 = (x as u64) + (ts as u64) - (half as u64);
        proof {
            vstd::arithmetic::div_mod::lemma_fundamental_div_mod_converse(
                x - half as int,
                ts as int,
                -1,
                a as int,
            );
        }
        (-1, a)
    }
}

/// Clamps a tile coordinate to `0 ..= n - 1`.
fn clamp_cell(t: i64, n: u32) -> (c: usize)
    requires
        n >= 1,
    ensures
        c == clamp_tile(t as int, n as nat),
        c < n,
{
    if t < 0 {
        0
    } else if t > (n - 1) as i64 {
        (n - 1) as usize
    } else {
        t as usize
    }
}

/// The tile tables, one row of tiles after another.
pub open spec fn luts_hold(luts: Seq<Vec<Vec<u8>>>, g: Seq<u8>, w: nat, h: nat, ts: nat, clip_num: nat, clip_den: nat, nx: nat, rows: nat) -> bool {
    &&& luts.len() == rows
    &&& forall|ty: int| 0 <= ty < rows ==> (#[trigger] luts[ty])@.len() == nx
    &&& forall|ty: int, tx: int|
        0 <= ty < rows && 0 <= tx < nx ==> (#[trigger] luts[ty]@[tx])@ == tile_lut(g, w, h, ts, clip_num, clip_den, tx as nat, ty as nat)
}

/// The extent of a tile along an axis.
fn extent(n: u32, ts: u32, start: u32) -> (e: u32)
    requires
        start < n,
        ts > 0,
    ensures
        e == if ts < n - start { ts as int } else { n - start },
        1 <= e,
        e <= ts,
        e <= n - start,
{
    if ts < n - start {
        ts
    } else {
        n - start
    }
}

/// The lookup tables of all tiles.
fn tile_tables(gray: &GrayRaster, tile_size: u32, clip_num: u32, clip_den: u32, nx: u32, ny: u32) -> (luts: Vec<Vec<Vec<u8>>>)
    requires
        clip_den > 0,
        gray.wf(),
        tile_size > 0,
        nx == tiles_along(gray.width as nat, tile_size as nat),
        ny == tiles_along(gray.height as nat, tile_size as nat),
        (if tile_size < gray.width { tile_size as int } else { gray.width as int }) * (if tile_size
            < gray.height {
            tile_size as int
        } else {
            gray.height as int
        }) <= u32::MAX,
    ensures
        luts_hold(luts@, gray.data@, gray.width as nat, gray.height as nat, tile_size as nat, clip_num as nat, clip_den as nat, nx as nat, ny as nat),
        forall|ty: int, tx: int| 0 <= ty < ny && 0 <= tx < nx ==> (#[trigger] luts@[ty]@[tx])@.len() == 256,
{
    let w = gray.width;
    let h = gray.height;
    let ghost g = gray.data@;
    let ghost mw = if tile_size < w { tile_size as int } else { w as int };
    let ghost mh = if tile_size < h { tile_size as int } else { h as int };
    let mut luts: Vec<Vec<Vec<u8>>> = Vec::new();
    let mut ty: u32 = 0;
    while ty < ny
        invariant
            gray.wf(),
            g == gray.data@,
            w == gray.width,
            h == gray.height,
            tile_size > 0,
            clip_den > 0,
            nx == tiles_along(w as nat, tile_size as nat),
            ny == tiles_along(h as nat, tile_size as nat),
            mw == if tile_size < w { tile_size as int } else { w as int },
            mh == if tile_size < h { tile_size as int } else { h as int },
            mw * mh <= u32::MAX,
            ty <= ny,
            luts_hold(luts@, g, w as nat, h as nat, tile_size as nat, clip_num as nat, clip_den as nat, nx as nat, ty as nat),
            forall|a: int, b: int| 0 <= a < ty && 0 <= b < nx ==> (#[trigger] luts@[a]@[b])@.len() == 256,
        decreases ny - ty,
    {
        proof {
            lemma_tile_start(ty as nat, h as nat, tile_size as nat);
        }
        let y0 = ty * tile_size;
        let th = extent(h, tile_size, y0);
        let mut row: Vec<Vec<u8>> = Vec::new();
        let mut tx: u32 = 0;
        while tx < nx
            invariant
                gray.wf(),
                g == gray.data@,
                w == gray.width,
                h == gray.height,
                tile_size > 0,
                clip_den > 0,
            clip_den > 0,
                nx == tiles_along(w as nat, tile_size as nat),
                ny == tiles_along(h as nat, tile_size as nat),
                mw == if tile_size < w { tile_size as int } else { w as int },
                mh == if tile_size < h { tile_size as int } else { h as int },
                mw * mh <= u32::MAX,
                ty < ny,
                y0 == ty * tile_size,
                y0 < h,
                th == tile_extent(h as nat, tile_size as nat, ty as nat),
                1 <= th <= mh,
                y0 + th <= h,
                tx <= nx,
                row@.len() == tx,
                forall|b: int|
                    0 <= b < tx ==> (#[trigger] row@[b])@ == tile_lut(g, w as nat, h as nat, tile_size as nat, clip_num as nat, clip_den as nat, b as nat, ty as nat),
                forall|b: int| 0 <= b < tx ==> (#[trigger] row@[b])@.len() == 256,
            decreases nx - tx,
        {
            proof {
                lemma_tile_start(tx as nat, w as nat, tile_size as nat);
            }
            let x0 = tx * tile_size;
            let tw = extent(w, tile_size, x0);
            assert(tw * th <= mw * mh) by (nonlinear_arith)
                requires
                    1 <= tw <= mw,
                    1 <= th <= mh,
            ;
            let hist = tile_histogram(gray, x0, y0, tw, th);
            let pixels: u64 = (tw as u64) * (th as u64);
            assert(1 <= tw * th) by (nonlinear_arith)
                requires
                    1 <= tw,
                    1 <= th,
            ;
            let lut = lut_of(&hist, pixels, clip_num, clip_den);
            proof {
                assert(as_nats(hist@) =~= histogram(
                    tile_rows(g, w as nat, x0 as int, y0 as int, tw as nat, th as nat),
                ));
            }
            row.push(lut);
            tx = tx + 1;
        }
        luts.push(row);
        ty = ty + 1;
    }
    luts
}

/// The equalised level of pixel `(x, y)` from the tile tables.
fn blend_level(
    gray: &GrayRaster,
    luts: &Vec<Vec<Vec<u8>>>,
    tile_size: u32,
    clip_num: u32,
    clip_den: u32,
    nx: u32,
    ny: u32,
    x: u32,
    y: u32,
) -> (v: u8)
    requires
        gray.wf(),
        tile_size > 0,
        nx == tiles_along(gray.width as nat, tile_size as nat),
        ny == tiles_along(gray.height as nat, tile_size as nat),
        nx >= 2,
        ny >= 2,
        luts_hold(luts@, gray.data@, gray.width as nat, gray.height as nat, tile_size as nat, clip_num as nat, clip_den as nat, nx as nat, ny as nat),
        forall|ty: int, tx: int| 0 <= ty < ny && 0 <= tx < nx ==> (#[trigger] luts@[ty]@[tx])@.len() == 256,
        x < gray.width,
        y < gray.height,
    ensures
        v == clahe_level(gray.data@, gray.width as nat, gray.height as nat, tile_size as nat, clip_num as nat, clip_den as nat, x as int, y as int),
{
    let ghost g = gray.data@;
    let ghost w = gray.width as nat;
    let ghost h = gray.height as nat;
    proof {
        lemma_sample_in_bounds(x as int, y as int, gray.width as int, gray.height as int, 1, 0);
        assert(gray.data.len() <= usize::MAX);
    }
    let p = gray.data[(y as usize) * (gray.width as usize) + (x as usize)];
    let (tx, ax) = axis_cell(x, tile_size);
    let (ty, ay) = axis_cell(y, tile_size);
    let tx0 = clamp_cell(tx, nx);
    let tx1 = clamp_cell(tx + 1, nx);
    let ty0 = clamp_cell(ty, ny);
    let ty1 = clamp_cell(ty + 1, ny);
    let v00 = luts[ty0][tx0][p as usize] as u128;
    let v10 = luts[ty0][tx1][p as usize] as u128;
    let v01 = luts[ty1][tx0][p as usize] as u128;
    let v11 = luts[ty1][tx1][p as usize] as u128;
    let t = tile_size as u128;
    let ax = ax as u128;
    let ay = ay as u128;
    assert(v00 * (t - ax) <= 255 * 4294967296 && v10 * ax <= 255 * 4294967296) by (nonlinear_arith)
        requires
            v00 <= 255,
            v10 <= 255,
            ax < t,
            t <= 4294967296,
    ;
    assert(v01 * (t - ax) <= 255 * 4294967296 && v11 * ax <= 255 * 4294967296) by (nonlinear_arith)
        requires
            v01 <= 255,
            v11 <= 255,
            ax < t,
            t <= 4294967296,
    ;
    let top = v00 * (t - ax) + v10 * ax;
    let bottom = v01 * (t - ax) + v11 * ax;
    assert(top * (t - ay) <= 510 * 4294967296 * 4294967296 && bottom * ay <= 510 * 4294967296 * 4294967296)
        by (nonlinear_arith)
        requires
            top <= 510 * 4294967296,
            bottom <= 510 * 4294967296,
            ay < t,
            t <= 4294967296,
    ;
    assert(t * t <= 4294967296 * 4294967296) by (nonlinear_arith)
        requires
            t <= 4294967296,
    ;
    assert(t * t >= 1) by (nonlinear_arith)
        requires
            t >= 1,
    ;
    let num = top * (t - ay) + bottom * ay;
    let den = t * t;
    let q = (2 * num + den) / (2 * den);
    if q > 255 {
        255
    } else {
        q as u8
    }
}

/// Contrast-limited adaptive histogram equalisation of a single-channel image with
/// square tiles of `tile_size` pixels and a clip limit of `clip_num / clip_den` times the
/// mean bin height.
pub fn equalize(gray: &GrayRaster, tile_size: u32, clip_num: u32, clip_den: u32) -> (out: GrayRaster)
    requires
        clip_den > 0,
        gray.wf(),
        tile_size > 0,
        tiles_along(gray.width as nat, tile_size as nat) >= 2 && tiles_along(gray.height as nat, tile_size as nat)
            >= 2 ==> tile_size * tile_size <= u32::MAX,
    ensures
        out.wf(),
        out.width == gray.width,
        out.height == gray.height,
        out.data@ == clahe_plane(gray.data@, gray.width as nat, gray.height as nat, tile_size as nat, clip_num as nat, clip_den as nat),
        forall|x: int, y: int|
            0 <= x < gray.width && 0 <= y < gray.height ==> #[trigger] out.level(x, y) == clahe_level(
                gray.data@,
                gray.width as nat,
                gray.height as nat,
                tile_size as nat,
                clip_num as nat,
                clip_den as nat,
                x,
                y,
            ),
{
    let w = gray.width;
    let h = gray.height;
    let ghost g = gray.data@;
    let ghost wn = w as nat;
    let ghost hn = h as nat;
    let nx = tile_count(w, tile_size);
    let ny = tile_count(h, tile_size);
    if nx < 2 || ny < 2 {
        let same = GrayRaster { width: w, height: h, data: gray.data.clone() };
        proof {
            lemma_plane_holds(same.data@, g, wn, hn, tile_size as nat, clip_num as nat, clip_den as nat);
        }
        return same;
    }
    proof {
        let mw: int = if tile_size < w { tile_size as int } else { w as int };
        let mh: int = if tile_size < h { tile_size as int } else { h as int };
        assert(mw * mh <= tile_size * tile_size) by (nonlinear_arith)
            requires
                0 <= mw <= tile_size,
                0 <= mh <= tile_size,
        ;
    }
    let luts = tile_tables(gray, tile_size, clip_num, clip_den, nx, ny);
    let n: usize = gray.data.len();
    let mut out: Vec<u8> = vec![0u8; n];
    let mut y: u32 = 0;
    while y < h
        invariant
            gray.wf(),
            w == gray.width,
            h == gray.height,
            g == gray.data@,
            wn == w,
            hn == h,
            tile_size > 0,
            nx == tiles_along(wn, tile_size as nat),
            ny == tiles_along(hn, tile_size as nat),
            nx >= 2,
            ny >= 2,
            luts_hold(luts@, g, wn, hn, tile_size as nat, clip_num as nat, clip_den as nat, nx as nat, ny as nat),
            forall|a: int, b: int| 0 <= a < ny && 0 <= b < nx ==> (#[trigger] luts@[a]@[b])@.len() == 256,
            y <= h,
            n == w * h,
            out@.len() == n,
            forall|xx: int, yy: int|
                0 <= xx < w && 0 <= yy < y ==> #[trigger] sample_at(out@, wn, 1, xx, yy, 0) == clahe_level(
                    g,
                    wn,
                    hn,
                    tile_size as nat,
                    clip_num as nat,
                    clip_den as nat,
                    xx,
                    yy,
                ),
        decreases h - y,
    {
        let mut x: u32 = 0;
        while x < w
            invariant
                gray.wf(),
                w == gray.width,
                h == gray.height,
                g == gray.data@,
                wn == w,
                hn == h,
                tile_size > 0,
                nx == tiles_along(wn, tile_size as nat),
                ny == tiles_along(hn, tile_size as nat),
                nx >= 2,
                ny >= 2,
                luts_hold(luts@, g, wn, hn, tile_size as nat, clip_num as nat, clip_den as nat, nx as nat, ny as nat),
                forall|a: int, b: int| 0 <= a < ny && 0 <= b < nx ==> (#[trigger] luts@[a]@[b])@.len() == 256,
                y < h,
                x <= w,
                n == w * h,
                out@.len() == n,
                forall|xx: int, yy: int|
                    0 <= xx < w && 0 <= yy < h && (yy < y || (yy == y && xx < x)) ==> #[trigger] sample_at(
                        out@,
                        wn,
                        1,
                        xx,
                        yy,
                        0,
                    ) == clahe_level(g, wn, hn, tile_size as nat, clip_num as nat, clip_den as nat, xx, yy),
            decreases w - x,
        {
            let level = blend_level(gray, &luts, tile_size, clip_num, clip_den, nx, ny, x, y);
            proof {
                lemma_sample_in_bounds(x as int, y as int, w as int, h as int, 1, 0);
            }
            let idx: usize = (y as usize) * (w as usize) + (x as usize);
            let ghost before = out@;
            out.set(idx, level);
            proof {
                assert forall|xx: int, yy: int|
                    0 <= xx < w && 0 <= yy < h && (yy < y || (yy == y && xx < x + 1)) implies #[trigger] sample_at(
                        out@,
                        wn,
                        1,
                        xx,
                        yy,
                        0,
                    ) == clahe_level(g, wn, hn, tile_size as nat, clip_num as nat, clip_den as nat, xx, yy) by {
                    lemma_sample_in_bounds(xx, yy, w as int, h as int, 1, 0);
                    if xx != x || yy != y {
                        lemma_distinct_pixels(xx, yy, x as int, y as int, w as int);
                        assert(sample_at(out@, wn, 1, xx, yy, 0) == sample_at(before, wn, 1, xx, yy, 0));
                    }
                }
            }
            x = x + 1;
        }
        y = y + 1;
    }
    let res = GrayRaster { width: w, height: h, data: out };
    proof {
        assert forall|x: int, yy: int|
            0 <= x < w && 0 <= yy < h implies #[trigger] res.level(x, yy) == clahe_level(
                g,
                wn,
                hn,
                tile_size as nat,
                clip_num as nat,
                clip_den as nat,
                x,
                yy,
            ) by {
            assert(sample_at(out@, wn, 1, x, yy, 0) == res.level(x, yy));
        }
        lemma_plane_holds(out@, g, wn, hn, tile_size as nat, clip_num as nat, clip_den as nat);
    }
    res
}

/// A buffer whose pixels are the equalised levels is the equalised plane.
proof fn lemma_plane_holds(out: Seq<u8>, g: Seq<u8>, w: nat, h: nat, ts: nat, clip_num: nat, clip_den: nat)
    requires
        out.len() == w * h,
        forall|x: int, y: int|
            0 <= x < w && 0 <= y < h ==> #[trigger] sample_at(out, w, 1, x, y, 0) == clahe_level(
                g,
                w,
                h,
                ts,
                clip_num, clip_den,
                x,
                y,
            ),
    ensures
        out == clahe_plane(g, w, h, ts, clip_num, clip_den),
{
    let f = |x: int, y: int| clahe_level(g, w, h, ts, clip_num, clip_den, x, y);
    let plane = clahe_plane(g, w, h, ts, clip_num, clip_den);
    assert forall|x: int, y: int|
        0 <= x < w && 0 <= y < h implies #[trigger] sample_at(out, w, 1, x, y, 0) == sample_at(plane, w, 1, x, y, 0) by {
        lemma_grid_sample(w, h, f, x, y);
    }
    lemma_grid_ext(out, plane, w, h);
}

/// The tile size of the equalisation applied before luminance mapping.
pub const CLAHE_TILE_SIZE: u32 = 64;

/// The clip limit of the equalisation applied before luminance mapping, as a
/// multiple of the mean bin height: this numerator over `CLAHE_CLIP_DEN`.
pub const CLAHE_CLIP_NUM: u32 = 2;

/// The denominator of the clip limit applied before luminance mapping.
pub const CLAHE_CLIP_DEN: u32 = 1;

/// Equalises the luma of `img`: CLAHE with square tiles of `tile_size` pixels and a
/// clip limit of `clip_num / clip_den` times the mean bin height. The luma comes from the
/// `image` crate, whose arithmetic depends on the machine; what holds whatever it
/// gave is that the result is the equalisation of a luma image of this size whose
/// every level is near the Rec. 709 luma of its pixel and between its channels.
pub fn apply(img: &RgbaRaster, tile_size: u32, clip_num: u32, clip_den: u32) -> (out: GrayRaster)
    requires
        clip_den > 0,
        img.wf(),
        tile_size > 0,
        tiles_along(img.width as nat, tile_size as nat) >= 2 && tiles_along(img.height as nat, tile_size as nat)
            >= 2 ==> tile_size * tile_size <= u32::MAX,
    ensures
        out.wf(),
        out.width == img.width,
        out.height == img.height,
        exists|luma: Seq<u8>|
            luma.len() == img.width * img.height && rec709_levels(luma, img.data@) && #[trigger] clahe_plane(
                luma,
                img.width as nat,
                img.height as nat,
                tile_size as nat,
                clip_num as nat,
                clip_den as nat,
            ) == out.data@,
{
    let gray = to_luma(img);
    let out = equalize(&gray, tile_size, clip_num, clip_den);
    proof {
        assert(clahe_plane(gray.data@, img.width as nat, img.height as nat, tile_size as nat, clip_num as nat, clip_den as nat)
            == out.data@);
    }
    out
}

/// What the CLAHE conversion makes of a `width` by `height` image at `new_width` by
/// `new_height` cells, whatever the luma conversion and resampling gave: the shape,
/// grey cells each drawn with the glyph for its level, and, at the image's own
/// size, one cell per pixel of the equalisation of a luma image of that size whose
/// levels are near the Rec. 709 luma of the pixels of `data`; and at every size the
/// cells are, in place, the grey cells of a resize of such an equalisation.
pub open spec fn clahe_fits(
    cells: Seq<Seq<AsciiPixel>>,
    width: u32,
    height: u32,
    data: Seq<u8>,
    new_width: u32,
    new_height: u32,
    charset: Seq<char>,
) -> bool {
    &&& has_shape(cells, new_width as nat, new_height as nat)
    &&& cells_grey(cells)
    &&& glyphs_follow_colour(cells, charset)
    &&& (new_width == width && new_height == height ==> exists|luma: Seq<u8>|
        luma.len() == width * height && rec709_levels(luma, data) && #[trigger] gray_luma_art(
            clahe_plane(luma, width as nat, height as nat, CLAHE_TILE_SIZE as nat, CLAHE_CLIP_NUM as nat, CLAHE_CLIP_DEN as nat),
            width as nat,
            height as nat,
            charset,
        ) == cells)
    &&& exists|luma: Seq<u8>, resized: Seq<u8>|
        #![trigger resize_result(clahe_plane(luma, width as nat, height as nat, CLAHE_TILE_SIZE as nat, CLAHE_CLIP_NUM as nat, CLAHE_CLIP_DEN as nat), width, height, 1, resized, new_width, new_height)]
        luma.len() == width * height && rec709_levels(luma, data) && resize_result(
            clahe_plane(
                luma,
                width as nat,
                height as nat,
                CLAHE_TILE_SIZE as nat,
                CLAHE_CLIP_NUM as nat,
                CLAHE_CLIP_DEN as nat,
            ),
            width,
            height,
            1,
            resized,
            new_width,
            new_height,
        ) && cells == gray_luma_art(resized, new_width as nat, new_height as nat, charset)
}

/// CLAHE art shows the equalised image in place: there is a luma image near the
/// Rec. 709 luma of the pixels such that, at a precise scale, a cell whose source
/// pixels within reach all have the equalised level `q` is drawn in grey `q` with
/// the glyph for `q`.
pub proof fn lemma_clahe_cell_in_place(
    cells: Seq<Seq<AsciiPixel>>,
    width: u32,
    height: u32,
    data: Seq<u8>,
    new_width: u32,
    new_height: u32,
    charset: Seq<char>,
)
    requires
        clahe_fits(cells, width, height, data, new_width, new_height, charset),
        precise_scale(width, height, new_width, new_height),
    ensures
        exists|luma: Seq<u8>|
            rec709_levels(luma, data) && forall|x: int, y: int, q: u8|
                0 <= x < new_width && 0 <= y < new_height && #[trigger] uniform_around(
                    clahe_plane(
                        luma,
                        width as nat,
                        height as nat,
                        CLAHE_TILE_SIZE as nat,
                        CLAHE_CLIP_NUM as nat,
                        CLAHE_CLIP_DEN as nat,
                    ),
                    width as nat,
                    height as nat,
                    1,
                    new_width as nat,
                    new_height as nat,
                    x,
                    y,
                    seq![q],
                ) ==> cells[y][x] == (AsciiPixel { char: glyph_for(ntsc_luma(q, q, q), charset), r: q, g: q, b: q }),
{
    let (luma, resized) = choose|luma: Seq<u8>, resized: Seq<u8>|
        #![trigger resize_result(clahe_plane(luma, width as nat, height as nat, CLAHE_TILE_SIZE as nat, CLAHE_CLIP_NUM as nat, CLAHE_CLIP_DEN as nat), width, height, 1, resized, new_width, new_height)]
        luma.len() == width * height && rec709_levels(luma, data) && resize_result(
            clahe_plane(
                luma,
                width as nat,
                height as nat,
                CLAHE_TILE_SIZE as nat,
                CLAHE_CLIP_NUM as nat,
                CLAHE_CLIP_DEN as nat,
            ),
            width,
            height,
            1,
            resized,
            new_width,
            new_height,
        ) && cells == gray_luma_art(resized, new_width as nat, new_height as nat, charset);
    let plane = clahe_plane(
        luma,
        width as nat,
        height as nat,
        CLAHE_TILE_SIZE as nat,
        CLAHE_CLIP_NUM as nat,
        CLAHE_CLIP_DEN as nat,
    );
    assert forall|x: int, y: int, q: u8|
        0 <= x < new_width && 0 <= y < new_height && #[trigger] uniform_around(
            plane,
            width as nat,
            height as nat,
            1,
            new_width as nat,
            new_height as nat,
            x,
            y,
            seq![q],
        ) implies cells[y][x] == (AsciiPixel { char: glyph_for(ntsc_luma(q, q, q), charset), r: q, g: q, b: q }) by {
        assert(sample_at(resized, new_width as nat, 1, x, y, 0) == seq![q][0]);
        assert(cells[y][x] == gray_cell(resized, new_width as nat, x, y, charset));
    }
}

/// Converts `img` to ASCII art of exactly `new_width` by `new_height` cells: the
/// equalised luma is resized and each level picks its glyph, in grey.
pub fn convert(img: &RgbaRaster, new_width: u32, new_height: u32, char_set: &[char]) -> (art: AsciiArt)
    requires
        img.wf(),
        usable_charset(char_set@),
        img.width * new_height * 4 <= usize::MAX,
        new_width * new_height * 4 <= usize::MAX,
    ensures
        clahe_fits(art.cells(), img.width, img.height, img.data@, new_width, new_height, char_set@),
{
    assert(CLAHE_TILE_SIZE * CLAHE_TILE_SIZE <= u32::MAX);
    let equalized = apply(img, CLAHE_TILE_SIZE, CLAHE_CLIP_NUM, CLAHE_CLIP_DEN);
    let resized = resize_gray(&equalized, new_width, new_height);
    let art = from_resized_gray(&resized, char_set);
    proof {
        lemma_gray_art_fits(resized.data@, new_width as nat, new_height as nat, char_set@);
        let luma = choose|luma: Seq<u8>|
            luma.len() == img.width * img.height && rec709_levels(luma, img.data@) && #[trigger] clahe_plane(
                luma,
                img.width as nat,
                img.height as nat,
                CLAHE_TILE_SIZE as nat,
                CLAHE_CLIP_NUM as nat,
                CLAHE_CLIP_DEN as nat,
            ) == equalized.data@;
        let plane = clahe_plane(
            luma,
            img.width as nat,
            img.height as nat,
            CLAHE_TILE_SIZE as nat,
            CLAHE_CLIP_NUM as nat,
            CLAHE_CLIP_DEN as nat,
        );
        assert(resize_result(plane, img.width, img.height, 1, resized.data@, new_width, new_height));
        if new_width == img.width && new_height == img.height {
            assert(gray_luma_art(plane, img.width as nat, img.height as nat, char_set@) == art.cells());
        }
    }
    art
}

} // verus!
