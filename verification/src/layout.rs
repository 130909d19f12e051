//! Output geometry: how many character cells an image gets.

use vstd::prelude::*;
use crate::config::Config;
use crate::text::{decimal, push_char, push_decimal, push_str};

verus! {

/// `p / q` rounded to the nearest whole number, halves away from zero, saturated
/// to `u32`.
///
/// The quotient is exact. Evaluating the same ratio in `f64`, as
/// `(new_width as f64 * (height as f64 / width as f64) * 0.5).round()`, can land just
/// below an exact half and round down instead: 27 columns of a 3 by 13 image are
/// 58.5 rows exactly, here 59, while that `f64` expression gives 58.
pub open spec fn rounded_ratio(p: nat, q: nat) -> u32 {
    let v = (2 * p + q) / (2 * q);
    if v > u32::MAX { u32::MAX } else { v as u32 }
}

/// The number of rows that keeps a `width` by `height` image's aspect ratio at
/// `new_width` columns, with cells twice as tall as wide:
/// `round(new_width * height / width / 2)`.
///
/// A zero-width image has no ratio: it gets the largest height when both
/// `new_width` and `height` are positive, else none.
pub open spec fn aspect_height(new_width: u32, width: u32, height: u32) -> u32 {
    if width == 0 {
        if new_width > 0 && height > 0 { u32::MAX } else { 0 }
    } else {
        rounded_ratio((new_width * height) as nat, (2 * width) as nat)
    }
}

/// `p / q` rounded to nearest, halves away from zero, saturated to `u32`.
pub fn round_div(p: u128, q: u128) -> (r: u32)
    requires
        q > 0,
        p <= u128::MAX / 4,
        q <= u128::MAX / 4,
    ensures
        r == rounded_ratio(p as nat, q as nat),
{
    let v = (2 * p + q) / (2 * q);
    if v > u32::MAX as u128 {
        u32::MAX
    } else {
        v as u32
    }
}

/// The number of rows for `new_width` columns of a `width` by `height` image.
pub fn scaled_height(new_width: u32, width: u32, height: u32) -> (h: u32)
    ensures
        h == aspect_height(new_width, width, height),
{
    if width == 0 {
        if new_width > 0 && height > 0 {
            u32::MAX
        } else {
            0
        }
    } else {
        proof {
            assert((new_width as nat) * (height as nat) <= (u32::MAX as nat) * (u32::MAX as nat)) by (nonlinear_arith);
        }
        round_div((new_width as u128) * (height as u128), 2 * (width as u128))
    }
}

/// The number of columns that keeps a `width` by `height` image's aspect ratio at
/// `new_height` rows, with cells twice as tall as wide:
/// `round(2 * new_height * width / height)`.
///
/// A zero-height image has no ratio: it gets the largest width when `new_height`
/// and `width` are positive, else none.
pub open spec fn aspect_width(new_height: u32, width: u32, height: u32) -> u32 {
    if height == 0 {
        if new_height > 0 && width > 0 { u32::MAX } else { 0 }
    } else if width == 0 {
        0
    } else {
        rounded_ratio((2 * new_height * width) as nat, height as nat)
    }
}

/// The number of columns for `new_height` rows of a `width` by `height` image.
pub fn scaled_width(new_height: u32, width: u32, height: u32) -> (w: u32)
    ensures
        w == aspect_width(new_height, width, height),
{
    if height == 0 {
        if new_height > 0 && width > 0 {
            u32::MAX
        } else {
            0
        }
    } else if width == 0 {
        0
    } else {
        proof {
            assert(2 * (new_height as nat) * (width as nat) <= 2 * (u32::MAX as nat) * (u32::MAX as nat)) by (nonlinear_arith);
        }
        round_div(2 * (new_height as u128) * (width as u128), height as u128)
    }
}

/// A rounded ratio that did not saturate is within half of the exact quotient:
/// `|2 (v q - p)| <= q`.
proof fn lemma_rounded_ratio_close(p: nat, q: nat)
    requires
        q >= 1,
        rounded_ratio(p, q) < u32::MAX,
    ensures
        -(q as int) <= 2 * (rounded_ratio(p, q) * q - p) <= q,
{
    let v = (2 * p + q) / (2 * q);
    vstd::arithmetic::div_mod::lemma_fundamental_div_mod((2 * p + q) as int, (2 * q) as int);
    vstd::arithmetic::div_mod::lemma_mod_bound((2 * p + q) as int, (2 * q) as int);
    assert(rounded_ratio(p, q) == v);
    assert(-(q as int) <= 2 * (v * q - p) <= q) by (nonlinear_arith)
        requires
            2 * p + q == (2 * q) * v + (2 * p + q) % (2 * q),
            0 <= (2 * p + q) % (2 * q) < 2 * q,
    ;
}

/// The derived height keeps half the image's height-to-width ratio (cells are twice
/// as tall as wide): unless it saturated, `new_width` columns of a `width` by
/// `height` image get `h` rows with `|2 width h - new_width height| <= width`.
pub proof fn lemma_aspect_height_ratio(new_width: u32, width: u32, height: u32)
    requires
        width >= 1,
        aspect_height(new_width, width, height) < u32::MAX,
    ensures
        -(width as int) <= 2 * width * aspect_height(new_width, width, height) - new_width * height <= width,
{
    lemma_rounded_ratio_close((new_width * height) as nat, (2 * width) as nat);
}

/// The derived width keeps twice the image's width-to-height ratio: unless it
/// saturated, `new_height` rows of a `width` by `height` image get `w` columns with
/// `|2 (w height - 2 new_height width)| <= height`.
pub proof fn lemma_aspect_width_ratio(new_height: u32, width: u32, height: u32)
    requires
        width >= 1,
        height >= 1,
        aspect_width(new_height, width, height) < u32::MAX,
    ensures
        -(height as int) <= 2 * (aspect_width(new_height, width, height) * height - 2 * new_height * width) <= height,
{
    lemma_rounded_ratio_close((2 * new_height * width) as nat, height as nat);
}

/// The output size before it is fitted to the terminal.
pub open spec fn requested_size(conf_width: u32, conf_height: u32, term_w: u32, orig_w: u32, orig_h: u32) -> (u32, u32) {
    if conf_width == 0 && conf_height == 0 {
        (term_w, aspect_height(term_w, orig_w, orig_h))
    } else if conf_width > 0 && conf_height == 0 {
        (conf_width, aspect_height(conf_width, orig_w, orig_h))
    } else if conf_width == 0 && conf_height > 0 {
        (aspect_width(conf_height, orig_w, orig_h), conf_height)
    } else {
        (conf_width, conf_height)
    }
}

/// The output size of an image in cells.
pub struct Dimensions {
    pub width: u32,
    pub height: u32,
    /// The requested width, when it was wider than the terminal and was clamped.
    pub clamped_from: Option<u32>,
}

/// The size in cells to show an `orig_w` by `orig_h` image at on a terminal
/// `term_w` columns wide: the configured width and height, a missing one derived
/// from the aspect ratio (cells twice as tall as wide), both derived from the
/// terminal width when neither is set; a result wider than the terminal is scaled
/// down to it; both at least one.
pub fn resolve_dimensions(conf: &Config, term_w: u32, orig_w: u32, orig_h: u32) -> (d: Dimensions)
    ensures
        ({
            let (w, h) = requested_size(conf.width, conf.height, term_w, orig_w, orig_h);
            let (fw, fh) = if w > term_w { (term_w, rounded_ratio(h as nat * term_w as nat, w as nat)) } else { (w, h) };
            &&& d.width == if fw < 1 { 1 } else { fw }
            &&& d.height == if fh < 1 { 1 } else { fh }
            &&& d.clamped_from == if w > term_w { Some(w) } else { None }
        }),
        1 <= d.width,
        1 <= d.height,
        d.width <= term_w || term_w == 0,
{
    let (w, h) = if conf.width == 0 && conf.height == 0 {
        (term_w, scaled_height(term_w, orig_w, orig_h))
    } else if conf.width > 0 && conf.height == 0 {
        (conf.width, scaled_height(conf.width, orig_w, orig_h))
    } else if conf.width == 0 && conf.height > 0 {
        (scaled_width(conf.height, orig_w, orig_h), conf.height)
    } else {
        (conf.width, conf.height)
    };
    let (fw, fh, clamped_from) = if w > term_w {
        proof {
            assert((h as nat) * (term_w as nat) <= (u32::MAX as nat) * (u32::MAX as nat)) by (nonlinear_arith);
        }
        (term_w, round_div((h as u128) * (term_w as u128), w as u128), Some(w))
    } else {
        (w, h, None)
    };
    Dimensions {
        width: if fw < 1 { 1 } else { fw },
        height: if fh < 1 { 1 } else { fh },
        clamped_from,
    }
}

/// The size to play a `frame_w` by `frame_h` animation at: at most the terminal's
/// width, the given height or one from the aspect ratio, both at least one; a
/// height taller than the terminal less one row is reduced to it and the width
/// scaled by the same ratio.
pub open spec fn gif_size(
    width: u32,
    height: Option<u32>,
    term_w: u32,
    term_h: u32,
    frame_w: u32,
    frame_h: u32,
) -> (u32, u32) {
    let w0 = if width < term_w { width } else { term_w };
    let w1 = if w0 < 1 { 1 } else { w0 };
    let h0 = match height {
        Some(h) => h,
        None => aspect_height(w1, frame_w, frame_h),
    };
    let h1 = if h0 < 1 { 1 } else { h0 };
    let max_h0 = if term_h >= 1 { (term_h - 1) as u32 } else { 0 };
    let max_h = if max_h0 < 1 { 1 } else { max_h0 };
    if h1 > max_h {
        let w2 = rounded_ratio(w1 as nat * max_h as nat, h1 as nat);
        (if w2 < 1 { 1 } else { w2 }, max_h)
    } else {
        (w1, h1)
    }
}

/// The size to play an animation at on a `term_w` by `term_h` terminal.
pub fn fit_gif_dimensions(
    width: u32,
    height: Option<u32>,
    term_w: u32,
    term_h: u32,
    frame_w: u32,
    frame_h: u32,
) -> (size: (u32, u32))
    ensures
        size == gif_size(width, height, term_w, term_h, frame_w, frame_h),
        1 <= size.0,
        1 <= size.1,
        size.1 < term_h || size.1 == 1,
{
    let w0 = if width < term_w { width } else { term_w };
    let w1 = if w0 < 1 { 1 } else { w0 };
    let h0 = match height {
        Some(h) => h,
        None => scaled_height(w1, frame_w, frame_h),
    };
    let h1 = if h0 < 1 { 1 } else { h0 };
    let max_h0 = if term_h >= 1 { term_h - 1 } else { 0 };
    let max_h = if max_h0 < 1 { 1 } else { max_h0 };
    if h1 > max_h {
        proof {
            assert((w1 as nat) * (max_h as nat) <= (u32::MAX as nat) * (u32::MAX as nat)) by (nonlinear_arith);
        }
        let w2 = round_div((w1 as u128) * (max_h as u128), h1 as u128);
        (if w2 < 1 { 1 } else { w2 }, max_h)
    } else {
        (w1, h1)
    }
}

/// `n` copies of `c`.
pub open spec fn repeat_char(c: char, n: nat) -> Seq<char> {
    Seq::new(n, |i: int| c)
}

/// Appends `n` copies of `c`.
fn push_repeated(s: &mut String, c: char, n: usize)
    ensures
        final(s)@ == old(s)@ + repeat_char(c, n as nat),
{
    let mut i: usize = 0;
    while i < n
        invariant
            i <= n,
            s@ == old(s)@ + repeat_char(c, i as nat),
        decreases n - i,
    {
        push_char(s, c);
        i = i + 1;
        assert(s@ =~= old(s)@ + repeat_char(c, i as nat));
    }
}

/// The separator between two images: a horizontal rule across the terminal.
pub fn separator(term_w: usize) -> (line: String)
    ensures
        line@ == repeat_char('\u{2500}', term_w as nat),
{
    let mut line = String::new();
    push_repeated(&mut line, '\u{2500}', term_w);
    assert(line@ =~= repeat_char('\u{2500}', term_w as nat));
    line
}

/// Whether a separator follows image `i` of `n`: after every image but the last.
pub fn needs_separator(i: usize, n: usize) -> (b: bool)
    ensures
        b == (i + 1 < n),
{
    i < n && n - i > 1
}

/// The middle-dot separator between footer fields.
pub open spec fn field_gap() -> Seq<char> {
    seq![' ', '\u{b7}', ' ']
}

/// The tag that marks ASCII output.
pub open spec fn ascii_tag() -> Seq<char> {
    seq!['a', 's', 'c', 'i', 'i', ' ', 'b', 'y', ' ', 'v', 'i', 'u', 'a']
}

/// The footer text: with `show_info`, the file, its pixel size, format and byte
/// size (and the ASCII tag for ASCII output); else the ASCII tag alone for ASCII
/// output; else none.
pub open spec fn footer_text(
    file: Seq<char>,
    width: u32,
    height: u32,
    format: Seq<char>,
    size: Seq<char>,
    show_info: bool,
    is_ascii: bool,
) -> Option<Seq<char>> {
    if show_info {
        let base = file + field_gap() + decimal(width as nat) + seq!['\u{d7}'] + decimal(height as nat)
            + field_gap() + format + field_gap() + size;
        Some(if is_ascii { base + field_gap() + ascii_tag() } else { base })
    } else if is_ascii {
        Some(ascii_tag())
    } else {
        None
    }
}

/// The three lines of a rounded box `term_w` columns wide around `text`, centred,
/// the odd space on the right.
pub open spec fn footer_box(text: Seq<char>, term_w: nat) -> Seq<Seq<char>> {
    let inner: nat = if term_w >= 2 { (term_w - 2) as nat } else { 0 };
    let gap: nat = if inner >= text.len() { (inner - text.len()) as nat } else { 0 };
    let left: nat = gap / 2;
    let right: nat = (gap - left) as nat;
    seq![
        seq!['\u{256d}'] + repeat_char('\u{2500}', inner) + seq!['\u{256e}'],
        seq!['\u{2502}'] + repeat_char(' ', left) + text + repeat_char(' ', right) + seq!['\u{2502}'],
        seq!['\u{2570}'] + repeat_char('\u{2500}', inner) + seq!['\u{256f}'],
    ]
}

/// Text that fits is boxed in exactly the terminal's width: every line of the box is
/// `term_w` characters long.
pub proof fn lemma_footer_box_width(text: Seq<char>, term_w: nat)
    requires
        term_w >= 2,
        text.len() <= term_w - 2,
    ensures
        footer_box(text, term_w).len() == 3,
        forall|i: int| 0 <= i < 3 ==> (#[trigger] footer_box(text, term_w)[i]).len() == term_w,
{
}

/// The footer shown after an image on a terminal `term_w` columns wide: none on a
/// terminal narrower than four columns or when there is no footer text, else the
/// boxed text.
pub open spec fn footer_lines(
    file: Seq<char>,
    width: u32,
    height: u32,
    format: Seq<char>,
    size: Seq<char>,
    show_info: bool,
    is_ascii: bool,
    term_w: nat,
) -> Option<Seq<Seq<char>>> {
    if term_w < 4 {
        None
    } else {
        match footer_text(file, width, height, format, size, show_info, is_ascii) {
            Some(t) => Some(footer_box(t, term_w)),
            None => None,
        }
    }
}

/// Appends the middle-dot field separator.
fn push_gap(s: &mut String)
    ensures
        final(s)@ == old(s)@ + field_gap(),
{
    push_char(s, ' ');
    push_char(s, '\u{b7}');
    push_char(s, ' ');
    assert(s@ =~= old(s)@ + field_gap());
}

/// Appends the ASCII tag.
fn push_tag(s: &mut String)
    ensures
        final(s)@ == old(s)@ + ascii_tag(),
{
    push_str(s, "ascii by viua");
    proof {
        reveal_strlit("ascii by viua");
    }
    assert(s@ =~= old(s)@ + ascii_tag());
}

/// The footer lines after an image: `file` shown `width` by `height`, its format and
/// its size as text, on a terminal `term_w` columns wide.
pub fn footer(
    file: &str,
    width: u32,
    height: u32,
    format: &str,
    size: &str,
    show_info: bool,
    is_ascii: bool,
    term_w: usize,
) -> (lines: Option<Vec<String>>)
    ensures
        match lines {
            Some(v) => footer_lines(file@, width, height, format@, size@, show_info, is_ascii, term_w as nat)
                == Some(v@.map_values(|l: String| l@)),
            None => footer_lines(file@, width, height, format@, size@, show_info, is_ascii, term_w as nat) is None,
        },
{
    if term_w < 4 {
        return None;
    }
    if !show_info && !is_ascii {
        return None;
    }
    let mut text = String::new();
    if show_info {
        push_str(&mut text, file);
        push_gap(&mut text);
        push_decimal(&mut text, width as u64);
        push_char(&mut text, '\u{d7}');
        push_decimal(&mut text, height as u64);
        push_gap(&mut text);
        push_str(&mut text, format);
        push_gap(&mut text);
        push_str(&mut text, size);
        if is_ascii {
            push_gap(&mut text);
            push_tag(&mut text);
        }
    } else {
        push_tag(&mut text);
    }
    let ghost t = text@;
    assert(footer_text(file@, width, height, format@, size@, show_info, is_ascii) == Some(t)) by {
        if show_info {
            let base = file@ + field_gap() + decimal(width as nat) + seq!['\u{d7}'] + decimal(height as nat)
                + field_gap() + format@ + field_gap() + size@;
            if is_ascii {
                assert(t =~= base + field_gap() + ascii_tag());
            } else {
                assert(t =~= base);
            }
        } else {
            assert(t =~= ascii_tag());
        }
    }
    let inner: usize = term_w - 2;
    let text_w = text.as_str().unicode_len();
    let gap: usize = if inner >= text_w { inner - text_w } else { 0 };
    let left = gap / 2;
    let right = gap - left;
    let mut top = String::new();
    push_char(&mut top, '\u{256d}');
    push_repeated(&mut top, '\u{2500}', inner);
    push_char(&mut top, '\u{256e}');
    let mut middle = String::new();
    push_char(&mut middle, '\u{2502}');
    push_repeated(&mut middle, ' ', left);
    push_str(&mut middle, text.as_str());
    push_repeated(&mut middle, ' ', right);
    push_char(&mut middle, '\u{2502}');
    let mut bottom = String::new();
    push_char(&mut bottom, '\u{2570}');
    push_repeated(&mut bottom, '\u{2500}', inner);
    push_char(&mut bottom, '\u{256f}');
    let ghost expected = footer_box(t, term_w as nat);
    proof {
        assert(text_w == t.len());
        assert(top@ =~= expected[0]);
        assert(middle@ =~= expected[1]);
        assert(bottom@ =~= expected[2]);
    }
    let ghost views = seq![top@, middle@, bottom@];
    let mut lines: Vec<String> = Vec::new();
    lines.push(top);
    lines.push(middle);
    lines.push(bottom);
    proof {
        assert(lines@.map_values(|l: String| l@) =~= views);
        assert(views =~= expected);
    }
    Some(lines)
}

} // verus!
