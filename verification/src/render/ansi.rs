//! ANSI terminal text for ASCII art: one truecolor escape before every glyph
//! when colour is on, a reset at the end of every row.

use vstd::prelude::*;
use crate::ascii::{AsciiArt, AsciiPixel};
use crate::text::{decimal, push_char, push_str};

verus! {

/// The SGR sequence that sets the foreground to the truecolor `(r, g, b)`.
pub open spec fn sgr_foreground(r: u8, g: u8, b: u8) -> Seq<char> {
    seq!['\x1b', '[', '3', '8', ';', '2', ';'] + decimal(r as nat) + seq![';'] + decimal(g as nat) + seq![';']
        + decimal(b as nat) + seq!['m']
}

/// The SGR sequence with no parameters.
pub open spec fn sgr_empty() -> Seq<char> {
    seq!['\x1b', '[', 'm']
}

/// The SGR sequence that resets all attributes.
pub open spec fn sgr_reset() -> Seq<char> {
    seq!['\x1b', '[', '0', 'm']
}

/// The escape sequence that sets the foreground colour to `(r, g, b)`.
///
/// Calls `crossterm::style::SetForegroundColor(Color::Rgb { r, g, b })` through
/// `crossterm::Command::write_ansi`. Its source writes `ESC [ 38;2;r;g;b m`, or
/// `ESC [ m` when crossterm has ANSI colour turned off (the `NO_COLOR` environment
/// variable, read once per process); the contract claims one of the two and does
/// not say which.
#[verifier::external_body]
fn foreground_code(r: u8, g: u8, b: u8) -> (code: String)
    ensures
        code@ == sgr_foreground(r, g, b) || code@ == sgr_empty(),
{
    let mut code = String::new();
    let command = crossterm::style::SetForegroundColor(crossterm::style::Color::Rgb { r, g, b });
    let _ = crossterm::Command::write_ansi(&command, &mut code);
    code
}

/// The escape sequence that resets colours.
///
/// Calls `crossterm::style::ResetColor` through `crossterm::Command::write_ansi`,
/// whose source writes `ESC [ 0 m`; the contract claims exactly that.
#[verifier::external_body]
fn reset_code() -> (code: String)
    ensures
        code@ == sgr_reset(),
{
    let mut code = String::new();
    let _ = crossterm::Command::write_ansi(&crossterm::style::ResetColor, &mut code);
    code
}

/// A glyph, preceded by its colour escape when colour is on.
pub open spec fn pixel_text(p: AsciiPixel, colored: bool, code: Seq<char>) -> Seq<char> {
    if colored { code.push(p.char) } else { seq![p.char] }
}

/// The text of one row of cells, without its line end.
pub open spec fn row_text(row: Seq<AsciiPixel>, colored: bool, codes: Seq<Seq<char>>) -> Seq<char>
    decreases row.len(),
{
    if row.len() == 0 {
        Seq::empty()
    } else {
        row_text(row.drop_last(), colored, codes.drop_last()) + pixel_text(row.last(), colored, codes.last())
    }
}

/// The end of every row: a colour reset when colour is on, then CR LF.
pub open spec fn line_end(colored: bool) -> Seq<char> {
    if colored { sgr_reset() + seq!['\r', '\n'] } else { seq!['\r', '\n'] }
}

/// The text of all rows.
pub open spec fn art_text(rows: Seq<Seq<AsciiPixel>>, colored: bool, codes: Seq<Seq<Seq<char>>>) -> Seq<char>
    decreases rows.len(),
{
    if rows.len() == 0 {
        Seq::empty()
    } else {
        art_text(rows.drop_last(), colored, codes.drop_last()) + row_text(rows.last(), colored, codes.last())
            + line_end(colored)
    }
}

/// `codes` holds, for every cell, the colour escape that crossterm may write for it.
pub open spec fn codes_fit(rows: Seq<Seq<AsciiPixel>>, codes: Seq<Seq<Seq<char>>>) -> bool {
    &&& codes.len() == rows.len()
    &&& forall|i: int| 0 <= i < rows.len() ==> (#[trigger] codes[i]).len() == rows[i].len()
    &&& forall|i: int, j: int|
        0 <= i < rows.len() && 0 <= j < rows[i].len() ==> (#[trigger] codes[i][j] == sgr_foreground(
            rows[i][j].r,
            rows[i][j].g,
            rows[i][j].b,
        ) || codes[i][j] == sgr_empty())
}

/// Without colour, a row's text is just its glyphs.
proof fn lemma_plain_row(row: Seq<AsciiPixel>, codes: Seq<Seq<char>>)
    ensures
        row_text(row, false, codes) == row.map_values(|p: AsciiPixel| p.char),
    decreases row.len(),
{
    if row.len() > 0 {
        lemma_plain_row(row.drop_last(), codes.drop_last());
        assert(row_text(row, false, codes) =~= row.map_values(|p: AsciiPixel| p.char));
    }
}

/// Without colour the text holds no escape character unless a glyph is one: every
/// row is its glyphs followed by CR LF, whatever crossterm would have written.
pub proof fn lemma_monochrome_has_no_escape(rows: Seq<Seq<AsciiPixel>>, codes: Seq<Seq<Seq<char>>>)
    requires
        forall|i: int, j: int| 0 <= i < rows.len() && 0 <= j < rows[i].len() ==> (#[trigger] rows[i][j]).char != '\x1b',
    ensures
        !art_text(rows, false, codes).contains('\x1b'),
    decreases rows.len(),
{
    if rows.len() > 0 {
        let last = rows.last();
        lemma_monochrome_has_no_escape(rows.drop_last(), codes.drop_last());
        lemma_plain_row(last, codes.last());
        let prefix = art_text(rows.drop_last(), false, codes.drop_last());
        let glyphs = last.map_values(|p: AsciiPixel| p.char);
        assert(art_text(rows, false, codes) == prefix + glyphs + seq!['\r', '\n']);
        assert forall|k: int| 0 <= k < art_text(rows, false, codes).len() implies art_text(rows, false, codes)[k] != '\x1b' by {
            if k < prefix.len() {
                assert(art_text(rows, false, codes)[k] == prefix[k]);
                assert(!prefix.contains('\x1b'));
            } else if k < prefix.len() + glyphs.len() {
                let j = k - prefix.len();
                assert(glyphs[j] == last[j].char);
                assert(rows[rows.len() - 1][j].char != '\x1b');
            }
        }
    }
}

/// The terminal text of `art`: every row of glyphs followed by CR LF; when `color` is
/// on and `monochrome` off, each glyph is preceded by the escape for its colour and
/// each row ends with a colour reset.
pub fn render(art: &AsciiArt, color: bool, monochrome: bool) -> (out: String)
    ensures
        exists|codes: Seq<Seq<Seq<char>>>|
            #[trigger] codes_fit(art.cells(), codes) && out@ == art_text(art.cells(), color && !monochrome, codes),
{
    let colored = color && !monochrome;
    let ghost rows = art.cells();
    let mut out = String::new();
    let ghost mut codes: Seq<Seq<Seq<char>>> = Seq::empty();
    let n = art.lines.len();
    let mut y: usize = 0;
    while y < n
        invariant
            rows == art.cells(),
            n == art.lines@.len(),
            rows.len() == n,
            y <= n,
            codes_fit(rows.take(y as int), codes),
            out@ == art_text(rows.take(y as int), colored, codes),
        decreases n - y,
    {
        let row = &art.lines[y];
        let ghost cells = rows[y as int];
        assert(cells == row@);
        let m = row.len();
        let ghost mut row_codes: Seq<Seq<char>> = Seq::empty();
        let ghost start = out@;
        let mut x: usize = 0;
        while x < m
            invariant
                m == row@.len(),
                cells == row@,
                x <= m,
                row_codes.len() == x,
                forall|j: int|
                    0 <= j < x ==> (#[trigger] row_codes[j] == sgr_foreground(cells[j].r, cells[j].g, cells[j].b)
                        || row_codes[j] == sgr_empty()),
                out@ == start + row_text(cells.take(x as int), colored, row_codes),
            decreases m - x,
        {
            let p = row[x];
            let ghost before = out@;
            let ghost code: Seq<char>;
            if colored {
                let c = foreground_code(p.r, p.g, p.b);
                push_str(&mut out, c.as_str());
                proof {
                    code = c@;
                }
            } else {
                proof {
                    code = sgr_foreground(p.r, p.g, p.b);
                }
            }
            push_char(&mut out, p.char);
            proof {
                let prev_codes = row_codes;
                row_codes = row_codes.push(code);
                assert(cells.take(x + 1).drop_last() =~= cells.take(x as int));
                assert(row_codes.drop_last() =~= prev_codes);
                assert(out@ =~= start + row_text(cells.take(x + 1), colored, row_codes));
            }
            x = x + 1;
        }
        if colored {
            let reset = reset_code();
            push_str(&mut out, reset.as_str());
        }
        push_str(&mut out, "\r\n");
        proof {
            reveal_strlit("\r\n");
            assert(cells.take(m as int) =~= cells);
            let prev = codes;
            codes = codes.push(row_codes);
            assert(rows.take(y + 1).drop_last() =~= rows.take(y as int));
            assert(codes.drop_last() =~= prev);
            assert(out@ =~= art_text(rows.take(y + 1), colored, codes));
            assert forall|i: int| 0 <= i < y + 1 implies (#[trigger] codes[i]).len() == rows.take(y + 1)[i].len() by {
                if i < y {
                    assert(codes[i] == prev[i]);
                }
            }
            assert forall|i: int, j: int|
                0 <= i < y + 1 && 0 <= j < rows.take(y + 1)[i].len() implies (#[trigger] codes[i][j] == sgr_foreground(
                    rows.take(y + 1)[i][j].r,
                    rows.take(y + 1)[i][j].g,
                    rows.take(y + 1)[i][j].b,
                ) || codes[i][j] == sgr_empty()) by {
                if i < y {
                    assert(codes[i] == prev[i]);
                    assert(rows.take(y + 1)[i] == rows.take(y as int)[i]);
                }
            }
        }
        y = y + 1;
    }
    proof {
        assert(rows.take(n as int) =~= rows);
    }
    out
}

} // verus!
