//! A standalone HTML page for ASCII art: one coloured `span` per glyph inside
//! a `pre` block.

use vstd::prelude::*;
use crate::ascii::{AsciiArt, AsciiPixel};
use crate::text::{decimal, push_char, push_decimal, push_str};

verus! {

/// The HTML text for character `c`: the entity for `&`, `<`, `>` and `"`, else `c`.
pub open spec fn escape_char(c: char) -> Seq<char> {
    if c == '&' {
        seq!['&', 'a', 'm', 'p', ';']
    } else if c == '<' {
        seq!['&', 'l', 't', ';']
    } else if c == '>' {
        seq!['&', 'g', 't', ';']
    } else if c == '"' {
        seq!['&', 'q', 'u', 'o', 't', ';']
    } else {
        seq![c]
    }
}

/// `s` with every character escaped.
pub open spec fn escape_text(s: Seq<char>) -> Seq<char>
    decreases s.len(),
{
    if s.len() == 0 {
        Seq::empty()
    } else {
        escape_text(s.drop_last()) + escape_char(s.last())
    }
}

/// The HTML text for one character.
pub fn html_escape_char(c: char) -> (s: String)
    ensures
        s@ == escape_char(c),
{
    let mut s = String::new();
    push_escaped(&mut s, c);
    s
}

/// Appends the HTML text for `c`.
fn push_escaped(s: &mut String, c: char)
    ensures
        final(s)@ == old(s)@ + escape_char(c),
{
    if c == '&' {
        push_str(s, "&amp;");
        proof {
            reveal_strlit("&amp;");
        }
    } else if c == '<' {
        push_str(s, "&lt;");
        proof {
            reveal_strlit("&lt;");
        }
    } else if c == '>' {
        push_str(s, "&gt;");
        proof {
            reveal_strlit("&gt;");
        }
    } else if c == '"' {
        push_str(s, "&quot;");
        proof {
            reveal_strlit("&quot;");
        }
    } else {
        push_char(s, c);
    }
    assert(s@ =~= old(s)@ + escape_char(c));
}

/// `s` with `&`, `<`, `>` and `"` replaced by their entities.
pub fn html_escape(s: &str) -> (out: String)
    ensures
        out@ == escape_text(s@),
{
    let n = s.unicode_len();
    let mut out = String::new();
    let mut i: usize = 0;
    while i < n
        invariant
            n == s@.len(),
            i <= n,
            out@ == escape_text(s@.take(i as int)),
        decreases n - i,
    {
        let c = s.get_char(i);
        push_escaped(&mut out, c);
        assert(s@.take(i + 1).drop_last() =~= s@.take(i as int));
        i = i + 1;
    }
    assert(s@.take(n as int) =~= s@);
    out
}

/// Escaped text holds no `<`, `>` or `"`: markup cannot leak out of it.
pub proof fn lemma_escape_has_no_markup(s: Seq<char>)
    ensures
        forall|i: int|
            0 <= i < escape_text(s).len() ==> escape_text(s)[i] != '<' && escape_text(s)[i] != '>'
                && escape_text(s)[i] != '"',
    decreases s.len(),
{
    if s.len() > 0 {
        lemma_escape_has_no_markup(s.drop_last());
        let prefix = escape_text(s.drop_last());
        let tail = escape_char(s.last());
        assert forall|i: int|
            0 <= i < escape_text(s).len() implies escape_text(s)[i] != '<' && escape_text(s)[i] != '>'
                && escape_text(s)[i] != '"' by {
            if i >= prefix.len() {
                assert(escape_text(s)[i] == tail[i - prefix.len()]);
            } else {
                assert(escape_text(s)[i] == prefix[i]);
            }
        }
    }
}

/// Text without special characters is its own escape.
pub proof fn lemma_escape_plain(s: Seq<char>)
    requires
        forall|i: int| 0 <= i < s.len() ==> s[i] != '&' && s[i] != '<' && s[i] != '>' && s[i] != '"',
    ensures
        escape_text(s) == s,
    decreases s.len(),
{
    if s.len() > 0 {
        lemma_escape_plain(s.drop_last());
        assert(s.drop_last().push(s.last()) =~= s);
    }
}

/// The entity escaping writes for `&`.
pub open spec fn amp_entity() -> Seq<char> {
    seq!['&', 'a', 'm', 'p', ';']
}

/// The entity escaping writes for `<`.
pub open spec fn lt_entity() -> Seq<char> {
    seq!['&', 'l', 't', ';']
}

/// The entity escaping writes for `>`.
pub open spec fn gt_entity() -> Seq<char> {
    seq!['&', 'g', 't', ';']
}

/// The entity escaping writes for `"`.
pub open spec fn quot_entity() -> Seq<char> {
    seq!['&', 'q', 'u', 'o', 't', ';']
}

/// `e` occurs in `t` starting at position `i`.
pub open spec fn occurs_at(t: Seq<char>, i: int, e: Seq<char>) -> bool {
    0 <= i && i + e.len() <= t.len() && t.subrange(i, i + e.len()) == e
}

/// One of the four entities starts at position `i` of `t`.
pub open spec fn entity_at(t: Seq<char>, i: int) -> bool {
    ||| occurs_at(t, i, amp_entity())
    ||| occurs_at(t, i, lt_entity())
    ||| occurs_at(t, i, gt_entity())
    ||| occurs_at(t, i, quot_entity())
}

/// Escaped text decoded, front to back: each of the four entities becomes its
/// character again, anything else stays.
pub open spec fn unescape_text(t: Seq<char>) -> Seq<char>
    decreases t.len(),
{
    if t.len() == 0 {
        Seq::empty()
    } else if occurs_at(t, 0, amp_entity()) {
        seq!['&'] + unescape_text(t.skip(5))
    } else if occurs_at(t, 0, lt_entity()) {
        seq!['<'] + unescape_text(t.skip(4))
    } else if occurs_at(t, 0, gt_entity()) {
        seq!['>'] + unescape_text(t.skip(4))
    } else if occurs_at(t, 0, quot_entity()) {
        seq!['"'] + unescape_text(t.skip(6))
    } else {
        seq![t[0]] + unescape_text(t.skip(1))
    }
}

/// Escaping text piece by piece is escaping it whole.
proof fn lemma_escape_append(a: Seq<char>, b: Seq<char>)
    ensures
        escape_text(a + b) == escape_text(a) + escape_text(b),
    decreases b.len(),
{
    if b.len() == 0 {
        assert(a + b =~= a);
        assert(escape_text(a) + escape_text(b) =~= escape_text(a));
    } else {
        lemma_escape_append(a, b.drop_last());
        assert((a + b).drop_last() =~= a + b.drop_last());
        assert((a + b).last() == b.last());
        assert(escape_text(a + b) =~= escape_text(a) + escape_text(b));
    }
}

/// The escape of a text is the escape of its first character followed by the escape
/// of the rest.
proof fn lemma_escape_front(s: Seq<char>)
    requires
        s.len() > 0,
    ensures
        escape_text(s) == escape_char(s[0]) + escape_text(s.skip(1)),
{
    let head = seq![s[0]];
    lemma_escape_append(head, s.skip(1));
    assert(head + s.skip(1) =~= s);
    assert(head.drop_last() =~= Seq::<char>::empty());
    assert(head.last() == s[0]);
    assert(escape_text(head) == escape_text(head.drop_last()) + escape_char(head.last()));
    assert(escape_text(head) =~= escape_char(s[0]));
}

/// Decoding undoes escaping: the escaped text of `s` decodes to `s`.
pub proof fn lemma_unescape_escape(s: Seq<char>)
    ensures
        unescape_text(escape_text(s)) == s,
    decreases s.len(),
{
    if s.len() > 0 {
        let c = s[0];
        let rest = s.skip(1);
        let e = escape_char(c);
        let tail = escape_text(rest);
        let t = escape_text(s);
        lemma_escape_front(s);
        lemma_unescape_escape(rest);
        assert(t == e + tail);
        assert(t.skip(e.len() as int) =~= tail);
        assert(t.subrange(0, e.len() as int) =~= e);
        if c == '&' {
            assert(occurs_at(t, 0, amp_entity()));
        } else if c == '<' {
            assert(t[1] == 'l');
            assert(!occurs_at(t, 0, amp_entity()));
            assert(occurs_at(t, 0, lt_entity()));
        } else if c == '>' {
            assert(t[1] == 'g');
            assert(!occurs_at(t, 0, amp_entity()));
            assert(!occurs_at(t, 0, lt_entity()));
            assert(occurs_at(t, 0, gt_entity()));
        } else if c == '"' {
            assert(t[1] == 'q');
            assert(!occurs_at(t, 0, amp_entity()));
            assert(!occurs_at(t, 0, lt_entity()));
            assert(!occurs_at(t, 0, gt_entity()));
            assert(occurs_at(t, 0, quot_entity()));
        } else {
            assert(t[0] == c);
            assert(!occurs_at(t, 0, amp_entity()));
            assert(!occurs_at(t, 0, lt_entity()));
            assert(!occurs_at(t, 0, gt_entity()));
            assert(!occurs_at(t, 0, quot_entity()));
        }
        assert(seq![c] + rest =~= s);
    }
}

/// `t` with every occurrence of `pat` replaced by `rep`, matches taken from left
/// to right without overlapping (as `str::replace` does).
pub open spec fn replace_all(t: Seq<char>, pat: Seq<char>, rep: Seq<char>) -> Seq<char>
    decreases t.len(),
{
    if t.len() == 0 {
        Seq::empty()
    } else if pat.len() > 0 && occurs_at(t, 0, pat) {
        rep + replace_all(t.skip(pat.len() as int), pat, rep)
    } else {
        seq![t[0]] + replace_all(t.skip(1), pat, rep)
    }
}

/// Decoding by replacement, in this order: `&quot;`, `&gt;` and `&lt;` by their
/// characters, then `&amp;` by `&`.
pub open spec fn unescape_by_replace(t: Seq<char>) -> Seq<char> {
    replace_all(
        replace_all(replace_all(replace_all(t, quot_entity(), seq!['"']), gt_entity(), seq!['>']), lt_entity(), seq!['<']),
        amp_entity(),
        seq!['&'],
    )
}

/// The entity that replacement step `k` decodes.
pub open spec fn step_entity(k: nat) -> Seq<char> {
    if k == 0 {
        quot_entity()
    } else if k == 1 {
        gt_entity()
    } else if k == 2 {
        lt_entity()
    } else {
        amp_entity()
    }
}

/// The character that replacement step `k` restores.
pub open spec fn step_char(k: nat) -> char {
    if k == 0 {
        '"'
    } else if k == 1 {
        '>'
    } else if k == 2 {
        '<'
    } else {
        '&'
    }
}

/// Whether the entity of `c` has been decoded by the first `k` replacement steps.
pub open spec fn decoded_by(k: nat, c: char) -> bool {
    ||| (c == '"' && k >= 1)
    ||| (c == '>' && k >= 2)
    ||| (c == '<' && k >= 3)
    ||| (c == '&' && k >= 4)
}

/// The text that stands for `c` after the first `k` replacement steps.
pub open spec fn staged_char(k: nat, c: char) -> Seq<char> {
    if decoded_by(k, c) { seq![c] } else { escape_char(c) }
}

/// The escaped text of `s` after the first `k` replacement steps.
pub open spec fn staged_text(k: nat, s: Seq<char>) -> Seq<char>
    decreases s.len(),
{
    if s.len() == 0 {
        Seq::empty()
    } else {
        staged_char(k, s[0]) + staged_text(k, s.skip(1))
    }
}

/// Before any step the staged text is the escaped text; after all four it is the
/// text itself.
proof fn lemma_staged_ends(s: Seq<char>)
    ensures
        staged_text(0, s) == escape_text(s),
        staged_text(4, s) == s,
    decreases s.len(),
{
    if s.len() > 0 {
        lemma_staged_ends(s.skip(1));
        lemma_escape_front(s);
        assert(staged_char(0, s[0]) == escape_char(s[0]));
        assert(staged_char(4, s[0]) =~= seq![s[0]]) by {
            if s[0] == '&' || s[0] == '<' || s[0] == '>' || s[0] == '"' {
                assert(decoded_by(4, s[0]));
            } else {
                assert(escape_char(s[0]) == seq![s[0]]);
            }
        }
        assert(seq![s[0]] + s.skip(1) =~= s);
    }
}

/// Replacement passes over a block that holds no `&` after its first character and
/// where no match starts.
proof fn lemma_replace_skips_block(b: Seq<char>, r: Seq<char>, pat: Seq<char>, rep: Seq<char>)
    requires
        pat.len() > 0,
        pat[0] == '&',
        forall|i: int| 1 <= i < b.len() ==> b[i] != '&',
        !occurs_at(b + r, 0, pat),
    ensures
        replace_all(b + r, pat, rep) == b + replace_all(r, pat, rep),
    decreases b.len(),
{
    let t = b + r;
    if b.len() == 0 {
        assert(t =~= r);
    } else {
        assert(t.skip(1) =~= b.skip(1) + r);
        assert(t[0] == b[0]);
        if b.len() > 1 {
            let u = b.skip(1) + r;
            assert(u[0] == b[1]);
            if occurs_at(u, 0, pat) {
                assert(u.subrange(0, pat.len() as int)[0] == u[0]);
            }
            lemma_replace_skips_block(b.skip(1), r, pat, rep);
        } else {
            assert(b.skip(1) + r =~= r);
        }
        assert(seq![b[0]] + (b.skip(1) + replace_all(r, pat, rep)) =~= b + replace_all(r, pat, rep));
    }
}

/// Replacement step `k` turns the text after `k` steps into the text after `k + 1`.
proof fn lemma_replace_step(k: nat, s: Seq<char>)
    requires
        k < 4,
    ensures
        replace_all(staged_text(k, s), step_entity(k), seq![step_char(k)]) == staged_text(k + 1, s),
    decreases s.len(),
{
    let pat = step_entity(k);
    let rep = seq![step_char(k)];
    if s.len() == 0 {
        assert(staged_text(k, s) =~= Seq::<char>::empty());
    } else {
        let c = s[0];
        let rest = s.skip(1);
        let blk = staged_char(k, c);
        let tail = staged_text(k, rest);
        let t = staged_text(k, s);
        lemma_replace_step(k, rest);
        assert(t == blk + tail);
        if c == step_char(k) {
            assert(!decoded_by(k, c));
            assert(blk == pat);
            assert(t.subrange(0, pat.len() as int) =~= pat);
            assert(t.skip(pat.len() as int) =~= tail);
            assert(decoded_by(k + 1, c));
        } else {
            assert(staged_char(k + 1, c) == blk);
            assert forall|i: int| 1 <= i < blk.len() implies blk[i] != '&' by {}
            if occurs_at(t, 0, pat) {
                assert(t.subrange(0, pat.len() as int)[0] == t[0]);
                assert(t.subrange(0, pat.len() as int)[1] == t[1]);
                assert(t[0] == blk[0]);
                assert(blk.len() > 1);
                assert(t[1] == blk[1]);
            }
            lemma_replace_skips_block(blk, tail, pat, rep);
        }
    }
}

/// Decoding by replacement, as `str::replace` would do it with `&quot;`, `&gt;` and
/// `&lt;` first and `&amp;` last, undoes escaping.
pub proof fn lemma_unescape_by_replace(s: Seq<char>)
    ensures
        unescape_by_replace(escape_text(s)) == s,
{
    lemma_staged_ends(s);
    lemma_replace_step(0, s);
    lemma_replace_step(1, s);
    lemma_replace_step(2, s);
    lemma_replace_step(3, s);
}

/// An entity in `p` is still an entity when more text follows.
proof fn lemma_entity_extends(p: Seq<char>, e: Seq<char>, i: int)
    requires
        entity_at(p, i),
    ensures
        entity_at(p + e, i),
{
    let t = p + e;
    if occurs_at(p, i, amp_entity()) {
        assert(t.subrange(i, i + 5) =~= p.subrange(i, i + 5));
    } else if occurs_at(p, i, lt_entity()) {
        assert(t.subrange(i, i + 4) =~= p.subrange(i, i + 4));
    } else if occurs_at(p, i, gt_entity()) {
        assert(t.subrange(i, i + 4) =~= p.subrange(i, i + 4));
    } else {
        assert(t.subrange(i, i + 6) =~= p.subrange(i, i + 6));
    }
}

/// The escape of one character holds an `&` only at its start, and there an entity
/// begins.
proof fn lemma_escaped_char_ampersand(p: Seq<char>, c: char, j: int)
    requires
        0 <= j < escape_char(c).len(),
        escape_char(c)[j] == '&',
    ensures
        j == 0,
        entity_at(p + escape_char(c), p.len() as int),
{
    let e = escape_char(c);
    let t = p + e;
    let i = p.len() as int;
    assert(t.subrange(i, i + e.len()) =~= e);
    if c == '&' {
        assert(occurs_at(t, i, amp_entity()));
    } else if c == '<' {
        assert(occurs_at(t, i, lt_entity()));
    } else if c == '>' {
        assert(occurs_at(t, i, gt_entity()));
    } else if c == '"' {
        assert(occurs_at(t, i, quot_entity()));
    }
}

/// In escaped text every `&` begins one of the four entities.
pub proof fn lemma_escape_ampersands(s: Seq<char>)
    ensures
        forall|i: int| 0 <= i < escape_text(s).len() && escape_text(s)[i] == '&' ==> entity_at(escape_text(s), i),
    decreases s.len(),
{
    if s.len() > 0 {
        lemma_escape_ampersands(s.drop_last());
        let p = escape_text(s.drop_last());
        let e = escape_char(s.last());
        let t = escape_text(s);
        assert(t == p + e);
        assert forall|i: int| 0 <= i < t.len() && t[i] == '&' implies entity_at(t, i) by {
            if i < p.len() {
                assert(p[i] == '&');
                lemma_entity_extends(p, e, i);
            } else {
                assert(e[i - p.len()] == '&');
                lemma_escaped_char_ampersand(p, s.last(), i - p.len());
            }
        }
    }
}

/// The opening of the page, up to and including the `pre` tag.
pub open spec fn page_head(title: Seq<char>) -> Seq<char> {
    "<!DOCTYPE html>\n"@ + "<html lang=\"en\">\n"@ + "<head>\n"@ + "  <meta charset=\"UTF-8\">\n"@
        + "  <title>"@ + escape_text(title) + "</title>\n"@ + "  <style>\n"@
        + "    body { background: #1e1e1e; margin: 0; padding: 1rem; }\n"@
        + "    pre { font-family: monospace; font-size: 12px; line-height: 1.2; }\n"@ + "  </style>\n"@
        + "</head>\n"@ + "<body><pre>\n"@
}

/// One glyph in a `span` coloured with its `rgb`.
pub open spec fn cell_html(p: AsciiPixel) -> Seq<char> {
    "<span style=\"color:rgb("@ + decimal(p.r as nat) + ","@ + decimal(p.g as nat) + ","@ + decimal(p.b as nat)
        + ")\">"@ + escape_char(p.char) + "</span>"@
}

/// The cells of a row, in order.
pub open spec fn cells_html(row: Seq<AsciiPixel>) -> Seq<char>
    decreases row.len(),
{
    if row.len() == 0 {
        Seq::empty()
    } else {
        cells_html(row.drop_last()) + cell_html(row.last())
    }
}

/// Every row's cells followed by a newline.
pub open spec fn rows_html(rows: Seq<Seq<AsciiPixel>>) -> Seq<char>
    decreases rows.len(),
{
    if rows.len() == 0 {
        Seq::empty()
    } else {
        rows_html(rows.drop_last()) + cells_html(rows.last()) + "\n"@
    }
}

/// The whole page for `rows` with the given title.
pub open spec fn html_page(rows: Seq<Seq<AsciiPixel>>, title: Seq<char>) -> Seq<char> {
    page_head(title) + rows_html(rows) + "</pre></body>\n"@ + "</html>\n"@
}

/// Appends the `span` for one cell.
fn push_cell(out: &mut String, p: AsciiPixel)
    ensures
        final(out)@ == old(out)@ + cell_html(p),
{
    push_str(out, "<span style=\"color:rgb(");
    push_decimal(out, p.r as u64);
    push_str(out, ",");
    push_decimal(out, p.g as u64);
    push_str(out, ",");
    push_decimal(out, p.b as u64);
    push_str(out, ")\">");
    push_escaped(out, p.char);
    push_str(out, "</span>");
    assert(out@ =~= old(out)@ + cell_html(p));
}

/// A standalone HTML page that shows `art` in colour, titled `title`.
pub fn render_html(art: &AsciiArt, title: &str) -> (page: String)
    ensures
        page@ == html_page(art.cells(), title@),
{
    let ghost rows = art.cells();
    let mut out = String::new();
    push_str(&mut out, "<!DOCTYPE html>\n");
    push_str(&mut out, "<html lang=\"en\">\n");
    push_str(&mut out, "<head>\n");
    push_str(&mut out, "  <meta charset=\"UTF-8\">\n");
    push_str(&mut out, "  <title>");
    let escaped = html_escape(title);
    push_str(&mut out, escaped.as_str());
    push_str(&mut out, "</title>\n");
    push_str(&mut out, "  <style>\n");
    push_str(&mut out, "    body { background: #1e1e1e; margin: 0; padding: 1rem; }\n");
    push_str(&mut out, "    pre { font-family: monospace; font-size: 12px; line-height: 1.2; }\n");
    push_str(&mut out, "  </style>\n");
    push_str(&mut out, "</head>\n");
    push_str(&mut out, "<body><pre>\n");
    assert(out@ =~= page_head(title@));
    let ghost head = out@;
    let n = art.lines.len();
    let mut y: usize = 0;
    while y < n
        invariant
            rows == art.cells(),
            n == art.lines@.len(),
            rows.len() == n,
            y <= n,
            out@ == head + rows_html(rows.take(y as int)),
        decreases n - y,
    {
        let row = &art.lines[y];
        let ghost cells = rows[y as int];
        assert(cells == row@);
        let m = row.len();
        let ghost start = out@;
        let mut x: usize = 0;
        while x < m
            invariant
                m == row@.len(),
                cells == row@,
                x <= m,
                out@ == start + cells_html(cells.take(x as int)),
            decreases m - x,
        {
            push_cell(&mut out, row[x]);
            assert(cells.take(x + 1).drop_last() =~= cells.take(x as int));
            assert(out@ =~= start + cells_html(cells.take(x + 1)));
            x = x + 1;
        }
        push_str(&mut out, "\n");
        assert(cells.take(m as int) =~= cells);
        assert(rows.take(y + 1).drop_last() =~= rows.take(y as int));
        assert(out@ =~= head + rows_html(rows.take(y + 1)));
        y = y + 1;
    }
    assert(rows.take(n as int) =~= rows);
    push_str(&mut out, "</pre></body>\n");
    push_str(&mut out, "</html>\n");
    assert(out@ =~= html_page(rows, title@));
    out
}

} // verus!
