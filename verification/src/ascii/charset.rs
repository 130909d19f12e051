//! The glyph ramp used when none is configured.

use vstd::prelude::*;

verus! {

/// Glyphs from dark (a blank) to light (`@`).
pub const DEFAULT_CHARSET: &'static str = " .:-=+*#%@";

/// The characters of `s`, in order.
pub fn charset_chars(s: &str) -> (chars: Vec<char>)
    ensures
        chars@ == s@,
{
    let n = s.unicode_len();
    let mut chars: Vec<char> = Vec::new();
    let mut i: usize = 0;
    while i < n
        invariant
            n == s@.len(),
            i <= n,
            chars@ == s@.take(i as int),
        decreases n - i,
    {
        chars.push(s.get_char(i));
        i = i + 1;
        assert(chars@ =~= s@.take(i as int));
    }
    assert(s@.take(n as int) =~= s@);
    chars
}

/// The default ramp has ten distinct glyphs, a blank first and `@` last.
pub proof fn lemma_default_charset_shape()
    ensures
        DEFAULT_CHARSET@.len() == 10,
        DEFAULT_CHARSET@[0] == ' ',
        DEFAULT_CHARSET@[9] == '@',
        forall|i: int, j: int| 0 <= i < j < 10 ==> DEFAULT_CHARSET@[i] != DEFAULT_CHARSET@[j],
{
    reveal_strlit(" .:-=+*#%@");
    assert(DEFAULT_CHARSET@ =~= seq![' ', '.', ':', '-', '=', '+', '*', '#', '%', '@']);
}

/// The glyphs to draw with: the configured ramp, or the default one when none is
/// configured. Never empty.
pub fn select_charset(configured: &str) -> (chars: Vec<char>)
    ensures
        chars@ == if configured@.len() == 0 { DEFAULT_CHARSET@ } else { configured@ },
        chars@.len() >= 1,
{
    proof {
        lemma_default_charset_shape();
    }
    if configured.unicode_len() == 0 {
        charset_chars(DEFAULT_CHARSET)
    } else {
        charset_chars(configured)
    }
}

} // verus!
