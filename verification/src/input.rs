//! Rules for the paths given on the command line.

use vstd::prelude::*;
use crate::text::str_has_char;

verus! {

/// Whether `s` holds a glob wildcard: `*`, `?` or `[`.
pub fn contains_glob_chars(s: &str) -> (r: bool)
    ensures
        r == (s@.contains('*') || s@.contains('?') || s@.contains('[')),
{
    str_has_char(s, '*') || str_has_char(s, '?') || str_has_char(s, '[')
}

/// How glob patterns are matched.
#[derive(Clone, Copy, Debug, PartialEq, Eq, Structural)]
pub struct GlobOptions {
    pub case_sensitive: bool,
    pub require_literal_separator: bool,
    pub require_literal_leading_dot: bool,
}

/// The default glob matching options.
///
/// Calls `glob::MatchOptions::default()`, which `glob` derives, so every flag is
/// `false`; the contract claims exactly that and copies the three flags.
#[verifier::external_body]
fn default_match_options() -> (o: GlobOptions)
    ensures
        !o.case_sensitive,
        !o.require_literal_separator,
        !o.require_literal_leading_dot,
{
    let o = glob::MatchOptions::default();
    GlobOptions {
        case_sensitive: o.case_sensitive,
        require_literal_separator: o.require_literal_separator,
        require_literal_leading_dot: o.require_literal_leading_dot,
    }
}

/// Options for expanding wildcards in paths: case-insensitive, `*` may cross path
/// separators and match leading dots.
pub fn get_glob_options() -> (o: GlobOptions)
    ensures
        !o.case_sensitive,
        !o.require_literal_separator,
        !o.require_literal_leading_dot,
{
    default_match_options()
}

/// Whether `s` begins with `prefix`.
pub fn starts_with(s: &str, prefix: &str) -> (r: bool)
    ensures
        r == (prefix@.len() <= s@.len() && s@.take(prefix@.len() as int) == prefix@),
{
    let n = s.unicode_len();
    let m = prefix.unicode_len();
    if m > n {
        return false;
    }
    let mut i: usize = 0;
    while i < m
        invariant
            n == s@.len(),
            m == prefix@.len(),
            m <= n,
            i <= m,
            forall|j: int| 0 <= j < i ==> s@[j] == prefix@[j],
        decreases m - i,
    {
        if s.get_char(i) != prefix.get_char(i) {
            assert(s@.take(m as int)[i as int] != prefix@[i as int]);
            return false;
        }
        i = i + 1;
    }
    assert(s@.take(m as int) =~= prefix@);
    true
}

/// Inputs that name a web address rather than a file.
pub open spec fn is_url_text(s: Seq<char>) -> bool {
    ||| ("http://"@.len() <= s.len() && s.take("http://"@.len() as int) == "http://"@)
    ||| ("https://"@.len() <= s.len() && s.take("https://"@.len() as int) == "https://"@)
}

/// Whether the input is a web address (`http://` or `https://`) to download.
pub fn is_url(s: &str) -> (r: bool)
    ensures
        r == is_url_text(s@),
{
    starts_with(s, "http://") || starts_with(s, "https://")
}

/// What to do with one input.
#[derive(Clone, Copy, Debug, PartialEq, Eq, Structural)]
pub enum InputAction {
    /// Download it to a temporary file and show that.
    Download,
    /// Collect the images in the directory tree.
    Traverse,
    /// Warn that it is a directory and skip it.
    SkipDirectory,
    /// Show the file.
    Open,
}

/// The action for an input: web addresses are downloaded, directories traversed
/// only when recursion is on, anything else opened.
pub fn classify_input(path: &str, is_dir: bool, recursive: bool) -> (a: InputAction)
    ensures
        a == if is_url_text(path@) {
            InputAction::Download
        } else if is_dir {
            if recursive { InputAction::Traverse } else { InputAction::SkipDirectory }
        } else {
            InputAction::Open
        },
{
    if is_url(path) {
        InputAction::Download
    } else if is_dir {
        if recursive {
            InputAction::Traverse
        } else {
            InputAction::SkipDirectory
        }
    } else {
        InputAction::Open
    }
}

/// `c` with ASCII capitals lowered.
pub open spec fn ascii_lower(c: char) -> char {
    if 'A' <= c <= 'Z' { ((c as u32) + 32) as char } else { c }
}

/// The file extensions that are collected from directories.
pub open spec fn image_extensions() -> Seq<Seq<char>> {
    seq![
        "png"@,
        "jpg"@,
        "jpeg"@,
        "gif"@,
        "webp"@,
        "bmp"@,
        "ico"@,
        "tiff"@,
        "tga"@,
    ]
}

/// Whether `ext`, ignoring ASCII case, equals `name`.
fn equals_ignoring_case(ext: &str, name: &str) -> (r: bool)
    ensures
        r == (ext@.map_values(|c: char| ascii_lower(c)) == name@),
{
    let n = ext.unicode_len();
    let m = name.unicode_len();
    if n != m {
        assert(ext@.map_values(|c: char| ascii_lower(c)).len() != name@.len());
        return false;
    }
    let mut i: usize = 0;
    while i < n
        invariant
            n == ext@.len(),
            m == name@.len(),
            n == m,
            i <= n,
            forall|j: int| 0 <= j < i ==> ascii_lower(ext@[j]) == name@[j],
        decreases n - i,
    {
        let c = ext.get_char(i);
        let lower = if 'A' <= c && c <= 'Z' {
            ((c as u32) + 32) as u8 as char
        } else {
            c
        };
        assert(lower == ascii_lower(c)) by {
            if 'A' <= c && c <= 'Z' {
                assert(((c as u32) + 32) as u8 as char == ((c as u32) + 32) as char);
            }
        }
        if lower != name.get_char(i) {
            assert(ext@.map_values(|c: char| ascii_lower(c))[i as int] != name@[i as int]);
            return false;
        }
        i = i + 1;
    }
    assert(ext@.map_values(|c: char| ascii_lower(c)) =~= name@);
    true
}

/// Whether a file extension, ignoring ASCII case, names an image format that
/// directory traversal collects.
pub fn has_image_extension(ext: &str) -> (r: bool)
    ensures
        r == image_extensions().contains(ext@.map_values(|c: char| ascii_lower(c))),
{
    let ghost lowered = ext@.map_values(|c: char| ascii_lower(c));
    let r = equals_ignoring_case(ext, "png") || equals_ignoring_case(ext, "jpg")
        || equals_ignoring_case(ext, "jpeg") || equals_ignoring_case(ext, "gif")
        || equals_ignoring_case(ext, "webp") || equals_ignoring_case(ext, "bmp")
        || equals_ignoring_case(ext, "ico") || equals_ignoring_case(ext, "tiff")
        || equals_ignoring_case(ext, "tga");
    proof {
        let names = image_extensions();
        if r {
            assert(exists|k: int| 0 <= k < names.len() && names[k] == lowered) by {
                if lowered == "png"@ { assert(names[0] == lowered); }
                else if lowered == "jpg"@ { assert(names[1] == lowered); }
                else if lowered == "jpeg"@ { assert(names[2] == lowered); }
                else if lowered == "gif"@ { assert(names[3] == lowered); }
                else if lowered == "webp"@ { assert(names[4] == lowered); }
                else if lowered == "bmp"@ { assert(names[5] == lowered); }
                else if lowered == "ico"@ { assert(names[6] == lowered); }
                else if lowered == "tiff"@ { assert(names[7] == lowered); }
                else { assert(names[8] == lowered); }
            }
        } else {
            assert forall|k: int| 0 <= k < names.len() implies names[k] != lowered by {}
        }
    }
    r
}

} // verus!
