use std::collections::HashSet;
use viua::ascii::charset::{charset_chars, select_charset, DEFAULT_CHARSET};

#[test]
fn test_charset_not_empty() {
    assert!(!DEFAULT_CHARSET.is_empty());
}

#[test]
fn test_charset_no_duplicates() {
    let chars: Vec<char> = DEFAULT_CHARSET.chars().collect();
    let unique: HashSet<char> = DEFAULT_CHARSET.chars().collect();
    assert_eq!(chars.len(), unique.len());
}

#[test]
fn test_charset_maps_dark_to_light() {
    let chars: Vec<char> = DEFAULT_CHARSET.chars().collect();
    assert_eq!(chars[0], ' ');
    assert_eq!(*chars.last().unwrap(), '@');
}

#[test]
fn charset_chars_keeps_order() {
    assert_eq!(charset_chars(" .-+#"), vec![' ', '.', '-', '+', '#']);
    assert_eq!(charset_chars(""), Vec::<char>::new());
}

#[test]
fn empty_configuration_selects_default_ramp() {
    let chars = select_charset("");
    assert_eq!(chars.len(), 10);
    assert_eq!(chars.iter().collect::<String>(), " .:-=+*#%@");
}

#[test]
fn configured_ramp_is_used_as_given() {
    assert_eq!(select_charset("ab"), vec!['a', 'b']);
}
