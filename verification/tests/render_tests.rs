use viua::ascii::{AsciiArt, AsciiPixel};
use viua::render::ansi::render;
use viua::render::html::{html_escape, html_escape_char, render_html};
use viua::render::{Ansi, Renderer};

fn make_art() -> AsciiArt {
    AsciiArt { lines: vec![vec![AsciiPixel { char: 'X', r: 255, g: 128, b: 64 }]] }
}

#[test]
fn test_render_monochrome_no_color_codes() {
    let art = make_art();
    let output = render(&art, false, false);
    assert!(!output.contains("\x1b[38;2;"));
    assert!(output.contains('X'));
    assert!(output.contains("\r\n"));
}

#[test]
fn test_render_color_emits_rgb_escape() {
    let art = make_art();
    let output = render(&art, true, false);
    assert!(output.contains("\x1b[38;2;255;128;64m"));
    assert!(output.contains("X"));
}

#[test]
fn test_render_color_exact_text() {
    let art = make_art();
    assert_eq!(render(&art, true, false), "\x1b[38;2;255;128;64mX\x1b[0m\r\n");
}

#[test]
fn test_render_monochrome_flag_wins_over_color() {
    let art = make_art();
    assert_eq!(render(&art, true, true), "X\r\n");
}

#[test]
fn test_render_rows_in_order() {
    let art = AsciiArt {
        lines: vec![
            vec![AsciiPixel { char: 'a', r: 0, g: 0, b: 0 }, AsciiPixel { char: 'b', r: 1, g: 2, b: 3 }],
            vec![AsciiPixel { char: 'c', r: 9, g: 9, b: 9 }],
        ],
    };
    assert_eq!(render(&art, false, false), "ab\r\nc\r\n");
    assert_eq!(
        render(&art, true, false),
        "\x1b[38;2;0;0;0ma\x1b[38;2;1;2;3mb\x1b[0m\r\n\x1b[38;2;9;9;9mc\x1b[0m\r\n"
    );
}

#[test]
fn test_render_empty_art() {
    let art = AsciiArt { lines: vec![] };
    assert_eq!(render(&art, true, false), "");
}

#[test]
fn test_renderer_trait_matches_function() {
    let art = make_art();
    let r = Ansi { color: true, monochrome: false };
    assert_eq!(r.render(&art), render(&art, true, false));
    let plain = Ansi { color: false, monochrome: false };
    assert_eq!(plain.render(&art), "X\r\n");
}

#[test]
fn test_html_escape() {
    assert_eq!(html_escape("a<b>&\"c\""), "a&lt;b&gt;&amp;&quot;c&quot;");
    assert_eq!(html_escape("plain"), "plain");
    assert_eq!(html_escape(""), "");
}

#[test]
fn test_html_escape_char() {
    assert_eq!(html_escape_char('&'), "&amp;");
    assert_eq!(html_escape_char('<'), "&lt;");
    assert_eq!(html_escape_char('>'), "&gt;");
    assert_eq!(html_escape_char('"'), "&quot;");
    assert_eq!(html_escape_char('x'), "x");
}

#[test]
fn test_render_html_page() {
    let art = AsciiArt { lines: vec![vec![AsciiPixel { char: '<', r: 1, g: 20, b: 255 }]] };
    let page = render_html(&art, "a & b");
    let mut expected = String::new();
    for line in [
        "<!DOCTYPE html>",
        "<html lang=\"en\">",
        "<head>",
        "  <meta charset=\"UTF-8\">",
        "  <title>a &amp; b</title>",
        "  <style>",
        "    body { background: #1e1e1e; margin: 0; padding: 1rem; }",
        "    pre { font-family: monospace; font-size: 12px; line-height: 1.2; }",
        "  </style>",
        "</head>",
        "<body><pre>",
        "<span style=\"color:rgb(1,20,255)\">&lt;</span>",
        "</pre></body>",
        "</html>",
    ] {
        expected.push_str(line);
        expected.push('\n');
    }
    assert_eq!(page, expected);
}

#[test]
fn test_html_escape_round_trip() {
    for s in ["", "plain", "a<b>&\"c\"", "&amp;", "&&<<>>\"\"", "x&lt;y"] {
        let e = html_escape(s);
        for (i, c) in e.char_indices() {
            if c == '&' {
                let rest = &e[i..];
                assert!(
                    rest.starts_with("&amp;") || rest.starts_with("&lt;") || rest.starts_with("&gt;")
                        || rest.starts_with("&quot;")
                );
            }
        }
        let back = e.replace("&quot;", "\"").replace("&gt;", ">").replace("&lt;", "<").replace("&amp;", "&");
        assert_eq!(back, s);
    }
}
