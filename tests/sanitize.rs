use mdx2db::sanitize::{escape_quotes, is_whitespace, trim_white, Sanitizer, MARKUP_PATTERN};

#[test]
fn single_quotes_become_escaped_double_quotes() {
    assert_eq!(escape_quotes("it's"), "it\\\"s");
}

#[test]
fn double_quotes_are_escaped() {
    assert_eq!(escape_quotes("say \"hi\""), "say \\\"hi\\\"");
}

#[test]
fn text_without_quotes_is_unchanged() {
    assert_eq!(escape_quotes("plain <b>text</b>"), "plain <b>text</b>");
    assert_eq!(escape_quotes(""), "");
}

#[test]
fn escaping_twice_doubles_the_escapes() {
    let once = escape_quotes("a'b");
    let twice = escape_quotes(&once);
    assert_eq!(once, "a\\\"b");
    assert_eq!(twice, "a\\\\\"b");
    assert_ne!(once, twice);
    let plain = escape_quotes("no quotes");
    assert_eq!(escape_quotes(&plain), plain);
}

#[test]
fn non_ascii_text_is_kept() {
    assert_eq!(escape_quotes("café 'ü'"), "café \\\"ü\\\"");
}

#[test]
fn trim_removes_outer_whitespace_only() {
    assert_eq!(trim_white("  a b \t\n"), "a b");
    assert_eq!(trim_white("   "), "");
    assert_eq!(trim_white(""), "");
    assert_eq!(trim_white("\u{3000}x\u{3000}"), "x");
    assert_eq!(trim_white("x"), "x");
}

#[test]
fn markup_pattern_names_image_and_anchor_tags() {
    assert_eq!(MARKUP_PATTERN, r"<img\b[^>]*>|</img>|<a\b[^>]*>|</a>");
}

#[test]
fn strip_removes_image_and_anchor_tags_and_trims() {
    let s = Sanitizer::new(true).unwrap();
    assert!(s.strip());
    let out = s.sanitize("  <img src=\"x\">hello <a href=\"y\">link</a>  ");
    assert_eq!(out, "hello link");
}

#[test]
fn strip_keeps_other_tags() {
    let s = Sanitizer::new(true).unwrap();
    assert_eq!(s.sanitize("<b>bold</b><abbr>x</abbr></img>"), "<b>bold</b><abbr>x</abbr>");
}

#[test]
fn no_strip_leaves_tags_but_escapes_quotes() {
    let s = Sanitizer::new(false).unwrap();
    assert!(!s.strip());
    let out = s.sanitize("  <img src=\"x\"><a href='y'>link</a>  ");
    assert_eq!(out, "  <img src=\\\"x\\\"><a href=\\\"y\\\">link</a>  ");
}

#[test]
fn sanitize_is_deterministic() {
    let s = Sanitizer::new(true).unwrap();
    let input = " <a href=\"q\">it's</a> ";
    assert_eq!(s.sanitize(input), s.sanitize(input));
    assert_eq!(s.sanitize(input), "it\\\"s");
}

#[test]
fn whitespace_test_agrees_with_std_on_every_char() {
    for u in 0..=0x10FFFFu32 {
        if let Some(c) = char::from_u32(u) {
            assert_eq!(is_whitespace(c), c.is_whitespace(), "U+{:04X}", u);
        }
    }
}

#[test]
fn markup_pattern_compiles() {
    assert!(Sanitizer::new(true).is_ok());
    assert!(Sanitizer::new(false).is_ok());
}
