use rust_exercises::text::{chars_of, parse_usize, split_on, split_tokens, string_from_chars, trim};

#[test]
fn trims_unicode_white_space() {
    assert_eq!(trim("  a b \n"), "a b");
    assert_eq!(trim("\u{3000}x\u{85}"), "x");
    assert_eq!(trim(""), "");
}

#[test]
fn parses_usize() {
    assert_eq!(parse_usize("42"), Some(42));
    assert_eq!(parse_usize("+42"), Some(42));
    assert_eq!(parse_usize(""), None);
    assert_eq!(parse_usize("4 2"), None);
    assert_eq!(parse_usize("-1"), None);
}

#[test]
fn splits() {
    let cs = chars_of("a,,b");
    let parts: Vec<String> = split_on(&cs, ',').iter().map(|p| string_from_chars(p)).collect();
    assert_eq!(parts, vec!["a", "", "b"]);
    let ws = chars_of("  one\ttwo  three ");
    let toks: Vec<String> = split_tokens(&ws, true).iter().map(|p| string_from_chars(p)).collect();
    assert_eq!(toks, vec!["one", "two", "three"]);
    let nb = chars_of("a\u{a0}b");
    assert_eq!(split_tokens(&nb, true).len(), 1);
    assert_eq!(split_tokens(&nb, false).len(), 2);
}
