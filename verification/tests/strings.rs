use json_parser::error::{ErrorKind, ParseError};
use json_parser::string::{json_char, json_string};

fn letters(input: &str) -> Vec<char> {
    input.chars().collect()
}

fn no_string<T>(position: usize, kind: ErrorKind, committed: bool) -> Result<T, ParseError> {
    Err(ParseError { position, kind, committed })
}

#[test]
fn json_char_passes_raw_characters_through() {
    assert_eq!(json_char(&letters("ab"), 0), Ok(('a', 1)));
    assert_eq!(json_char(&letters("ab"), 1), Ok(('b', 2)));
    assert_eq!(json_char(&letters(" "), 0), Ok((' ', 1)));
    assert_eq!(json_char(&letters("\n"), 0), Ok(('\n', 1)));
    assert_eq!(json_char(&letters("é"), 0), Ok(('é', 1)));
    assert_eq!(json_char(&letters("/"), 0), Ok(('/', 1)));
    assert_eq!(json_char(&letters("\u{10ffff}x"), 0), Ok(('\u{10ffff}', 1)));
}

#[test]
fn json_char_replaces_each_escape() {
    assert_eq!(json_char(&letters(r#"\""#), 0), Ok(('"', 2)));
    assert_eq!(json_char(&letters(r#"\\"#), 0), Ok(('\\', 2)));
    assert_eq!(json_char(&letters(r#"\/"#), 0), Ok(('/', 2)));
    assert_eq!(json_char(&letters(r#"\b"#), 0), Ok(('\u{0008}', 2)));
    assert_eq!(json_char(&letters(r#"\f"#), 0), Ok(('\u{000c}', 2)));
    assert_eq!(json_char(&letters(r#"\n"#), 0), Ok(('\n', 2)));
    assert_eq!(json_char(&letters(r#"\r"#), 0), Ok(('\r', 2)));
    assert_eq!(json_char(&letters(r#"\t"#), 0), Ok(('\t', 2)));
    assert_eq!(json_char(&letters(r#"x\ty"#), 1), Ok(('\t', 3)));
}

#[test]
fn json_char_ends_the_content_at_a_quote_and_at_the_end() {
    assert_eq!(json_char(&letters("\""), 0), no_string(0, ErrorKind::EndOfString, false));
    assert_eq!(json_char(&letters("a\"b"), 1), no_string(1, ErrorKind::EndOfString, false));
    assert_eq!(json_char(&letters(""), 0), no_string(0, ErrorKind::EndOfString, false));
    assert_eq!(json_char(&letters("ab"), 2), no_string(2, ErrorKind::EndOfString, false));
    assert_eq!(json_char(&letters("ab"), 5), no_string(5, ErrorKind::EndOfString, false));
}

#[test]
fn json_char_refuses_other_escapes() {
    assert_eq!(json_char(&letters(r#"\x"#), 0), no_string(1, ErrorKind::UnrecognizedEscape, true));
    assert_eq!(json_char(&letters(r#"\u0041"#), 0), no_string(1, ErrorKind::UnrecognizedEscape, true));
    assert_eq!(json_char(&letters(r#"\N"#), 0), no_string(1, ErrorKind::UnrecognizedEscape, true));
    assert_eq!(json_char(&letters(r#"\ n"#), 0), no_string(1, ErrorKind::UnrecognizedEscape, true));
    assert_eq!(json_char(&letters(r#"\'"#), 0), no_string(1, ErrorKind::UnrecognizedEscape, true));
    assert_eq!(json_char(&letters(r#"\0"#), 0), no_string(1, ErrorKind::UnrecognizedEscape, true));
    assert_eq!(json_char(&letters("\\"), 0), no_string(1, ErrorKind::UnrecognizedEscape, true));
    assert_eq!(json_char(&letters("ab\\"), 2), no_string(3, ErrorKind::UnrecognizedEscape, true));
}

#[test]
fn json_string_unescapes_its_content() {
    assert_eq!(json_string(&letters(r#""""#), 0), Ok(("".to_string(), 2)));
    assert_eq!(json_string(&letters(r#""abc""#), 0), Ok(("abc".to_string(), 5)));
    assert_eq!(json_string(&letters(r#""a b""#), 0), Ok(("a b".to_string(), 5)));
    assert_eq!(json_string(&letters(r#""\n\t\"\\""#), 0), Ok(("\n\t\"\\".to_string(), 10)));
    assert_eq!(json_string(&letters(r#""a\/b""#), 0), Ok(("a/b".to_string(), 6)));
    assert_eq!(json_string(&letters(r#""\\n""#), 0), Ok(("\\n".to_string(), 5)));
    assert_eq!(json_string(&letters("\"h\u{e9}llo \u{1f600}\""), 0), Ok(("h\u{e9}llo \u{1f600}".to_string(), 9)));
    assert_eq!(json_string(&letters("\"line\nbreak\""), 0), Ok(("line\nbreak".to_string(), 12)));
    assert_eq!(json_string(&letters(r#"["x","y"]"#), 5), Ok(("y".to_string(), 8)));
}

#[test]
fn json_string_skips_whitespace_after_but_not_before() {
    assert_eq!(json_string(&letters("\"a\"  \n:"), 0), Ok(("a".to_string(), 6)));
    assert_eq!(json_string(&letters("\" a \"\t"), 0), Ok((" a ".to_string(), 6)));
    assert_eq!(json_string(&letters(" \"a\""), 0), no_string(0, ErrorKind::ExpectedString, false));
    assert_eq!(json_string(&letters(" \"a\""), 1), Ok(("a".to_string(), 4)));
}

#[test]
fn json_string_needs_its_quotes() {
    assert_eq!(json_string(&letters(""), 0), no_string(0, ErrorKind::ExpectedString, false));
    assert_eq!(json_string(&letters("abc"), 0), no_string(0, ErrorKind::ExpectedString, false));
    assert_eq!(json_string(&letters("'a'"), 0), no_string(0, ErrorKind::ExpectedString, false));
    assert_eq!(json_string(&letters("\"a\""), 3), no_string(3, ErrorKind::ExpectedString, false));
    assert_eq!(json_string(&letters("\"a\""), 8), no_string(8, ErrorKind::ExpectedString, false));
    assert_eq!(json_string(&letters("\""), 0), no_string(1, ErrorKind::ExpectedChar('"'), true));
    assert_eq!(json_string(&letters("\"abc"), 0), no_string(4, ErrorKind::ExpectedChar('"'), true));
    assert_eq!(json_string(&letters("\"abc\\\""), 0), no_string(6, ErrorKind::ExpectedChar('"'), true));
}

#[test]
fn json_string_fails_on_a_bad_escape() {
    assert_eq!(json_string(&letters(r#""a\xb""#), 0), no_string(3, ErrorKind::UnrecognizedEscape, true));
    assert_eq!(json_string(&letters(r#""\u00e9""#), 0), no_string(2, ErrorKind::UnrecognizedEscape, true));
    assert_eq!(json_string(&letters("\"ab\\"), 0), no_string(4, ErrorKind::UnrecognizedEscape, true));
}
