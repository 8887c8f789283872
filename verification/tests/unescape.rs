use std::ops::Range;
use ungrammar_parser::unescape::{unescape, EscapeError};

fn collect(literal_text: &str) -> Result<String, (Range<usize>, EscapeError)> {
    let mut buf = Ok(String::with_capacity(literal_text.len()));
    for (range, c) in unescape(literal_text) {
        if let Ok(b) = &mut buf {
            match c {
                Ok(c) => b.push(c),
                Err(e) => buf = Err((range, e)),
            }
        }
    }
    buf
}

fn check(literal_text: &str, expected: &str) {
    let buf = collect(literal_text);
    assert_eq!(buf.as_deref(), Ok(expected))
}

fn check_error(literal_text: &str, expected: EscapeError) {
    let buf = collect(literal_text).map_err(|(_range, e)| e);
    assert_eq!(buf.as_deref(), Err(&expected))
}

#[test]
fn test_unescape_char_bad() {
    check_error("", EscapeError::ZeroChars);
    check_error(r"\", EscapeError::LoneSlash);

    check_error("'", EscapeError::EscapeOnlyChar);
    check_error("\r", EscapeError::BareCarriageReturn);

    check_error(r"\v", EscapeError::InvalidEscape);
    check_error(r"\n", EscapeError::InvalidEscape);
    check_error(r"\üí©", EscapeError::InvalidEscape);
    check_error(r"\‚óè", EscapeError::InvalidEscape);
    check_error("\\\r", EscapeError::InvalidEscape);
}

#[test]
fn test_unescape_char_good() {
    check("a", "a");
    check("—ã", "—ã");
    check("ü¶Ä", "ü¶Ä");

    check(r"\\", "\\");
    check(r"\'", "\'");
}

#[test]
fn test_unescape_str_good() {
    check("foo", "foo");
    check(" \t\n", " \t\n");

    check("thread\"s", "thread\"s")
}

#[test]
fn unescape_reports_each_piece_with_its_bytes() {
    let pieces = unescape(r"a\\b");
    assert_eq!(pieces.len(), 3);
    assert_eq!(pieces[0], (0..1, Ok('a')));
    assert_eq!(pieces[1], (1..3, Ok('\\')));
    assert_eq!(pieces[2], (3..4, Ok('b')));
}

#[test]
fn unescape_counts_bytes_not_characters() {
    let pieces = unescape("\u{e9}'\\\u{1f980}x");
    assert_eq!(pieces.len(), 4);
    assert_eq!(pieces[0], (0..2, Ok('\u{e9}')));
    assert_eq!(pieces[1], (2..3, Err(EscapeError::EscapeOnlyChar)));
    assert_eq!(pieces[2], (3..8, Err(EscapeError::InvalidEscape)));
    assert_eq!(pieces[3], (8..9, Ok('x')));
}

#[test]
fn unescape_empty_literal_is_one_piece() {
    let pieces = unescape("");
    assert_eq!(pieces, vec![(0..0, Err(EscapeError::ZeroChars))]);
}

#[test]
fn unescape_lone_slash_ends_the_scan() {
    let pieces = unescape(r"ab\");
    assert_eq!(pieces.len(), 3);
    assert_eq!(pieces[2], (2..3, Err(EscapeError::LoneSlash)));
}

#[test]
fn unescape_goes_on_after_an_error() {
    let pieces = unescape("\\z\r'\\'");
    assert_eq!(
        pieces,
        vec![
            (0..2, Err(EscapeError::InvalidEscape)),
            (2..3, Err(EscapeError::BareCarriageReturn)),
            (3..4, Err(EscapeError::EscapeOnlyChar)),
            (4..6, Ok('\'')),
        ]
    );
}

#[test]
fn invalid_escape_scenario() {
    check_error(r"\z", EscapeError::InvalidEscape);
}
