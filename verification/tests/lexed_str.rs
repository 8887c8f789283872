use ungrammar_parser::lexed_str::{
    error_to_diagnostic_message, unescape_string_error_message, LexedStr,
};
use ungrammar_parser::syntax_kind::SyntaxKind;
use ungrammar_parser::syntax_kind::SyntaxKind::{
    COLON, COMMENT, EQ, ERROR, IDENT, L_PAREN, PIPE, QUESTION, R_PAREN, STAR, STRING, WHITESPACE,
};
use ungrammar_parser::unescape::EscapeError;

fn lex(text: &str) -> String {
    let lexed = LexedStr::new(text);

    let mut res = String::new();
    for i in 0..lexed.len() {
        let kind = lexed.kind(i);
        let text = lexed.text(i);
        let error = lexed.error(i);

        let error = error.map(|err| format!(" error: {err}")).unwrap_or_default();
        res.push_str(&format!("{kind:?} {text:?}{error}\n"));
    }
    res
}

fn kinds(text: &str) -> Vec<SyntaxKind> {
    let lexed = LexedStr::new(text);
    (0..lexed.len()).map(|i| lexed.kind(i)).collect()
}

#[test]
fn lexes_a_node() {
    assert_eq!(
        lex("Hello = 'Hello' // greets\n"),
        "IDENT \"Hello\"\n\
         WHITESPACE \" \"\n\
         EQ \"=\"\n\
         WHITESPACE \" \"\n\
         STRING \"'Hello'\"\n\
         WHITESPACE \" \"\n\
         COMMENT \"// greets\"\n\
         WHITESPACE \"\\n\"\n"
    );
}

#[test]
fn every_token_kind_gets_its_syntax_kind() {
    assert_eq!(
        kinds("a=*|?:()'s'#//c\n\r"),
        vec![
            IDENT, EQ, STAR, PIPE, QUESTION, COLON, L_PAREN, R_PAREN, STRING, ERROR, COMMENT,
            WHITESPACE, WHITESPACE,
        ]
    );
}

#[test]
fn empty_text_is_empty() {
    let lexed = LexedStr::new("");
    assert_eq!(lexed.len(), 0);
    assert!(lexed.is_empty());
    assert_eq!(lexed.as_str(), "");
    assert_eq!(lexed.text_start(0), 0);
    assert_eq!(lexed.errors().len(), 0);
    assert!(!LexedStr::new(" ").is_empty());
}

#[test]
fn ranges_and_offsets() {
    let text = "Ab = 'x\u{e9}' | c";
    let lexed = LexedStr::new(text);
    assert_eq!(lexed.as_str(), text);
    assert_eq!(lexed.len(), 9);
    assert_eq!(lexed.text_range(0), 0..2);
    assert_eq!(lexed.text_range(4), 5..10);
    assert_eq!(lexed.text(4), "'x\u{e9}'");
    assert_eq!(lexed.text_len(4), 5);
    assert_eq!(lexed.text_start(4), 5);
    assert_eq!(lexed.text_start(8), 13);
    assert_eq!(lexed.text_start(9), text.len());
    assert_eq!(lexed.range_text(2..5), "= 'x\u{e9}'");
    assert_eq!(lexed.range_text(0..9), text);
    assert_eq!(lexed.kind(6), PIPE);
}

#[test]
fn token_texts_join_to_the_text() {
    for text in [
        "",
        "A = 'b' | c*\n",
        "x\u{e9}'\\'\r//c",
        "'open \u{1f980}",
        "Model =\n  (persons:Person | greetings:Greeting)*\n",
        "\r\r'\\z' 1 \u{20ac}",
    ] {
        let lexed = LexedStr::new(text);
        let mut joined = String::new();
        let mut end = 0;
        for i in 0..lexed.len() {
            let range = lexed.text_range(i);
            assert_eq!(range.start, end);
            assert!(range.start < range.end);
            end = range.end;
            joined.push_str(lexed.text(i));
        }
        assert_eq!(end, text.len());
        assert_eq!(joined, text);
    }
}

#[test]
fn unterminated_string_scenario() {
    let lexed = LexedStr::new("'abc");
    assert_eq!(lexed.len(), 1);
    assert_eq!(lexed.kind(0), STRING);
    assert_eq!(lexed.text_range(0), 0..4);
    assert_eq!(
        lexed.error(0),
        Some("missing trailing `'` symbol to terminate the token literal")
    );
    assert!(lexed.error(0).unwrap().contains("missing trailing"));
    assert_eq!(
        lexed.errors(),
        vec![(0, "missing trailing `'` symbol to terminate the token literal")]
    );
}

#[test]
fn carriage_return_is_whitespace_with_a_message() {
    assert_eq!(
        lex("a\rb"),
        "IDENT \"a\"\n\
         WHITESPACE \"\\r\" error: unexpected `\\r`, only Unix-style line endings allowed\n\
         IDENT \"b\"\n"
    );
}

#[test]
fn invalid_escape_in_a_string() {
    let lexed = LexedStr::new(r"x '\z' y");
    assert_eq!(lexed.error(0), None);
    assert_eq!(lexed.error(2), Some("unknown character escape"));
    assert_eq!(lexed.error(4), None);
    assert_eq!(lexed.errors(), vec![(2, "unknown character escape")]);
}

#[test]
fn well_formed_strings_have_no_message() {
    for text in ["'a'", r"'\\'", r"'\''", "'\u{1f980}'", r"'a\\b\'c'"] {
        let lexed = LexedStr::new(text);
        assert_eq!(lexed.len(), 1);
        assert_eq!(lexed.error(0), None);
        assert_eq!(lexed.errors().len(), 0);
    }
}

#[test]
fn empty_string_and_carriage_return_inside_have_no_message() {
    let lexed = LexedStr::new("''");
    assert_eq!(lexed.kind(0), STRING);
    assert_eq!(lexed.error(0), None);
    let lexed = LexedStr::new("'a\rb'");
    assert_eq!(lexed.len(), 1);
    assert_eq!(lexed.error(0), None);
}

#[test]
fn the_first_error_of_a_string_decides() {
    let lexed = LexedStr::new("'\\z\r'");
    assert_eq!(lexed.error(0), Some("unknown character escape"));
    let lexed = LexedStr::new("'\r\\z'");
    assert_eq!(lexed.error(0), None);
}

#[test]
fn messages_are_found_by_token_index() {
    let text = "a \r '\\q' \r x '\\\\' 'open";
    let lexed = LexedStr::new(text);
    let expected = vec![
        (2, "unexpected `\\r`, only Unix-style line endings allowed"),
        (4, "unknown character escape"),
        (6, "unexpected `\\r`, only Unix-style line endings allowed"),
        (12, "missing trailing `'` symbol to terminate the token literal"),
    ];
    assert_eq!(lexed.errors(), expected);
    for i in 0..lexed.len() {
        let found = expected.iter().find(|(token, _)| *token == i).map(|(_, msg)| *msg);
        assert_eq!(lexed.error(i), found);
    }
}

#[test]
fn messages_for_escape_errors() {
    assert_eq!(error_to_diagnostic_message(EscapeError::ZeroChars), "");
    assert_eq!(
        error_to_diagnostic_message(EscapeError::LoneSlash),
        "escaped `\\` character without continuation"
    );
    assert_eq!(error_to_diagnostic_message(EscapeError::InvalidEscape), "unknown character escape");
    assert_eq!(error_to_diagnostic_message(EscapeError::BareCarriageReturn), "");
    assert_eq!(
        error_to_diagnostic_message(EscapeError::EscapeOnlyChar),
        "character constant must be escaped"
    );
}

#[test]
fn message_for_the_contents_of_a_literal() {
    assert_eq!(unescape_string_error_message("abc"), "");
    assert_eq!(unescape_string_error_message(""), "");
    assert_eq!(unescape_string_error_message("a'b"), "character constant must be escaped");
    assert_eq!(unescape_string_error_message(r"a\"), "escaped `\\` character without continuation");
    assert_eq!(unescape_string_error_message(r"a\b'"), "unknown character escape");
    assert_eq!(unescape_string_error_message("'\\b"), "character constant must be escaped");
}

#[test]
fn lexing_twice_gives_the_same() {
    let text = "A = 'b\\q' | \r c* // d\n'open";
    assert_eq!(lex(text), lex(text));
    let a = LexedStr::new(text);
    let b = LexedStr::new(text);
    assert_eq!(a.len(), b.len());
    assert_eq!(a.errors(), b.errors());
    for i in 0..a.len() {
        assert_eq!(a.kind(i), b.kind(i));
        assert_eq!(a.text_range(i), b.text_range(i));
    }
}

#[test]
fn input_leaves_out_whitespace_and_comments() {
    let lexed = LexedStr::new("A = // c\n 'b' \r x");
    let input = lexed.to_input();
    assert_eq!(input.len(), 4);
    assert_eq!(input.kind(0), IDENT);
    assert_eq!(input.kind(1), EQ);
    assert_eq!(input.kind(2), STRING);
    assert_eq!(input.kind(3), IDENT);
    assert_eq!(input.kind(4), SyntaxKind::EOF);
    assert_eq!(input.kind(400), SyntaxKind::EOF);
    assert_eq!(LexedStr::new(" // only\n").to_input().len(), 0);
    assert_ne!(COMMENT, WHITESPACE);
}
