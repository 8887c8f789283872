use ungrammar_parser::lexer::{tokenize, Cursor, Token, TokenKind};

fn check_lexing(src: &str, expect: &str) {
    let actual: String = tokenize(src).into_iter().fold(String::new(), |mut output, token| {
        output.push_str(&format!("{:?}\n", token));
        output
    });
    assert_eq!(expect, actual);
}

fn lexed(src: &str) -> Vec<(TokenKind, u32)> {
    tokenize(src).into_iter().map(|t| (t.kind, t.len)).collect()
}

#[test]
fn smoke_test() {
    check_lexing(
        r#"/// ungrammar for HelloWorld
Model =
  (persons:Person | greetings:Greeting)*

Person =
  'person' name:'ident'

Greeting =
  'Hello' person:Person '!'"#,
        "Token { kind: LineComment, len: 28 }
Token { kind: Whitespace, len: 1 }
Token { kind: Ident, len: 5 }
Token { kind: Whitespace, len: 1 }
Token { kind: Eq, len: 1 }
Token { kind: Whitespace, len: 3 }
Token { kind: OpenParen, len: 1 }
Token { kind: Ident, len: 7 }
Token { kind: Colon, len: 1 }
Token { kind: Ident, len: 6 }
Token { kind: Whitespace, len: 1 }
Token { kind: Or, len: 1 }
Token { kind: Whitespace, len: 1 }
Token { kind: Ident, len: 9 }
Token { kind: Colon, len: 1 }
Token { kind: Ident, len: 8 }
Token { kind: CloseParen, len: 1 }
Token { kind: Star, len: 1 }
Token { kind: Whitespace, len: 2 }
Token { kind: Ident, len: 6 }
Token { kind: Whitespace, len: 1 }
Token { kind: Eq, len: 1 }
Token { kind: Whitespace, len: 3 }
Token { kind: Str { terminated: true }, len: 8 }
Token { kind: Whitespace, len: 1 }
Token { kind: Ident, len: 4 }
Token { kind: Colon, len: 1 }
Token { kind: Str { terminated: true }, len: 7 }
Token { kind: Whitespace, len: 2 }
Token { kind: Ident, len: 8 }
Token { kind: Whitespace, len: 1 }
Token { kind: Eq, len: 1 }
Token { kind: Whitespace, len: 3 }
Token { kind: Str { terminated: true }, len: 7 }
Token { kind: Whitespace, len: 1 }
Token { kind: Ident, len: 6 }
Token { kind: Colon, len: 1 }
Token { kind: Ident, len: 6 }
Token { kind: Whitespace, len: 1 }
Token { kind: Str { terminated: true }, len: 3 }
",
    )
}

#[test]
fn empty_text_has_no_token() {
    assert_eq!(lexed(""), vec![]);
}

#[test]
fn punctuation_is_one_byte_each() {
    assert_eq!(
        lexed("=*|?:()"),
        vec![
            (TokenKind::Eq, 1),
            (TokenKind::Star, 1),
            (TokenKind::Or, 1),
            (TokenKind::Question, 1),
            (TokenKind::Colon, 1),
            (TokenKind::OpenParen, 1),
            (TokenKind::CloseParen, 1),
        ]
    );
}

#[test]
fn whitespace_is_coalesced() {
    assert_eq!(lexed(" \t\n \n"), vec![(TokenKind::Whitespace, 5)]);
}

#[test]
fn carriage_return_is_its_own_token() {
    assert_eq!(
        lexed(" \r\n\r\r"),
        vec![
            (TokenKind::Whitespace, 1),
            (TokenKind::InvalidLineEnding, 1),
            (TokenKind::Whitespace, 1),
            (TokenKind::InvalidLineEnding, 1),
            (TokenKind::InvalidLineEnding, 1),
        ]
    );
}

#[test]
fn digits_end_an_identifier() {
    assert_eq!(
        lexed("ab_C1d"),
        vec![(TokenKind::Ident, 4), (TokenKind::Unknown, 1), (TokenKind::Ident, 1)]
    );
}

#[test]
fn line_comment_stops_before_the_newline() {
    assert_eq!(
        lexed("// a = b\nx"),
        vec![(TokenKind::LineComment, 8), (TokenKind::Whitespace, 1), (TokenKind::Ident, 1)]
    );
    assert_eq!(lexed("//"), vec![(TokenKind::LineComment, 2)]);
}

#[test]
fn single_slash_is_unknown() {
    assert_eq!(
        lexed("/ /*"),
        vec![
            (TokenKind::Unknown, 1),
            (TokenKind::Whitespace, 1),
            (TokenKind::Unknown, 1),
            (TokenKind::Star, 1),
        ]
    );
}

#[test]
fn string_with_escapes() {
    assert_eq!(lexed(r"'a\'b\\'x"), vec![
        (TokenKind::Str { terminated: true }, 8),
        (TokenKind::Ident, 1),
    ]);
    assert_eq!(lexed(r"'\z'"), vec![(TokenKind::Str { terminated: true }, 4)]);
    assert_eq!(lexed("''"), vec![(TokenKind::Str { terminated: true }, 2)]);
}

#[test]
fn unterminated_string_runs_to_the_end() {
    assert_eq!(lexed("'abc"), vec![(TokenKind::Str { terminated: false }, 4)]);
    assert_eq!(lexed(r"'abc\'"), vec![(TokenKind::Str { terminated: false }, 6)]);
    assert_eq!(lexed("'"), vec![(TokenKind::Str { terminated: false }, 1)]);
    assert_eq!(lexed("x '\n y"), vec![
        (TokenKind::Ident, 1),
        (TokenKind::Whitespace, 1),
        (TokenKind::Str { terminated: false }, 4),
    ]);
}

#[test]
fn unknown_character_takes_all_its_bytes() {
    assert_eq!(
        lexed("a\u{e9}\u{20ac}\u{1f980}!b"),
        vec![
            (TokenKind::Ident, 1),
            (TokenKind::Unknown, 2),
            (TokenKind::Unknown, 3),
            (TokenKind::Unknown, 4),
            (TokenKind::Unknown, 1),
            (TokenKind::Ident, 1),
        ]
    );
}

#[test]
fn non_ascii_inside_string_and_comment() {
    assert_eq!(
        lexed("'\u{e9}\u{1f980}' // \u{20ac}\n"),
        vec![
            (TokenKind::Str { terminated: true }, 8),
            (TokenKind::Whitespace, 1),
            (TokenKind::LineComment, 6),
            (TokenKind::Whitespace, 1),
        ]
    );
}

#[test]
fn cursor_hands_out_tokens_and_then_the_end() {
    let mut cursor = Cursor::new("a =");
    let t = cursor.advance_token();
    assert_eq!((t.kind, t.len), (TokenKind::Ident, 1));
    assert!(!cursor.is_eof());
    let t = cursor.advance_token();
    assert_eq!((t.kind, t.len), (TokenKind::Whitespace, 1));
    let t = cursor.advance_token();
    assert_eq!((t.kind, t.len), (TokenKind::Eq, 1));
    assert!(cursor.is_eof());
    let t = cursor.advance_token();
    assert_eq!(t, Token { kind: TokenKind::Eof, len: 0 });
    let t = cursor.advance_token();
    assert_eq!(t, Token::new(TokenKind::Eof, 0));
}

#[test]
fn token_lengths_add_up_to_the_text() {
    for text in ["", "A = 'b' | c*\n", "x\u{e9}'\\'\r//c", "'open \u{1f980}"] {
        let total: usize = tokenize(text).iter().map(|t| t.len as usize).sum();
        assert_eq!(total, text.len());
    }
}
