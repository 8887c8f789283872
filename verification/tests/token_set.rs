use ungrammar_parser::syntax_kind::SyntaxKind;
use ungrammar_parser::syntax_kind::SyntaxKind::{
    COMMENT, EOF, EQ, ERROR, IDENT, L_PAREN, PIPE, R_PAREN, STAR, STRING, WHITESPACE,
};
use ungrammar_parser::token_set::TokenSet;

#[test]
fn token_set_works_for_tokens() {
    let ts = TokenSet::new(&[EOF, COMMENT]);
    assert!(ts.contains(EOF));
    assert!(ts.contains(COMMENT));
    assert!(!ts.contains(STAR));
}

#[test]
fn token_set_empty_has_no_member() {
    let ts = TokenSet::empty();
    for kind in [EOF, EQ, STAR, PIPE, L_PAREN, R_PAREN, ERROR, IDENT, STRING, WHITESPACE, COMMENT] {
        assert!(!ts.contains(kind));
    }
}

#[test]
fn token_set_union_has_the_members_of_both() {
    let a = TokenSet::new(&[IDENT, STRING]);
    let b = TokenSet::new(&[STRING, L_PAREN]);
    let u = a.union(b);
    assert!(u.contains(IDENT));
    assert!(u.contains(STRING));
    assert!(u.contains(L_PAREN));
    assert!(!u.contains(R_PAREN));
    assert!(!u.contains(EOF));
}

#[test]
fn token_set_takes_the_last_token_kind() {
    let ts = TokenSet::new(&[COMMENT]);
    assert!(ts.contains(COMMENT));
    assert!(!ts.contains(WHITESPACE));
    assert_eq!(COMMENT.ordinal(), 13);
    assert!(COMMENT.is_token());
    assert!(!SyntaxKind::GRAMMAR.is_token());
}

#[test]
fn syntax_kind_ordinals_follow_the_enumeration() {
    assert_eq!(SyntaxKind::TOMBSTONE.ordinal(), 0);
    assert_eq!(EOF.ordinal(), 1);
    assert_eq!(EQ.ordinal(), 2);
    assert_eq!(R_PAREN.ordinal(), 8);
    assert_eq!(SyntaxKind::__FIRST.ordinal(), 14);
    assert_eq!(SyntaxKind::REP_RULE.ordinal(), 26);
    assert_eq!(SyntaxKind::__LAST.ordinal(), 27);
    assert!(WHITESPACE.is_trivia());
    assert!(COMMENT.is_trivia());
    assert!(!IDENT.is_trivia());
    assert!(EQ.is_punct());
    assert!(!IDENT.is_punct());
    assert_eq!(SyntaxKind::SEQ_RULE.name(), "SEQ_RULE");
    assert_eq!(format!("{:?}", SyntaxKind::L_PAREN), SyntaxKind::L_PAREN.name());
}
