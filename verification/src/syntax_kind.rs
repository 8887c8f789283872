//! The kinds of tokens and of tree nodes.

use vstd::prelude::*;

verus! {

/// The kind of a token or of a node of the syntax tree.
///
/// The variants up to `COMMENT` are kinds of tokens, those after `__FIRST`
/// are kinds of nodes.
#[allow(non_camel_case_types)]
#[derive(Clone, Copy, Debug, PartialEq, Eq, Structural, PartialOrd, Ord, Hash)]
pub enum SyntaxKind {
    /// Stands in the event log for a node whose kind is not known yet.
    TOMBSTONE,
    /// The end of the input.
    EOF,
    /// `=`
    EQ,
    /// `*`
    STAR,
    /// `|`
    PIPE,
    /// `?`
    QUESTION,
    /// `:`
    COLON,
    /// `(`
    L_PAREN,
    /// `)`
    R_PAREN,
    ERROR,
    IDENT,
    STRING,
    WHITESPACE,
    COMMENT,
    /// The boundary between the kinds of tokens and the kinds of nodes.
    __FIRST,
    GRAMMAR,
    NODE,
    LABEL,
    PAREN_RULE,
    NAME,
    NAME_REF,
    TOKEN,
    SEQ_RULE,
    LABELED_RULE,
    ALT_RULE,
    OPT_RULE,
    REP_RULE,
    /// The last kind, a bound for what follows `__FIRST`.
    __LAST,
}

/// The ordinal of the last kind of token.
pub const LAST_TOKEN_ORDINAL: u16 = 13;

impl SyntaxKind {
    /// The position of the kind in the enumeration, counted from zero.
    pub open spec fn spec_ordinal(self) -> u16 {
        match self {
            SyntaxKind::TOMBSTONE => 0,
            SyntaxKind::EOF => 1,
            SyntaxKind::EQ => 2,
            SyntaxKind::STAR => 3,
            SyntaxKind::PIPE => 4,
            SyntaxKind::QUESTION => 5,
            SyntaxKind::COLON => 6,
            SyntaxKind::L_PAREN => 7,
            SyntaxKind::R_PAREN => 8,
            SyntaxKind::ERROR => 9,
            SyntaxKind::IDENT => 10,
            SyntaxKind::STRING => 11,
            SyntaxKind::WHITESPACE => 12,
            SyntaxKind::COMMENT => 13,
            SyntaxKind::__FIRST => 14,
            SyntaxKind::GRAMMAR => 15,
            SyntaxKind::NODE => 16,
            SyntaxKind::LABEL => 17,
            SyntaxKind::PAREN_RULE => 18,
            SyntaxKind::NAME => 19,
            SyntaxKind::NAME_REF => 20,
            SyntaxKind::TOKEN => 21,
            SyntaxKind::SEQ_RULE => 22,
            SyntaxKind::LABELED_RULE => 23,
            SyntaxKind::ALT_RULE => 24,
            SyntaxKind::OPT_RULE => 25,
            SyntaxKind::REP_RULE => 26,
            SyntaxKind::__LAST => 27,
        }
    }

    /// Whether the kind is a kind of token: it stands before `__FIRST`.
    pub open spec fn spec_is_token(self) -> bool {
        self.spec_ordinal() <= LAST_TOKEN_ORDINAL
    }

    /// Whether the kind is whitespace or a comment.
    pub open spec fn spec_is_trivia(self) -> bool {
        self == SyntaxKind::WHITESPACE || self == SyntaxKind::COMMENT
    }

    #[verifier::when_used_as_spec(spec_ordinal)]
    pub fn ordinal(self) -> (n: u16)
        ensures
            n == self.spec_ordinal(),
            n <= 27,
    {
        match self {
            SyntaxKind::TOMBSTONE => 0,
            SyntaxKind::EOF => 1,
            SyntaxKind::EQ => 2,
            SyntaxKind::STAR => 3,
            SyntaxKind::PIPE => 4,
            SyntaxKind::QUESTION => 5,
            SyntaxKind::COLON => 6,
            SyntaxKind::L_PAREN => 7,
            SyntaxKind::R_PAREN => 8,
            SyntaxKind::ERROR => 9,
            SyntaxKind::IDENT => 10,
            SyntaxKind::STRING => 11,
            SyntaxKind::WHITESPACE => 12,
            SyntaxKind::COMMENT => 13,
            SyntaxKind::__FIRST => 14,
            SyntaxKind::GRAMMAR => 15,
            SyntaxKind::NODE => 16,
            SyntaxKind::LABEL => 17,
            SyntaxKind::PAREN_RULE => 18,
            SyntaxKind::NAME => 19,
            SyntaxKind::NAME_REF => 20,
            SyntaxKind::TOKEN => 21,
            SyntaxKind::SEQ_RULE => 22,
            SyntaxKind::LABELED_RULE => 23,
            SyntaxKind::ALT_RULE => 24,
            SyntaxKind::OPT_RULE => 25,
            SyntaxKind::REP_RULE => 26,
            SyntaxKind::__LAST => 27,
        }
    }

    #[verifier::when_used_as_spec(spec_is_token)]
    pub fn is_token(self) -> (b: bool)
        ensures
            b == self.spec_is_token(),
    {
        self.ordinal() <= LAST_TOKEN_ORDINAL
    }

    #[verifier::when_used_as_spec(spec_is_trivia)]
    pub fn is_trivia(self) -> (b: bool)
        ensures
            b == self.spec_is_trivia(),
    {
        matches!(self, SyntaxKind::WHITESPACE | SyntaxKind::COMMENT)
    }

    /// Whether the kind is one of the seven punctuation tokens.
    pub open spec fn spec_is_punct(self) -> bool {
        2 <= self.spec_ordinal() <= 8
    }

    #[verifier::when_used_as_spec(spec_is_punct)]
    pub fn is_punct(self) -> (b: bool)
        ensures
            b == self.spec_is_punct(),
    {
        let n: u16 = self.ordinal();
        2 <= n && n <= 8
    }
}

/// Two kinds with the same ordinal are the same kind.
pub proof fn lemma_ordinal_injective(a: SyntaxKind, b: SyntaxKind)
    requires
        a.spec_ordinal() == b.spec_ordinal(),
    ensures
        a == b,
{
}

} // verus!
