//! A text together with its classified tokens.
//!
//! Each token of the text gets a syntax kind and the offset at which it
//! starts; a token that is malformed gets a message as well. Whitespace and
//! comments are tokens like the others here.

use std::ops::Range;
use vstd::prelude::*;
use vstd::string::*;
use vstd::utf8::*;
use crate::lexer::{
    Token,
    TokenKind,
    tokenize,
    tokens_of,
    tokens_from,
    token_at,
    lemma_token_at_bounds,
    lemma_token_end_is_boundary,
    lemma_boundary_at,
    lemma_string_end,
};
use crate::syntax_kind::SyntaxKind;
use crate::unescape::{EscapeError, unescape, pieces_of, first_error};

verus! {

broadcast use vstd::utf8::group_utf8_lib;

/// The message for a carriage return.
pub open spec fn msg_line_ending() -> Seq<char> {
    "unexpected `\\r`, only Unix-style line endings allowed"@
}

/// The message for a string without its closing quote.
pub open spec fn msg_unterminated() -> Seq<char> {
    "missing trailing `'` symbol to terminate the token literal"@
}

/// The message for a backslash with nothing behind it.
pub open spec fn msg_lone_slash() -> Seq<char> {
    "escaped `\\` character without continuation"@
}

/// The message for a backslash before a character that cannot be escaped.
pub open spec fn msg_invalid_escape() -> Seq<char> {
    "unknown character escape"@
}

/// The message for a raw quote.
pub open spec fn msg_escape_only() -> Seq<char> {
    "character constant must be escaped"@
}

/// The message for an error in the contents of a literal. An empty literal
/// and a raw carriage return get none: the message is empty.
pub open spec fn escape_message(error: EscapeError) -> Seq<char> {
    match error {
        EscapeError::ZeroChars => Seq::empty(),
        EscapeError::LoneSlash => msg_lone_slash(),
        EscapeError::InvalidEscape => msg_invalid_escape(),
        EscapeError::BareCarriageReturn => Seq::empty(),
        EscapeError::EscapeOnlyChar => msg_escape_only(),
    }
}

/// The message for the contents of a literal: that for its first error, and
/// the empty message where it has none.
pub open spec fn contents_message(contents: Seq<char>) -> Seq<char> {
    match first_error(pieces_of(contents)) {
        Some(e) => escape_message(e),
        None => Seq::empty(),
    }
}

/// The syntax kind that a token of the lexer gets.
pub open spec fn syntax_kind_of(kind: TokenKind) -> SyntaxKind {
    match kind {
        TokenKind::LineComment => SyntaxKind::COMMENT,
        TokenKind::Whitespace => SyntaxKind::WHITESPACE,
        TokenKind::InvalidLineEnding => SyntaxKind::WHITESPACE,
        TokenKind::Ident => SyntaxKind::IDENT,
        TokenKind::Str { terminated } => SyntaxKind::STRING,
        TokenKind::Eq => SyntaxKind::EQ,
        TokenKind::Star => SyntaxKind::STAR,
        TokenKind::Or => SyntaxKind::PIPE,
        TokenKind::Question => SyntaxKind::QUESTION,
        TokenKind::Colon => SyntaxKind::COLON,
        TokenKind::OpenParen => SyntaxKind::L_PAREN,
        TokenKind::CloseParen => SyntaxKind::R_PAREN,
        TokenKind::Unknown => SyntaxKind::ERROR,
        TokenKind::Eof => SyntaxKind::EOF,
    }
}

/// The message that the token `tok` gets, which starts at `start` in the
/// text `s`; empty where the token is in order.
pub open spec fn token_message(s: Seq<u8>, start: int, tok: Token) -> Seq<char> {
    match tok.kind {
        TokenKind::InvalidLineEnding => msg_line_ending(),
        TokenKind::Str { terminated } => if terminated {
            contents_message(decode_utf8(s.subrange(start + 1, start + tok.len - 1)))
        } else {
            msg_unterminated()
        },
        _ => Seq::empty(),
    }
}

/// The offset at which token `i` of `toks` starts: the lengths of the tokens
/// before it, added up.
pub open spec fn offset_of(toks: Seq<Token>, i: int) -> int
    decreases i,
{
    if i <= 0 {
        0
    } else {
        offset_of(toks, i - 1) + toks[i - 1].len
    }
}

/// The syntax kinds of the first `n` tokens.
pub open spec fn lexed_kinds(toks: Seq<Token>, n: int) -> Seq<SyntaxKind> {
    Seq::new(n as nat, |i: int| syntax_kind_of(toks[i].kind))
}

/// The offsets at which the first `n` tokens start.
pub open spec fn lexed_starts(toks: Seq<Token>, n: int) -> Seq<int> {
    Seq::new(n as nat, |i: int| offset_of(toks, i))
}

/// The messages of the first `n` tokens of the text `s`, each with the index
/// of its token, in the order of the tokens.
pub open spec fn lexed_diagnostics(s: Seq<u8>, toks: Seq<Token>, n: int) -> Seq<(int, Seq<char>)>
    decreases n,
{
    if n <= 0 {
        Seq::empty()
    } else {
        let prev = lexed_diagnostics(s, toks, n - 1);
        let msg = token_message(s, offset_of(toks, n - 1), toks[n - 1]);
        if msg.len() > 0 {
            prev.push((n - 1, msg))
        } else {
            prev
        }
    }
}

/// Walking the tokens of `s` from the start: token `i` starts at its offset,
/// is the token that the lexer finds there, and the tokens end with the text.
pub proof fn lemma_tokens_walk(s: Seq<u8>, i: int)
    requires
        0 <= i <= tokens_of(s).len(),
        s.len() <= u32::MAX,
    ensures
        0 <= offset_of(tokens_of(s), i) <= s.len(),
        tokens_from(s, offset_of(tokens_of(s), i)) == tokens_of(s).skip(i),
        i == tokens_of(s).len() <==> offset_of(tokens_of(s), i) == s.len(),
        i < tokens_of(s).len() ==> tokens_of(s)[i].kind == token_at(
            s,
            offset_of(tokens_of(s), i),
        ).0 && offset_of(tokens_of(s), i + 1) == token_at(s, offset_of(tokens_of(s), i)).1
            && tokens_of(s)[i].len > 0 && tokens_of(s)[i].kind != TokenKind::Eof,
        valid_utf8(s) ==> is_char_boundary(s, offset_of(tokens_of(s), i)),
    decreases i,
{
    let toks = tokens_of(s);
    if i == 0 {
        assert(toks.skip(0) =~= toks);
        if valid_utf8(s) {
            is_char_boundary_start_end_of_seq(s);
        }
    } else {
        lemma_tokens_walk(s, i - 1);
        let off = offset_of(toks, i - 1);
        lemma_token_at_bounds(s, off);
        let end = token_at(s, off).1;
        assert(toks.skip(i - 1)[0] == toks[i - 1]);
        assert(tokens_from(s, end) =~= toks.skip(i - 1).skip(1));
        assert(toks.skip(i - 1).skip(1) =~= toks.skip(i));
        if valid_utf8(s) {
            lemma_token_end_is_boundary(s, off);
        }
    }
    let here = offset_of(toks, i);
    if here < s.len() {
        lemma_token_at_bounds(s, here);
        assert(toks.skip(i).len() > 0);
        assert(toks.skip(i)[0] == toks[i]);
    } else {
        assert(toks.skip(i).len() == 0);
    }
}

/// A text has at most as many tokens as bytes: token `i` starts at byte `i`
/// or behind it.
pub proof fn lemma_offset_at_least(s: Seq<u8>, i: int)
    requires
        0 <= i <= tokens_of(s).len(),
        s.len() <= u32::MAX,
    ensures
        i <= offset_of(tokens_of(s), i) <= s.len(),
        tokens_of(s).len() <= s.len(),
    decreases tokens_of(s).len() - i,
{
    lemma_tokens_walk(s, i);
    if i < tokens_of(s).len() {
        lemma_offset_at_least(s, i + 1);
    }
    if i > 0 {
        lemma_offset_floor(s, i);
    }
}

proof fn lemma_offset_floor(s: Seq<u8>, i: int)
    requires
        0 <= i <= tokens_of(s).len(),
        s.len() <= u32::MAX,
    ensures
        i <= offset_of(tokens_of(s), i),
    decreases i,
{
    if i > 0 {
        lemma_offset_floor(s, i - 1);
        lemma_tokens_walk(s, i - 1);
    }
}

/// The messages are those of the tokens that have one, in rising order of
/// the token's index.
pub proof fn lemma_diagnostics(s: Seq<u8>, toks: Seq<Token>, n: int)
    requires
        0 <= n,
    ensures
        lexed_diagnostics(s, toks, n).len() <= n,
        forall|a: int|
            0 <= a < lexed_diagnostics(s, toks, n).len() ==> {
                let d = #[trigger] lexed_diagnostics(s, toks, n)[a];
                0 <= d.0 < n && d.1.len() > 0 && d.1 == token_message(
                    s,
                    offset_of(toks, d.0),
                    toks[d.0],
                )
            },
        forall|a: int, b: int|
            0 <= a < b < lexed_diagnostics(s, toks, n).len() ==> (#[trigger] lexed_diagnostics(
                s,
                toks,
                n,
            )[a]).0 < (#[trigger] lexed_diagnostics(s, toks, n)[b]).0,
        forall|i: int|
            0 <= i < n && (#[trigger] token_message(s, offset_of(toks, i), toks[i])).len() > 0
                ==> exists|a: int|
                0 <= a < lexed_diagnostics(s, toks, n).len() && (#[trigger] lexed_diagnostics(
                    s,
                    toks,
                    n,
                )[a]).0 == i,
    decreases n,
{
    if n > 0 {
        lemma_diagnostics(s, toks, n - 1);
        let prev = lexed_diagnostics(s, toks, n - 1);
        let cur = lexed_diagnostics(s, toks, n);
        let msg = token_message(s, offset_of(toks, n - 1), toks[n - 1]);
        assert forall|i: int|
            0 <= i < n && (#[trigger] token_message(s, offset_of(toks, i), toks[i])).len()
                > 0 implies exists|a: int|
            0 <= a < cur.len() && (#[trigger] cur[a]).0 == i by {
            if i == n - 1 {
                assert(cur[cur.len() - 1].0 == i);
            } else {
                let a = choose|a: int| 0 <= a < prev.len() && (#[trigger] prev[a]).0 == i;
                assert(cur[a].0 == i);
            }
        }
    }
}

/// A message and the index of the token that it belongs to.
pub struct LexError {
    msg: String,
    token: u32,
}

/// A text with the kinds and the start offsets of its tokens, and the
/// messages of those tokens that are malformed.
///
/// After the kinds of the tokens comes one more, `EOF`, and after their
/// offsets the length of the text.
pub struct LexedStr<'a> {
    text: &'a str,
    kind: Vec<SyntaxKind>,
    start: Vec<u32>,
    error: Vec<LexError>,
}

/// The part of `text` from byte `lo` up to byte `hi`.
fn slice_text<'a>(text: &'a str, lo: usize, hi: usize) -> (res: &'a str)
    requires
        lo <= hi <= text.spec_bytes().len(),
        is_char_boundary(text.spec_bytes(), lo as int),
        is_char_boundary(text.spec_bytes(), hi as int),
    ensures
        res.spec_bytes() == text.spec_bytes().subrange(lo as int, hi as int),
        res@ == decode_utf8(text.spec_bytes().subrange(lo as int, hi as int)),
{
    let ghost s = text.spec_bytes();
    let (head, _) = text.split_at(hi);
    proof {
        let h = s.subrange(0, hi as int);
        valid_utf8_split(s, hi as int);
        if lo < hi {
            is_char_boundary_iff_not_is_continuation_byte(s, lo as int);
            assert(h[lo as int] == s[lo as int]);
        }
        lemma_boundary_at(h, lo as int);
    }
    let (_, res) = head.split_at(lo);
    proof {
        assert(s.subrange(0, hi as int).subrange(lo as int, hi as int) =~= s.subrange(
            lo as int,
            hi as int,
        ));
    }
    res
}

/// The message for an error in the contents of a literal, empty where the
/// error gets none.
pub fn error_to_diagnostic_message(error: EscapeError) -> (res: &'static str)
    ensures
        res@ == escape_message(error),
{
    proof {
        reveal_strlit("");
    }
    match error {
        EscapeError::ZeroChars => "",
        EscapeError::LoneSlash => "escaped `\\` character without continuation",
        EscapeError::InvalidEscape => "unknown character escape",
        EscapeError::BareCarriageReturn => "",
        EscapeError::EscapeOnlyChar => "character constant must be escaped",
    }
}

/// The message for the contents `text` of a literal: that for its first
/// error, and the empty message where it has none.
pub fn unescape_string_error_message(text: &str) -> (res: &'static str)
    ensures
        res@ == contents_message(text@),
{
    let pieces = unescape(text);
    let mut i: usize = 0;
    proof {
        reveal_strlit("");
        assert(pieces@.skip(0) =~= pieces@);
    }
    while i < pieces.len()
        invariant
            0 <= i <= pieces@.len(),
            pieces@ == pieces_of(text@),
            first_error(pieces@.skip(i as int)) == first_error(pieces@),
        decreases pieces@.len() - i,
    {
        proof {
            assert(pieces@.skip(i as int)[0] == pieces@[i as int]);
            assert(pieces@.skip(i as int).drop_first() =~= pieces@.skip(i as int + 1));
        }
        match pieces[i].1 {
            Err(e) => {
                return error_to_diagnostic_message(e);
            },
            Ok(_) => {},
        }
        i += 1;
    }
    ""
}

impl<'a> LexedStr<'a> {
    /// The text, as characters.
    pub closed spec fn spec_text(&self) -> Seq<char> {
        self.text@
    }

    /// The text, as the bytes of its UTF-8 encoding.
    pub open spec fn spec_bytes(&self) -> Seq<u8> {
        encode_utf8(self.spec_text())
    }

    /// The kinds of the tokens, with `EOF` behind them.
    pub closed spec fn kinds(&self) -> Seq<SyntaxKind> {
        self.kind@
    }

    /// The offsets at which the tokens start, with the length of the text
    /// behind them.
    pub closed spec fn starts(&self) -> Seq<int> {
        Seq::new(self.start@.len(), |i: int| self.start@[i] as int)
    }

    /// The messages, each with the index of its token.
    pub closed spec fn diagnostics(&self) -> Seq<(int, Seq<char>)> {
        Seq::new(self.error@.len(), |a: int| (self.error@[a].token as int, self.error@[a].msg@))
    }

    /// The tokens that the lexer finds in the text.
    pub open spec fn tokens(&self) -> Seq<Token> {
        tokens_of(self.spec_bytes())
    }

    /// The number of tokens.
    pub open spec fn spec_len(&self) -> int {
        self.tokens().len() as int
    }

    /// The value is the classification of the tokens of its text.
    pub open spec fn wf(&self) -> bool {
        let toks = self.tokens();
        &&& self.spec_bytes().len() <= u32::MAX
        &&& self.kinds() == lexed_kinds(toks, toks.len() as int).push(SyntaxKind::EOF)
        &&& self.starts() == lexed_starts(toks, toks.len() as int + 1)
        &&& self.diagnostics() == lexed_diagnostics(self.spec_bytes(), toks, toks.len() as int)
    }

    /// The message of token `i`; empty where the token is in order.
    pub open spec fn message_at(&self, i: int) -> Seq<char> {
        token_message(self.spec_bytes(), offset_of(self.tokens(), i), self.tokens()[i])
    }

    /// The bytes of the tokens from `lo` up to `hi`.
    pub open spec fn bytes_between(&self, lo: int, hi: int) -> Seq<u8> {
        self.spec_bytes().subrange(offset_of(self.tokens(), lo), offset_of(self.tokens(), hi))
    }

    /// What the fields of a well-formed value hold.
    proof fn lemma_shape(&self)
        requires
            self.wf(),
        ensures
            self.kind@.len() == self.spec_len() + 1,
            self.start@.len() == self.spec_len() + 1,
            self.spec_len() <= u32::MAX,
            self.error@.len() == self.diagnostics().len(),
            forall|i: int|
                0 <= i < self.spec_len() ==> #[trigger] self.kind@[i] == syntax_kind_of(
                    self.tokens()[i].kind,
                ),
            forall|i: int|
                0 <= i <= self.spec_len() ==> (#[trigger] self.start@[i]) as int == offset_of(
                    self.tokens(),
                    i,
                ),
            forall|a: int|
                0 <= a < self.error@.len() ==> #[trigger] self.diagnostics()[a] == (
                    self.error@[a].token as int,
                    self.error@[a].msg@,
                ),
    {
        let toks = self.tokens();
        let n = toks.len() as int;
        lemma_offset_at_least(self.spec_bytes(), 0);
        assert(self.kinds().len() == n + 1);
        assert(self.starts().len() == n + 1);
        assert forall|i: int| 0 <= i < n implies #[trigger] self.kind@[i] == syntax_kind_of(
            toks[i].kind,
        ) by {
            assert(self.kinds()[i] == lexed_kinds(toks, n).push(SyntaxKind::EOF)[i]);
        }
        assert forall|i: int| 0 <= i <= n implies (#[trigger] self.start@[i]) as int == offset_of(
            toks,
            i,
        ) by {
            assert(self.starts()[i] == lexed_starts(toks, n + 1)[i]);
        }
    }

    /// Lexes and classifies `text`.
    pub fn new(text: &'a str) -> (res: LexedStr<'a>)
        requires
            text.spec_bytes().len() <= u32::MAX,
        ensures
            res.wf(),
            res.spec_text() == text@,
    {
        let mut conv = Converter::new(text);
        let tokens = tokenize(text);
        let ghost s = text.spec_bytes();
        let mut j: usize = 0;
        while j < tokens.len()
            invariant
                0 <= j <= tokens@.len(),
                tokens@ == tokens_of(s),
                s == text.spec_bytes(),
                s.len() <= u32::MAX,
                conv.partial(),
                conv.count() == j,
                conv.res.text@ == text@,
            decreases tokens@.len() - j,
        {
            let token = tokens[j];
            proof {
                lemma_tokens_walk(s, j as int);
                lemma_tokens_walk(s, j as int + 1);
            }
            let token_text = slice_text(text, conv.offset, conv.offset + token.len as usize);
            conv.extend_token(&token.kind, token_text);
            j += 1;
        }
        conv.finalize_with_eof()
    }

    /// The text that was lexed.
    pub fn as_str(&self) -> (res: &str)
        ensures
            res@ == self.spec_text(),
    {
        self.text
    }

    /// The number of tokens.
    pub fn len(&self) -> (n: usize)
        requires
            self.wf(),
        ensures
            n == self.spec_len(),
    {
        proof {
            self.lemma_shape();
        }
        self.kind.len() - 1
    }

    /// Whether the text has no token, which is when it is empty.
    pub fn is_empty(&self) -> (b: bool)
        requires
            self.wf(),
        ensures
            b == (self.spec_len() == 0),
            b == (self.spec_text().len() == 0),
    {
        proof {
            lemma_tokens_walk(self.spec_bytes(), 0);
            if self.spec_text().len() > 0 {
                crate::unescape::lemma_byte_offset_step(self.spec_text(), 0);
                crate::unescape::lemma_byte_offset_bound(self.spec_text(), 1);
            }
        }
        self.len() == 0
    }

    /// The kind of token `i`.
    pub fn kind(&self, i: usize) -> (k: SyntaxKind)
        requires
            self.wf(),
            i < self.spec_len(),
        ensures
            k == syntax_kind_of(self.tokens()[i as int].kind),
    {
        proof {
            self.lemma_shape();
        }
        self.kind[i]
    }

    /// The text of token `i`.
    pub fn text(&self, i: usize) -> (res: &str)
        requires
            self.wf(),
            i < self.spec_len(),
        ensures
            res.spec_bytes() == self.bytes_between(i as int, i + 1),
            res@ == decode_utf8(self.bytes_between(i as int, i + 1)),
    {
        proof {
            self.lemma_shape();
        }
        self.range_text(Range { start: i, end: i + 1 })
    }

    /// The text of the tokens from `r.start` up to `r.end`.
    pub fn range_text(&self, r: Range<usize>) -> (res: &str)
        requires
            self.wf(),
            r.start < r.end <= self.spec_len(),
        ensures
            res.spec_bytes() == self.bytes_between(r.start as int, r.end as int),
            res@ == decode_utf8(self.bytes_between(r.start as int, r.end as int)),
    {
        proof {
            lemma_tokens_walk(self.spec_bytes(), r.start as int);
            lemma_tokens_walk(self.spec_bytes(), r.end as int);
            lemma_offsets_rise(self.tokens(), r.start as int, r.end as int);
            self.lemma_shape();
        }
        let lo = self.start[r.start] as usize;
        let hi = self.start[r.end] as usize;
        slice_text(self.text, lo, hi)
    }

    /// The range of bytes that token `i` takes in the text.
    pub fn text_range(&self, i: usize) -> (r: Range<usize>)
        requires
            self.wf(),
            i < self.spec_len(),
        ensures
            r.start == offset_of(self.tokens(), i as int),
            r.end == offset_of(self.tokens(), i + 1),
            r.start < r.end,
    {
        proof {
            lemma_tokens_walk(self.spec_bytes(), i as int);
            lemma_tokens_walk(self.spec_bytes(), i as int + 1);
            self.lemma_shape();
        }
        let lo = self.start[i] as usize;
        let hi = self.start[i + 1] as usize;
        Range { start: lo, end: hi }
    }

    /// The offset at which token `i` starts; for `i` the number of tokens,
    /// the length of the text.
    pub fn text_start(&self, i: usize) -> (n: usize)
        requires
            self.wf(),
            i <= self.spec_len(),
        ensures
            n == offset_of(self.tokens(), i as int),
    {
        proof {
            lemma_tokens_walk(self.spec_bytes(), i as int);
            self.lemma_shape();
        }
        self.start[i] as usize
    }

    /// The length of token `i` in bytes.
    pub fn text_len(&self, i: usize) -> (n: usize)
        requires
            self.wf(),
            i < self.spec_len(),
        ensures
            n == self.tokens()[i as int].len,
    {
        let r = self.text_range(i);
        r.end - r.start
    }

    /// The message of token `i`, if it has one.
    pub fn error(&self, i: usize) -> (res: Option<&str>)
        requires
            self.wf(),
            i < self.spec_len(),
        ensures
            match res {
                Some(msg) => msg@ == self.message_at(i as int) && msg@.len() > 0,
                None => self.message_at(i as int).len() == 0,
            },
    {
        let ghost d = self.diagnostics();
        proof {
            lemma_diagnostics(self.spec_bytes(), self.tokens(), self.spec_len());
            self.lemma_shape();
        }
        let mut lo: usize = 0;
        let mut hi: usize = self.error.len();
        while lo < hi
            invariant
                0 <= lo <= hi <= d.len(),
                d == self.diagnostics(),
                d.len() == self.error@.len(),
                d == lexed_diagnostics(self.spec_bytes(), self.tokens(), self.spec_len()),
                forall|a: int|
                    0 <= a < d.len() ==> #[trigger] d[a] == (
                        self.error@[a].token as int,
                        self.error@[a].msg@,
                    ),
                forall|a: int, b: int| 0 <= a < b < d.len() ==> (#[trigger] d[a]).0 < (#[trigger] d[b]).0,
                forall|a: int| 0 <= a < lo ==> (#[trigger] d[a]).0 < i,
                forall|a: int| hi <= a < d.len() ==> (#[trigger] d[a]).0 > i,
            decreases hi - lo,
        {
            let mid = lo + (hi - lo) / 2;
            let token = self.error[mid].token as usize;
            proof {
                assert(d[mid as int].0 == token);
            }
            if token == i {
                proof {
                    lemma_diagnostics(self.spec_bytes(), self.tokens(), self.spec_len());
                    assert(d[mid as int].1 == self.error@[mid as int].msg@);
                }
                return Some(self.error[mid].msg.as_str());
            } else if token < i {
                lo = mid + 1;
            } else {
                hi = mid;
            }
        }
        proof {
            if self.message_at(i as int).len() > 0 {
                let a = choose|a: int| 0 <= a < d.len() && (#[trigger] d[a]).0 == i;
                assert(false);
            }
        }
        None
    }

    /// The messages, each with the index of its token, in rising order of
    /// the index.
    pub fn errors(&self) -> (res: Vec<(usize, &str)>)
        requires
            self.wf(),
        ensures
            res@.len() == self.diagnostics().len(),
            forall|a: int|
                0 <= a < res@.len() ==> (#[trigger] res@[a]).0 == self.diagnostics()[a].0
                    && res@[a].1@ == self.diagnostics()[a].1,
    {
        let mut res: Vec<(usize, &str)> = Vec::new();
        let mut a: usize = 0;
        while a < self.error.len()
            invariant
                0 <= a <= self.error@.len(),
                res@.len() == a,
                forall|b: int|
                    0 <= b < a ==> (#[trigger] res@[b]).0 == self.diagnostics()[b].0
                        && res@[b].1@ == self.diagnostics()[b].1,
            decreases self.error@.len() - a,
        {
            res.push((self.error[a].token as usize, self.error[a].msg.as_str()));
            a += 1;
        }
        res
    }

    fn push(&mut self, kind: SyntaxKind, offset: usize)
        requires
            offset <= u32::MAX,
        ensures
            final(self).text == old(self).text,
            final(self).error == old(self).error,
            final(self).kind@ == old(self).kind@.push(kind),
            final(self).start@ == old(self).start@.push(offset as u32),
    {
        self.kind.push(kind);
        self.start.push(offset as u32);
    }
}

/// The offset of a later token is not smaller than that of an earlier one.
pub proof fn lemma_offsets_rise(toks: Seq<Token>, a: int, b: int)
    requires
        0 <= a <= b,
    ensures
        offset_of(toks, a) <= offset_of(toks, b),
    decreases b,
{
    if a < b {
        lemma_offsets_rise(toks, a, b - 1);
    }
}

/// Builds a `LexedStr` token by token.
struct Converter<'a> {
    res: LexedStr<'a>,
    offset: usize,
}

impl<'a> Converter<'a> {
    /// The number of tokens that were taken in.
    spec fn count(&self) -> int {
        self.res.kind@.len() as int
    }

    /// What was built is the classification of the first `count` tokens of
    /// the text, and `offset` is where the next token starts.
    spec fn partial(&self) -> bool {
        let s = self.res.spec_bytes();
        let toks = tokens_of(s);
        let n = self.count();
        &&& s.len() <= u32::MAX
        &&& n <= toks.len()
        &&& self.res.kinds() == lexed_kinds(toks, n)
        &&& self.res.starts() == lexed_starts(toks, n)
        &&& self.res.diagnostics() == lexed_diagnostics(s, toks, n)
        &&& self.offset == offset_of(toks, n)
    }

    fn new(text: &'a str) -> (res: Self)
        requires
            text.spec_bytes().len() <= u32::MAX,
        ensures
            res.partial(),
            res.count() == 0,
            res.res.text@ == text@,
    {
        let res = Self {
            res: LexedStr { text, kind: Vec::new(), start: Vec::new(), error: Vec::new() },
            offset: 0,
        };
        proof {
            let toks = tokens_of(res.res.spec_bytes());
            assert(res.res.kinds() =~= lexed_kinds(toks, 0));
            assert(res.res.starts() =~= lexed_starts(toks, 0));
            assert(res.res.diagnostics() =~= lexed_diagnostics(res.res.spec_bytes(), toks, 0));
        }
        res
    }

    fn finalize_with_eof(self) -> (res: LexedStr<'a>)
        requires
            self.partial(),
            self.count() == tokens_of(self.res.spec_bytes()).len(),
        ensures
            res.wf(),
            res.spec_text() == self.res.spec_text(),
    {
        let mut this = self;
        proof {
            lemma_tokens_walk(this.res.spec_bytes(), this.count());
        }
        let ghost toks = tokens_of(this.res.spec_bytes());
        let ghost n = this.count();
        let ghost old_starts = this.res.starts();
        let ghost old_kinds = this.res.kinds();
        this.res.push(SyntaxKind::EOF, this.offset);
        proof {
            assert(old_starts.len() == n);
            assert forall|i: int| 0 <= i < n implies this.res.starts()[i] == offset_of(toks, i) by {
                assert(old_starts[i] == lexed_starts(toks, n)[i]);
                assert(old_starts[i] == self.res.start@[i] as int);
                assert(this.res.start@[i] == self.res.start@[i]);
            }
            assert(this.res.starts() =~= lexed_starts(toks, n + 1));
            assert(this.res.kinds() =~= lexed_kinds(toks, n).push(SyntaxKind::EOF));
        }
        this.res
    }

    /// Takes in a token of kind `kind` and length `len`, with its message if
    /// it has one.
    fn push(&mut self, kind: SyntaxKind, len: usize, err: Option<&str>)
        requires
            old(self).partial(),
            old(self).count() < tokens_of(old(self).res.spec_bytes()).len(),
            ({
                let s = old(self).res.spec_bytes();
                let tok = tokens_of(s)[old(self).count()];
                &&& kind == syntax_kind_of(tok.kind)
                &&& len == tok.len
                &&& match err {
                    Some(msg) => msg@ == token_message(s, old(self).offset as int, tok)
                        && msg@.len() > 0,
                    None => token_message(s, old(self).offset as int, tok).len() == 0,
                }
            }),
        ensures
            final(self).partial(),
            final(self).count() == old(self).count() + 1,
            final(self).res.text == old(self).res.text,
    {
        let ghost s = self.res.spec_bytes();
        let ghost toks = tokens_of(s);
        let ghost n = self.count();
        let ghost prev = self.res.diagnostics();
        let ghost old_starts = self.res.starts();
        let ghost old_kinds = self.res.kinds();
        proof {
            lemma_tokens_walk(s, n);
            lemma_tokens_walk(s, n + 1);
            lemma_offset_at_least(s, n);
        }
        self.res.push(kind, self.offset);
        proof {
            assert(self.res.diagnostics() =~= prev);
        }
        self.offset += len;

        if let Some(err) = err {
            let token = (self.res.kind.len() - 1) as u32;
            let msg = err.to_owned();
            self.res.error.push(LexError { msg, token });
            proof {
                assert(self.res.diagnostics() =~= prev.push((n, err@)));
            }
        }
        proof {
            assert forall|i: int| 0 <= i < n implies self.res.kinds()[i] == syntax_kind_of(
                toks[i].kind,
            ) by {
                assert(old_kinds[i] == lexed_kinds(toks, n)[i]);
            }
            assert(self.res.kinds() =~= lexed_kinds(toks, n + 1));
            assert(old_starts.len() == n);
            assert forall|i: int| 0 <= i < n implies self.res.starts()[i] == offset_of(toks, i) by {
                assert(old_starts[i] == lexed_starts(toks, n)[i]);
                assert(old_starts[i] == old(self).res.start@[i] as int);
                assert(self.res.start@[i] == old(self).res.start@[i]);
            }
            assert(self.res.starts() =~= lexed_starts(toks, n + 1));
        }
    }

    /// Takes in the next token of the text, which has the kind `kind` and
    /// the text `token_text`.
    fn extend_token(&mut self, kind: &TokenKind, token_text: &str)
        requires
            old(self).partial(),
            old(self).count() < tokens_of(old(self).res.spec_bytes()).len(),
            ({
                let s = old(self).res.spec_bytes();
                let tok = tokens_of(s)[old(self).count()];
                &&& *kind == tok.kind
                &&& token_text.spec_bytes() == s.subrange(
                    old(self).offset as int,
                    old(self).offset + tok.len,
                )
            }),
        ensures
            final(self).partial(),
            final(self).count() == old(self).count() + 1,
            final(self).res.text == old(self).res.text,
    {
        let ghost s = self.res.spec_bytes();
        let ghost n = self.count();
        let ghost tok = tokens_of(s)[n];
        let ghost off = self.offset as int;
        proof {
            lemma_tokens_walk(s, n);
            lemma_tokens_walk(s, n + 1);
            reveal_strlit("");
            reveal_strlit("unexpected `\\r`, only Unix-style line endings allowed");
            reveal_strlit("missing trailing `'` symbol to terminate the token literal");
        }
        let len: usize = token_text.len();
        let mut err: &str = "";

        let syntax_kind = match kind {
            TokenKind::LineComment => SyntaxKind::COMMENT,
            TokenKind::Whitespace => SyntaxKind::WHITESPACE,
            TokenKind::InvalidLineEnding => {
                err = "unexpected `\\r`, only Unix-style line endings allowed";
                SyntaxKind::WHITESPACE
            },
            TokenKind::Ident => SyntaxKind::IDENT,
            TokenKind::Str { terminated } => {
                if !*terminated {
                    err = "missing trailing `'` symbol to terminate the token literal";
                } else {
                    proof {
                        lemma_string_end(s, off + 1);
                        let b = token_text.spec_bytes();
                        assert(b[0] == s[off]);
                        assert(b[len - 1] == s[off + len - 1]);
                        crate::lexer::lemma_boundary_behind_ascii(b, 0);
                        lemma_boundary_at(b, len - 1);
                        assert(b.subrange(1, len - 1) =~= s.subrange(off + 1, off + len - 1));
                    }
                    let text = slice_text(token_text, 1, len - 1);
                    err = unescape_string_error_message(text);
                }
                SyntaxKind::STRING
            },
            TokenKind::Eq => SyntaxKind::EQ,
            TokenKind::Star => SyntaxKind::STAR,
            TokenKind::Or => SyntaxKind::PIPE,
            TokenKind::Question => SyntaxKind::QUESTION,
            TokenKind::Colon => SyntaxKind::COLON,
            TokenKind::OpenParen => SyntaxKind::L_PAREN,
            TokenKind::CloseParen => SyntaxKind::R_PAREN,
            TokenKind::Unknown => SyntaxKind::ERROR,
            TokenKind::Eof => SyntaxKind::EOF,
        };

        let err = if err.is_empty() {
            None
        } else {
            Some(err)
        };
        self.push(syntax_kind, len, err);
    }
}

/// Lexing is a function of the text: two classifications of the same text
/// have the same kinds, the same offsets and the same messages.
pub proof fn lemma_lexing_is_deterministic(first: &LexedStr<'_>, second: &LexedStr<'_>)
    requires
        first.wf(),
        second.wf(),
        first.spec_text() == second.spec_text(),
    ensures
        first.kinds() == second.kinds(),
        first.starts() == second.starts(),
        first.diagnostics() == second.diagnostics(),
{
}

/// The texts of the tokens before token `n`, joined in order.
pub open spec fn joined_texts(lexed: &LexedStr<'_>, n: int) -> Seq<u8>
    decreases n,
{
    if n <= 0 {
        Seq::empty()
    } else {
        joined_texts(lexed, n - 1) + lexed.bytes_between(n - 1, n)
    }
}

/// The texts of the first `n` tokens, joined, are the text up to the start
/// of token `n`.
pub proof fn lemma_joined_prefix(lexed: &LexedStr<'_>, n: int)
    requires
        lexed.wf(),
        0 <= n <= lexed.spec_len(),
    ensures
        joined_texts(lexed, n) == lexed.spec_bytes().subrange(0, offset_of(lexed.tokens(), n)),
    decreases n,
{
    let s = lexed.spec_bytes();
    lemma_tokens_walk(s, n);
    if n > 0 {
        lemma_joined_prefix(lexed, n - 1);
        lemma_tokens_walk(s, n - 1);
        let a = offset_of(lexed.tokens(), n - 1);
        let b = offset_of(lexed.tokens(), n);
        assert(s.subrange(0, a) + s.subrange(a, b) =~= s.subrange(0, b));
    } else {
        assert(s.subrange(0, 0) =~= Seq::<u8>::empty());
    }
}

/// The texts of all the tokens of a text, joined in order, are the text:
/// nothing is dropped and nothing comes twice.
pub proof fn lemma_tokens_cover_text(lexed: &LexedStr<'_>)
    requires
        lexed.wf(),
    ensures
        joined_texts(lexed, lexed.spec_len()) == lexed.spec_bytes(),
{
    let s = lexed.spec_bytes();
    lemma_joined_prefix(lexed, lexed.spec_len());
    lemma_tokens_walk(s, lexed.spec_len());
    assert(s.subrange(0, s.len() as int) =~= s);
}

} // verus!
