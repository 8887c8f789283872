//! The lexer: it cuts text into tokens that carry a kind and a length.
//!
//! The text is read as the bytes of its UTF-8 encoding. Every character that
//! the lexer tells apart is an ASCII character, so one byte decides each step,
//! and a character outside ASCII is passed over by its continuation bytes.

use vstd::prelude::*;
use vstd::slice::*;
use vstd::string::*;
use vstd::utf8::*;

verus! {

/// A token: its kind and its length in bytes. The text is not part of it.
#[derive(Clone, Copy, Debug, PartialEq, Eq, Structural)]
pub struct Token {
    pub kind: TokenKind,
    pub len: u32,
}

impl Token {
    pub fn new(kind: TokenKind, len: u32) -> (res: Token)
        ensures
            res == (Token { kind, len }),
    {
        Token { kind, len }
    }
}

/// The kinds of tokens that the lexer tells apart.
#[derive(Clone, Copy, Debug, PartialEq, Eq, Structural)]
pub enum TokenKind {
    /// `// comment`, up to the end of the line.
    LineComment,
    /// A run of blanks, tabs and newlines.
    Whitespace,
    /// A carriage return: only Unix line endings are allowed.
    InvalidLineEnding,
    /// A run of ASCII letters and underscores.
    Ident,
    /// A quoted string; `terminated` tells whether its closing quote was found.
    Str { terminated: bool },
    /// `=`
    Eq,
    /// `*`
    Star,
    /// `|`
    Or,
    /// `?`
    Question,
    /// `:`
    Colon,
    /// `(`
    OpenParen,
    /// `)`
    CloseParen,
    /// A character that starts no token.
    Unknown,
    /// The end of the input.
    Eof,
}

/// The classes of bytes over which the lexer runs greedily.
#[derive(Clone, Copy, Debug, PartialEq, Eq, Structural)]
pub enum ByteClass {
    /// Blank, tab, newline.
    Whitespace,
    /// ASCII letters and the underscore.
    Ident,
    /// Everything but a newline.
    NotNewline,
    /// The bytes of a character that follow its first byte.
    Continuation,
}

pub open spec fn spec_is_escapable(b: u8) -> bool {
    b == 0x5c || b == 0x27
}

pub open spec fn spec_is_whitespace(b: u8) -> bool {
    b == 0x20 || b == 0x09 || b == 0x0a
}

pub open spec fn spec_is_ident_char(b: u8) -> bool {
    (0x61 <= b <= 0x7a) || (0x41 <= b <= 0x5a) || b == 0x5f
}

/// Whether the byte `b` belongs to `class`.
pub open spec fn spec_in_class(class: ByteClass, b: u8) -> bool {
    match class {
        ByteClass::Whitespace => spec_is_whitespace(b),
        ByteClass::Ident => spec_is_ident_char(b),
        ByteClass::NotNewline => b != 0x0a,
        ByteClass::Continuation => is_continuation_byte(b),
    }
}

/// Whether a backslash before `b` makes an escape that the lexer accepts:
/// `b` is a backslash or a quote.
#[verifier::when_used_as_spec(spec_is_escapable)]
pub fn is_escapable(b: u8) -> (r: bool)
    ensures
        r == spec_is_escapable(b),
{
    b == 0x5c || b == 0x27
}

/// Whether `b` is a blank, a tab or a newline.
#[verifier::when_used_as_spec(spec_is_whitespace)]
pub fn is_whitespace(b: u8) -> (r: bool)
    ensures
        r == spec_is_whitespace(b),
{
    b == 0x20 || b == 0x09 || b == 0x0a
}

/// Whether `b` is an ASCII letter or an underscore. Digits are not.
#[verifier::when_used_as_spec(spec_is_ident_char)]
pub fn is_ident_char(b: u8) -> (r: bool)
    ensures
        r == spec_is_ident_char(b),
{
    (0x61 <= b && b <= 0x7a) || (0x41 <= b && b <= 0x5a) || b == 0x5f
}

#[verifier::when_used_as_spec(spec_in_class)]
pub fn in_class(class: ByteClass, b: u8) -> (r: bool)
    ensures
        r == spec_in_class(class, b),
{
    match class {
        ByteClass::Whitespace => is_whitespace(b),
        ByteClass::Ident => is_ident_char(b),
        ByteClass::NotNewline => b != 0x0a,
        ByteClass::Continuation => 0x80 <= b && b <= 0xbf,
    }
}

/// The end of the longest run of bytes of `class` that starts at `i`.
pub open spec fn run_end(s: Seq<u8>, i: int, class: ByteClass) -> int
    decreases s.len() - i,
{
    if 0 <= i < s.len() && spec_in_class(class, s[i]) {
        run_end(s, i + 1, class)
    } else {
        i
    }
}

/// Where the string ends whose opening quote stands before `i`, and whether
/// its closing quote was found. A backslash takes a following backslash or
/// quote with it; before anything else it stands alone.
pub open spec fn string_end(s: Seq<u8>, i: int) -> (bool, int)
    decreases s.len() - i,
{
    if !(0 <= i < s.len()) {
        (false, i)
    } else if s[i] == 0x27 {
        (true, i + 1)
    } else if s[i] == 0x5c && i + 1 < s.len() && spec_is_escapable(s[i + 1]) {
        string_end(s, i + 2)
    } else {
        string_end(s, i + 1)
    }
}

/// The kind of the token that starts at `i`, and where it ends.
pub open spec fn token_at(s: Seq<u8>, i: int) -> (TokenKind, int)
    recommends
        0 <= i < s.len(),
{
    let b = s[i];
    if b == 0x2f {
        if i + 1 < s.len() && s[i + 1] == 0x2f {
            (TokenKind::LineComment, run_end(s, i + 2, ByteClass::NotNewline))
        } else {
            (TokenKind::Unknown, i + 1)
        }
    } else if spec_is_whitespace(b) {
        (TokenKind::Whitespace, run_end(s, i + 1, ByteClass::Whitespace))
    } else if spec_is_ident_char(b) {
        (TokenKind::Ident, run_end(s, i + 1, ByteClass::Ident))
    } else if b == 0x3d {
        (TokenKind::Eq, i + 1)
    } else if b == 0x2a {
        (TokenKind::Star, i + 1)
    } else if b == 0x7c {
        (TokenKind::Or, i + 1)
    } else if b == 0x3f {
        (TokenKind::Question, i + 1)
    } else if b == 0x3a {
        (TokenKind::Colon, i + 1)
    } else if b == 0x28 {
        (TokenKind::OpenParen, i + 1)
    } else if b == 0x29 {
        (TokenKind::CloseParen, i + 1)
    } else if b == 0x27 {
        (TokenKind::Str { terminated: string_end(s, i + 1).0 }, string_end(s, i + 1).1)
    } else if b == 0x0d {
        (TokenKind::InvalidLineEnding, i + 1)
    } else {
        (TokenKind::Unknown, run_end(s, i + 1, ByteClass::Continuation))
    }
}

/// The tokens of `s` from `i` on, in order, without the end of the input.
pub open spec fn tokens_from(s: Seq<u8>, i: int) -> Seq<Token>
    decreases s.len() - i,
{
    if 0 <= i < s.len() {
        proof {
            lemma_token_at_bounds(s, i);
        }
        let (kind, end) = token_at(s, i);
        seq![Token { kind, len: (end - i) as u32 }] + tokens_from(s, end)
    } else {
        Seq::empty()
    }
}

/// The tokens of the whole of `s`.
pub open spec fn tokens_of(s: Seq<u8>) -> Seq<Token> {
    tokens_from(s, 0)
}

/// A run starts at `i`, stays inside `s`, holds only bytes of its class and
/// cannot be made longer.
pub proof fn lemma_run_end(s: Seq<u8>, i: int, class: ByteClass)
    requires
        0 <= i <= s.len(),
    ensures
        i <= run_end(s, i, class) <= s.len(),
        forall|j: int| i <= j < run_end(s, i, class) ==> spec_in_class(class, #[trigger] s[j]),
        run_end(s, i, class) < s.len() ==> !spec_in_class(class, s[run_end(s, i, class)]),
    decreases s.len() - i,
{
    if i < s.len() && spec_in_class(class, s[i]) {
        lemma_run_end(s, i + 1, class);
    }
}

/// A string ends inside `s`, behind its start or at the end of `s`; where it
/// is terminated, the byte before its end is the closing quote.
pub proof fn lemma_string_end(s: Seq<u8>, i: int)
    requires
        0 <= i <= s.len(),
    ensures
        i <= string_end(s, i).1 <= s.len(),
        string_end(s, i).0 ==> string_end(s, i).1 > i && s[string_end(s, i).1 - 1] == 0x27,
        !string_end(s, i).0 ==> string_end(s, i).1 == s.len(),
    decreases s.len() - i,
{
    if i < s.len() {
        if s[i] == 0x27 {
        } else if s[i] == 0x5c && i + 1 < s.len() && spec_is_escapable(s[i + 1]) {
            lemma_string_end(s, i + 2);
        } else {
            lemma_string_end(s, i + 1);
        }
    }
}

/// Every token is at least one byte long and ends inside the text.
pub proof fn lemma_token_at_bounds(s: Seq<u8>, i: int)
    requires
        0 <= i < s.len(),
    ensures
        i < token_at(s, i).1 <= s.len(),
{
    lemma_run_end(s, i + 1, ByteClass::Whitespace);
    lemma_run_end(s, i + 1, ByteClass::Ident);
    lemma_run_end(s, i + 1, ByteClass::Continuation);
    lemma_string_end(s, i + 1);
    if i + 1 < s.len() {
        lemma_run_end(s, i + 2, ByteClass::NotNewline);
    }
}

/// In valid UTF-8 a character starts right behind every ASCII byte.
pub proof fn lemma_boundary_behind_ascii(s: Seq<u8>, i: int)
    requires
        valid_utf8(s),
        0 <= i < s.len(),
        s[i] < 0x80,
    ensures
        is_char_boundary(s, i + 1),
    decreases s.len(),
{
    let width = length_of_first_scalar(s);
    let rest = pop_first_scalar(s);
    if i < width {
        assert(i == 0);
        assert(is_char_boundary(rest, 0));
    } else {
        assert(rest[i - width] == s[i]);
        lemma_boundary_behind_ascii(rest, i - width);
    }
}

/// In valid UTF-8 a character starts at every position that holds no
/// continuation byte, and at the end.
pub proof fn lemma_boundary_at(s: Seq<u8>, i: int)
    requires
        valid_utf8(s),
        0 <= i <= s.len(),
        i < s.len() ==> !is_continuation_byte(s[i]),
    ensures
        is_char_boundary(s, i),
{
    if i < s.len() {
        is_char_boundary_iff_not_is_continuation_byte(s, i);
    } else {
        is_char_boundary_start_end_of_seq(s);
    }
}

/// In valid UTF-8 every token ends where a character starts, or at the end
/// of the text.
pub proof fn lemma_token_end_is_boundary(s: Seq<u8>, i: int)
    requires
        valid_utf8(s),
        0 <= i < s.len(),
    ensures
        is_char_boundary(s, token_at(s, i).1),
{
    let b = s[i];
    let end = token_at(s, i).1;
    lemma_token_at_bounds(s, i);
    if b == 0x2f {
        if i + 1 < s.len() && s[i + 1] == 0x2f {
            lemma_run_end(s, i + 2, ByteClass::NotNewline);
            lemma_boundary_at(s, end);
        } else {
            lemma_boundary_behind_ascii(s, i);
        }
    } else if spec_is_whitespace(b) {
        lemma_run_end(s, i + 1, ByteClass::Whitespace);
        assert(spec_in_class(ByteClass::Whitespace, s[end - 1]) || end == i + 1);
        lemma_boundary_behind_ascii(s, end - 1);
    } else if spec_is_ident_char(b) {
        lemma_run_end(s, i + 1, ByteClass::Ident);
        assert(spec_in_class(ByteClass::Ident, s[end - 1]) || end == i + 1);
        lemma_boundary_behind_ascii(s, end - 1);
    } else if b == 0x27 {
        lemma_string_end(s, i + 1);
        if string_end(s, i + 1).0 {
            lemma_boundary_behind_ascii(s, end - 1);
        } else {
            lemma_boundary_at(s, end);
        }
    } else if b == 0x3d || b == 0x2a || b == 0x7c || b == 0x3f || b == 0x3a || b == 0x28 || b
        == 0x29 || b == 0x0d {
        lemma_boundary_behind_ascii(s, i);
    } else {
        lemma_run_end(s, i + 1, ByteClass::Continuation);
        lemma_boundary_at(s, end);
    }
}

/// A cursor over the bytes of a text: it hands out one token after another.
pub struct Cursor<'a> {
    bytes: &'a [u8],
    pos: usize,
}

impl<'a> Cursor<'a> {
    /// The bytes of the text that the cursor runs over.
    pub closed spec fn source(&self) -> Seq<u8> {
        self.bytes@
    }

    /// The number of bytes that were handed out as tokens.
    pub closed spec fn offset(&self) -> int {
        self.pos as int
    }

    /// The offset lies inside the text.
    pub open spec fn wf(&self) -> bool {
        0 <= self.offset() <= self.source().len()
    }

    /// A cursor at the start of `input`.
    pub fn new(input: &'a str) -> (res: Cursor<'a>)
        ensures
            res.wf(),
            res.source() == input.spec_bytes(),
            res.offset() == 0,
    {
        Cursor { bytes: input.as_bytes(), pos: 0 }
    }

    /// Whether all of the text was handed out.
    pub fn is_eof(&self) -> (b: bool)
        requires
            self.wf(),
        ensures
            b == (self.offset() == self.source().len()),
    {
        self.pos >= self.bytes.len()
    }

    /// The byte at position `i`, or 0 behind the end of the text.
    fn byte_at(&self, i: usize) -> (b: u8)
        ensures
            i < self.source().len() ==> b == self.source()[i as int],
            i >= self.source().len() ==> b == 0,
    {
        if i < self.bytes.len() {
            self.bytes[i]
        } else {
            0
        }
    }

    /// The end of the run of bytes of `class` that starts at `from`.
    fn eat_while(&self, from: usize, class: ByteClass) -> (end: usize)
        requires
            from <= self.source().len(),
        ensures
            end == run_end(self.source(), from as int, class),
            from <= end <= self.source().len(),
    {
        let mut i: usize = from;
        proof {
            lemma_run_end(self.source(), from as int, class);
        }
        while i < self.bytes.len() && in_class(class, self.bytes[i])
            invariant
                from <= i <= self.bytes@.len(),
                run_end(self.bytes@, i as int, class) == run_end(self.bytes@, from as int, class),
            decreases self.bytes@.len() - i,
        {
            i += 1;
        }
        i
    }

    /// The end of the line comment whose two slashes end before `from`.
    fn line_comment(&self, from: usize) -> (end: usize)
        requires
            from <= self.source().len(),
        ensures
            end == run_end(self.source(), from as int, ByteClass::NotNewline),
            from <= end <= self.source().len(),
    {
        self.eat_while(from, ByteClass::NotNewline)
    }

    /// The end of the whitespace whose first byte stands before `from`.
    fn whitespace(&self, from: usize) -> (end: usize)
        requires
            from <= self.source().len(),
        ensures
            end == run_end(self.source(), from as int, ByteClass::Whitespace),
            from <= end <= self.source().len(),
    {
        self.eat_while(from, ByteClass::Whitespace)
    }

    /// The end of the identifier whose first byte stands before `from`.
    fn ident(&self, from: usize) -> (end: usize)
        requires
            from <= self.source().len(),
        ensures
            end == run_end(self.source(), from as int, ByteClass::Ident),
            from <= end <= self.source().len(),
    {
        self.eat_while(from, ByteClass::Ident)
    }

    /// The end of the string whose opening quote stands before `from`, and
    /// whether the string is terminated.
    fn quoted_string(&self, from: usize) -> (res: (bool, usize))
        requires
            from <= self.source().len(),
        ensures
            (res.0, res.1 as int) == string_end(self.source(), from as int),
            from <= res.1 <= self.source().len(),
    {
        let mut i: usize = from;
        proof {
            lemma_string_end(self.source(), from as int);
        }
        while i < self.bytes.len()
            invariant
                from <= i <= self.bytes@.len(),
                string_end(self.bytes@, i as int) == string_end(self.bytes@, from as int),
            decreases self.bytes@.len() - i,
        {
            let c = self.bytes[i];
            if c == 0x27 {
                return (true, i + 1);
            }
            if c == 0x5c && i + 1 < self.bytes.len() && is_escapable(self.bytes[i + 1]) {
                i += 2;
            } else {
                i += 1;
            }
        }
        (false, i)
    }

    /// Hands out the next token, or the end of the input with length 0.
    pub fn advance_token(&mut self) -> (tok: Token)
        requires
            old(self).wf(),
            old(self).source().len() <= u32::MAX,
        ensures
            final(self).wf(),
            final(self).source() == old(self).source(),
            old(self).offset() == old(self).source().len() ==> tok == (Token {
                kind: TokenKind::Eof,
                len: 0,
            }) && final(self).offset() == old(self).offset(),
            old(self).offset() < old(self).source().len() ==> tok.kind == token_at(
                old(self).source(),
                old(self).offset(),
            ).0 && final(self).offset() == token_at(old(self).source(), old(self).offset()).1
                && tok.len == final(self).offset() - old(self).offset() && tok.len > 0,
    {
        let start: usize = self.pos;
        if start >= self.bytes.len() {
            return Token::new(TokenKind::Eof, 0);
        }
        proof {
            lemma_token_at_bounds(self.source(), start as int);
        }
        let first_char: u8 = self.bytes[start];
        let next: usize = start + 1;
        let (token_kind, end): (TokenKind, usize) = if first_char == 0x2f {
            if self.byte_at(next) == 0x2f {
                (TokenKind::LineComment, self.line_comment(next + 1))
            } else {
                (TokenKind::Unknown, next)
            }
        } else if is_whitespace(first_char) {
            (TokenKind::Whitespace, self.whitespace(next))
        } else if is_ident_char(first_char) {
            (TokenKind::Ident, self.ident(next))
        } else if first_char == 0x3d {
            (TokenKind::Eq, next)
        } else if first_char == 0x2a {
            (TokenKind::Star, next)
        } else if first_char == 0x7c {
            (TokenKind::Or, next)
        } else if first_char == 0x3f {
            (TokenKind::Question, next)
        } else if first_char == 0x3a {
            (TokenKind::Colon, next)
        } else if first_char == 0x28 {
            (TokenKind::OpenParen, next)
        } else if first_char == 0x29 {
            (TokenKind::CloseParen, next)
        } else if first_char == 0x27 {
            let (terminated, end) = self.quoted_string(next);
            (TokenKind::Str { terminated }, end)
        } else if first_char == 0x0d {
            (TokenKind::InvalidLineEnding, next)
        } else {
            (TokenKind::Unknown, self.eat_while(next, ByteClass::Continuation))
        };
        let len: usize = end - start;
        self.pos = end;
        Token::new(token_kind, len as u32)
    }
}

/// The tokens of `input`, in order. The end of the input is not among them.
pub fn tokenize(input: &str) -> (res: Vec<Token>)
    requires
        input.spec_bytes().len() <= u32::MAX,
    ensures
        res@ == tokens_of(input.spec_bytes()),
{
    let mut cursor = Cursor::new(input);
    let mut res: Vec<Token> = Vec::new();
    let ghost s = input.spec_bytes();
    loop
        invariant
            cursor.wf(),
            cursor.source() == s,
            s.len() <= u32::MAX,
            res@ + tokens_from(s, cursor.offset()) == tokens_of(s),
        ensures
            res@ == tokens_of(s),
        decreases s.len() - cursor.offset(),
    {
        let ghost before = cursor.offset();
        let ghost prev = res@;
        let token = cursor.advance_token();
        if token.kind != TokenKind::Eof {
            proof {
                assert(before < s.len()) by {
                    if before == s.len() {
                        assert(token.kind == TokenKind::Eof);
                    }
                }
                assert(tokens_from(s, before) == seq![token] + tokens_from(s, cursor.offset()));
                assert(prev.push(token) + tokens_from(s, cursor.offset()) =~= prev + tokens_from(
                    s,
                    before,
                ));
            }
            res.push(token);
        } else {
            proof {
                assert(before == s.len());
                assert(tokens_from(s, before) =~= Seq::<Token>::empty());
                assert(res@ + Seq::<Token>::empty() =~= res@);
            }
            break;
        }
    }
    res
}

} // verus!
