//! Reading the contents of a quoted literal character by character.
//!
//! Each character of the contents, or each escape made of a backslash and the
//! character behind it, gives one piece: the range of bytes it takes and
//! either the character it stands for or the reason why it stands for none.

use std::ops::Range;
use std::str::Chars;
use vstd::prelude::*;
use vstd::std_specs::iter::IteratorSpec;
use vstd::string::*;
use vstd::utf8::*;

verus! {

broadcast use vstd::string::group_string_axioms;

/// What can be wrong with the contents of a literal.
#[derive(Clone, Copy, Debug, PartialEq, Eq, Structural)]
pub enum EscapeError {
    /// The literal is empty.
    ZeroChars,
    /// A backslash at the very end, with nothing behind it.
    LoneSlash,
    /// A backslash before a character that cannot be escaped.
    InvalidEscape,
    /// A raw carriage return.
    BareCarriageReturn,
    /// A raw quote, which has to be escaped.
    EscapeOnlyChar,
}

/// One piece of a literal: the bytes it takes and what it stands for.
pub type Piece = (Range<usize>, Result<char, EscapeError>);

/// `char::len_utf8`: the number of bytes that the UTF-8 encoding of `c`
/// takes, which is the length of the encoding that `encode_scalar` describes.
pub assume_specification[ char::len_utf8 ](c: char) -> (n: usize)
    ensures
        n == encode_scalar(c as u32).len(),
;

/// The number of bytes that the first `k` characters of `s` take.
pub open spec fn byte_offset(s: Seq<char>, k: int) -> int {
    encode_utf8(s.subrange(0, k)).len() as int
}

/// What the character `c` stands for behind a backslash.
pub open spec fn escape_value(c: char) -> Result<char, EscapeError> {
    if c == '\\' {
        Ok('\\')
    } else if c == '\'' {
        Ok('\'')
    } else {
        Err(EscapeError::InvalidEscape)
    }
}

/// What the character `c`, which is no backslash, stands for by itself.
pub open spec fn plain_value(c: char) -> Result<char, EscapeError> {
    if c == '\'' {
        Err(EscapeError::EscapeOnlyChar)
    } else if c == '\r' {
        Err(EscapeError::BareCarriageReturn)
    } else {
        Ok(c)
    }
}

/// The piece made of the characters of `s` from `from` up to `to`.
pub open spec fn piece(s: Seq<char>, from: int, to: int, value: Result<char, EscapeError>) -> Piece {
    (Range { start: byte_offset(s, from) as usize, end: byte_offset(s, to) as usize }, value)
}

/// The pieces of `s` from its character `k` on.
pub open spec fn pieces_from(s: Seq<char>, k: int) -> Seq<Piece>
    decreases s.len() - k,
{
    if !(0 <= k < s.len()) {
        Seq::empty()
    } else if s[k] == '\\' {
        if k + 1 < s.len() {
            seq![piece(s, k, k + 2, escape_value(s[k + 1]))] + pieces_from(s, k + 2)
        } else {
            seq![piece(s, k, k + 1, Err(EscapeError::LoneSlash))]
        }
    } else {
        seq![piece(s, k, k + 1, plain_value(s[k]))] + pieces_from(s, k + 1)
    }
}

/// The pieces of the contents `s` of a literal. An empty literal has one
/// piece, which says that it is empty.
pub open spec fn pieces_of(s: Seq<char>) -> Seq<Piece> {
    if s.len() == 0 {
        seq![(Range { start: 0usize, end: 0usize }, Err(EscapeError::ZeroChars))]
    } else {
        pieces_from(s, 0)
    }
}

/// The first error among `pieces`, if there is one.
pub open spec fn first_error(pieces: Seq<Piece>) -> Option<EscapeError>
    decreases pieces.len(),
{
    if pieces.len() == 0 {
        None
    } else {
        match pieces[0].1 {
            Err(e) => Some(e),
            Ok(_) => first_error(pieces.drop_first()),
        }
    }
}

/// Encoding a sequence with one more character appends that character's bytes.
pub proof fn lemma_encode_push(a: Seq<char>, c: char)
    ensures
        encode_utf8(a.push(c)) =~= encode_utf8(a) + encode_scalar(c as u32),
    decreases a.len(),
{
    if a.len() == 0 {
        assert(a.push(c).drop_first() =~= Seq::<char>::empty());
        assert(encode_utf8(a.push(c).drop_first()) =~= Seq::<u8>::empty());
    } else {
        assert(a.push(c).drop_first() =~= a.drop_first().push(c));
        lemma_encode_push(a.drop_first(), c);
    }
}

/// The offset of character `k + 1` is that of character `k` plus the one to
/// four bytes of character `k`.
pub proof fn lemma_byte_offset_step(s: Seq<char>, k: int)
    requires
        0 <= k < s.len(),
    ensures
        byte_offset(s, k + 1) == byte_offset(s, k) + encode_scalar(s[k] as u32).len(),
        1 <= encode_scalar(s[k] as u32).len() <= 4,
{
    assert(s.subrange(0, k + 1) =~= s.subrange(0, k).push(s[k]));
    lemma_encode_push(s.subrange(0, k), s[k]);
}

/// Offsets grow with the index and end at the length of the encoding.
pub proof fn lemma_byte_offset_bound(s: Seq<char>, k: int)
    requires
        0 <= k <= s.len(),
    ensures
        byte_offset(s, 0) == 0,
        byte_offset(s, k) <= byte_offset(s, s.len() as int),
        byte_offset(s, s.len() as int) == encode_utf8(s).len(),
    decreases s.len() - k,
{
    assert(s.subrange(0, 0) =~= Seq::<char>::empty());
    assert(s.subrange(0, s.len() as int) =~= s);
    if k < s.len() {
        lemma_byte_offset_step(s, k);
        lemma_byte_offset_bound(s, k + 1);
    }
}

/// Reads what follows a backslash: takes one more character from `chars`, if
/// there is one, adds its width to `pos` and says what the escape stands for.
pub fn scan_escape(chars: &mut Chars<'_>, pos: &mut usize) -> (res: Result<char, EscapeError>)
    requires
        (*old(chars)).remaining().len() > 0 ==> *old(pos) + encode_scalar(
            (*old(chars)).remaining()[0] as u32,
        ).len() <= usize::MAX,
    ensures
        (*old(chars)).remaining().len() == 0 ==> res == Err::<char, EscapeError>(
            EscapeError::LoneSlash,
        ) && (*final(chars)).remaining() == (*old(chars)).remaining() && *final(pos) == *old(pos),
        (*old(chars)).remaining().len() > 0 ==> res == escape_value((*old(chars)).remaining()[0])
            && (*final(chars)).remaining() == (*old(chars)).remaining().drop_first() && *final(pos)
            == *old(pos) + encode_scalar((*old(chars)).remaining()[0] as u32).len(),
{
    match chars.next() {
        None => Err(EscapeError::LoneSlash),
        Some(c) => {
            *pos = *pos + c.len_utf8();
            if c == '\\' {
                Ok('\\')
            } else if c == '\'' {
                Ok('\'')
            } else {
                Err(EscapeError::InvalidEscape)
            }
        },
    }
}

/// The pieces of `src`, the contents of a literal without its quotes, in the
/// order of the text.
pub fn unescape(src: &str) -> (res: Vec<Piece>)
    ensures
        res@ == pieces_of(src@),
{
    let mut res: Vec<Piece> = Vec::new();
    let total: usize = src.as_bytes().len();
    let ghost s = src@;
    if total == 0 {
        proof {
            if s.len() > 0 {
                lemma_byte_offset_step(s, 0);
                lemma_byte_offset_bound(s, 1);
            }
        }
        res.push((Range { start: 0, end: 0 }, Err(EscapeError::ZeroChars)));
        return res;
    }
    proof {
        lemma_byte_offset_bound(s, 0);
        assert(s.len() > 0);
    }
    let mut chars = src.chars();
    let mut pos: usize = 0;
    let ghost mut k: int = 0;
    proof {
        assert(s.subrange(0, s.len() as int) =~= s);
    }
    loop
        invariant
            0 <= k <= s.len(),
            chars.remaining() == s.subrange(k, s.len() as int),
            pos == byte_offset(s, k),
            total == encode_utf8(s).len(),
            res@ + pieces_from(s, k) == pieces_from(s, 0),
        ensures
            res@ == pieces_from(s, 0),
        decreases s.len() - k,
    {
        let ghost prev = res@;
        let start: usize = pos;
        match chars.next() {
            None => {
                proof {
                    assert(k == s.len());
                    assert(prev + Seq::<Piece>::empty() =~= prev);
                }
                break;
            },
            Some(c) => {
                proof {
                    assert(c == s[k]);
                    lemma_byte_offset_step(s, k);
                    lemma_byte_offset_bound(s, k + 1);
                    assert(s.subrange(k, s.len() as int).drop_first() =~= s.subrange(
                        k + 1,
                        s.len() as int,
                    ));
                }
                pos = pos + c.len_utf8();
                if c == '\\' {
                    proof {
                        if k + 1 < s.len() {
                            lemma_byte_offset_step(s, k + 1);
                            lemma_byte_offset_bound(s, k + 2);
                            assert(s.subrange(k + 1, s.len() as int).drop_first() =~= s.subrange(
                                k + 2,
                                s.len() as int,
                            ));
                        }
                    }
                    let ghost more = k + 1 < s.len();
                    let value = scan_escape(&mut chars, &mut pos);
                    res.push((Range { start, end: pos }, value));
                    proof {
                        if more {
                            assert(prev.push(piece(s, k, k + 2, value)) + pieces_from(s, k + 2)
                                =~= prev + pieces_from(s, k));
                            k = k + 2;
                        } else {
                            assert(pieces_from(s, k + 1) =~= Seq::<Piece>::empty());
                            assert(prev.push(piece(s, k, k + 1, value)) + pieces_from(s, k + 1)
                                =~= prev + pieces_from(s, k));
                            k = k + 1;
                        }
                    }
                } else {
                    let value = if c == '\'' {
                        Err(EscapeError::EscapeOnlyChar)
                    } else if c == '\r' {
                        Err(EscapeError::BareCarriageReturn)
                    } else {
                        Ok(c)
                    };
                    res.push((Range { start, end: pos }, value));
                    proof {
                        assert(prev.push(piece(s, k, k + 1, value)) + pieces_from(s, k + 1) =~= prev
                            + pieces_from(s, k));
                        k = k + 1;
                    }
                }
            },
        }
    }
    res
}

} // verus!
