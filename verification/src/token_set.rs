//! A set of token kinds, held as the bits of one word.

use vstd::prelude::*;
use crate::syntax_kind::SyntaxKind;

verus! {

/// A set of kinds of tokens.
///
/// The kind with ordinal `n` is in the set when bit `n` of the word is set.
/// Only kinds of tokens can be members, so 64 bits are more than enough.
#[derive(Clone, Copy)]
pub struct TokenSet {
    bits: u64,
}

/// Bit `n` of `bits`.
pub open spec fn bit_is_set(bits: u64, n: u16) -> bool {
    bits & (1u64 << n) != 0
}

proof fn lemma_set_bit(bits: u64, n: u16, m: u16)
    requires
        n < 64,
        m < 64,
    ensures
        bit_is_set(bits | (1u64 << n), m) == (m == n || bit_is_set(bits, m)),
{
    assert((bits | (1u64 << n)) & (1u64 << m) != 0 <==> (m == n || bits & (1u64 << m) != 0))
        by (bit_vector)
        requires
            n < 64,
            m < 64,
    ;
}

proof fn lemma_or_bits(a: u64, b: u64, m: u16)
    requires
        m < 64,
    ensures
        bit_is_set(a | b, m) == (bit_is_set(a, m) || bit_is_set(b, m)),
{
    assert((a | b) & (1u64 << m) != 0 <==> (a & (1u64 << m) != 0 || b & (1u64 << m) != 0))
        by (bit_vector)
        requires
            m < 64,
    ;
}

proof fn lemma_no_bit(m: u16)
    requires
        m < 64,
    ensures
        !bit_is_set(0, m),
{
    assert(0u64 & (1u64 << m) == 0) by (bit_vector)
        requires
            m < 64,
    ;
}

impl TokenSet {
    /// Whether `kind` is a member. Only kinds of tokens are.
    pub closed spec fn has(self, kind: SyntaxKind) -> bool {
        kind.spec_is_token() && bit_is_set(self.bits, kind.spec_ordinal())
    }

    /// Only kinds of tokens are members.
    pub proof fn lemma_members_are_tokens(self, kind: SyntaxKind)
        requires
            self.has(kind),
        ensures
            kind.spec_is_token(),
    {
    }

    /// The members as a mathematical set.
    pub open spec fn view(self) -> Set<SyntaxKind> {
        Set::new(|kind: SyntaxKind| self.has(kind))
    }

    /// The set without members.
    pub fn empty() -> (res: TokenSet)
        ensures
            forall|kind: SyntaxKind| !res.has(kind),
    {
        let res = TokenSet { bits: 0 };
        proof {
            assert forall|kind: SyntaxKind| !res.has(kind) by {
                if kind.spec_is_token() {
                    lemma_no_bit(kind.spec_ordinal());
                }
            }
        }
        res
    }

    /// The set of the kinds listed in `kinds`, each of them a kind of token.
    pub fn new(kinds: &[SyntaxKind]) -> (res: TokenSet)
        requires
            forall|i: int| 0 <= i < kinds@.len() ==> (#[trigger] kinds@[i]).spec_is_token(),
        ensures
            forall|kind: SyntaxKind| res.has(kind) <==> kinds@.contains(kind),
    {
        let mut bits: u64 = 0;
        let mut i: usize = 0;
        proof {
            assert forall|kind: SyntaxKind| kind.spec_is_token() implies !bit_is_set(
                0,
                kind.spec_ordinal(),
            ) by {
                lemma_no_bit(kind.spec_ordinal());
            }
        }
        while i < kinds.len()
            invariant
                0 <= i <= kinds@.len(),
                forall|j: int| 0 <= j < kinds@.len() ==> (#[trigger] kinds@[j]).spec_is_token(),
                forall|kind: SyntaxKind|
                    kind.spec_is_token() ==> (bit_is_set(bits, #[trigger] kind.spec_ordinal())
                        <==> kinds@.subrange(0, i as int).contains(kind)),
            decreases kinds@.len() - i,
        {
            let k = kinds[i];
            let n: u16 = k.ordinal();
            let ghost before = bits;
            bits = bits | (1u64 << n);
            proof {
                let prev = kinds@.subrange(0, i as int);
                let next = kinds@.subrange(0, i as int + 1);
                assert(next =~= prev.push(k));
                assert forall|kind: SyntaxKind| kind.spec_is_token() implies (bit_is_set(
                    bits,
                    #[trigger] kind.spec_ordinal(),
                ) <==> next.contains(kind)) by {
                    lemma_set_bit(before, n, kind.spec_ordinal());
                    if kind.spec_ordinal() == n {
                        crate::syntax_kind::lemma_ordinal_injective(kind, k);
                        assert(next[i as int] == kind);
                    } else if prev.contains(kind) {
                        let j = choose|j: int| 0 <= j < prev.len() && prev[j] == kind;
                        assert(next[j] == kind);
                    } else if next.contains(kind) {
                        let j = choose|j: int| 0 <= j < next.len() && next[j] == kind;
                        if j < i {
                            assert(prev[j] == kind);
                        }
                    }
                }
            }
            i += 1;
        }
        let res = TokenSet { bits };
        proof {
            assert(kinds@.subrange(0, i as int) =~= kinds@);
            assert forall|kind: SyntaxKind| res.has(kind) <==> kinds@.contains(kind) by {
                if kinds@.contains(kind) {
                    let j = choose|j: int| 0 <= j < kinds@.len() && kinds@[j] == kind;
                    assert(kinds@[j].spec_is_token());
                }
            }
        }
        res
    }

    /// The set of the kinds that are in `self` or in `other`.
    pub fn union(self, other: TokenSet) -> (res: TokenSet)
        ensures
            forall|kind: SyntaxKind| res.has(kind) <==> (self.has(kind) || other.has(kind)),
    {
        let res = TokenSet { bits: self.bits | other.bits };
        proof {
            assert forall|kind: SyntaxKind| res.has(kind) <==> (self.has(kind) || other.has(
                kind,
            )) by {
                if kind.spec_is_token() {
                    lemma_or_bits(self.bits, other.bits, kind.spec_ordinal());
                }
            }
        }
        res
    }

    /// Whether `kind`, a kind of token, is a member.
    pub fn contains(&self, kind: SyntaxKind) -> (b: bool)
        requires
            kind.spec_is_token(),
        ensures
            b == self.has(kind),
    {
        let n: u16 = kind.ordinal();
        let mask: u64 = 1u64 << n;
        self.bits & mask != 0
    }
}

} // verus!
