//! The input of the parser: the kinds of the tokens that matter.

use vstd::prelude::*;
use crate::syntax_kind::SyntaxKind;

verus! {

/// The kinds of the tokens to be parsed, in order.
pub struct Input {
    kind: Vec<SyntaxKind>,
}

impl View for Input {
    type V = Seq<SyntaxKind>;

    closed spec fn view(&self) -> Seq<SyntaxKind> {
        self.kind@
    }
}

/// The kind at position `idx` of `kinds`, and `EOF` behind their end.
pub open spec fn kind_at(kinds: Seq<SyntaxKind>, idx: int) -> SyntaxKind {
    if 0 <= idx < kinds.len() {
        kinds[idx]
    } else {
        SyntaxKind::EOF
    }
}

impl Input {
    /// An input without tokens.
    pub fn new() -> (res: Input)
        ensures
            res@ == Seq::<SyntaxKind>::empty(),
    {
        Input { kind: Vec::new() }
    }

    /// Adds a token of kind `kind` at the end.
    pub fn push(&mut self, kind: SyntaxKind)
        ensures
            final(self)@ == old(self)@.push(kind),
    {
        self.kind.push(kind);
    }

    /// The kind of the token at `idx`, and `EOF` behind the last token.
    pub fn kind(&self, idx: usize) -> (res: SyntaxKind)
        ensures
            res == kind_at(self@, idx as int),
    {
        if idx < self.kind.len() {
            self.kind[idx]
        } else {
            SyntaxKind::EOF
        }
    }

    /// The number of tokens.
    pub fn len(&self) -> (n: usize)
        ensures
            n == self@.len(),
    {
        self.kind.len()
    }
}

impl Default for Input {
    fn default() -> (res: Input)
        ensures
            res@ == Seq::<SyntaxKind>::empty(),
    {
        Input::new()
    }
}

} // verus!
