//! From a classified text to the input of the parser.

use vstd::prelude::*;
use crate::input::Input;
use crate::lexed_str::LexedStr;
use crate::syntax_kind::SyntaxKind;

verus! {

/// The first `n` of `kinds` without whitespace and comments.
pub open spec fn without_trivia(kinds: Seq<SyntaxKind>, n: int) -> Seq<SyntaxKind>
    decreases n,
{
    if n <= 0 {
        Seq::empty()
    } else if kinds[n - 1].spec_is_trivia() {
        without_trivia(kinds, n - 1)
    } else {
        without_trivia(kinds, n - 1).push(kinds[n - 1])
    }
}

impl<'a> LexedStr<'a> {
    /// The input for the parser: the kinds of the tokens that are neither
    /// whitespace nor comments, in order.
    pub fn to_input(&self) -> (res: Input)
        requires
            self.wf(),
        ensures
            res@ == without_trivia(self.kinds(), self.spec_len()),
    {
        let mut res = Input::default();
        let n = self.len();
        let mut i: usize = 0;
        while i < n
            invariant
                0 <= i <= n,
                n == self.spec_len(),
                self.wf(),
                res@ == without_trivia(self.kinds(), i as int),
            decreases n - i,
        {
            let kind = self.kind(i);
            proof {
                assert(self.kinds()[i as int] == kind);
            }
            if !kind.is_trivia() {
                res.push(kind);
            }
            i += 1;
        }
        res
    }
}

} // verus!
