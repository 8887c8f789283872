//! The result of a parse: a flat sequence of steps that spells out a tree.
//!
//! `Enter` opens a node, `Exit` closes the node that was opened last, `Token`
//! and `Error` are leaves of the node that is open.

use vstd::prelude::*;
use vstd::string::*;
use crate::syntax_kind::SyntaxKind;

verus! {

/// One step of the result.
#[derive(Debug)]
pub enum Step {
    /// A token of kind `kind`, made of `n_input_tokens` tokens of the input.
    Token { kind: SyntaxKind, n_input_tokens: u8 },
    /// The start of a node of kind `kind`.
    Enter { kind: SyntaxKind },
    /// The end of the node that was started last and has not ended.
    Exit,
    /// An error at this place, with its message.
    Error { msg: String },
}

/// A step with its message as a sequence of characters.
pub ghost enum StepView {
    Token { kind: SyntaxKind, n_input_tokens: u8 },
    Enter { kind: SyntaxKind },
    Exit,
    Error { msg: Seq<char> },
}

impl View for Step {
    type V = StepView;

    open spec fn view(&self) -> StepView {
        match self {
            Step::Token { kind, n_input_tokens } => StepView::Token {
                kind: *kind,
                n_input_tokens: *n_input_tokens,
            },
            Step::Enter { kind } => StepView::Enter { kind: *kind },
            Step::Exit => StepView::Exit,
            Step::Error { msg } => StepView::Error { msg: msg@ },
        }
    }
}

/// By how much a step changes the number of open nodes.
pub open spec fn step_delta(step: StepView) -> int {
    match step {
        StepView::Enter { .. } => 1,
        StepView::Exit => -1,
        _ => 0,
    }
}

/// The number of nodes that are open after the first `k` steps.
pub open spec fn step_depth(steps: Seq<StepView>, k: int) -> int
    decreases k,
{
    if k <= 0 {
        0
    } else {
        step_depth(steps, k - 1) + step_delta(steps[k - 1])
    }
}

/// The number of `Enter` steps among the first `k` steps.
pub open spec fn count_enter(steps: Seq<StepView>, k: int) -> int
    decreases k,
{
    if k <= 0 {
        0
    } else {
        count_enter(steps, k - 1) + if steps[k - 1] is Enter {
            1int
        } else {
            0int
        }
    }
}

/// The number of `Exit` steps among the first `k` steps.
pub open spec fn count_exit(steps: Seq<StepView>, k: int) -> int
    decreases k,
{
    if k <= 0 {
        0
    } else {
        count_exit(steps, k - 1) + if steps[k - 1] is Exit {
            1int
        } else {
            0int
        }
    }
}

/// The steps spell out one tree: the first step opens the root, the root
/// stays open until the last step, and the last step closes it.
pub open spec fn is_tree(steps: Seq<StepView>) -> bool {
    &&& steps.len() >= 2
    &&& steps[0] is Enter
    &&& forall|k: int| 0 < k < steps.len() ==> #[trigger] step_depth(steps, k) > 0
    &&& step_depth(steps, steps.len() as int) == 0
}

/// The depth is the number of `Enter` steps less the number of `Exit` steps.
pub proof fn lemma_depth_is_difference(steps: Seq<StepView>, k: int)
    requires
        0 <= k <= steps.len(),
    ensures
        step_depth(steps, k) == count_enter(steps, k) - count_exit(steps, k),
        0 <= count_enter(steps, k),
        k > 0 && steps[0] is Enter ==> count_enter(steps, k) >= 1,
    decreases k,
{
    if k > 0 {
        lemma_depth_is_difference(steps, k - 1);
    }
}

/// A tree has as many `Enter` steps as `Exit` steps, at least one of each,
/// and at no point more `Exit` steps than `Enter` steps.
pub proof fn lemma_tree_is_balanced(steps: Seq<StepView>)
    requires
        is_tree(steps),
    ensures
        count_enter(steps, steps.len() as int) == count_exit(steps, steps.len() as int),
        count_enter(steps, steps.len() as int) >= 1,
        forall|k: int|
            0 <= k <= steps.len() ==> count_exit(steps, k) <= #[trigger] count_enter(steps, k),
{
    lemma_depth_is_difference(steps, steps.len() as int);
    assert forall|k: int| 0 <= k <= steps.len() implies count_exit(steps, k)
        <= #[trigger] count_enter(steps, k) by {
        lemma_depth_is_difference(steps, k);
        if 0 < k < steps.len() {
            assert(step_depth(steps, k) > 0);
        }
    }
}

/// The depth after `k` steps of `a + b`, where all of `a` is among them.
pub proof fn lemma_step_depth_concat(a: Seq<StepView>, b: Seq<StepView>, k: int)
    requires
        0 <= k <= b.len(),
    ensures
        step_depth(a + b, a.len() + k) == step_depth(a, a.len() as int) + step_depth(b, k),
    decreases k,
{
    if k > 0 {
        lemma_step_depth_concat(a, b, k - 1);
        assert((a + b)[a.len() + k - 1] == b[k - 1]);
    } else {
        lemma_step_depth_prefix(a, a + b, a.len() as int);
    }
}

/// Two sequences that agree on their first `k` steps have the same depth there.
pub proof fn lemma_step_depth_prefix(a: Seq<StepView>, b: Seq<StepView>, k: int)
    requires
        0 <= k <= a.len(),
        k <= b.len(),
        forall|j: int| 0 <= j < k ==> a[j] == b[j],
    ensures
        step_depth(a, k) == step_depth(b, k),
    decreases k,
{
    if k > 0 {
        lemma_step_depth_prefix(a, b, k - 1);
    }
}

/// The steps of a parse, in order.
pub struct Output {
    steps: Vec<Step>,
}

impl View for Output {
    type V = Seq<StepView>;

    closed spec fn view(&self) -> Seq<StepView> {
        Seq::new(self.steps@.len(), |i: int| self.steps@[i]@)
    }
}

impl Output {
    /// A result without steps.
    pub fn new() -> (res: Output)
        ensures
            res@ == Seq::<StepView>::empty(),
    {
        let res = Output { steps: Vec::new() };
        proof {
            assert(res@ =~= Seq::<StepView>::empty());
        }
        res
    }

    /// The number of steps.
    pub fn len(&self) -> (n: usize)
        ensures
            n == self@.len(),
    {
        self.steps.len()
    }

    /// Step `i`.
    pub fn get(&self, i: usize) -> (step: &Step)
        requires
            i < self@.len(),
        ensures
            step@ == self@[i as int],
    {
        &self.steps[i]
    }

    /// The steps, in order.
    pub fn steps(&self) -> (res: &Vec<Step>)
        ensures
            res@.len() == self@.len(),
            forall|i: int| 0 <= i < res@.len() ==> (#[trigger] res@[i])@ == self@[i],
    {
        &self.steps
    }

    fn push(&mut self, step: Step)
        ensures
            final(self)@ == old(self)@.push(step@),
    {
        self.steps.push(step);
        proof {
            assert(self@ =~= old(self)@.push(step@));
        }
    }

    /// Adds a token of kind `kind` that is made of `n_tokens` tokens of the
    /// input.
    pub fn token(&mut self, kind: SyntaxKind, n_tokens: u8)
        ensures
            final(self)@ == old(self)@.push(StepView::Token { kind, n_input_tokens: n_tokens }),
    {
        self.push(Step::Token { kind, n_input_tokens: n_tokens });
    }

    /// Opens a node of kind `kind`.
    pub fn enter_node(&mut self, kind: SyntaxKind)
        ensures
            final(self)@ == old(self)@.push(StepView::Enter { kind }),
    {
        self.push(Step::Enter { kind });
    }

    /// Closes the node that was opened last.
    pub fn leave_node(&mut self)
        ensures
            final(self)@ == old(self)@.push(StepView::Exit),
    {
        self.push(Step::Exit);
    }

    /// Adds an error with the message `error`.
    pub fn error(&mut self, error: String)
        ensures
            final(self)@ == old(self)@.push(StepView::Error { msg: error@ }),
    {
        self.push(Step::Error { msg: error });
    }
}

} // verus!
