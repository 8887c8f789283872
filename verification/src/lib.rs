//! A lexer and an error-tolerant parser for grammar descriptions.
//!
//! Text is cut into tokens, the tokens are classified, and the classified
//! tokens are parsed into a flat, balanced sequence of steps from which a
//! syntax tree can be built. No input is refused: what is malformed is
//! reported in the result, and the result is a tree all the same.

pub mod edition;
pub mod event;
pub mod grammar;
pub mod input;
pub mod lexed_str;
pub mod lexer;
pub mod output;
pub mod parser;
pub mod shortcuts;
pub mod syntax_kind;
pub mod token_set;
pub mod unescape;

use vstd::prelude::*;
use crate::edition::Edition;
use crate::event::{process, replay, lemma_replay_tree};
use crate::grammar::laws::lemma_grammar_is_tree;
use crate::grammar::model::g_grammar;
use crate::input::Input;
use crate::output::{Output, StepView, is_tree, count_enter, count_exit, lemma_tree_is_balanced};
use crate::parser::{Parser, initial};
use crate::syntax_kind::SyntaxKind;

verus! {

/// What the whole of an input can be parsed as.
#[derive(Debug, Clone, Copy, PartialEq, Eq, Structural)]
pub enum TopEntryPoint {
    /// A grammar: a list of nodes.
    Grammar,
}

/// The steps that parsing tokens of the kinds `inp` as `entry` gives.
pub open spec fn parse_model(entry: TopEntryPoint, inp: Seq<SyntaxKind>) -> Seq<StepView> {
    match entry {
        TopEntryPoint::Grammar => replay(g_grammar(inp, initial()).log),
    }
}

impl TopEntryPoint {
    /// Parses the whole of `input`. The result is one tree, whatever the
    /// input holds.
    pub fn parse(&self, input: &Input, edition: Edition) -> (res: Output)
        ensures
            res@ == parse_model(*self, input@),
            is_tree(res@),
            count_enter(res@, res@.len() as int) == count_exit(res@, res@.len() as int),
            count_enter(res@, res@.len() as int) >= 1,
            forall|k: int| 0 <= k <= res@.len() ==> count_exit(res@, k) <= #[trigger] count_enter(res@, k),
    {
        let mut p = Parser::new(input, edition);
        match self {
            TopEntryPoint::Grammar => grammar::grammar(&mut p),
        }
        let events = p.finish();
        proof {
            lemma_parse_is_tree(*self, input@);
        }
        process(events)
    }
}

/// Every parse gives one tree, whatever the tokens are: as many `Enter`
/// steps as `Exit` steps, at least one of each, and at no point more `Exit`
/// steps than `Enter` steps.
pub proof fn lemma_parse_is_tree(entry: TopEntryPoint, inp: Seq<SyntaxKind>)
    ensures
        is_tree(parse_model(entry, inp)),
        count_enter(parse_model(entry, inp), parse_model(entry, inp).len() as int) == count_exit(
            parse_model(entry, inp),
            parse_model(entry, inp).len() as int,
        ),
        count_enter(parse_model(entry, inp), parse_model(entry, inp).len() as int) >= 1,
        forall|k: int|
            0 <= k <= parse_model(entry, inp).len() ==> count_exit(parse_model(entry, inp), k)
                <= #[trigger] count_enter(parse_model(entry, inp), k),
{
    lemma_grammar_is_tree(inp);
    lemma_replay_tree(g_grammar(inp, initial()).log);
    lemma_tree_is_balanced(parse_model(entry, inp));
}

/// Parsing is a function of the kinds of the tokens: what two parses of the
/// same kinds give is the same, step for step.
pub proof fn lemma_parse_is_deterministic(
    entry: TopEntryPoint,
    first: Seq<SyntaxKind>,
    second: Seq<SyntaxKind>,
    first_steps: Seq<StepView>,
    second_steps: Seq<StepView>,
)
    requires
        first == second,
        first_steps == parse_model(entry, first),
        second_steps == parse_model(entry, second),
    ensures
        first_steps == second_steps,
{
}

} // verus!
