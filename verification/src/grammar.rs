//! The grammar of grammar descriptions.
//!
//! A grammar is a list of nodes. A node is a name, `=` and a rule. A rule is
//! built from token literals, references to names, labeled rules and rules
//! in parentheses, with `?`, `*`, `|` and by putting rules side by side.
//!
//! Each function here parses one construct: it reads the tokens at the
//! cursor of the engine and logs what it finds. What it logs is given by the
//! function of the same name in `model`; what holds of all that is logged is
//! shown in `laws`.

pub mod frame;
pub mod items;
pub mod laws;
pub mod model;
pub mod rules;

use vstd::prelude::*;
use crate::grammar::laws::lemma_grammar_contents;
use crate::grammar::model::{g_name_r, g_name, g_name_ref, g_grammar};
use crate::parser::{node_view, Parser, CompletedMarker, st_start};
use crate::syntax_kind::SyntaxKind;
use crate::token_set::TokenSet;

verus! {

/// Parses a grammar: its items, in a `GRAMMAR` node.
pub fn grammar(p: &mut Parser<'_>)
    requires
        old(p).wf(),
    ensures
        final(p).wf(),
        final(p).input() == old(p).input(),
        final(p).spec_edition() == old(p).spec_edition(),
        final(p)@ == g_grammar(old(p).input(), old(p)@),
{
    let ghost inp = p.input();
    let ghost base = p@;
    let m = p.start();
    items::grammar_contents(p);
    proof {
        lemma_grammar_contents(inp, st_start(base));
    }
    m.complete(p, SyntaxKind::GRAMMAR);
}

/// Parses a name, or reports that it is missing. After the report parsing
/// goes on at the end of the input and at a token of `recovery`.
pub fn name_r(p: &mut Parser<'_>, recovery: TokenSet) -> (res: Option<CompletedMarker>)
    requires
        old(p).wf(),
    ensures
        final(p).wf(),
        final(p).input() == old(p).input(),
        final(p).spec_edition() == old(p).spec_edition(),
        (final(p)@, node_view(res)) == g_name_r(old(p).input(), old(p)@, recovery@),
{
    if p.at(SyntaxKind::IDENT) {
        let m = p.start();
        p.bump(SyntaxKind::IDENT);
        Some(m.complete(p, SyntaxKind::NAME))
    } else {
        p.err_recover("expected a name", recovery);
        None
    }
}

/// Parses a name, or reports that it is missing.
pub fn name(p: &mut Parser<'_>) -> (res: Option<CompletedMarker>)
    requires
        old(p).wf(),
    ensures
        final(p).wf(),
        final(p).input() == old(p).input(),
        final(p).spec_edition() == old(p).spec_edition(),
        (final(p)@, node_view(res)) == g_name(old(p).input(), old(p)@),
{
    let none = TokenSet::empty();
    proof {
        assert(none@ =~= Set::<SyntaxKind>::empty());
    }
    name_r(p, none)
}

/// Parses a reference to a name, or reports that it is missing.
pub fn name_ref(p: &mut Parser<'_>) -> (res: Option<CompletedMarker>)
    requires
        old(p).wf(),
    ensures
        final(p).wf(),
        final(p).input() == old(p).input(),
        final(p).spec_edition() == old(p).spec_edition(),
        (final(p)@, node_view(res)) == g_name_ref(old(p).input(), old(p)@),
{
    if p.at(SyntaxKind::IDENT) {
        let m = p.start();
        p.bump(SyntaxKind::IDENT);
        Some(m.complete(p, SyntaxKind::NAME_REF))
    } else {
        p.err_and_bump("expected identifier");
        None
    }
}

} // verus!
