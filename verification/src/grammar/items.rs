//! Items: the nodes of a grammar.

use vstd::prelude::*;
use crate::grammar::frame::{lemma_extends_step, lemma_extends_trans};
use crate::grammar::laws::{lemma_item, lemma_name_r, lemma_rule};
use crate::grammar::model::{g_grammar_contents, g_item, g_opt_item, g_node, at_item};
use crate::grammar::{name, rules};
use crate::parser::{Parser, Marker, st_start, st_abandon};
use crate::syntax_kind::SyntaxKind;

verus! {

/// Parses items until the input is at its end.
pub fn grammar_contents(p: &mut Parser<'_>)
    requires
        old(p).wf(),
    ensures
        final(p).wf(),
        final(p).input() == old(p).input(),
        final(p).spec_edition() == old(p).spec_edition(),
        final(p)@ == g_grammar_contents(old(p).input(), old(p)@),
{
    let ghost inp = p.input();
    let ghost base = p@;
    while !p.at(SyntaxKind::EOF)
        invariant
            p.wf(),
            p.input() == inp,
            p.spec_edition() == old(p).spec_edition(),
            g_grammar_contents(inp, p@) == g_grammar_contents(inp, base),
        decreases p.spec_remaining(),
    {
        proof {
            lemma_item(inp, p@);
        }
        item(p);
    }
}

/// Parses an item. Where none starts at the cursor, an error is reported,
/// and the token at the cursor, if there is one, goes into an `ERROR` node.
pub fn item(p: &mut Parser<'_>)
    requires
        old(p).wf(),
    ensures
        final(p).wf(),
        final(p).input() == old(p).input(),
        final(p).spec_edition() == old(p).spec_edition(),
        final(p)@ == g_item(old(p).input(), old(p)@),
{
    let ghost base = p@;
    let m = p.start();

    let m = match opt_item(p, m) {
        Ok(()) => {
            return ;
        },
        Err(m) => m,
    };

    m.abandon(p);
    proof {
        assert(st_abandon(st_start(base), base.log.len() as int).log =~= base.log);
    }
    match p.current() {
        SyntaxKind::EOF => p.error("expected an item"),
        _ => p.err_and_bump("expected an item"),
    }
}

/// Parses an item if one starts at the cursor, and completes `m` with it.
/// Where none starts there, nothing happens and `m` comes back.
pub fn opt_item(p: &mut Parser<'_>, m: Marker) -> (res: Result<(), Marker>)
    requires
        old(p).wf(),
        m.pos < old(p)@.log.len(),
        old(p)@.log[m.pos as int] is Start,
    ensures
        final(p).wf(),
        final(p).input() == old(p).input(),
        final(p).spec_edition() == old(p).spec_edition(),
        final(p)@ == g_opt_item(old(p).input(), old(p)@, m.pos as int),
        res is Ok <==> at_item(old(p).input(), old(p)@),
        res matches Err(back) ==> back == m,
{
    match p.current() {
        SyntaxKind::IDENT | SyntaxKind::EQ => node(p, m),
        _ => {
            return Err(m);
        },
    };
    Ok(())
}

/// Parses a node, a name, `=` and a rule, and completes `m` with it.
pub fn node(p: &mut Parser<'_>, m: Marker)
    requires
        old(p).wf(),
        m.pos < old(p)@.log.len(),
        old(p)@.log[m.pos as int] is Start,
    ensures
        final(p).wf(),
        final(p).input() == old(p).input(),
        final(p).spec_edition() == old(p).spec_edition(),
        final(p)@ == g_node(old(p).input(), old(p)@, m.pos as int),
{
    let ghost inp = p.input();
    let ghost opened = p@;
    name(p);
    let ghost named = p@;
    p.expect(SyntaxKind::EQ);
    let ghost equals = p@;
    rules::rule(p);
    proof {
        lemma_name_r(inp, opened, Set::empty());
        lemma_extends_step(inp, named, SyntaxKind::EQ, Seq::empty());
        lemma_rule(inp, equals);
        lemma_extends_trans(opened, named, equals);
        lemma_extends_trans(opened, equals, p@);
    }
    m.complete(p, SyntaxKind::NODE);
}

} // verus!
