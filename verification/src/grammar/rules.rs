//! Rules: the right-hand sides of nodes.
//!
//! A rule is parsed by operator precedence. An atom is parsed first; then,
//! as long as something follows that binds tightly enough, the node that was
//! completed last becomes the first child of a new node.

use vstd::prelude::*;
use crate::event::opens_node;
use crate::grammar::frame::{extends, same_node, lemma_extends_trans, lemma_extends_err};
use crate::grammar::laws::{lemma_lhs, lemma_rule, lemma_rule_bp};
use crate::grammar::model::{
    Associativity,
    BP_NONE,
    BP_SMALLEST,
    BP_ALT,
    BP_SEQ,
    BP_OPT,
    BP_REP,
    is_token_first,
    is_rule_first,
    rule_recovery,
    end_of_node,
    operator_of,
    g_token,
    g_label,
    g_labeled_rule,
    g_paren_rule,
    g_atom_rule,
    g_lhs,
    g_rule,
    g_rule_bp,
    g_rule_loop,
    g_seq_run,
};
use crate::grammar::name_ref;
use crate::parser::{node_view, marker_at, Parser, Marker, CompletedMarker, st_current, st_nth};
use crate::syntax_kind::SyntaxKind;
use crate::token_set::TokenSet;

verus! {

/// The kinds of tokens with which a token literal starts.
pub fn token_first() -> (res: TokenSet)
    ensures
        forall|kind: SyntaxKind| res.has(kind) <==> is_token_first(kind),
{
    let kinds = [SyntaxKind::STRING];
    let res = TokenSet::new(kinds.as_slice());
    proof {
        assert forall|kind: SyntaxKind| res.has(kind) <==> is_token_first(kind) by {
            if is_token_first(kind) {
                assert(kinds@[0] == kind);
            }
            if res.has(kind) {
                let j = choose|j: int| 0 <= j < kinds@.len() && kinds@[j] == kind;
                assert(j == 0);
            }
        }
    }
    res
}

/// The kinds of tokens with which an atom starts.
pub fn atom_rule_first() -> (res: TokenSet)
    ensures
        forall|kind: SyntaxKind| res.has(kind) <==> is_rule_first(kind),
{
    let kinds = [SyntaxKind::L_PAREN, SyntaxKind::IDENT];
    let more = TokenSet::new(kinds.as_slice());
    let res = token_first().union(more);
    proof {
        assert forall|kind: SyntaxKind| res.has(kind) <==> is_rule_first(kind) by {
            if kind == SyntaxKind::L_PAREN {
                assert(kinds@[0] == kind);
            }
            if kind == SyntaxKind::IDENT {
                assert(kinds@[1] == kind);
            }
            assert(more.has(kind) <==> kinds@.contains(kind));
            if kinds@.contains(kind) {
                let j = choose|j: int| 0 <= j < kinds@.len() && kinds@[j] == kind;
                assert(j == 0 || j == 1);
            }
            assert(res.has(kind) <==> (is_token_first(kind) || more.has(kind)));
        }
    }
    res
}

/// The kinds of tokens with which a rule starts.
pub fn rule_first() -> (res: TokenSet)
    ensures
        forall|kind: SyntaxKind| res.has(kind) <==> is_rule_first(kind),
{
    atom_rule_first()
}

/// The kinds of tokens at which parsing goes on after a rule was missed.
pub fn rule_recovery_set() -> (res: TokenSet)
    ensures
        res@ == rule_recovery(),
{
    let kinds = [SyntaxKind::R_PAREN, SyntaxKind::EQ];
    let res = TokenSet::new(kinds.as_slice());
    proof {
        assert forall|kind: SyntaxKind| res.has(kind) <==> (kind == SyntaxKind::R_PAREN || kind
            == SyntaxKind::EQ) by {
            if kind == SyntaxKind::R_PAREN {
                assert(kinds@[0] == kind);
            }
            if kind == SyntaxKind::EQ {
                assert(kinds@[1] == kind);
            }
            if res.has(kind) {
                let j = choose|j: int| 0 <= j < kinds@.len() && kinds@[j] == kind;
                assert(j == 0 || j == 1);
            }
        }
        assert(res@ =~= rule_recovery());
    }
    res
}

/// Parses a rule.
pub fn rule(p: &mut Parser<'_>) -> (res: Option<CompletedMarker>)
    requires
        old(p).wf(),
    ensures
        final(p).wf(),
        final(p).input() == old(p).input(),
        final(p).spec_edition() == old(p).spec_edition(),
        (final(p)@, node_view(res)) == g_rule(old(p).input(), old(p)@),
    decreases old(p).spec_remaining(), 5int,
{
    rule_bp(p, None, BP_SMALLEST)
}

/// The operator at the cursor: its binding power, its kind and its
/// associativity. What is no operator has the power `BP_NONE`.
pub fn current_op(p: &Parser<'_>) -> (res: (u8, SyntaxKind, Associativity))
    requires
        p.wf(),
    ensures
        res == operator_of(st_current(p.input(), p@)),
{
    match p.current() {
        SyntaxKind::PIPE => (BP_ALT, SyntaxKind::PIPE, Associativity::Left),
        SyntaxKind::STAR => (BP_REP, SyntaxKind::STAR, Associativity::Left),
        SyntaxKind::QUESTION => (BP_OPT, SyntaxKind::QUESTION, Associativity::Left),
        _ => (BP_NONE, SyntaxKind::EOF, Associativity::Left),
    }
}

/// Parses a rule whose operators have the binding power `bp` at least. The
/// rule starts at the marker `m`, or at a new marker where `m` is `None`.
pub fn rule_bp(p: &mut Parser<'_>, m: Option<Marker>, bp: u8) -> (res: Option<CompletedMarker>)
    requires
        old(p).wf(),
        m matches Some(marker) ==> marker.pos < old(p)@.log.len() && old(p)@.log[marker.pos as int] is Start,
    ensures
        final(p).wf(),
        final(p).input() == old(p).input(),
        final(p).spec_edition() == old(p).spec_edition(),
        (final(p)@, node_view(res)) == g_rule_bp(old(p).input(), old(p)@, marker_at(m), bp),
    decreases old(p).spec_remaining(), 4int,
{
    let ghost inp = p.input();
    let ghost base = p@;
    let ghost given = marker_at(m);
    let m = match m {
        Some(m) => m,
        None => p.start(),
    };
    let ghost begun = p@;
    let ghost at = m.pos as int;
    proof {
        lemma_extends_err(inp, begun, "expected rule"@, rule_recovery());
    }

    if !p.at_ts(rule_first()) {
        p.err_recover("expected rule", rule_recovery_set());
        m.abandon(p);
        return None;
    }
    if is_end_of_node(p) {
        p.error("expected rule");
        m.abandon(p);
        return None;
    }
    proof {
        lemma_lhs(inp, begun);
    }
    let mut lhs = match lhs(p) {
        Some(lhs) => lhs.extend_to(p, m),
        None => {
            m.abandon(p);
            return None;
        },
    };

    loop
        invariant_except_break
            g_rule_loop(inp, p@, lhs@, bp) == g_rule_bp(inp, base, given, bp),
        invariant
            p.wf(),
            p.input() == inp,
            p.spec_edition() == old(p).spec_edition(),
            base.pos < p@.pos,
            lhs.start_pos < p@.log.len(),
            opens_node(p@.log[lhs.start_pos as int]),
            base == old(p)@,
            inp == old(p).input(),
        ensures
            p.wf(),
            p.input() == inp,
            p.spec_edition() == old(p).spec_edition(),
            (p@, Some(lhs@)) == g_rule_bp(inp, base, given, bp),
        decreases p.spec_remaining(),
    {
        let ghost top = p@;
        let ghost seen = lhs@;
        if p.at_ts(rule_first()) && !is_end_of_node(p) {
            let mut count: usize = 0;
            loop
                invariant_except_break
                    g_seq_run(inp, p@, count as int) == g_seq_run(inp, top, 0),
                invariant
                    p.wf(),
                    p.input() == inp,
                    p.spec_edition() == old(p).spec_edition(),
                    extends(top, p@),
                    count > 0 ==> top.pos < p@.pos,
                    count <= p@.pos - top.pos,
                    0 <= top.pos,
                    base.pos < top.pos,
                    base == old(p)@,
                    inp == old(p).input(),
                ensures
                    p.wf(),
                    p.input() == inp,
                    p.spec_edition() == old(p).spec_edition(),
                    extends(top, p@),
                    count > 0 ==> top.pos < p@.pos,
                    (p@, count as int) == g_seq_run(inp, top, 0),
                decreases p.spec_remaining(),
            {
                if !(p.at_ts(rule_first()) && !is_end_of_node(p)) {
                    break;
                }
                let ghost before = p@;
                let next = rule_bp(p, None, BP_SEQ);
                proof {
                    lemma_rule_bp(inp, before, None, BP_SEQ);
                    lemma_extends_trans(top, before, p@);
                }
                if next.is_none() {
                    break;
                }
                count += 1;
            }
            proof {
                assert(same_node(top.log[seen.start_pos], p@.log[seen.start_pos]));
            }
            if count > 0 {
                let m = lhs.precede(p);
                lhs = m.complete(p, SyntaxKind::SEQ_RULE);
                continue;
            }
        }
        let ghost s1 = p@;

        let (op_bp, op, associativity) = current_op(p);
        if op_bp < bp {
            break;
        }
        let op_kind = match op {
            SyntaxKind::PIPE => SyntaxKind::ALT_RULE,
            SyntaxKind::STAR => SyntaxKind::REP_RULE,
            SyntaxKind::QUESTION => SyntaxKind::OPT_RULE,
            _ => {
                break;
            },
        };

        if p.at(SyntaxKind::QUESTION) || p.at(SyntaxKind::STAR) {
            let m = lhs.precede(p);
            p.bump(op);
            lhs = m.complete(p, op_kind);
            continue;
        }
        let m = lhs.precede(p);
        p.bump(op);
        let ghost bumped = p@;

        let op_bp = match associativity {
            Associativity::Left => op_bp + 1,
            Associativity::Right => op_bp,
        };

        rule_bp(p, None, op_bp);
        proof {
            lemma_rule_bp(inp, bumped, None, op_bp);
        }
        lhs = m.complete(p, op_kind)
    }
    Some(lhs)
}

/// Whether the next node starts at the cursor: an identifier stands there
/// with `=` behind it.
pub fn is_end_of_node(p: &Parser<'_>) -> (b: bool)
    requires
        p.wf(),
    ensures
        b == end_of_node(p.input(), p@),
{
    let la = p.nth(1);
    matches!((p.current(), la), (SyntaxKind::IDENT, SyntaxKind::EQ))
}

/// Parses the left-hand side of a rule: an atom.
pub fn lhs(p: &mut Parser<'_>) -> (res: Option<CompletedMarker>)
    requires
        old(p).wf(),
    ensures
        final(p).wf(),
        final(p).input() == old(p).input(),
        final(p).spec_edition() == old(p).spec_edition(),
        (final(p)@, node_view(res)) == g_lhs(old(p).input(), old(p)@),
    decreases old(p).spec_remaining(), 3int,
{
    atom_rule(p)
}

/// Parses a token literal, if a string stands at the cursor.
pub fn token(p: &mut Parser<'_>) -> (res: Option<CompletedMarker>)
    requires
        old(p).wf(),
    ensures
        final(p).wf(),
        final(p).input() == old(p).input(),
        final(p).spec_edition() == old(p).spec_edition(),
        (final(p)@, node_view(res)) == g_token(old(p).input(), old(p)@),
{
    if !p.at_ts(token_first()) {
        return None;
    }
    let m = p.start();
    p.bump_any();
    Some(m.complete(p, SyntaxKind::TOKEN))
}

/// Parses an atom: a token literal, a labeled rule, a reference to a name
/// or a rule in parentheses. Anything else goes into an `ERROR` node.
pub fn atom_rule(p: &mut Parser<'_>) -> (res: Option<CompletedMarker>)
    requires
        old(p).wf(),
    ensures
        final(p).wf(),
        final(p).input() == old(p).input(),
        final(p).spec_edition() == old(p).spec_edition(),
        (final(p)@, node_view(res)) == g_atom_rule(old(p).input(), old(p)@),
    decreases old(p).spec_remaining(), 2int,
{
    if let Some(m) = token(p) {
        return Some(m);
    }
    let la = p.nth(1);
    let cur = p.current();
    if cur == SyntaxKind::IDENT && la == SyntaxKind::COLON {
        Some(labeled_rule(p))
    } else if cur == SyntaxKind::IDENT {
        name_ref(p)
    } else if cur == SyntaxKind::L_PAREN {
        Some(paren_rule(p))
    } else {
        p.err_and_bump("expected rule");
        None
    }
}

/// Parses a rule in parentheses. `(` stands at the cursor; a missing `)`
/// is reported.
pub fn paren_rule(p: &mut Parser<'_>) -> (res: CompletedMarker)
    requires
        old(p).wf(),
        st_current(old(p).input(), old(p)@) == SyntaxKind::L_PAREN,
    ensures
        final(p).wf(),
        final(p).input() == old(p).input(),
        final(p).spec_edition() == old(p).spec_edition(),
        (final(p)@, Some(res@)) == g_paren_rule(old(p).input(), old(p)@),
    decreases old(p).spec_remaining(), 1int,
{
    let ghost inp = p.input();
    let m = p.start();
    p.expect(SyntaxKind::L_PAREN);
    proof {
        lemma_rule(inp, p@);
    }
    rule(p);
    p.expect(SyntaxKind::R_PAREN);
    m.complete(p, SyntaxKind::PAREN_RULE)
}

/// Parses a labeled rule. An identifier and `:` stand at the cursor.
pub fn labeled_rule(p: &mut Parser<'_>) -> (res: CompletedMarker)
    requires
        old(p).wf(),
        st_current(old(p).input(), old(p)@) == SyntaxKind::IDENT,
        st_nth(old(p).input(), old(p)@, 1) == SyntaxKind::COLON,
    ensures
        final(p).wf(),
        final(p).input() == old(p).input(),
        final(p).spec_edition() == old(p).spec_edition(),
        (final(p)@, Some(res@)) == g_labeled_rule(old(p).input(), old(p)@),
    decreases old(p).spec_remaining(), 1int,
{
    let ghost inp = p.input();
    let m = p.start();
    label(p);
    p.bump(SyntaxKind::COLON);
    proof {
        lemma_rule(inp, p@);
    }
    rule(p);
    m.complete(p, SyntaxKind::LABELED_RULE)
}

/// Parses a label. An identifier stands at the cursor.
pub fn label(p: &mut Parser<'_>) -> (res: CompletedMarker)
    requires
        old(p).wf(),
        st_current(old(p).input(), old(p)@) == SyntaxKind::IDENT,
    ensures
        final(p).wf(),
        final(p).input() == old(p).input(),
        final(p).spec_edition() == old(p).spec_edition(),
        (final(p)@, Some(res@)) == g_label(old(p).input(), old(p)@),
{
    let m = p.start();
    p.bump(SyntaxKind::IDENT);
    m.complete(p, SyntaxKind::LABEL)
}

} // verus!
