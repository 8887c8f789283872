//! What holds of every parse, whatever the tokens are.
//!
//! Every construct of the grammar leaves the log that it finds as it is,
//! but for forward parents, appends whole nodes, and never moves the cursor
//! back. A construct that gives a node has consumed a token. So the parse
//! ends, and its log is that of one tree.

use vstd::prelude::*;
use crate::event::{event_delta, opens_node, single_tree, lemma_balanced_same};
use crate::grammar::frame::{
    extends,
    node_in,
    same_node,
    lemma_extends_refl,
    lemma_extends_step,
    lemma_extends_trans,
    lemma_extends_err,
    lemma_extends_node,
    lemma_extends_complete,
    lemma_extends_abandon,
    lemma_extends_reparent,
};
use crate::grammar::model::{
    Parsed,
    BP_SEQ,
    BP_SMALLEST,
    is_token_first,
    is_rule_first,
    rule_recovery,
    end_of_node,
    at_rule,
    at_item,
    advanced,
    operator_of,
    rule_kind_of,
    right_power,
    msg_expected_rule,
    msg_expected_name,
    msg_expected_identifier,
    msg_expected_item,
    g_name_r,
    g_name,
    g_name_ref,
    g_token,
    g_label,
    g_labeled_rule,
    g_paren_rule,
    g_atom_rule,
    g_lhs,
    g_rule,
    g_rule_bp,
    g_rule_loop,
    g_seq_run,
    g_node,
    g_item,
    g_grammar_contents,
    g_grammar,
};
use crate::parser::{
    State,
    NodeView,
    initial,
    remaining,
    st_current,
    st_nth,
    st_start,
    st_token,
    st_bump_any,
    st_expect,
    st_error,
    st_abandon,
    st_precede,
    st_extend_to,
    st_err_recover,
};
use crate::syntax_kind::SyntaxKind;

verus! {

/// The cursor of the state is inside the input or at its end.
pub open spec fn inside(inp: Seq<SyntaxKind>, s: State) -> bool {
    0 <= s.pos <= inp.len()
}

/// What holds of a construct that was parsed from `s` on and gave `r`: whole
/// nodes were appended to the log, at least one event, the cursor is inside
/// the input, and a node that was completed lies behind the events of `s`
/// and holds a token.
pub open spec fn well_parsed(inp: Seq<SyntaxKind>, s: State, r: Parsed) -> bool {
    &&& extends(s, r.0)
    &&& inside(inp, r.0)
    &&& r.0.log.len() > s.log.len()
    &&& (r.1 matches Some(cm) ==> node_in(s, r.0, cm))
}

/// A node made of one token.
proof fn lemma_token_node(inp: Seq<SyntaxKind>, s: State, bumped: State, kind: SyntaxKind)
    requires
        inside(inp, s),
        s.pos < inp.len(),
        bumped == st_token(st_start(s), inp[s.pos]),
        kind != SyntaxKind::TOMBSTONE,
    ensures
        well_parsed(inp, s, crate::grammar::model::node_of(bumped, s.log.len() as int, kind)),
{
    lemma_extends_step(inp, st_start(s), inp[s.pos], Seq::empty());
    lemma_extends_node(s, bumped, kind);
}

pub proof fn lemma_name_r(inp: Seq<SyntaxKind>, s: State, recovery: Set<SyntaxKind>)
    requires
        inside(inp, s),
    ensures
        well_parsed(inp, s, g_name_r(inp, s, recovery)),
{
    if st_current(inp, s) == SyntaxKind::IDENT {
        lemma_token_node(inp, s, st_token(st_start(s), SyntaxKind::IDENT), SyntaxKind::NAME);
    } else {
        lemma_extends_err(inp, s, msg_expected_name(), recovery);
    }
}

pub proof fn lemma_name_ref(inp: Seq<SyntaxKind>, s: State)
    requires
        inside(inp, s),
    ensures
        well_parsed(inp, s, g_name_ref(inp, s)),
{
    if st_current(inp, s) == SyntaxKind::IDENT {
        lemma_token_node(inp, s, st_token(st_start(s), SyntaxKind::IDENT), SyntaxKind::NAME_REF);
    } else {
        lemma_extends_err(inp, s, msg_expected_identifier(), Set::empty());
    }
}

pub proof fn lemma_token(inp: Seq<SyntaxKind>, s: State)
    requires
        inside(inp, s),
    ensures
        g_token(inp, s).1 is Some <==> is_token_first(st_current(inp, s)),
        g_token(inp, s).1 is Some ==> well_parsed(inp, s, g_token(inp, s)),
        g_token(inp, s).1 is None ==> g_token(inp, s).0 == s,
{
    if is_token_first(st_current(inp, s)) {
        lemma_token_node(inp, s, st_bump_any(inp, st_start(s)), SyntaxKind::TOKEN);
    }
}

pub proof fn lemma_label(inp: Seq<SyntaxKind>, s: State)
    requires
        inside(inp, s),
        st_current(inp, s) == SyntaxKind::IDENT,
    ensures
        well_parsed(inp, s, g_label(inp, s)),
        g_label(inp, s).1 is Some,
        g_label(inp, s).0.pos == s.pos + 1,
{
    lemma_token_node(inp, s, st_token(st_start(s), SyntaxKind::IDENT), SyntaxKind::LABEL);
}

pub proof fn lemma_labeled_rule(inp: Seq<SyntaxKind>, s: State)
    requires
        inside(inp, s),
        st_current(inp, s) == SyntaxKind::IDENT,
        st_nth(inp, s, 1) == SyntaxKind::COLON,
    ensures
        well_parsed(inp, s, g_labeled_rule(inp, s)),
        g_labeled_rule(inp, s).1 is Some,
    decreases remaining(inp, s), 1int,
{
    let opened = st_start(s);
    let labeled = g_label(inp, opened).0;
    let colon = st_token(labeled, SyntaxKind::COLON);
    let inner = g_rule(inp, colon).0;
    lemma_extends_step(inp, s, SyntaxKind::COLON, Seq::empty());
    lemma_label(inp, opened);
    lemma_extends_step(inp, labeled, SyntaxKind::COLON, Seq::empty());
    lemma_rule(inp, colon);
    lemma_extends_trans(opened, labeled, colon);
    lemma_extends_trans(opened, colon, inner);
    lemma_extends_node(s, inner, SyntaxKind::LABELED_RULE);
}

pub proof fn lemma_paren_rule(inp: Seq<SyntaxKind>, s: State)
    requires
        inside(inp, s),
        st_current(inp, s) == SyntaxKind::L_PAREN,
    ensures
        well_parsed(inp, s, g_paren_rule(inp, s)),
        g_paren_rule(inp, s).1 is Some,
    decreases remaining(inp, s), 1int,
{
    let opened = st_start(s);
    let open = st_expect(inp, opened, SyntaxKind::L_PAREN);
    let inner = g_rule(inp, open).0;
    let closed = st_expect(inp, inner, SyntaxKind::R_PAREN);
    lemma_extends_step(inp, opened, SyntaxKind::L_PAREN, Seq::empty());
    lemma_rule(inp, open);
    lemma_extends_step(inp, inner, SyntaxKind::R_PAREN, Seq::empty());
    lemma_extends_trans(opened, open, inner);
    lemma_extends_trans(opened, inner, closed);
    lemma_extends_node(s, closed, SyntaxKind::PAREN_RULE);
}

pub proof fn lemma_atom_rule(inp: Seq<SyntaxKind>, s: State)
    requires
        inside(inp, s),
    ensures
        well_parsed(inp, s, g_atom_rule(inp, s)),
        is_rule_first(st_current(inp, s)) ==> g_atom_rule(inp, s).1 is Some,
    decreases remaining(inp, s), 2int,
{
    lemma_token(inp, s);
    if g_token(inp, s).1 is Some {
    } else if st_current(inp, s) == SyntaxKind::IDENT && st_nth(inp, s, 1) == SyntaxKind::COLON {
        lemma_labeled_rule(inp, s);
    } else if st_current(inp, s) == SyntaxKind::IDENT {
        lemma_name_ref(inp, s);
    } else if st_current(inp, s) == SyntaxKind::L_PAREN {
        lemma_paren_rule(inp, s);
    } else {
        lemma_extends_err(inp, s, msg_expected_rule(), Set::empty());
    }
}

pub proof fn lemma_lhs(inp: Seq<SyntaxKind>, s: State)
    requires
        inside(inp, s),
    ensures
        well_parsed(inp, s, g_lhs(inp, s)),
        is_rule_first(st_current(inp, s)) ==> g_lhs(inp, s).1 is Some,
    decreases remaining(inp, s), 3int,
{
    lemma_atom_rule(inp, s);
}

pub proof fn lemma_rule(inp: Seq<SyntaxKind>, s: State)
    requires
        inside(inp, s),
    ensures
        well_parsed(inp, s, g_rule(inp, s)),
    decreases remaining(inp, s), 5int,
{
    lemma_rule_bp(inp, s, None, BP_SMALLEST);
}

/// A rule is well parsed, and it goes on behind its atom: the cursor has
/// moved on by then.
pub proof fn lemma_rule_bp(inp: Seq<SyntaxKind>, s: State, m: Option<int>, bp: u8)
    requires
        inside(inp, s),
        m matches Some(at) ==> 0 <= at < s.log.len(),
    ensures
        well_parsed(inp, s, g_rule_bp(inp, s, m, bp)),
        at_rule(inp, s) ==> g_rule_bp(inp, s, m, bp).1 is Some,
    decreases remaining(inp, s), 4int,
{
    let begun = if m is Some {
        s
    } else {
        st_start(s)
    };
    let at = match m {
        Some(at) => at,
        None => s.log.len() as int,
    };
    lemma_extends_step(inp, s, SyntaxKind::ERROR, msg_expected_rule());
    lemma_extends_step(inp, begun, SyntaxKind::ERROR, msg_expected_rule());
    lemma_extends_err(inp, begun, msg_expected_rule(), rule_recovery());
    lemma_extends_refl(s);
    if !is_rule_first(st_current(inp, begun)) {
        let last = st_err_recover(inp, begun, msg_expected_rule(), rule_recovery());
        if m is None {
            lemma_extends_abandon(s, begun, last);
        } else {
            lemma_extends_trans(s, begun, last);
        }
    } else if end_of_node(inp, begun) {
        let last = st_error(begun, msg_expected_rule());
        if m is None {
            lemma_extends_abandon(s, begun, last);
        } else {
            lemma_extends_trans(s, begun, last);
        }
    } else {
        lemma_lhs(inp, begun);
        let atom = g_lhs(inp, begun);
        let lhs = atom.1->0;
        let extended = st_extend_to(atom.0, lhs.start_pos, at);
        lemma_extends_reparent(atom.0, lhs.start_pos, at);
        lemma_extends_trans(begun, atom.0, extended);
        lemma_extends_trans(s, begun, extended);
        assert(same_node(atom.0.log[lhs.start_pos], extended.log[lhs.start_pos]));
        lemma_rule_loop(inp, extended, lhs, bp);
        lemma_extends_trans(s, extended, g_rule_loop(inp, extended, lhs, bp).0);
    }
}

/// What follows the left-hand side of a rule is well parsed, and each round
/// starts with the cursor further on than the round before.
pub proof fn lemma_rule_loop(inp: Seq<SyntaxKind>, s: State, lhs: NodeView, bp: u8)
    requires
        inside(inp, s),
        0 <= lhs.start_pos < s.log.len(),
        opens_node(s.log[lhs.start_pos]),
    ensures
        extends(s, g_rule_loop(inp, s, lhs, bp).0),
        inside(inp, g_rule_loop(inp, s, lhs, bp).0),
        g_rule_loop(inp, s, lhs, bp).1 matches Some(cm) && lhs.start_pos <= cm.start_pos
            < g_rule_loop(inp, s, lhs, bp).0.log.len() && opens_node(
            g_rule_loop(inp, s, lhs, bp).0.log[cm.start_pos],
        ),
    decreases remaining(inp, s), 7int,
{
    let c = lhs.start_pos;
    lemma_extends_refl(s);
    if at_rule(inp, s) {
        lemma_seq_run(inp, s, 0);
    }
    let run = if at_rule(inp, s) {
        g_seq_run(inp, s, 0)
    } else {
        (s, 0int)
    };
    let s1 = run.0;
    let m = s1.log.len() as int;
    let opened = st_precede(s1, c);
    assert(same_node(s.log[c], s1.log[c]));
    lemma_extends_reparent(s1, c, c);
    lemma_extends_trans(s, s1, opened);
    lemma_extends_refl(opened);
    if run.1 > 0 {
        lemma_extends_complete(s, opened, opened, SyntaxKind::SEQ_RULE);
        let done = crate::grammar::model::node_of(opened, m, SyntaxKind::SEQ_RULE);
        lemma_rule_loop(inp, done.0, done.1->0, bp);
        lemma_extends_trans(s, done.0, g_rule_loop(inp, done.0, done.1->0, bp).0);
    } else {
        let (power, op, associativity) = operator_of(st_current(inp, s1));
        if power < bp || power == crate::grammar::model::BP_NONE {
        } else {
            let bumped = st_token(opened, op);
            lemma_extends_step(inp, opened, op, Seq::empty());
            if op == SyntaxKind::QUESTION || op == SyntaxKind::STAR {
                lemma_extends_complete(s, opened, bumped, rule_kind_of(op));
                let done = crate::grammar::model::node_of(bumped, m, rule_kind_of(op));
                lemma_rule_loop(inp, done.0, done.1->0, bp);
                lemma_extends_trans(s, done.0, g_rule_loop(inp, done.0, done.1->0, bp).0);
            } else {
                let right = g_rule_bp(inp, bumped, None, right_power(power, associativity) as u8);
                lemma_rule_bp(inp, bumped, None, right_power(power, associativity) as u8);
                lemma_extends_trans(opened, bumped, right.0);
                lemma_extends_complete(s, opened, right.0, rule_kind_of(op));
                let done = crate::grammar::model::node_of(right.0, m, rule_kind_of(op));
                lemma_rule_loop(inp, done.0, done.1->0, bp);
                lemma_extends_trans(s, done.0, g_rule_loop(inp, done.0, done.1->0, bp).0);
            }
        }
    }
}

/// The rules of a sequence are well parsed, and each rule that was parsed
/// has moved the cursor on.
pub proof fn lemma_seq_run(inp: Seq<SyntaxKind>, s: State, count: int)
    requires
        inside(inp, s),
    ensures
        extends(s, g_seq_run(inp, s, count).0),
        inside(inp, g_seq_run(inp, s, count).0),
        g_seq_run(inp, s, count).1 >= count,
        g_seq_run(inp, s, count).1 > count ==> s.pos < g_seq_run(inp, s, count).0.pos,
        at_rule(inp, s) ==> g_seq_run(inp, s, count).1 > count,
    decreases remaining(inp, s), 6int,
{
    lemma_extends_refl(s);
    if at_rule(inp, s) {
        let next = g_rule_bp(inp, s, None, BP_SEQ);
        lemma_rule_bp(inp, s, None, BP_SEQ);
        if next.1 is Some {
            lemma_seq_run(inp, next.0, count + 1);
            lemma_extends_trans(s, next.0, g_seq_run(inp, next.0, count + 1).0);
        }
    }
}

/// A node is well parsed and holds a token.
pub proof fn lemma_node(inp: Seq<SyntaxKind>, s: State)
    requires
        inside(inp, s),
        at_item(inp, st_start(s)),
    ensures
        extends(s, g_node(inp, st_start(s), s.log.len() as int)),
        advanced(inp, s, g_node(inp, st_start(s), s.log.len() as int)),
{
    let opened = st_start(s);
    let named = g_name(inp, opened).0;
    let equals = st_expect(inp, named, SyntaxKind::EQ);
    let last = g_rule(inp, equals).0;
    lemma_extends_step(inp, s, SyntaxKind::EQ, Seq::empty());
    lemma_extends_err(inp, opened, msg_expected_name(), Set::empty());
    lemma_name_r(inp, opened, Set::empty());
    lemma_extends_step(inp, named, SyntaxKind::EQ, Seq::empty());
    lemma_rule(inp, equals);
    lemma_extends_trans(opened, named, equals);
    lemma_extends_trans(opened, equals, last);
    lemma_extends_complete(s, opened, last, SyntaxKind::NODE);
}

/// An item is well parsed, and moves the cursor on unless the input is at
/// its end.
pub proof fn lemma_item(inp: Seq<SyntaxKind>, s: State)
    requires
        inside(inp, s),
    ensures
        extends(s, g_item(inp, s)),
        inside(inp, g_item(inp, s)),
        st_current(inp, s) != SyntaxKind::EOF ==> advanced(inp, s, g_item(inp, s)),
{
    let opened = st_start(s);
    if at_item(inp, opened) {
        lemma_node(inp, s);
    } else {
        assert(st_abandon(opened, s.log.len() as int).log =~= s.log);
        lemma_extends_err(inp, s, msg_expected_item(), Set::empty());
        lemma_extends_step(inp, s, SyntaxKind::ERROR, msg_expected_item());
    }
}

/// The items of a grammar are well parsed, up to the end of the input.
pub proof fn lemma_grammar_contents(inp: Seq<SyntaxKind>, s: State)
    requires
        inside(inp, s),
    ensures
        extends(s, g_grammar_contents(inp, s)),
        inside(inp, g_grammar_contents(inp, s)),
        st_current(inp, g_grammar_contents(inp, s)) == SyntaxKind::EOF,
    decreases remaining(inp, s),
{
    lemma_extends_refl(s);
    if st_current(inp, s) != SyntaxKind::EOF {
        lemma_item(inp, s);
        lemma_grammar_contents(inp, g_item(inp, s));
        lemma_extends_trans(s, g_item(inp, s), g_grammar_contents(inp, g_item(inp, s)));
    }
}

/// A grammar is parsed up to the end of the input: the cursor ends where the
/// input ends, or at a token of the kind `EOF` if the input holds one.
pub proof fn lemma_grammar_reads_to_the_end(inp: Seq<SyntaxKind>)
    ensures
        st_current(inp, g_grammar(inp, initial())) == SyntaxKind::EOF,
        inside(inp, g_grammar(inp, initial())),
        (forall|i: int| 0 <= i < inp.len() ==> inp[i] != SyntaxKind::EOF) ==> g_grammar(
            inp,
            initial(),
        ).pos == inp.len(),
{
    lemma_grammar_contents(inp, st_start(initial()));
}

/// Where the grammar goes on, the functions that describe it go on: none
/// of them ends because the cursor stood still or moved back.
pub proof fn lemma_parse_never_stalls(
    inp: Seq<SyntaxKind>,
    s: State,
    lhs: NodeView,
    bp: u8,
    count: int,
)
    requires
        inside(inp, s),
    ensures
        st_current(inp, s) != SyntaxKind::EOF ==> g_grammar_contents(inp, s) == g_grammar_contents(
            inp,
            g_item(inp, s),
        ),
        at_rule(inp, s) ==> g_seq_run(inp, s, count) == g_seq_run(
            inp,
            g_rule_bp(inp, s, None, BP_SEQ).0,
            count + 1,
        ),
        at_rule(inp, s) ==> g_rule_bp(inp, s, None, bp) == g_rule_loop(
            inp,
            st_extend_to(
                g_lhs(inp, st_start(s)).0,
                g_lhs(inp, st_start(s)).1->0.start_pos,
                s.log.len() as int,
            ),
            g_lhs(inp, st_start(s)).1->0,
            bp,
        ),
        at_rule(inp, s) ==> g_rule_loop(inp, s, lhs, bp) == g_rule_loop(
            inp,
            crate::grammar::model::node_of(
                st_precede(g_seq_run(inp, s, 0).0, lhs.start_pos),
                g_seq_run(inp, s, 0).0.log.len() as int,
                SyntaxKind::SEQ_RULE,
            ).0,
            crate::grammar::model::node_of(
                st_precede(g_seq_run(inp, s, 0).0, lhs.start_pos),
                g_seq_run(inp, s, 0).0.log.len() as int,
                SyntaxKind::SEQ_RULE,
            ).1->0,
            bp,
        ),
{
    lemma_item(inp, s);
    lemma_rule_bp(inp, s, None, BP_SEQ);
    lemma_lhs(inp, st_start(s));
    lemma_seq_run(inp, s, 0);
}

/// The log of a grammar is that of one tree, whatever the tokens are.
pub proof fn lemma_grammar_is_tree(inp: Seq<SyntaxKind>)
    ensures
        single_tree(g_grammar(inp, initial()).log),
{
    let base = initial();
    let last = g_grammar_contents(inp, st_start(base));
    lemma_grammar_contents(inp, st_start(base));
    lemma_extends_node(base, last, SyntaxKind::GRAMMAR);
    let log = g_grammar(inp, base).log;
    assert forall|i: int| 1 <= i < last.log.len() implies event_delta(last.log[i]) == event_delta(
        log[i],
    ) by {}
    lemma_balanced_same(last.log, log, 1, last.log.len() as int);
}

} // verus!
