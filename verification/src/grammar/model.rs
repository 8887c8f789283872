//! The grammar as functions on the state of the parsing engine.
//!
//! Each function here says what the parsing function of the same name does
//! to the cursor and the event log, and what it returns. A function that
//! goes on after a part of the input was parsed does so only where the
//! cursor has not moved back or, where it repeats, has moved on. That makes
//! the functions end; `laws` shows that the cursor always has.

use vstd::prelude::*;
use crate::parser::{
    State,
    NodeView,
    remaining,
    st_current,
    st_nth,
    st_start,
    st_complete,
    st_abandon,
    st_precede,
    st_extend_to,
    st_token,
    st_bump_any,
    st_error,
    st_expect,
    st_err_and_bump,
    st_err_recover,
};
use crate::syntax_kind::SyntaxKind;

verus! {

/// The binding power of what is no operator.
pub const BP_NONE: u8 = 0;

/// The smallest binding power of an operator.
pub const BP_SMALLEST: u8 = 1;

/// The binding power of `|`.
pub const BP_ALT: u8 = 1;

/// The binding power of a sequence of rules.
pub const BP_SEQ: u8 = 2;

/// The binding power of `?`.
pub const BP_OPT: u8 = 3;

/// The binding power of `*`.
pub const BP_REP: u8 = 3;

/// To which side an operator binds where it meets itself.
#[derive(Clone, Copy, Debug, PartialEq, Eq, Structural)]
pub enum Associativity {
    Left,
    Right,
}

pub open spec fn msg_expected_name() -> Seq<char> {
    "expected a name"@
}

pub open spec fn msg_expected_identifier() -> Seq<char> {
    "expected identifier"@
}

pub open spec fn msg_expected_item() -> Seq<char> {
    "expected an item"@
}

pub open spec fn msg_expected_rule() -> Seq<char> {
    "expected rule"@
}

/// Whether a token literal starts with a token of kind `kind`.
pub open spec fn is_token_first(kind: SyntaxKind) -> bool {
    kind == SyntaxKind::STRING
}

/// Whether a rule starts with a token of kind `kind`.
pub open spec fn is_rule_first(kind: SyntaxKind) -> bool {
    kind == SyntaxKind::STRING || kind == SyntaxKind::L_PAREN || kind == SyntaxKind::IDENT
}

/// The kinds of tokens at which parsing goes on after a rule was missed.
pub open spec fn rule_recovery() -> Set<SyntaxKind> {
    Set::new(|kind: SyntaxKind| kind == SyntaxKind::R_PAREN || kind == SyntaxKind::EQ)
}

/// Whether the next node starts at the cursor: an identifier stands there
/// with `=` behind it.
pub open spec fn end_of_node(inp: Seq<SyntaxKind>, s: State) -> bool {
    st_current(inp, s) == SyntaxKind::IDENT && st_nth(inp, s, 1) == SyntaxKind::EQ
}

/// Whether another rule of a sequence starts at the cursor.
pub open spec fn at_rule(inp: Seq<SyntaxKind>, s: State) -> bool {
    is_rule_first(st_current(inp, s)) && !end_of_node(inp, s)
}

/// The cursor of `b` is not behind that of `a`, and not behind the input.
pub open spec fn not_behind(inp: Seq<SyntaxKind>, a: State, b: State) -> bool {
    a.pos <= b.pos <= inp.len()
}

/// The cursor of `b` is ahead of that of `a`, and not behind the input.
pub open spec fn advanced(inp: Seq<SyntaxKind>, a: State, b: State) -> bool {
    a.pos < b.pos <= inp.len()
}

/// The operator that a token of kind `kind` is: its binding power, its
/// kind and its associativity. What is no operator has the power `BP_NONE`.
pub open spec fn operator_of(kind: SyntaxKind) -> (u8, SyntaxKind, Associativity) {
    match kind {
        SyntaxKind::PIPE => (BP_ALT, SyntaxKind::PIPE, Associativity::Left),
        SyntaxKind::STAR => (BP_REP, SyntaxKind::STAR, Associativity::Left),
        SyntaxKind::QUESTION => (BP_OPT, SyntaxKind::QUESTION, Associativity::Left),
        _ => (BP_NONE, SyntaxKind::EOF, Associativity::Left),
    }
}

/// The kind of the rule that the operator `op` makes.
pub open spec fn rule_kind_of(op: SyntaxKind) -> SyntaxKind {
    match op {
        SyntaxKind::PIPE => SyntaxKind::ALT_RULE,
        SyntaxKind::STAR => SyntaxKind::REP_RULE,
        _ => SyntaxKind::OPT_RULE,
    }
}

/// The binding power that the right side of an operator must have.
pub open spec fn right_power(power: u8, associativity: Associativity) -> int {
    match associativity {
        Associativity::Left => power + 1,
        Associativity::Right => power as int,
    }
}

/// A state together with the node that was completed, if one was.
pub type Parsed = (State, Option<NodeView>);

/// Completing the marker at `m` with `kind`, and the node that this gives.
pub open spec fn node_of(s: State, m: int, kind: SyntaxKind) -> Parsed {
    let done = st_complete(s, m, kind);
    (done, Some(NodeView { start_pos: m, end_pos: done.log.len() as int, kind }))
}

/// A name with a recovery set: an identifier in a `NAME` node.
pub open spec fn g_name_r(inp: Seq<SyntaxKind>, s: State, recovery: Set<SyntaxKind>) -> Parsed {
    if st_current(inp, s) == SyntaxKind::IDENT {
        node_of(st_token(st_start(s), SyntaxKind::IDENT), s.log.len() as int, SyntaxKind::NAME)
    } else {
        (st_err_recover(inp, s, msg_expected_name(), recovery), None)
    }
}

/// A name.
pub open spec fn g_name(inp: Seq<SyntaxKind>, s: State) -> Parsed {
    g_name_r(inp, s, Set::empty())
}

/// A reference to a name: an identifier in a `NAME_REF` node.
pub open spec fn g_name_ref(inp: Seq<SyntaxKind>, s: State) -> Parsed {
    if st_current(inp, s) == SyntaxKind::IDENT {
        node_of(st_token(st_start(s), SyntaxKind::IDENT), s.log.len() as int, SyntaxKind::NAME_REF)
    } else {
        (st_err_and_bump(inp, s, msg_expected_identifier()), None)
    }
}

/// A token literal: a string in a `TOKEN` node. Nothing where no string
/// stands at the cursor.
pub open spec fn g_token(inp: Seq<SyntaxKind>, s: State) -> Parsed {
    if is_token_first(st_current(inp, s)) {
        node_of(st_bump_any(inp, st_start(s)), s.log.len() as int, SyntaxKind::TOKEN)
    } else {
        (s, None)
    }
}

/// A label: an identifier in a `LABEL` node.
pub open spec fn g_label(inp: Seq<SyntaxKind>, s: State) -> Parsed {
    node_of(st_token(st_start(s), SyntaxKind::IDENT), s.log.len() as int, SyntaxKind::LABEL)
}

/// A labeled rule: a label, `:` and a rule in a `LABELED_RULE` node. It is
/// parsed only where an identifier and `:` stand at the cursor.
pub open spec fn g_labeled_rule(inp: Seq<SyntaxKind>, s: State) -> Parsed
    decreases remaining(inp, s), 1int,
{
    if st_current(inp, s) == SyntaxKind::IDENT && st_nth(inp, s, 1) == SyntaxKind::COLON {
        let labeled = g_label(inp, st_start(s)).0;
        let colon = st_token(labeled, SyntaxKind::COLON);
        node_of(g_rule(inp, colon).0, s.log.len() as int, SyntaxKind::LABELED_RULE)
    } else {
        (s, None)
    }
}

/// A rule in parentheses, in a `PAREN_RULE` node. It is parsed only where
/// `(` stands at the cursor; a missing `)` is reported.
pub open spec fn g_paren_rule(inp: Seq<SyntaxKind>, s: State) -> Parsed
    decreases remaining(inp, s), 1int,
{
    if st_current(inp, s) == SyntaxKind::L_PAREN {
        let open = st_expect(inp, st_start(s), SyntaxKind::L_PAREN);
        let inner = g_rule(inp, open).0;
        node_of(
            st_expect(inp, inner, SyntaxKind::R_PAREN),
            s.log.len() as int,
            SyntaxKind::PAREN_RULE,
        )
    } else {
        (s, None)
    }
}

/// An atom: a token literal, a labeled rule, a reference to a name or a
/// rule in parentheses. Anything else goes into an `ERROR` node.
pub open spec fn g_atom_rule(inp: Seq<SyntaxKind>, s: State) -> Parsed
    decreases remaining(inp, s), 2int,
{
    let literal = g_token(inp, s);
    if literal.1 is Some {
        literal
    } else if st_current(inp, s) == SyntaxKind::IDENT && st_nth(inp, s, 1) == SyntaxKind::COLON {
        g_labeled_rule(inp, s)
    } else if st_current(inp, s) == SyntaxKind::IDENT {
        g_name_ref(inp, s)
    } else if st_current(inp, s) == SyntaxKind::L_PAREN {
        g_paren_rule(inp, s)
    } else {
        (st_err_and_bump(inp, s, msg_expected_rule()), None)
    }
}

/// The left-hand side of a rule: an atom.
pub open spec fn g_lhs(inp: Seq<SyntaxKind>, s: State) -> Parsed
    decreases remaining(inp, s), 3int,
{
    g_atom_rule(inp, s)
}

/// A rule.
pub open spec fn g_rule(inp: Seq<SyntaxKind>, s: State) -> Parsed
    decreases remaining(inp, s), 5int,
{
    g_rule_bp(inp, s, None, BP_SMALLEST)
}

/// A rule whose operators have the binding power `bp` at least. The rule
/// starts at the marker `m`, or at a new marker where `m` is `None`.
///
/// Where no rule starts at the cursor, an error is reported and the marker
/// is abandoned. Else an atom is parsed, extended back to the marker, and
/// taken as the left-hand side of what follows.
pub open spec fn g_rule_bp(inp: Seq<SyntaxKind>, s: State, m: Option<int>, bp: u8) -> Parsed
    decreases remaining(inp, s), 4int,
{
    let begun = if m is Some {
        s
    } else {
        st_start(s)
    };
    let at = match m {
        Some(at) => at,
        None => s.log.len() as int,
    };
    if !is_rule_first(st_current(inp, begun)) {
        (st_abandon(st_err_recover(inp, begun, msg_expected_rule(), rule_recovery()), at), None)
    } else if end_of_node(inp, begun) {
        (st_abandon(st_error(begun, msg_expected_rule()), at), None)
    } else {
        let atom = g_lhs(inp, begun);
        match atom.1 {
            None => (st_abandon(atom.0, at), None),
            Some(lhs) => {
                let extended = st_extend_to(atom.0, lhs.start_pos, at);
                if advanced(inp, s, extended) {
                    g_rule_loop(inp, extended, lhs, bp)
                } else {
                    (extended, Some(lhs))
                }
            },
        }
    }
}

/// What follows the left-hand side `lhs` of a rule, again and again.
///
/// Rules that follow, one or more, make a `SEQ_RULE` node with `lhs`. Else an
/// operator of binding power `bp` at least makes a node with `lhs`: `?` and
/// `*` by themselves, `|` with the rule on its right, which takes operators
/// that bind more tightly. The node is the left-hand side of what follows
/// it. Where neither stands at the cursor, the rule ends with `lhs`.
pub open spec fn g_rule_loop(inp: Seq<SyntaxKind>, s: State, lhs: NodeView, bp: u8) -> Parsed
    decreases remaining(inp, s), 7int,
{
    let run = if at_rule(inp, s) {
        g_seq_run(inp, s, 0)
    } else {
        (s, 0int)
    };
    let s1 = run.0;
    if !not_behind(inp, s, s1) {
        (s1, Some(lhs))
    } else if run.1 > 0 {
        let done = node_of(
            st_precede(s1, lhs.start_pos),
            s1.log.len() as int,
            SyntaxKind::SEQ_RULE,
        );
        if advanced(inp, s, done.0) {
            g_rule_loop(inp, done.0, done.1->0, bp)
        } else {
            done
        }
    } else {
        let (power, op, associativity) = operator_of(st_current(inp, s1));
        if power < bp || power == BP_NONE {
            (s1, Some(lhs))
        } else if op == SyntaxKind::QUESTION || op == SyntaxKind::STAR {
            let done = node_of(
                st_token(st_precede(s1, lhs.start_pos), op),
                s1.log.len() as int,
                rule_kind_of(op),
            );
            g_rule_loop(inp, done.0, done.1->0, bp)
        } else {
            let bumped = st_token(st_precede(s1, lhs.start_pos), op);
            let right = g_rule_bp(inp, bumped, None, right_power(power, associativity) as u8);
            let done = node_of(right.0, s1.log.len() as int, rule_kind_of(op));
            if not_behind(inp, bumped, right.0) {
                g_rule_loop(inp, done.0, done.1->0, bp)
            } else {
                done
            }
        }
    }
}

/// The rules of a sequence that follow its first: rule after rule is
/// parsed while one starts at the cursor, until one fails. The result is the
/// state and `count` plus the number of rules that were parsed.
pub open spec fn g_seq_run(inp: Seq<SyntaxKind>, s: State, count: int) -> (State, int)
    decreases remaining(inp, s), 6int,
{
    if at_rule(inp, s) {
        let next = g_rule_bp(inp, s, None, BP_SEQ);
        if next.1 is None {
            (next.0, count)
        } else if advanced(inp, s, next.0) {
            g_seq_run(inp, next.0, count + 1)
        } else {
            (next.0, count + 1)
        }
    } else {
        (s, count)
    }
}

/// A node: a name, `=` and a rule, in the `NODE` node that starts at the
/// marker at `m`.
pub open spec fn g_node(inp: Seq<SyntaxKind>, s: State, m: int) -> State {
    let named = g_name(inp, s).0;
    let equals = st_expect(inp, named, SyntaxKind::EQ);
    st_complete(g_rule(inp, equals).0, m, SyntaxKind::NODE)
}

/// Whether an item starts at the cursor: an identifier or `=` stands there.
pub open spec fn at_item(inp: Seq<SyntaxKind>, s: State) -> bool {
    st_current(inp, s) == SyntaxKind::IDENT || st_current(inp, s) == SyntaxKind::EQ
}

/// An item, if one starts at the cursor; else nothing happens.
pub open spec fn g_opt_item(inp: Seq<SyntaxKind>, s: State, m: int) -> State {
    if at_item(inp, s) {
        g_node(inp, s, m)
    } else {
        s
    }
}

/// An item. Where none starts at the cursor, an error is reported, and the
/// token at the cursor, if there is one, goes into an `ERROR` node.
pub open spec fn g_item(inp: Seq<SyntaxKind>, s: State) -> State {
    let begun = st_start(s);
    if at_item(inp, begun) {
        g_opt_item(inp, begun, s.log.len() as int)
    } else {
        let dropped = st_abandon(begun, s.log.len() as int);
        if st_current(inp, dropped) == SyntaxKind::EOF {
            st_error(dropped, msg_expected_item())
        } else {
            st_err_and_bump(inp, dropped, msg_expected_item())
        }
    }
}

/// Items up to the end of the input.
pub open spec fn g_grammar_contents(inp: Seq<SyntaxKind>, s: State) -> State
    decreases remaining(inp, s),
{
    if st_current(inp, s) == SyntaxKind::EOF {
        s
    } else {
        let next = g_item(inp, s);
        if advanced(inp, s, next) {
            g_grammar_contents(inp, next)
        } else {
            next
        }
    }
}

/// A grammar: its items in a `GRAMMAR` node.
pub open spec fn g_grammar(inp: Seq<SyntaxKind>, s: State) -> State {
    st_complete(g_grammar_contents(inp, st_start(s)), s.log.len() as int, SyntaxKind::GRAMMAR)
}

} // verus!
