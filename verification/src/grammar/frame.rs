//! How a parsing function may change the event log.
//!
//! A parsing function leaves the events that it found in the log as they
//! are, but for their forward parents, and appends events that open and
//! close whole nodes. The lemmas here show this of the operations of the
//! engine, one by one and in the combinations that the grammar uses.

use vstd::prelude::*;
use crate::event::{
    EventView,
    tombstone,
    opens_node,
    event_delta,
    depth,
    balanced,
    lemma_balanced_same,
    lemma_balanced_concat,
    lemma_balanced_node,
};
use crate::parser::{
    State,
    st_current,
    st_start,
    st_complete,
    st_abandon,
    st_precede,
    st_extend_to,
    st_token,
    st_bump_any,
    st_error,
    st_eat,
    st_expect,
    st_err_and_bump,
    st_err_recover,
    with_parent,
};
use crate::syntax_kind::SyntaxKind;

verus! {

/// The two events are the same, or start a node of the same kind.
pub open spec fn same_node(a: EventView, b: EventView) -> bool {
    a == b || (a is Start && b is Start && a->Start_kind == b->Start_kind)
}

/// Whether the event starts a node that has no kind yet.
pub open spec fn is_open(e: EventView) -> bool {
    e is Start && e->Start_kind == SyntaxKind::TOMBSTONE
}

/// From `a` to `b` the cursor has not moved back, the events of `a` are
/// still there, but for their forward parents, and the events behind them
/// open and close whole nodes.
pub open spec fn extends(a: State, b: State) -> bool {
    &&& a.pos <= b.pos
    &&& a.log.len() <= b.log.len()
    &&& forall|i: int| 0 <= i < a.log.len() ==> same_node(a.log[i], #[trigger] b.log[i])
    &&& balanced(b.log, a.log.len() as int, b.log.len() as int)
}

pub proof fn lemma_extends_refl(a: State)
    ensures
        extends(a, a),
{
}

pub proof fn lemma_extends_trans(a: State, b: State, c: State)
    requires
        extends(a, b),
        extends(b, c),
    ensures
        extends(a, c),
{
    let lo = a.log.len() as int;
    let mid = b.log.len() as int;
    let hi = c.log.len() as int;
    assert forall|i: int| lo <= i < mid implies event_delta(b.log[i]) == event_delta(c.log[i]) by {
        assert(same_node(b.log[i], c.log[i]));
    }
    lemma_balanced_same(b.log, c.log, lo, mid);
    lemma_balanced_concat(c.log, lo, mid, hi);
    assert forall|i: int| 0 <= i < a.log.len() implies same_node(a.log[i], #[trigger] c.log[i]) by {
        assert(same_node(a.log[i], b.log[i]));
        assert(same_node(b.log[i], c.log[i]));
    }
}

/// Appending an event that opens and closes nothing.
pub proof fn lemma_extends_push(a: State, e: EventView, by: int)
    requires
        event_delta(e) == 0,
        by >= 0,
    ensures
        extends(a, State { pos: a.pos + by, log: a.log.push(e) }),
{
    let b = State { pos: a.pos + by, log: a.log.push(e) };
    let lo = a.log.len() as int;
    assert(depth(b.log, lo, lo + 1) == depth(b.log, lo, lo) + event_delta(b.log[lo]));
    assert forall|k: int| lo <= k <= lo + 1 implies #[trigger] depth(b.log, lo, k) >= 0 by {
        if k == lo + 1 {
        } else {
            assert(depth(b.log, lo, lo) == 0);
        }
    }
}

/// The operations that append one event which opens and closes nothing.
pub proof fn lemma_extends_step(inp: Seq<SyntaxKind>, a: State, kind: SyntaxKind, msg: Seq<char>)
    ensures
        extends(a, st_start(a)),
        extends(a, st_token(a, kind)),
        extends(a, st_error(a, msg)),
        extends(a, st_bump_any(inp, a)),
        extends(a, st_eat(inp, a, kind)),
        extends(a, st_expect(inp, a, kind)),
{
    lemma_extends_push(a, tombstone(), 0);
    lemma_extends_push(a, EventView::Token { kind, n_raw_tokens: 1 }, 1);
    lemma_extends_push(a, EventView::Token { kind: st_current(inp, a), n_raw_tokens: 1 }, 1);
    lemma_extends_push(a, EventView::Error { msg }, 0);
    lemma_extends_push(a, EventView::Error { msg: crate::parser::expected_msg(kind) }, 0);
}

/// Giving an event a forward parent.
pub proof fn lemma_extends_reparent(a: State, c: int, m: int)
    requires
        0 <= m < a.log.len(),
        0 <= c < a.log.len(),
    ensures
        extends(a, st_extend_to(a, c, m)),
        extends(a, st_precede(a, c)),
        st_precede(a, c).log[a.log.len() as int] == tombstone(),
        same_node(a.log[c], st_precede(a, c).log[c]),
{
    let b = State { pos: a.pos, log: a.log.update(c, with_parent(a.log[c], a.log.len() - c)) };
    assert(extends(a, b));
    lemma_extends_push(b, tombstone(), 0);
    lemma_extends_trans(a, b, st_precede(a, c));
}

/// Completing a marker: from `base` on whole nodes were appended, the last
/// event of `opened` is a marker that is open, and behind it whole nodes
/// were appended up to `last`. With the marker completed there, whole nodes
/// were appended from `base` on.
pub proof fn lemma_extends_complete(base: State, opened: State, last: State, kind: SyntaxKind)
    requires
        extends(base, opened),
        opened.log.len() > base.log.len(),
        is_open(opened.log[opened.log.len() - 1]),
        extends(opened, last),
        kind != SyntaxKind::TOMBSTONE,
    ensures
        extends(base, st_complete(last, opened.log.len() - 1, kind)),
        opens_node(st_complete(last, opened.log.len() - 1, kind).log[opened.log.len() - 1]),
        st_complete(last, opened.log.len() - 1, kind).log.len() == last.log.len() + 1,
        st_complete(last, opened.log.len() - 1, kind).pos == last.pos,
{
    let m = opened.log.len() - 1;
    let lo = base.log.len() as int;
    let done = st_complete(last, m, kind);
    let hi = done.log.len() as int;
    assert(same_node(opened.log[m], last.log[m]));
    // what stands before the marker
    assert(depth(opened.log, lo, m + 1) == depth(opened.log, lo, m) + event_delta(opened.log[m]));
    assert(balanced(opened.log, lo, m)) by {
        assert forall|k: int| lo <= k <= m implies #[trigger] depth(opened.log, lo, k) >= 0 by {}
    }
    assert forall|i: int| lo <= i < m implies event_delta(opened.log[i]) == event_delta(
        done.log[i],
    ) by {
        assert(same_node(opened.log[i], last.log[i]));
    }
    lemma_balanced_same(opened.log, done.log, lo, m);
    // the node
    assert forall|i: int| m + 1 <= i < last.log.len() implies event_delta(last.log[i])
        == event_delta(done.log[i]) by {}
    lemma_balanced_same(last.log, done.log, m + 1, last.log.len() as int);
    lemma_balanced_node(done.log, m, hi);
    lemma_balanced_concat(done.log, lo, m, hi);
    assert forall|i: int| 0 <= i < base.log.len() implies same_node(
        base.log[i],
        #[trigger] done.log[i],
    ) by {
        assert(same_node(base.log[i], opened.log[i]));
        assert(same_node(opened.log[i], last.log[i]));
    }
}

/// Abandoning a marker: as before, but the marker is given up. Its event is
/// removed where nothing follows it, and stays as a tombstone elsewhere.
pub proof fn lemma_extends_abandon(base: State, opened: State, last: State)
    requires
        extends(base, opened),
        opened.log.len() > base.log.len(),
        is_open(opened.log[opened.log.len() - 1]),
        extends(opened, last),
    ensures
        extends(base, st_abandon(last, opened.log.len() - 1)),
        st_abandon(last, opened.log.len() - 1).pos == last.pos,
        last.log.len() > opened.log.len() ==> st_abandon(last, opened.log.len() - 1) == last,
{
    let m = opened.log.len() - 1;
    let lo = base.log.len() as int;
    let done = st_abandon(last, m);
    lemma_extends_trans(base, opened, last);
    if m == last.log.len() - 1 {
        assert(same_node(opened.log[m], last.log[m]));
        assert(depth(last.log, lo, m + 1) == depth(last.log, lo, m) + event_delta(last.log[m]));
        assert(balanced(last.log, lo, m)) by {
            assert forall|k: int| lo <= k <= m implies #[trigger] depth(last.log, lo, k) >= 0 by {}
        }
        assert forall|i: int| lo <= i < m implies event_delta(last.log[i]) == event_delta(
            done.log[i],
        ) by {}
        lemma_balanced_same(last.log, done.log, lo, m);
    }
}

/// Reporting an error, with the token at the cursor in an `ERROR` node or
/// without.
pub proof fn lemma_extends_err(
    inp: Seq<SyntaxKind>,
    a: State,
    msg: Seq<char>,
    recovery: Set<SyntaxKind>,
)
    ensures
        extends(a, st_err_and_bump(inp, a, msg)),
        extends(a, st_err_recover(inp, a, msg, recovery)),
        st_err_and_bump(inp, a, msg).log.len() > a.log.len(),
        st_err_recover(inp, a, msg, recovery).log.len() > a.log.len(),
        st_current(inp, a) != SyntaxKind::EOF ==> st_err_and_bump(inp, a, msg).pos == a.pos + 1,
        st_current(inp, a) == SyntaxKind::EOF ==> st_err_and_bump(inp, a, msg).pos == a.pos,
        st_err_recover(inp, a, msg, recovery).pos == a.pos || (st_err_recover(
            inp,
            a,
            msg,
            recovery,
        ).pos == a.pos + 1 && st_current(inp, a) != SyntaxKind::EOF),
{
    let opened = st_start(a);
    let reported = st_error(opened, msg);
    let bumped = st_bump_any(inp, reported);
    lemma_extends_step(inp, a, SyntaxKind::ERROR, msg);
    lemma_extends_step(inp, opened, SyntaxKind::ERROR, msg);
    lemma_extends_step(inp, reported, SyntaxKind::ERROR, msg);
    lemma_extends_trans(opened, reported, bumped);
    lemma_extends_complete(a, opened, bumped, SyntaxKind::ERROR);
}

/// A node made of one marker and what was appended behind it.
pub proof fn lemma_extends_node(base: State, last: State, kind: SyntaxKind)
    requires
        extends(st_start(base), last),
        kind != SyntaxKind::TOMBSTONE,
    ensures
        extends(base, st_complete(last, base.log.len() as int, kind)),
        opens_node(st_complete(last, base.log.len() as int, kind).log[base.log.len() as int]),
        st_complete(last, base.log.len() as int, kind).log.len() == last.log.len() + 1,
        st_complete(last, base.log.len() as int, kind).pos == last.pos,
{
    lemma_extends_step(Seq::empty(), base, kind, Seq::empty());
    lemma_extends_complete(base, st_start(base), last, kind);
}

/// The node `cm` was completed between `before` and `after`: it starts
/// behind the events of `before`, and the cursor has moved on.
pub open spec fn node_in(before: State, after: State, cm: crate::parser::NodeView) -> bool {
    &&& before.log.len() <= cm.start_pos < after.log.len()
    &&& opens_node(after.log[cm.start_pos])
    &&& before.pos < after.pos
}

} // verus!
