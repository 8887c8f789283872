//! The event log of the parser, and its replay into the steps of a tree.
//!
//! While it parses, the parser appends events to a log. A node is opened by a
//! `Start` event whose kind is filled in when the node is completed, and
//! closed by a `Finish` event. A `Start` event may name a forward parent, a
//! `Start` event further on in the log whose node is to enclose this one:
//! that is how a node gets a parent that was found only after the node was
//! complete. The replay walks the log once and puts each node's start where
//! its innermost child starts.

use vstd::prelude::*;
use vstd::string::*;
use crate::output::{
    Output,
    StepView,
    step_depth,
    step_delta,
    is_tree,
    lemma_step_depth_concat,
    lemma_step_depth_prefix,
};
use crate::syntax_kind::SyntaxKind;

verus! {

/// An entry of the event log.
#[derive(Debug)]
pub enum Event {
    /// The start of a node. The kind is `TOMBSTONE` until the node is
    /// completed, and stays so if the node is abandoned. `forward_parent` is
    /// the distance to the `Start` event of the node that encloses this one.
    Start { kind: SyntaxKind, forward_parent: Option<usize> },
    /// The end of the node that was started last and has not ended.
    Finish,
    /// A token of kind `kind`, made of `n_raw_tokens` tokens of the input.
    Token { kind: SyntaxKind, n_raw_tokens: u8 },
    /// An error at this place.
    Error { msg: String },
}

/// An event with its message as a sequence of characters.
pub ghost enum EventView {
    Start { kind: SyntaxKind, forward_parent: Option<usize> },
    Finish,
    Token { kind: SyntaxKind, n_raw_tokens: u8 },
    Error { msg: Seq<char> },
}

impl View for Event {
    type V = EventView;

    open spec fn view(&self) -> EventView {
        match self {
            Event::Start { kind, forward_parent } => EventView::Start {
                kind: *kind,
                forward_parent: *forward_parent,
            },
            Event::Finish => EventView::Finish,
            Event::Token { kind, n_raw_tokens } => EventView::Token {
                kind: *kind,
                n_raw_tokens: *n_raw_tokens,
            },
            Event::Error { msg } => EventView::Error { msg: msg@ },
        }
    }
}

impl Event {
    /// The start of a node without kind and without forward parent.
    pub fn tombstone() -> (res: Event)
        ensures
            res@ == tombstone(),
    {
        Event::Start { kind: SyntaxKind::TOMBSTONE, forward_parent: None }
    }
}

/// The start of a node without kind and without forward parent.
pub open spec fn tombstone() -> EventView {
    EventView::Start { kind: SyntaxKind::TOMBSTONE, forward_parent: None }
}

/// The views of the events of a log.
pub open spec fn log_of(events: Seq<Event>) -> Seq<EventView> {
    Seq::new(events.len(), |i: int| events[i]@)
}

/// Whether the event starts a node that has a kind.
pub open spec fn opens_node(e: EventView) -> bool {
    match e {
        EventView::Start { kind, .. } => kind != SyntaxKind::TOMBSTONE,
        _ => false,
    }
}

/// By how much the event changes the number of open nodes.
pub open spec fn event_delta(e: EventView) -> int {
    if opens_node(e) {
        1
    } else if e is Finish {
        -1
    } else {
        0
    }
}

/// The number of nodes that the events from `lo` up to `hi` open, less the
/// number of those that they close.
pub open spec fn depth(log: Seq<EventView>, lo: int, hi: int) -> int
    decreases hi - lo,
{
    if hi <= lo {
        0
    } else {
        depth(log, lo, hi - 1) + event_delta(log[hi - 1])
    }
}

/// The events from `lo` up to `hi` open and close whole nodes: they close no
/// node that they did not open, and leave none open.
pub open spec fn balanced(log: Seq<EventView>, lo: int, hi: int) -> bool {
    &&& forall|k: int| lo <= k <= hi ==> #[trigger] depth(log, lo, k) >= 0
    &&& depth(log, lo, hi) == 0
}

/// The log is that of one tree: its first event starts the root, its last
/// event ends it, and what lies between is balanced.
pub open spec fn single_tree(log: Seq<EventView>) -> bool {
    &&& log.len() >= 2
    &&& opens_node(log[0])
    &&& log[log.len() - 1] is Finish
    &&& balanced(log, 1, log.len() - 1)
}

/// The depth of a range is that of its two parts, added.
pub proof fn lemma_depth_split(log: Seq<EventView>, lo: int, mid: int, hi: int)
    requires
        lo <= mid <= hi,
    ensures
        depth(log, lo, hi) == depth(log, lo, mid) + depth(log, mid, hi),
    decreases hi - mid,
{
    if mid < hi {
        lemma_depth_split(log, lo, mid, hi - 1);
    }
}

/// Two logs that agree from `lo` up to `hi` have the same depth there.
pub proof fn lemma_depth_same(a: Seq<EventView>, b: Seq<EventView>, lo: int, hi: int)
    requires
        0 <= lo,
        hi <= a.len(),
        hi <= b.len(),
        forall|i: int| lo <= i < hi ==> event_delta(a[i]) == event_delta(b[i]),
    ensures
        depth(a, lo, hi) == depth(b, lo, hi),
    decreases hi - lo,
{
    if lo < hi {
        lemma_depth_same(a, b, lo, hi - 1);
    }
}

/// Two logs that agree from `lo` up to `hi` are balanced there together.
pub proof fn lemma_balanced_same(a: Seq<EventView>, b: Seq<EventView>, lo: int, hi: int)
    requires
        0 <= lo,
        hi <= a.len(),
        hi <= b.len(),
        forall|i: int| lo <= i < hi ==> event_delta(a[i]) == event_delta(b[i]),
        balanced(a, lo, hi),
    ensures
        balanced(b, lo, hi),
{
    assert forall|k: int| lo <= k <= hi implies #[trigger] depth(b, lo, k) >= 0 by {
        lemma_depth_same(a, b, lo, k);
        assert(depth(a, lo, k) >= 0);
    }
    lemma_depth_same(a, b, lo, hi);
}

/// Two balanced ranges, one behind the other, make one balanced range.
pub proof fn lemma_balanced_concat(log: Seq<EventView>, lo: int, mid: int, hi: int)
    requires
        lo <= mid <= hi,
        balanced(log, lo, mid),
        balanced(log, mid, hi),
    ensures
        balanced(log, lo, hi),
{
    assert forall|k: int| lo <= k <= hi implies #[trigger] depth(log, lo, k) >= 0 by {
        if k > mid {
            lemma_depth_split(log, lo, mid, k);
            assert(depth(log, mid, k) >= 0);
        }
    }
    lemma_depth_split(log, lo, mid, hi);
}

/// An event that opens a node, a balanced range behind it and an event that
/// closes a node make one balanced range: a whole node.
pub proof fn lemma_balanced_node(log: Seq<EventView>, lo: int, hi: int)
    requires
        lo + 2 <= hi,
        opens_node(log[lo]),
        balanced(log, lo + 1, hi - 1),
        log[hi - 1] is Finish,
    ensures
        balanced(log, lo, hi),
{
    assert forall|k: int| lo <= k <= hi implies #[trigger] depth(log, lo, k) >= 0 by {
        if k > lo {
            lemma_depth_split(log, lo, lo + 1, k);
            assert(depth(log, lo, lo + 1) == depth(log, lo, lo) + event_delta(log[lo]));
            if k < hi {
                assert(depth(log, lo + 1, k) >= 0);
            } else {
                assert(depth(log, lo + 1, hi - 1) >= 0);
            }
        }
    }
    lemma_depth_split(log, lo, lo + 1, hi);
    assert(depth(log, lo, lo + 1) == depth(log, lo, lo) + event_delta(log[lo]));
}

/// The kinds on the chain of forward parents that leaves the event at `idx`
/// by `fp`, in the order of the chain, and the log with the events on the
/// chain replaced by tombstones. The chain ends where an event names no
/// forward parent, or names one that is no `Start` event of the log.
pub open spec fn walk(log: Seq<EventView>, idx: int, fp: Option<usize>) -> (
    Seq<SyntaxKind>,
    Seq<EventView>,
)
    decreases log.len() - idx,
{
    match fp {
        Some(d) if d > 0 && 0 <= idx && idx + d < log.len() && log[idx + d] is Start => {
            let next = walk(
                log.update(idx + d, tombstone()),
                idx + d,
                log[idx + d]->Start_forward_parent,
            );
            (seq![log[idx + d]->Start_kind] + next.0, next.1)
        },
        _ => (Seq::empty(), log),
    }
}

/// The `Enter` steps for the nodes of a chain: the outermost node, which is
/// the last of the chain, comes first. A tombstone gives no step.
pub open spec fn enters(kinds: Seq<SyntaxKind>) -> Seq<StepView>
    decreases kinds.len(),
{
    if kinds.len() == 0 {
        Seq::empty()
    } else if kinds.last() != SyntaxKind::TOMBSTONE {
        seq![StepView::Enter { kind: kinds.last() }] + enters(kinds.drop_last())
    } else {
        enters(kinds.drop_last())
    }
}

/// The steps that the events from `i` up to `hi` give. A `Start` event that
/// has not been taken as a forward parent gives the `Enter` steps of its
/// chain; one that has been taken is a tombstone by then and gives nothing.
pub open spec fn replay_to(log: Seq<EventView>, i: int, hi: int) -> Seq<StepView>
    decreases hi - i,
{
    if !(0 <= i < hi <= log.len()) {
        Seq::empty()
    } else {
        match log[i] {
            EventView::Start { kind, forward_parent } => {
                let chain = walk(log.update(i, tombstone()), i, forward_parent);
                enters(seq![kind] + chain.0) + replay_to(chain.1, i + 1, hi)
            },
            EventView::Finish => seq![StepView::Exit] + replay_to(log, i + 1, hi),
            EventView::Token { kind, n_raw_tokens } => seq![
                StepView::Token { kind, n_input_tokens: n_raw_tokens },
            ] + replay_to(log, i + 1, hi),
            EventView::Error { msg } => seq![StepView::Error { msg }] + replay_to(log, i + 1, hi),
        }
    }
}

/// The steps that the log gives.
pub open spec fn replay(log: Seq<EventView>) -> Seq<StepView> {
    replay_to(log, 0, log.len() as int)
}

/// The number of kinds (tombstones left out) among `kinds`.
pub open spec fn count_kinds(kinds: Seq<SyntaxKind>) -> int
    decreases kinds.len(),
{
    if kinds.len() == 0 {
        0
    } else {
        count_kinds(kinds.drop_last()) + if kinds.last() != SyntaxKind::TOMBSTONE {
            1int
        } else {
            0int
        }
    }
}

/// A chain gives one `Enter` step for each of its kinds, and nothing else.
pub proof fn lemma_enters(kinds: Seq<SyntaxKind>)
    ensures
        enters(kinds).len() == count_kinds(kinds),
        forall|j: int| 0 <= j < enters(kinds).len() ==> #[trigger] enters(kinds)[j] is Enter,
        forall|j: int| 0 <= j <= enters(kinds).len() ==> #[trigger] step_depth(enters(kinds), j) == j,
    decreases kinds.len(),
{
    if kinds.len() > 0 {
        lemma_enters(kinds.drop_last());
        let rest = enters(kinds.drop_last());
        let all = enters(kinds);
        assert forall|j: int| 0 <= j <= all.len() implies #[trigger] step_depth(all, j) == j by {
            lemma_enters_depth(all, j);
        }
    }
}

proof fn lemma_enters_depth(steps: Seq<StepView>, j: int)
    requires
        0 <= j <= steps.len(),
        forall|i: int| 0 <= i < steps.len() ==> #[trigger] steps[i] is Enter,
    ensures
        step_depth(steps, j) == j,
    decreases j,
{
    if j > 0 {
        lemma_enters_depth(steps, j - 1);
        assert(steps[j - 1] is Enter);
    }
}

/// Putting a kind in front of a chain counts it, unless it is a tombstone.
pub proof fn lemma_count_kinds_front(kind: SyntaxKind, kinds: Seq<SyntaxKind>)
    ensures
        count_kinds(seq![kind] + kinds) == count_kinds(kinds) + if kind != SyntaxKind::TOMBSTONE {
            1int
        } else {
            0int
        },
    decreases kinds.len(),
{
    let all = seq![kind] + kinds;
    if kinds.len() == 0 {
        assert(all.drop_last() =~= Seq::<SyntaxKind>::empty());
        assert(count_kinds(all.drop_last()) == 0);
    } else {
        assert(all.drop_last() =~= seq![kind] + kinds.drop_last());
        assert(all.last() == kinds.last());
        lemma_count_kinds_front(kind, kinds.drop_last());
    }
}

/// What walking a chain does to the log: the length stays, events that are
/// no `Start` events stay as they are and `Start` events stay `Start` events,
/// the events up to `idx` stay, and the depth of a range falls by the kinds
/// of the chain that lie in it, so by no more than the kinds of the chain.
pub proof fn lemma_walk(log: Seq<EventView>, idx: int, fp: Option<usize>, lo: int, hi: int)
    requires
        0 <= lo <= hi <= log.len(),
    ensures
        walk(log, idx, fp).1.len() == log.len(),
        forall|t: int|
            0 <= t < log.len() ==> ((#[trigger] walk(log, idx, fp).1[t]) is Start <==> log[t] is Start),
        forall|t: int|
            0 <= t < log.len() && !(log[t] is Start) ==> #[trigger] walk(log, idx, fp).1[t]
                == log[t],
        forall|t: int| 0 <= t <= idx && t < log.len() ==> #[trigger] walk(log, idx, fp).1[t] == log[t],
        depth(log, lo, hi) - count_kinds(walk(log, idx, fp).0) <= depth(
            walk(log, idx, fp).1,
            lo,
            hi,
        ) <= depth(log, lo, hi),
        lo <= idx + 1 && (forall|t: int| hi <= t < log.len() ==> !(#[trigger] log[t] is Start))
            ==> depth(walk(log, idx, fp).1, lo, hi) == depth(log, lo, hi) - count_kinds(
            walk(log, idx, fp).0,
        ),
    decreases log.len() - idx,
{
    match fp {
        Some(d) if d > 0 && 0 <= idx && idx + d < log.len() && log[idx + d] is Start => {
            let t = idx + d;
            let log1 = log.update(t, tombstone());
            let kind = log[t]->Start_kind;
            let next = walk(log1, t, log[t]->Start_forward_parent);
            lemma_walk(log1, t, log[t]->Start_forward_parent, lo, hi);
            lemma_count_kinds_front(kind, next.0);
            lemma_depth_update(log, t, tombstone(), lo, hi);
            assert forall|u: int| hi <= u < log.len() && (forall|t: int|
                hi <= t < log.len() ==> !(#[trigger] log[t] is Start)) implies !(
            #[trigger] log1[u] is Start) by {
                assert(!(log[u] is Start));
            }
            if lo <= idx + 1 && (forall|t: int| hi <= t < log.len() ==> !(#[trigger] log[t] is Start)) {
                assert(t < hi) by {
                    if t >= hi {
                        assert(!(log[t] is Start));
                    }
                }
            }
        },
        _ => {},
    }
}

/// Replacing the event at `j` changes the depth of the ranges that hold `j`
/// by the difference of what the two events open and close.
pub proof fn lemma_depth_update(log: Seq<EventView>, j: int, e: EventView, lo: int, hi: int)
    requires
        0 <= lo <= hi <= log.len(),
        0 <= j < log.len(),
    ensures
        depth(log.update(j, e), lo, hi) == depth(log, lo, hi) + if lo <= j < hi {
            event_delta(e) - event_delta(log[j])
        } else {
            0
        },
    decreases hi - lo,
{
    if lo < hi {
        lemma_depth_update(log, j, e, lo, hi - 1);
    }
}

/// The replay of a range of the log keeps the depth that the events give.
///
/// With `d` nodes open before event `i`, and the events from `i` up to `hi`
/// never closing more nodes than are open, the steps never close more than
/// are open either, and leave open what the events leave open.
pub proof fn lemma_replay_depth(log: Seq<EventView>, i: int, hi: int, d: int)
    requires
        0 <= i <= hi <= log.len(),
        forall|t: int| hi <= t < log.len() ==> !(#[trigger] log[t] is Start),
        forall|k: int| i <= k <= hi ==> d + #[trigger] depth(log, i, k) >= 0,
    ensures
        forall|j: int|
            0 <= j <= replay_to(log, i, hi).len() ==> d + #[trigger] step_depth(
                replay_to(log, i, hi),
                j,
            ) >= 0,
        d + step_depth(replay_to(log, i, hi), replay_to(log, i, hi).len() as int) == d + depth(
            log,
            i,
            hi,
        ),
    decreases hi - i,
{
    let steps = replay_to(log, i, hi);
    if i < hi {
        lemma_depth_split(log, i, i + 1, hi);
        assert(depth(log, i, i + 1) == depth(log, i, i) + event_delta(log[i]));
        match log[i] {
            EventView::Start { kind, forward_parent } => {
                let log1 = log.update(i, tombstone());
                let chain = walk(log1, i, forward_parent);
                let head = enters(seq![kind] + chain.0);
                let rest = replay_to(chain.1, i + 1, hi);
                let e = head.len() as int;
                lemma_enters(seq![kind] + chain.0);
                lemma_count_kinds_front(kind, chain.0);
                lemma_walk(log1, i, forward_parent, i + 1, hi);
                assert forall|t: int| hi <= t < log1.len() implies !(#[trigger] log1[t] is Start) by {
                    assert(!(log[t] is Start));
                }
                lemma_depth_update(log, i, tombstone(), i + 1, hi);
                assert forall|k: int| i + 1 <= k <= hi implies d + e + #[trigger] depth(
                    chain.1,
                    i + 1,
                    k,
                ) >= 0 by {
                    lemma_walk(log1, i, forward_parent, i + 1, k);
                    lemma_depth_update(log, i, tombstone(), i + 1, k);
                    lemma_depth_split(log, i, i + 1, k);
                    assert(d + depth(log, i, k) >= 0);
                }
                lemma_replay_depth(chain.1, i + 1, hi, d + e);
                assert forall|j: int| 0 <= j <= steps.len() implies d + #[trigger] step_depth(
                    steps,
                    j,
                ) >= 0 by {
                    if j <= e {
                        lemma_step_depth_prefix(head, steps, j);
                        assert(step_depth(head, j) == j);
                        assert(d + depth(log, i, i) >= 0);
                    } else {
                        lemma_step_depth_concat(head, rest, j - e);
                        assert(step_depth(head, e) == e);
                        assert(d + e + step_depth(rest, j - e) >= 0);
                    }
                }
                lemma_step_depth_concat(head, rest, rest.len() as int);
                assert(step_depth(head, e) == e);
            },
            _ => {
                let head = steps.subrange(0, 1);
                let rest = replay_to(log, i + 1, hi);
                assert(steps =~= head + rest);
                let delta = event_delta(log[i]);
                assert(step_delta(head[0]) == delta);
                assert(step_depth(head, 1) == step_depth(head, 0) + step_delta(head[0]));
                assert(d + depth(log, i, i + 1) >= 0);
                assert forall|k: int| i + 1 <= k <= hi implies d + delta + #[trigger] depth(
                    log,
                    i + 1,
                    k,
                ) >= 0 by {
                    lemma_depth_split(log, i, i + 1, k);
                    assert(d + depth(log, i, k) >= 0);
                }
                lemma_replay_depth(log, i + 1, hi, d + delta);
                assert forall|j: int| 0 <= j <= steps.len() implies d + #[trigger] step_depth(
                    steps,
                    j,
                ) >= 0 by {
                    if j == 0 {
                        assert(d + depth(log, i, i) >= 0);
                    } else {
                        lemma_step_depth_concat(head, rest, j - 1);
                        assert(d + delta + step_depth(rest, j - 1) >= 0);
                    }
                }
                lemma_step_depth_concat(head, rest, rest.len() as int);
            },
        }
    } else {
        assert(d + depth(log, i, i) >= 0);
    }
}

/// The last event of the log being `Finish`, the replay of the log is the
/// replay of what stands before it, and an `Exit` step.
pub proof fn lemma_replay_last_finish(log: Seq<EventView>, i: int)
    requires
        0 <= i < log.len(),
        log[log.len() - 1] is Finish,
    ensures
        replay_to(log, i, log.len() as int) == replay_to(log, i, log.len() - 1) + seq![
            StepView::Exit,
        ],
    decreases log.len() - i,
{
    let n = log.len() as int;
    if i == n - 1 {
        assert(replay_to(log, i + 1, n) =~= Seq::<StepView>::empty());
        assert(replay_to(log, i, n - 1) =~= Seq::<StepView>::empty());
        assert(replay_to(log, i, n) =~= seq![StepView::Exit]);
        assert(Seq::<StepView>::empty() + seq![StepView::Exit] =~= seq![StepView::Exit]);
    } else {
        match log[i] {
            EventView::Start { kind, forward_parent } => {
                let log1 = log.update(i, tombstone());
                let chain = walk(log1, i, forward_parent);
                lemma_walk(log1, i, forward_parent, 0, 0);
                assert(!(log1[n - 1] is Start));
                assert(chain.1[n - 1] == log1[n - 1]);
                lemma_replay_last_finish(chain.1, i + 1);
                let head = enters(seq![kind] + chain.0);
                assert(head + (replay_to(chain.1, i + 1, n - 1) + seq![StepView::Exit]) =~= (head
                    + replay_to(chain.1, i + 1, n - 1)) + seq![StepView::Exit]);
            },
            _ => {
                lemma_replay_last_finish(log, i + 1);
                let head = replay_to(log, i, n).subrange(0, 1);
                assert(replay_to(log, i, n) =~= head + replay_to(log, i + 1, n));
                assert(replay_to(log, i, n - 1) =~= head + replay_to(log, i + 1, n - 1));
                assert(head + (replay_to(log, i + 1, n - 1) + seq![StepView::Exit]) =~= (head
                    + replay_to(log, i + 1, n - 1)) + seq![StepView::Exit]);
            },
        }
    }
}

/// The replay of the log of one tree spells out one tree.
pub proof fn lemma_replay_tree(log: Seq<EventView>)
    requires
        single_tree(log),
    ensures
        is_tree(replay(log)),
{
    let n = log.len() as int;
    let steps = replay(log);
    let kind = log[0]->Start_kind;
    let fp = log[0]->Start_forward_parent;
    let log1 = log.update(0, tombstone());
    let chain = walk(log1, 0, fp);
    let head = enters(seq![kind] + chain.0);
    let e = head.len() as int;
    let middle = replay_to(chain.1, 1, n - 1);
    let tail = seq![StepView::Exit];
    lemma_enters(seq![kind] + chain.0);
    lemma_count_kinds_front(kind, chain.0);
    lemma_walk(log1, 0, fp, 1, n - 1);
    assert(!(log1[n - 1] is Start));
    assert(chain.1[n - 1] == log1[n - 1]);
    lemma_replay_last_finish(chain.1, 1);
    assert(steps == head + (middle + tail));
    assert forall|t: int| n - 1 <= t < chain.1.len() implies !(#[trigger] chain.1[t] is Start) by {}
    assert forall|t: int| n - 1 <= t < log1.len() implies !(#[trigger] log1[t] is Start) by {}
    lemma_depth_update(log, 0, tombstone(), 1, n - 1);
    assert forall|k: int| 1 <= k <= n - 1 implies e - 1 + #[trigger] depth(chain.1, 1, k) >= 0 by {
        lemma_walk(log1, 0, fp, 1, k);
        lemma_depth_update(log, 0, tombstone(), 1, k);
        assert(depth(log, 1, k) >= 0);
    }
    lemma_replay_depth(chain.1, 1, n - 1, e - 1);
    let all = head + (middle + tail);
    assert(all[0] == head[0]);
    assert forall|k: int| 0 < k < all.len() implies #[trigger] step_depth(all, k) > 0 by {
        if k <= e {
            lemma_step_depth_prefix(head, all, k);
            assert(step_depth(head, k) == k);
        } else {
            lemma_step_depth_concat(head, middle + tail, k - e);
            assert(step_depth(head, e) == e);
            lemma_step_depth_prefix(middle, middle + tail, k - e);
            assert(e - 1 + step_depth(middle, k - e) >= 0);
        }
    }
    lemma_step_depth_concat(head, middle + tail, middle.len() as int + 1);
    assert(step_depth(head, e) == e);
    lemma_step_depth_concat(middle, tail, 1);
    assert(step_depth(tail, 1) == step_depth(tail, 0) + step_delta(tail[0]));
}

/// The kind and the forward parent of a `Start` event.
pub(crate) fn start_parts(e: &Event) -> (res: Option<(SyntaxKind, Option<usize>)>)
    ensures
        match res {
            Some((kind, fp)) => e@ == (EventView::Start { kind, forward_parent: fp }),
            None => !(e@ is Start),
        },
{
    match e {
        Event::Start { kind, forward_parent } => Some((*kind, *forward_parent)),
        _ => None,
    }
}

/// Replays the event log into the steps of the result.
pub fn process(events: Vec<Event>) -> (res: Output)
    ensures
        res@ == replay(log_of(events@)),
{
    let mut events = events;
    let mut res = Output::new();
    let n: usize = events.len();
    let ghost log0 = log_of(events@);
    let mut i: usize = 0;
    while i < n
        invariant
            0 <= i <= n,
            n == events@.len(),
            n == log0.len(),
            res@ + replay_to(log_of(events@), i as int, n as int) == replay(log0),
        decreases n - i,
    {
        let ghost log = log_of(events@);
        let ghost before = res@;
        match start_parts(&events[i]) {
            Some((kind, forward_parent)) => {
                let mut kinds: Vec<SyntaxKind> = Vec::new();
                kinds.push(kind);
                events.set(i, Event::tombstone());
                let ghost log1 = log.update(i as int, tombstone());
                proof {
                    assert(log_of(events@) =~= log1);
                }
                let ghost chain = walk(log1, i as int, forward_parent);
                let mut idx: usize = i;
                let mut fp: Option<usize> = forward_parent;
                loop
                    invariant
                        i <= idx < n,
                        n == events@.len(),
                        kinds@ + walk(log_of(events@), idx as int, fp).0 == seq![kind] + chain.0,
                        walk(log_of(events@), idx as int, fp).1 == chain.1,
                    ensures
                        kinds@ == seq![kind] + chain.0,
                        log_of(events@) == chain.1,
                        n == events@.len(),
                    decreases n - idx,
                {
                    let ghost cur = log_of(events@);
                    let ghost seen = kinds@;
                    let target: Option<usize> = match fp {
                        Some(fwd) => if fwd > 0 && fwd < n - idx {
                            Some(idx + fwd)
                        } else {
                            None
                        },
                        None => None,
                    };
                    let next = match target {
                        Some(t) => match start_parts(&events[t]) {
                            Some((k, f)) => Some((t, k, f)),
                            None => None,
                        },
                        None => None,
                    };
                    match next {
                        Some((t, k, f)) => {
                            events.set(t, Event::tombstone());
                            kinds.push(k);
                            proof {
                                assert(log_of(events@) =~= cur.update(t as int, tombstone()));
                                assert(seen.push(k) + walk(log_of(events@), t as int, f).0 =~= seen
                                    + walk(cur, idx as int, fp).0);
                            }
                            idx = t;
                            fp = f;
                        },
                        None => {
                            proof {
                                assert(walk(cur, idx as int, fp).0 =~= Seq::<SyntaxKind>::empty());
                                assert(seen + Seq::<SyntaxKind>::empty() =~= seen);
                            }
                            break;
                        },
                    }
                }
                let mut j: usize = kinds.len();
                let ghost all = kinds@;
                proof {
                    assert(all.subrange(0, j as int) =~= all);
                }
                while j > 0
                    invariant
                        0 <= j <= all.len(),
                        kinds@ == all,
                        res@ + enters(all.subrange(0, j as int)) == before + enters(all),
                    decreases j,
                {
                    let ghost sofar = res@;
                    let ghost part = all.subrange(0, j as int);
                    j -= 1;
                    proof {
                        assert(part.drop_last() =~= all.subrange(0, j as int));
                        assert(part.last() == all[j as int]);
                    }
                    let k = kinds[j];
                    if k != SyntaxKind::TOMBSTONE {
                        res.enter_node(k);
                        proof {
                            assert(sofar.push(StepView::Enter { kind: k }) + enters(
                                all.subrange(0, j as int),
                            ) =~= sofar + enters(part));
                        }
                    }
                }
                proof {
                    assert(enters(all.subrange(0, 0)) =~= Seq::<StepView>::empty());
                    assert(res@ + Seq::<StepView>::empty() =~= res@);
                    assert((before + enters(all)) + replay_to(chain.1, i as int + 1, n as int)
                        =~= before + replay_to(log, i as int, n as int));
                }
            },
            None => {
                let ghost rest = replay_to(log, i as int + 1, n as int);
                match &events[i] {
                    Event::Finish => {
                        res.leave_node();
                    },
                    Event::Token { kind, n_raw_tokens } => {
                        res.token(*kind, *n_raw_tokens);
                    },
                    Event::Error { msg } => {
                        res.error(msg.clone());
                    },
                    Event::Start { .. } => {},
                }
                proof {
                    assert(res@ + rest =~= before + replay_to(log, i as int, n as int));
                }
            },
        }
        i += 1;
    }
    proof {
        assert(replay_to(log_of(events@), n as int, n as int) =~= Seq::<StepView>::empty());
        assert(res@ + Seq::<StepView>::empty() =~= res@);
    }
    res
}

} // verus!
