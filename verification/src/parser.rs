//! The parsing engine: a cursor over the input and the event log.
//!
//! The grammar reads the tokens ahead of the cursor and tells the engine what
//! it found: a marker is opened where a node may start, and is completed with
//! the node's kind or abandoned; a token is consumed; an error is reported.
//! The engine writes each of these to the log. What an operation does to the
//! cursor and the log is given by a function on `State`, the two as values.

use vstd::prelude::*;
use vstd::string::*;
use crate::edition::Edition;
use crate::event::{Event, EventView, log_of, tombstone, start_parts};
use crate::input::{Input, kind_at};
use crate::syntax_kind::SyntaxKind;
use crate::token_set::TokenSet;

verus! {

/// The cursor and the event log, as values.
pub ghost struct State {
    /// The number of tokens that were consumed.
    pub pos: int,
    /// The events so far.
    pub log: Seq<EventView>,
}

/// The state before anything was parsed.
pub open spec fn initial() -> State {
    State { pos: 0, log: Seq::empty() }
}

/// The kind of the token `n` tokens ahead, `EOF` behind the last token.
pub open spec fn st_nth(inp: Seq<SyntaxKind>, s: State, n: int) -> SyntaxKind {
    kind_at(inp, s.pos + n)
}

/// The kind of the token at the cursor.
pub open spec fn st_current(inp: Seq<SyntaxKind>, s: State) -> SyntaxKind {
    st_nth(inp, s, 0)
}

/// The number of tokens that are left.
pub open spec fn remaining(inp: Seq<SyntaxKind>, s: State) -> int {
    inp.len() - s.pos
}

/// The event `e` with the kind `kind`, where it is a `Start` event.
pub open spec fn with_kind(e: EventView, kind: SyntaxKind) -> EventView {
    match e {
        EventView::Start { forward_parent, .. } => EventView::Start { kind, forward_parent },
        _ => e,
    }
}

/// The event `e` with the forward parent at distance `d`, where it is a
/// `Start` event.
pub open spec fn with_parent(e: EventView, d: int) -> EventView {
    match e {
        EventView::Start { kind, .. } => EventView::Start {
            kind,
            forward_parent: Some(d as usize),
        },
        _ => e,
    }
}

/// Opening a marker: a tombstone is appended.
pub open spec fn st_start(s: State) -> State {
    State { pos: s.pos, log: s.log.push(tombstone()) }
}

/// Completing the marker at `m` with `kind`: its event gets the kind, and a
/// `Finish` event is appended.
pub open spec fn st_complete(s: State, m: int, kind: SyntaxKind) -> State {
    State { pos: s.pos, log: s.log.update(m, with_kind(s.log[m], kind)).push(EventView::Finish) }
}

/// Abandoning the marker at `m`: where its event is the last of the log, the
/// event is removed; elsewhere it stays, a tombstone.
pub open spec fn st_abandon(s: State, m: int) -> State {
    if m == s.log.len() - 1 {
        State { pos: s.pos, log: s.log.drop_last() }
    } else {
        s
    }
}

/// Opening a marker that will enclose the completed node at `c`: a tombstone
/// is appended, and the event at `c` names it as its forward parent.
pub open spec fn st_precede(s: State, c: int) -> State {
    State {
        pos: s.pos,
        log: s.log.update(c, with_parent(s.log[c], s.log.len() - c)).push(tombstone()),
    }
}

/// Extending the completed node at `c` back to the marker at `m`: the event
/// at `m` names the event at `c` as its forward parent.
pub open spec fn st_extend_to(s: State, c: int, m: int) -> State {
    State { pos: s.pos, log: s.log.update(m, with_parent(s.log[m], c - m)) }
}

/// Consuming one token as a token of kind `kind`.
pub open spec fn st_token(s: State, kind: SyntaxKind) -> State {
    State { pos: s.pos + 1, log: s.log.push(EventView::Token { kind, n_raw_tokens: 1 }) }
}

/// Consuming the token at the cursor, unless the input is at its end.
pub open spec fn st_bump_any(inp: Seq<SyntaxKind>, s: State) -> State {
    if st_current(inp, s) == SyntaxKind::EOF {
        s
    } else {
        st_token(s, st_current(inp, s))
    }
}

/// Whether there is a token at the cursor, and it has the kind `kind`.
pub open spec fn st_can_eat(inp: Seq<SyntaxKind>, s: State, kind: SyntaxKind) -> bool {
    0 <= s.pos < inp.len() && inp[s.pos] == kind
}

/// Consuming the token at the cursor if it has the kind `kind`.
pub open spec fn st_eat(inp: Seq<SyntaxKind>, s: State, kind: SyntaxKind) -> State {
    if st_can_eat(inp, s, kind) {
        st_token(s, kind)
    } else {
        s
    }
}

/// Reporting an error with the message `msg`.
pub open spec fn st_error(s: State, msg: Seq<char>) -> State {
    State { pos: s.pos, log: s.log.push(EventView::Error { msg }) }
}

/// The message for a token of kind `kind` that is missing.
pub open spec fn expected_msg(kind: SyntaxKind) -> Seq<char> {
    "expected "@ + kind_name(kind)
}

/// Consuming the token at the cursor if it has the kind `kind`, and
/// reporting that it is missing if it has not.
pub open spec fn st_expect(inp: Seq<SyntaxKind>, s: State, kind: SyntaxKind) -> State {
    if st_can_eat(inp, s, kind) {
        st_token(s, kind)
    } else {
        st_error(s, expected_msg(kind))
    }
}

/// Reporting an error and consuming the token at the cursor, both inside a
/// node of kind `ERROR`.
pub open spec fn st_err_and_bump(inp: Seq<SyntaxKind>, s: State, msg: Seq<char>) -> State {
    st_complete(
        st_bump_any(inp, st_error(st_start(s), msg)),
        s.log.len() as int,
        SyntaxKind::ERROR,
    )
}

/// Whether parsing can go on at a token of kind `kind` after an error that
/// has the recovery set `recovery`: at the end of the input, and at a token
/// of the recovery set.
pub open spec fn is_sync(kind: SyntaxKind, recovery: Set<SyntaxKind>) -> bool {
    kind == SyntaxKind::EOF || recovery.contains(kind)
}

/// Reporting an error: where parsing can go on at the cursor, nothing is
/// consumed; elsewhere the token at the cursor goes into an `ERROR` node.
pub open spec fn st_err_recover(
    inp: Seq<SyntaxKind>,
    s: State,
    msg: Seq<char>,
    recovery: Set<SyntaxKind>,
) -> State {
    if is_sync(st_current(inp, s), recovery) {
        st_error(s, msg)
    } else {
        st_err_and_bump(inp, s, msg)
    }
}

/// The name of a kind, as `Debug` prints it.
pub open spec fn kind_name(kind: SyntaxKind) -> Seq<char> {
    match kind {
        SyntaxKind::TOMBSTONE => "TOMBSTONE"@,
        SyntaxKind::EOF => "EOF"@,
        SyntaxKind::EQ => "EQ"@,
        SyntaxKind::STAR => "STAR"@,
        SyntaxKind::PIPE => "PIPE"@,
        SyntaxKind::QUESTION => "QUESTION"@,
        SyntaxKind::COLON => "COLON"@,
        SyntaxKind::L_PAREN => "L_PAREN"@,
        SyntaxKind::R_PAREN => "R_PAREN"@,
        SyntaxKind::ERROR => "ERROR"@,
        SyntaxKind::IDENT => "IDENT"@,
        SyntaxKind::STRING => "STRING"@,
        SyntaxKind::WHITESPACE => "WHITESPACE"@,
        SyntaxKind::COMMENT => "COMMENT"@,
        SyntaxKind::__FIRST => "__FIRST"@,
        SyntaxKind::GRAMMAR => "GRAMMAR"@,
        SyntaxKind::NODE => "NODE"@,
        SyntaxKind::LABEL => "LABEL"@,
        SyntaxKind::PAREN_RULE => "PAREN_RULE"@,
        SyntaxKind::NAME => "NAME"@,
        SyntaxKind::NAME_REF => "NAME_REF"@,
        SyntaxKind::TOKEN => "TOKEN"@,
        SyntaxKind::SEQ_RULE => "SEQ_RULE"@,
        SyntaxKind::LABELED_RULE => "LABELED_RULE"@,
        SyntaxKind::ALT_RULE => "ALT_RULE"@,
        SyntaxKind::OPT_RULE => "OPT_RULE"@,
        SyntaxKind::REP_RULE => "REP_RULE"@,
        SyntaxKind::__LAST => "__LAST"@,
    }
}

impl SyntaxKind {
    /// The name of the kind, as `Debug` prints it.
    pub fn name(self) -> (res: &'static str)
        ensures
            res@ == kind_name(self),
    {
        match self {
            SyntaxKind::TOMBSTONE => "TOMBSTONE",
            SyntaxKind::EOF => "EOF",
            SyntaxKind::EQ => "EQ",
            SyntaxKind::STAR => "STAR",
            SyntaxKind::PIPE => "PIPE",
            SyntaxKind::QUESTION => "QUESTION",
            SyntaxKind::COLON => "COLON",
            SyntaxKind::L_PAREN => "L_PAREN",
            SyntaxKind::R_PAREN => "R_PAREN",
            SyntaxKind::ERROR => "ERROR",
            SyntaxKind::IDENT => "IDENT",
            SyntaxKind::STRING => "STRING",
            SyntaxKind::WHITESPACE => "WHITESPACE",
            SyntaxKind::COMMENT => "COMMENT",
            SyntaxKind::__FIRST => "__FIRST",
            SyntaxKind::GRAMMAR => "GRAMMAR",
            SyntaxKind::NODE => "NODE",
            SyntaxKind::LABEL => "LABEL",
            SyntaxKind::PAREN_RULE => "PAREN_RULE",
            SyntaxKind::NAME => "NAME",
            SyntaxKind::NAME_REF => "NAME_REF",
            SyntaxKind::TOKEN => "TOKEN",
            SyntaxKind::SEQ_RULE => "SEQ_RULE",
            SyntaxKind::LABELED_RULE => "LABELED_RULE",
            SyntaxKind::ALT_RULE => "ALT_RULE",
            SyntaxKind::OPT_RULE => "OPT_RULE",
            SyntaxKind::REP_RULE => "REP_RULE",
            SyntaxKind::__LAST => "__LAST",
        }
    }
}

/// The parsing engine.
pub struct Parser<'t> {
    inp: &'t Input,
    pos: usize,
    events: Vec<Event>,
    edition: Edition,
}

/// A marker: the place in the log where a node may start.
///
/// A marker is used once: it is completed, abandoned, or taken to extend a
/// completed node.
pub struct Marker {
    pub pos: usize,
}

/// A completed node: where it starts and ends in the log, and its kind.
#[derive(Debug, PartialEq, Eq, Structural)]
pub struct CompletedMarker {
    pub start_pos: usize,
    pub end_pos: usize,
    pub kind: SyntaxKind,
}

/// A completed node with its places in the log as numbers.
pub ghost struct NodeView {
    pub start_pos: int,
    pub end_pos: int,
    pub kind: SyntaxKind,
}

impl View for CompletedMarker {
    type V = NodeView;

    open spec fn view(&self) -> NodeView {
        NodeView { start_pos: self.start_pos as int, end_pos: self.end_pos as int, kind: self.kind }
    }
}

/// The view of the completed node, if there is one.
pub open spec fn node_view(done: Option<CompletedMarker>) -> Option<NodeView> {
    match done {
        Some(cm) => Some(cm@),
        None => None,
    }
}

/// The place of the marker in the log, if there is one.
pub open spec fn marker_at(m: Option<Marker>) -> Option<int> {
    match m {
        Some(marker) => Some(marker.pos as int),
        None => None,
    }
}

impl<'t> View for Parser<'t> {
    type V = State;

    closed spec fn view(&self) -> State {
        State { pos: self.pos as int, log: log_of(self.events@) }
    }
}

impl<'t> Parser<'t> {
    /// The kinds of the tokens that are parsed.
    pub closed spec fn input(&self) -> Seq<SyntaxKind> {
        self.inp@
    }

    /// The edition that the engine was made with.
    pub closed spec fn spec_edition(&self) -> Edition {
        self.edition
    }

    /// The cursor is inside the input or at its end.
    pub open spec fn wf(&self) -> bool {
        0 <= self@.pos <= self.input().len() <= usize::MAX
    }

    /// The number of tokens that are left.
    pub open spec fn spec_remaining(&self) -> int {
        remaining(self.input(), self@)
    }

    /// An engine at the start of `inp`, with an empty log.
    pub fn new(inp: &'t Input, edition: Edition) -> (p: Parser<'t>)
        ensures
            p.wf(),
            p@ == initial(),
            p.input() == inp@,
            p.spec_edition() == edition,
    {
        let p = Parser { inp, pos: 0, events: Vec::new(), edition };
        let _ = inp.len();
        proof {
            assert(p@.log =~= Seq::<EventView>::empty());
        }
        p
    }

    /// The edition that is parsed: the one that the engine was made with.
    #[verifier::when_used_as_spec(spec_edition)]
    pub fn edition(&self) -> (res: Edition)
        ensures
            res == self.spec_edition(),
    {
        self.edition
    }

    /// Ends the parse and hands out the log.
    pub fn finish(self) -> (events: Vec<Event>)
        ensures
            log_of(events@) == self@.log,
    {
        self.events
    }

    /// The kind of the token at the cursor, `EOF` at the end of the input.
    pub fn current(&self) -> (kind: SyntaxKind)
        requires
            self.wf(),
        ensures
            kind == st_current(self.input(), self@),
    {
        self.nth(0)
    }

    /// The kind of the token `n` tokens ahead, `EOF` behind the last token.
    pub fn nth(&self, n: usize) -> (kind: SyntaxKind)
        requires
            self.wf(),
        ensures
            kind == st_nth(self.input(), self@, n as int),
    {
        if n < self.inp.len() - self.pos {
            self.inp.kind(self.pos + n)
        } else {
            SyntaxKind::EOF
        }
    }

    /// Whether the token at the cursor has the kind `kind`.
    pub fn at(&self, kind: SyntaxKind) -> (b: bool)
        requires
            self.wf(),
        ensures
            b == (st_current(self.input(), self@) == kind),
    {
        self.nth_at(0, kind)
    }

    /// Whether the token `n` tokens ahead has the kind `kind`.
    pub fn nth_at(&self, n: usize, kind: SyntaxKind) -> (b: bool)
        requires
            self.wf(),
        ensures
            b == (st_nth(self.input(), self@, n as int) == kind),
    {
        self.nth(n) == kind
    }

    /// Whether the kind of the token at the cursor is in `kinds`.
    pub fn at_ts(&self, kinds: TokenSet) -> (b: bool)
        requires
            self.wf(),
        ensures
            b == kinds.has(st_current(self.input(), self@)),
    {
        let kind = self.current();
        proof {
            if kinds.has(kind) {
                kinds.lemma_members_are_tokens(kind);
            }
        }
        kind.is_token() && kinds.contains(kind)
    }

    /// Consumes the token at the cursor if it has the kind `kind`, and says
    /// whether it did.
    pub fn eat(&mut self, kind: SyntaxKind) -> (b: bool)
        requires
            old(self).wf(),
        ensures
            final(self).wf(),
            final(self).input() == old(self).input(),
            final(self).spec_edition() == old(self).spec_edition(),
            b == st_can_eat(old(self).input(), old(self)@, kind),
            final(self)@ == st_eat(old(self).input(), old(self)@, kind),
    {
        if self.pos < self.inp.len() && self.inp.kind(self.pos) == kind {
            self.do_bump(kind, 1);
            true
        } else {
            false
        }
    }

    /// Consumes the token at the cursor, which has the kind `kind`.
    pub fn bump(&mut self, kind: SyntaxKind)
        requires
            old(self).wf(),
            st_can_eat(old(self).input(), old(self)@, kind),
        ensures
            final(self).wf(),
            final(self).input() == old(self).input(),
            final(self).spec_edition() == old(self).spec_edition(),
            final(self)@ == st_token(old(self)@, kind),
    {
        self.do_bump(kind, 1);
    }

    /// Consumes the token at the cursor, whatever its kind, unless the input
    /// is at its end.
    pub fn bump_any(&mut self)
        requires
            old(self).wf(),
        ensures
            final(self).wf(),
            final(self).input() == old(self).input(),
            final(self).spec_edition() == old(self).spec_edition(),
            final(self)@ == st_bump_any(old(self).input(), old(self)@),
    {
        let kind = self.nth(0);
        if kind == SyntaxKind::EOF {
            return ;
        }
        self.do_bump(kind, 1);
    }

    /// Reports an error with the message `message`. Nothing is consumed.
    pub fn error(&mut self, message: &str)
        requires
            old(self).wf(),
        ensures
            final(self).wf(),
            final(self).input() == old(self).input(),
            final(self).spec_edition() == old(self).spec_edition(),
            final(self)@ == st_error(old(self)@, message@),
    {
        let msg = message.to_owned();
        self.push_event(Event::Error { msg });
    }

    /// Consumes the token at the cursor if it has the kind `kind`; reports
    /// that it is missing, and consumes nothing, if it has not.
    pub fn expect(&mut self, kind: SyntaxKind) -> (b: bool)
        requires
            old(self).wf(),
        ensures
            final(self).wf(),
            final(self).input() == old(self).input(),
            final(self).spec_edition() == old(self).spec_edition(),
            b == st_can_eat(old(self).input(), old(self)@, kind),
            final(self)@ == st_expect(old(self).input(), old(self)@, kind),
    {
        if self.eat(kind) {
            return true;
        }
        let mut msg = String::from_str("expected ");
        msg.append(kind.name());
        self.error(msg.as_str());
        false
    }

    /// Reports an error and consumes the token at the cursor, if there is
    /// one; the error and the token form a node of kind `ERROR`.
    pub fn err_and_bump(&mut self, message: &str)
        requires
            old(self).wf(),
        ensures
            final(self).wf(),
            final(self).input() == old(self).input(),
            final(self).spec_edition() == old(self).spec_edition(),
            final(self)@ == st_err_and_bump(old(self).input(), old(self)@, message@),
            st_current(old(self).input(), old(self)@) != SyntaxKind::EOF ==> final(self)@.pos
                == old(self)@.pos + 1,
            st_current(old(self).input(), old(self)@) == SyntaxKind::EOF ==> final(self)@.pos
                == old(self)@.pos,
    {
        let m = self.start();
        self.error(message);
        self.bump_any();
        m.complete(self, SyntaxKind::ERROR);
    }

    /// Reports an error. At the end of the input and at a token of `recovery`
    /// nothing is consumed, so that parsing can go on at this token, and the
    /// result is `true`; elsewhere the token goes into a node of kind `ERROR`
    /// together with the error, and the result is `false`.
    pub fn err_recover(&mut self, message: &str, recovery: TokenSet) -> (b: bool)
        requires
            old(self).wf(),
        ensures
            final(self).wf(),
            final(self).input() == old(self).input(),
            final(self).spec_edition() == old(self).spec_edition(),
            b == is_sync(st_current(old(self).input(), old(self)@), recovery@),
            final(self)@ == st_err_recover(old(self).input(), old(self)@, message@, recovery@),
            b ==> final(self)@.pos == old(self)@.pos,
            !b ==> final(self)@.pos == old(self)@.pos + 1,
    {
        if self.at(SyntaxKind::EOF) || self.at_ts(recovery) {
            self.error(message);
            return true;
        }
        self.err_and_bump(message);
        false
    }

    /// Opens a marker at the end of the log.
    pub fn start(&mut self) -> (m: Marker)
        requires
            old(self).wf(),
        ensures
            final(self).wf(),
            final(self).input() == old(self).input(),
            final(self).spec_edition() == old(self).spec_edition(),
            final(self)@ == st_start(old(self)@),
            m.pos == old(self)@.log.len(),
    {
        let pos = self.events.len();
        self.push_event(Event::tombstone());
        Marker { pos }
    }

    fn do_bump(&mut self, kind: SyntaxKind, n_raw_tokens: u8)
        requires
            old(self).wf(),
            old(self)@.pos < old(self).input().len(),
            n_raw_tokens == 1,
        ensures
            final(self).wf(),
            final(self).input() == old(self).input(),
            final(self).spec_edition() == old(self).spec_edition(),
            final(self)@ == st_token(old(self)@, kind),
    {
        self.pos = self.pos + 1;
        self.push_event(Event::Token { kind, n_raw_tokens });
    }

    fn push_event(&mut self, event: Event)
        ensures
            final(self).input() == old(self).input(),
            final(self).spec_edition() == old(self).spec_edition(),
            final(self)@.pos == old(self)@.pos,
            final(self)@.log == old(self)@.log.push(event@),
    {
        self.events.push(event);
        proof {
            assert(self@.log =~= old(self)@.log.push(event@));
        }
    }

    fn set_event(&mut self, idx: usize, event: Event)
        requires
            idx < old(self)@.log.len(),
        ensures
            final(self).input() == old(self).input(),
            final(self).spec_edition() == old(self).spec_edition(),
            final(self)@.pos == old(self)@.pos,
            final(self)@.log == old(self)@.log.update(idx as int, event@),
    {
        self.events.set(idx, event);
        proof {
            assert(self@.log =~= old(self)@.log.update(idx as int, event@));
        }
    }

    /// The kind and the forward parent of the `Start` event at `idx`.
    fn start_at(&self, idx: usize) -> (res: (SyntaxKind, Option<usize>))
        requires
            idx < self@.log.len(),
            self@.log[idx as int] is Start,
        ensures
            self@.log[idx as int] == (EventView::Start { kind: res.0, forward_parent: res.1 }),
    {
        match start_parts(&self.events[idx]) {
            Some(parts) => parts,
            None => (SyntaxKind::TOMBSTONE, None),
        }
    }
}

impl Marker {
    /// Where the marker stands in the log.
    pub open spec fn spec_pos(&self) -> int {
        self.pos as int
    }

    /// Completes the node that starts at the marker: it gets the kind `kind`
    /// and ends here.
    pub fn complete(self, p: &mut Parser<'_>, kind: SyntaxKind) -> (res: CompletedMarker)
        requires
            old(p).wf(),
            self.pos < old(p)@.log.len(),
            old(p)@.log[self.pos as int] is Start,
        ensures
            final(p).wf(),
            final(p).input() == old(p).input(),
            final(p).spec_edition() == old(p).spec_edition(),
            final(p)@ == st_complete(old(p)@, self.pos as int, kind),
            res@ == (NodeView {
                start_pos: self.pos as int,
                end_pos: final(p)@.log.len() as int,
                kind,
            }),
    {
        let idx = self.pos;
        let (_, forward_parent) = p.start_at(idx);
        p.set_event(idx, Event::Start { kind, forward_parent });
        p.push_event(Event::Finish);
        let end_pos = p.events.len();
        CompletedMarker { start_pos: self.pos, end_pos, kind }
    }

    /// Gives the marker up. Where its event is the last of the log, the
    /// event is removed; elsewhere it stays in the log and stands for
    /// nothing.
    pub fn abandon(self, p: &mut Parser<'_>)
        requires
            old(p).wf(),
            self.pos == old(p)@.log.len() - 1 ==> old(p)@.log[self.pos as int] == tombstone(),
        ensures
            final(p).wf(),
            final(p).input() == old(p).input(),
            final(p).spec_edition() == old(p).spec_edition(),
            final(p)@ == st_abandon(old(p)@, self.pos as int),
    {
        let idx = self.pos;
        if p.events.len() > 0 && idx == p.events.len() - 1 {
            p.events.pop();
            proof {
                assert(p@.log =~= old(p)@.log.drop_last());
            }
        }
    }
}

impl CompletedMarker {
    /// Opens a marker for a node that will enclose this node, though it is
    /// opened after this node was completed.
    pub fn precede(self, p: &mut Parser<'_>) -> (m: Marker)
        requires
            old(p).wf(),
            self.start_pos < old(p)@.log.len(),
            old(p)@.log[self.start_pos as int] is Start,
        ensures
            final(p).wf(),
            final(p).input() == old(p).input(),
            final(p).spec_edition() == old(p).spec_edition(),
            final(p)@ == st_precede(old(p)@, self.start_pos as int),
            m.pos == old(p)@.log.len(),
    {
        let idx = self.start_pos;
        let (kind, _) = p.start_at(idx);
        let distance = p.events.len() - idx;
        p.set_event(idx, Event::Start { kind, forward_parent: Some(distance) });
        let new_pos = p.start();
        proof {
            assert(p@.log =~= st_precede(old(p)@, idx as int).log);
        }
        new_pos
    }

    /// Extends this node back to the marker `m`, which was opened before the
    /// node: what was logged between the two becomes part of the node.
    pub fn extend_to(self, p: &mut Parser<'_>, m: Marker) -> (res: CompletedMarker)
        requires
            old(p).wf(),
            m.pos <= self.start_pos,
            m.pos < old(p)@.log.len(),
            old(p)@.log[m.pos as int] is Start,
        ensures
            final(p).wf(),
            final(p).input() == old(p).input(),
            final(p).spec_edition() == old(p).spec_edition(),
            final(p)@ == st_extend_to(old(p)@, self.start_pos as int, m.pos as int),
            res == self,
    {
        let idx = m.pos;
        let (kind, _) = p.start_at(idx);
        p.set_event(idx, Event::Start { kind, forward_parent: Some(self.start_pos - m.pos) });
        self
    }

    /// The kind of the node.
    pub fn kind(&self) -> (kind: SyntaxKind)
        ensures
            kind == self.kind,
    {
        self.kind
    }
}

} // verus!
