use ungrammar_parser::edition::Edition;
use ungrammar_parser::event::{process, Event};
use ungrammar_parser::input::Input;
use ungrammar_parser::output::{Output, Step};
use ungrammar_parser::parser::Parser;
use ungrammar_parser::syntax_kind::SyntaxKind;
use ungrammar_parser::syntax_kind::SyntaxKind::{
    ALT_RULE, EOF, EQ, ERROR, IDENT, NAME, NODE, PIPE, R_PAREN, SEQ_RULE, STAR, STRING, TOKEN,
    TOMBSTONE,
};
use ungrammar_parser::token_set::TokenSet;

fn input_of(kinds: &[SyntaxKind]) -> Input {
    let mut input = Input::default();
    for kind in kinds {
        input.push(*kind);
    }
    input
}

fn show(output: &Output) -> String {
    let mut res = String::new();
    for i in 0..output.len() {
        match output.get(i) {
            Step::Token { kind, n_input_tokens } => res.push_str(&format!("{kind:?}/{n_input_tokens} ")),
            Step::Enter { kind } => res.push_str(&format!("({kind:?} ")),
            Step::Exit => res.push_str(") "),
            Step::Error { msg } => res.push_str(&format!("!{msg} ")),
        }
    }
    res.trim_end().to_string()
}

fn log(events: &[Event]) -> String {
    let mut res = String::new();
    for event in events {
        match event {
            Event::Start { kind, forward_parent: Some(d) } => res.push_str(&format!("{kind:?}+{d} ")),
            Event::Start { kind, forward_parent: None } => res.push_str(&format!("{kind:?} ")),
            Event::Finish => res.push_str("Finish "),
            Event::Token { kind, .. } => res.push_str(&format!("'{kind:?} ")),
            Event::Error { msg } => res.push_str(&format!("!{msg} ")),
        }
    }
    res.trim_end().to_string()
}

#[test]
fn lookahead_gives_eof_behind_the_end() {
    let input = input_of(&[IDENT, EQ]);
    let p = Parser::new(&input, Edition::V1);
    assert_eq!(p.current(), IDENT);
    assert_eq!(p.nth(0), IDENT);
    assert_eq!(p.nth(1), EQ);
    assert_eq!(p.nth(2), EOF);
    assert_eq!(p.nth(usize::MAX), EOF);
    assert!(p.at(IDENT));
    assert!(!p.at(EQ));
    assert!(p.nth_at(1, EQ));
    assert!(p.nth_at(7, EOF));
    assert!(p.at_ts(TokenSet::new(&[STRING, IDENT])));
    assert!(!p.at_ts(TokenSet::new(&[STRING, EQ])));
    assert!(!p.at_ts(TokenSet::empty()));
    assert_eq!(p.edition(), Edition::V1);
}

#[test]
fn node_kind_at_the_cursor_is_in_no_token_set() {
    let input = input_of(&[NODE]);
    let p = Parser::new(&input, Edition::V1);
    assert!(!p.at_ts(TokenSet::new(&[IDENT, EOF])));
}

#[test]
fn bump_and_eat_consume_one_token() {
    let input = input_of(&[IDENT, EQ, STRING]);
    let mut p = Parser::new(&input, Edition::V1);
    p.bump(IDENT);
    assert!(!p.eat(STRING));
    assert!(p.eat(EQ));
    p.bump_any();
    assert_eq!(p.current(), EOF);
    p.bump_any();
    assert!(!p.eat(EOF));
    assert_eq!(p.edition(), Edition::V1);
    assert_eq!(log(&p.finish()), "'IDENT 'EQ 'STRING");
}

#[test]
fn expect_reports_what_is_missing() {
    let input = input_of(&[IDENT]);
    let mut p = Parser::new(&input, Edition::V1);
    assert!(!p.expect(EQ));
    assert_eq!(p.current(), IDENT);
    assert!(p.expect(IDENT));
    assert!(!p.expect(R_PAREN));
    assert_eq!(log(&p.finish()), "!expected EQ 'IDENT !expected R_PAREN");
}

#[test]
fn complete_fills_in_the_kind() {
    let input = input_of(&[IDENT]);
    let mut p = Parser::new(&input, Edition::V1);
    let m = p.start();
    p.bump(IDENT);
    let done = m.complete(&mut p, NAME);
    assert_eq!(done.start_pos, 0);
    assert_eq!(done.end_pos, 3);
    assert_eq!(done.kind(), NAME);
    let events = p.finish();
    assert_eq!(log(&events), "NAME 'IDENT Finish");
    assert_eq!(show(&process(events)), "(NAME IDENT/1 )");
}

#[test]
fn abandon_removes_the_last_event_only() {
    let input = input_of(&[IDENT]);
    let mut p = Parser::new(&input, Edition::V1);
    let root = p.start();
    let m = p.start();
    m.abandon(&mut p);
    assert_eq!(p.current(), IDENT);
    let m = p.start();
    p.bump(IDENT);
    m.abandon(&mut p);
    root.complete(&mut p, NODE);
    let events = p.finish();
    assert_eq!(log(&events), "NODE TOMBSTONE 'IDENT Finish");
    assert_eq!(show(&process(events)), "(NODE IDENT/1 )");
}

#[test]
fn precede_makes_a_parent_of_what_follows() {
    let input = input_of(&[STRING, PIPE, STRING]);
    let mut p = Parser::new(&input, Edition::V1);
    let m = p.start();
    p.bump(STRING);
    let lhs = m.complete(&mut p, TOKEN);
    let alt = lhs.precede(&mut p);
    p.bump(PIPE);
    let m = p.start();
    p.bump(STRING);
    m.complete(&mut p, TOKEN);
    let alt = alt.complete(&mut p, ALT_RULE);
    let seq = alt.precede(&mut p);
    seq.complete(&mut p, SEQ_RULE);
    let events = p.finish();
    assert_eq!(
        log(&events),
        "TOKEN+3 'STRING Finish ALT_RULE+6 'PIPE TOKEN 'STRING Finish Finish SEQ_RULE Finish"
    );
    assert_eq!(
        show(&process(events)),
        "(SEQ_RULE (ALT_RULE (TOKEN STRING/1 ) PIPE/1 (TOKEN STRING/1 ) ) )"
    );
}

#[test]
fn extend_to_takes_in_what_stands_before_the_node() {
    let input = input_of(&[EQ, IDENT]);
    let mut p = Parser::new(&input, Edition::V1);
    let root = p.start();
    let early = p.start();
    p.error("early");
    p.bump(EQ);
    let m = p.start();
    p.bump(IDENT);
    let done = m.complete(&mut p, NAME);
    let done = done.extend_to(&mut p, early);
    assert_eq!(done.start_pos, 4);
    root.complete(&mut p, NODE);
    let events = p.finish();
    assert_eq!(log(&events), "NODE TOMBSTONE+3 !early 'EQ NAME 'IDENT Finish Finish");
    assert_eq!(show(&process(events)), "(NODE (NAME !early EQ/1 IDENT/1 ) )");
}

#[test]
fn err_and_bump_wraps_the_token() {
    let input = input_of(&[STAR]);
    let mut p = Parser::new(&input, Edition::V1);
    p.err_and_bump("bad");
    assert_eq!(p.current(), EOF);
    p.err_and_bump("end");
    let events = p.finish();
    assert_eq!(log(&events), "ERROR !bad 'STAR Finish ERROR !end Finish");
}

#[test]
fn err_recover_stops_at_the_recovery_set_and_at_the_end() {
    let input = input_of(&[R_PAREN, STAR]);
    let mut p = Parser::new(&input, Edition::V1);
    let recovery = TokenSet::new(&[R_PAREN, EQ]);
    assert!(p.err_recover("first", recovery));
    assert_eq!(p.current(), R_PAREN);
    assert!(!p.err_recover("second", TokenSet::empty()));
    assert_eq!(p.current(), STAR);
    assert!(!p.err_recover("third", recovery));
    assert_eq!(p.current(), EOF);
    assert!(p.err_recover("fourth", TokenSet::empty()));
    assert_eq!(p.current(), EOF);
    let events = p.finish();
    assert_eq!(
        log(&events),
        "!first ERROR !second 'R_PAREN Finish ERROR !third 'STAR Finish !fourth"
    );
}

#[test]
fn recovery_moves_on_or_stands_at_the_end() {
    let kinds = [STAR, EQ, IDENT, R_PAREN, STRING];
    let input = input_of(&kinds);
    let mut p = Parser::new(&input, Edition::V1);
    let mut steps = 0;
    while !p.at(EOF) {
        p.err_and_bump("skip");
        steps += 1;
        assert!(steps <= kinds.len());
    }
    assert_eq!(steps, kinds.len());
}

#[test]
fn replay_skips_tombstones_and_dangling_parents() {
    let events = vec![
        Event::Start { kind: NODE, forward_parent: None },
        Event::Start { kind: TOMBSTONE, forward_parent: None },
        Event::Start { kind: NAME, forward_parent: Some(40) },
        Event::Token { kind: IDENT, n_raw_tokens: 1 },
        Event::Finish,
        Event::Start { kind: TOKEN, forward_parent: Some(1) },
        Event::Error { msg: "oops".to_string() },
        Event::Finish,
        Event::Finish,
    ];
    assert_eq!(show(&process(events)), "(NODE (NAME IDENT/1 ) (TOKEN !oops ) )");
    assert_eq!(show(&process(vec![])), "");
    assert_eq!(ERROR.name(), "ERROR");
}

#[test]
fn replay_enters_the_outermost_parent_first() {
    let events = vec![
        Event::Start { kind: TOMBSTONE, forward_parent: Some(1) },
        Event::Start { kind: TOKEN, forward_parent: Some(3) },
        Event::Token { kind: STRING, n_raw_tokens: 1 },
        Event::Finish,
        Event::Start { kind: SEQ_RULE, forward_parent: Some(2) },
        Event::Finish,
        Event::Start { kind: ALT_RULE, forward_parent: None },
        Event::Finish,
    ];
    assert_eq!(show(&process(events)), "(ALT_RULE (SEQ_RULE (TOKEN STRING/1 ) ) )");
}
