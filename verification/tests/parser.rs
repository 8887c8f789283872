use ungrammar_parser::edition::Edition;
use ungrammar_parser::input::Input;
use ungrammar_parser::lexed_str::LexedStr;
use ungrammar_parser::output::{Output, Step};
use ungrammar_parser::syntax_kind::SyntaxKind;
use ungrammar_parser::syntax_kind::SyntaxKind::{EQ, IDENT, L_PAREN, PIPE, R_PAREN, STAR, STRING};
use ungrammar_parser::TopEntryPoint;

/// What a step is, without borrowing from the output.
#[derive(Debug, Clone, PartialEq, Eq)]
enum Flat {
    Token(SyntaxKind, u8),
    Enter(SyntaxKind),
    Exit,
    Error(String),
}

fn flat(output: &Output) -> Vec<Flat> {
    output
        .steps()
        .iter()
        .map(|step| match step {
            Step::Token { kind, n_input_tokens } => Flat::Token(*kind, *n_input_tokens),
            Step::Enter { kind } => Flat::Enter(*kind),
            Step::Exit => Flat::Exit,
            Step::Error { msg } => Flat::Error(msg.clone()),
        })
        .collect()
}

fn parse_kinds(kinds: &[SyntaxKind]) -> Vec<Flat> {
    let mut input = Input::new();
    for kind in kinds {
        input.push(*kind);
    }
    flat(&TopEntryPoint::Grammar.parse(&input, Edition::CURRENT))
}

fn parse_text(text: &str) -> Vec<Flat> {
    let lexed = LexedStr::new(text);
    flat(&TopEntryPoint::Grammar.parse(&lexed.to_input(), Edition::CURRENT))
}

/// The kinds of the nodes and tokens, nested by parentheses.
fn shape(steps: &[Flat]) -> String {
    let mut res = String::new();
    for step in steps {
        match step {
            Flat::Enter(kind) => res.push_str(&format!("({:?} ", kind)),
            Flat::Token(kind, _) => res.push_str(&format!("{:?} ", kind)),
            Flat::Exit => {
                if res.ends_with(' ') {
                    res.pop();
                }
                res.push_str(") ");
            }
            Flat::Error(_) => res.push_str("! "),
        }
    }
    res.trim_end().to_string()
}

fn errors(steps: &[Flat]) -> Vec<String> {
    steps
        .iter()
        .filter_map(|step| match step {
            Flat::Error(msg) => Some(msg.clone()),
            _ => None,
        })
        .collect()
}

fn assert_one_tree(steps: &[Flat]) {
    assert!(steps.len() >= 2);
    assert!(matches!(steps[0], Flat::Enter(_)));
    let mut depth = 0i64;
    let mut enters = 0;
    let mut exits = 0;
    for (i, step) in steps.iter().enumerate() {
        assert!(depth > 0 || i == 0);
        match step {
            Flat::Enter(_) => {
                depth += 1;
                enters += 1;
            }
            Flat::Exit => {
                depth -= 1;
                exits += 1;
            }
            _ => (),
        }
        assert!(depth >= 0);
    }
    assert_eq!(depth, 0);
    assert_eq!(enters, exits);
    assert!(enters >= 1);
}

fn tokens_in(steps: &[Flat]) -> usize {
    steps
        .iter()
        .map(|step| match step {
            Flat::Token(_, n) => *n as usize,
            _ => 0,
        })
        .sum()
}

/// Removes the first line break and the indentation that all lines share.
fn trim_indent(text: &str) -> String {
    let text = text.strip_prefix('\n').unwrap_or(text);
    let indent = text
        .lines()
        .filter(|line| !line.trim().is_empty())
        .map(|line| line.len() - line.trim_start().len())
        .min()
        .unwrap_or(0);
    let mut res = String::new();
    for line in text.split_inclusive('\n') {
        if line.trim().is_empty() {
            if line.ends_with('\n') {
                res.push('\n');
            }
        } else {
            res.push_str(&line[indent..]);
        }
    }
    res
}

/// The tree of `text` with all its tokens, one per line, and the errors
/// behind it, each with the offset in the text at which it was found.
fn parse(entry: TopEntryPoint, text: &str) -> (String, bool) {
    let lexed = LexedStr::new(text);
    let input = lexed.to_input();
    let output = entry.parse(&input, Edition::CURRENT);

    let mut buf = String::new();
    let mut errors = Vec::new();
    let mut indent = String::new();
    let mut depth = 0;
    let mut len = 0;
    let mut pos = 0;
    let mut pending_exit = false;
    let mut first = true;

    let mut exit = |indent: &mut String, depth: &mut i32| {
        assert!(*depth > 0);
        *depth -= 1;
        indent.pop();
        indent.pop();
    };
    let mut token = |buf: &mut String, indent: &str, pos: &mut usize, len: &mut usize| {
        let kind = lexed.kind(*pos);
        let text = lexed.text(*pos);
        *len += text.len();
        buf.push_str(&format!("{indent}{kind:?} {text:?}\n"));
        *pos += 1;
    };

    for step in output.steps() {
        match step {
            Step::Token { kind, n_input_tokens } => {
                if pending_exit {
                    exit(&mut indent, &mut depth);
                    pending_exit = false;
                }
                while pos < lexed.len() && lexed.kind(pos).is_trivia() {
                    token(&mut buf, &indent, &mut pos, &mut len);
                }
                assert!(depth > 0);
                assert_eq!(*n_input_tokens, 1);
                assert_eq!(lexed.kind(pos), *kind);
                token(&mut buf, &indent, &mut pos, &mut len);
            }
            Step::Enter { kind } => {
                if pending_exit {
                    exit(&mut indent, &mut depth);
                    pending_exit = false;
                }
                if !first {
                    while pos < lexed.len() && lexed.kind(pos).is_trivia() {
                        token(&mut buf, &indent, &mut pos, &mut len);
                    }
                }
                first = false;
                assert!(depth > 0 || len == 0);
                depth += 1;
                buf.push_str(&format!("{indent}{kind:?}\n"));
                indent.push_str("  ");
            }
            Step::Exit => {
                if pending_exit {
                    exit(&mut indent, &mut depth);
                }
                pending_exit = true;
            }
            Step::Error { msg } => {
                assert!(depth > 0);
                let text_pos = lexed.text_start(pos);
                errors.push(format!("error {text_pos}: {msg}\n"))
            }
        }
    }
    assert!(pending_exit);
    while pos < lexed.len() && lexed.kind(pos).is_trivia() {
        token(&mut buf, &indent, &mut pos, &mut len);
    }
    exit(&mut indent, &mut depth);
    assert_eq!(depth, 0);
    assert_eq!(len, text.len(), "didn't parse everything: {:?} {:?}", &text[..len], &text[len..]);

    for (token, msg) in lexed.errors() {
        let pos = lexed.text_start(token);
        errors.push(format!("error {pos}: {msg}\n"));
    }

    let has_errors = !errors.is_empty();
    for e in errors {
        buf.push_str(&e);
    }
    (buf, has_errors)
}

fn check(entry: TopEntryPoint, input: &str, expect: &str) {
    let (parsed, _errors) = parse(entry, input);
    assert_eq!(trim_indent(expect), parsed);
}

#[test]
fn source_file() {
    check(
        TopEntryPoint::Grammar,
        "",
        r#"
        GRAMMAR
    "#,
    );

    check(
        TopEntryPoint::Grammar,
        "Hello = 'Hello'",
        r#"
        GRAMMAR
          NODE
            NAME
              IDENT "Hello"
            WHITESPACE " "
            EQ "="
            WHITESPACE " "
            TOKEN
              STRING "'Hello'"
    "#,
    );

    check(
        TopEntryPoint::Grammar,
        "error",
        r#"
        GRAMMAR
          NODE
            NAME
              IDENT "error"
        error 5: expected EQ
        error 5: expected rule
    "#,
    );
}

#[test]
fn empty_input_scenario() {
    let steps = parse_kinds(&[]);
    assert_eq!(steps, vec![Flat::Enter(SyntaxKind::GRAMMAR), Flat::Exit]);
    assert_eq!(errors(&steps).len(), 0);
    assert_eq!(parse_text(""), steps);
    assert_eq!(parse_text(" // nothing\n"), steps);
}

#[test]
fn minimal_valid_node_scenario() {
    let steps = parse_text("Hello = 'Hello'");
    assert_eq!(
        steps,
        vec![
            Flat::Enter(SyntaxKind::GRAMMAR),
            Flat::Enter(SyntaxKind::NODE),
            Flat::Enter(SyntaxKind::NAME),
            Flat::Token(IDENT, 1),
            Flat::Exit,
            Flat::Token(EQ, 1),
            Flat::Enter(SyntaxKind::TOKEN),
            Flat::Token(STRING, 1),
            Flat::Exit,
            Flat::Exit,
            Flat::Exit,
        ]
    );
    assert_eq!(errors(&steps).len(), 0);
    assert_eq!(LexedStr::new("Hello = 'Hello'").errors().len(), 0);
}

#[test]
fn truncated_input_scenario() {
    let steps = parse_text("Hello");
    assert_eq!(
        steps,
        vec![
            Flat::Enter(SyntaxKind::GRAMMAR),
            Flat::Enter(SyntaxKind::NODE),
            Flat::Enter(SyntaxKind::NAME),
            Flat::Token(IDENT, 1),
            Flat::Exit,
            Flat::Error("expected EQ".to_string()),
            Flat::Error("expected rule".to_string()),
            Flat::Exit,
            Flat::Exit,
        ]
    );
    assert_one_tree(&steps);
}

#[test]
fn alternation_is_left_associative() {
    let steps = parse_text("R = A | B | C");
    assert_eq!(
        shape(&steps),
        "(GRAMMAR (NODE (NAME IDENT) EQ \
         (ALT_RULE (ALT_RULE (NAME_REF IDENT) PIPE (NAME_REF IDENT)) PIPE (NAME_REF IDENT))))"
    );
    assert_eq!(errors(&steps).len(), 0);
}

#[test]
fn postfix_operators_wrap_from_left_to_right() {
    let steps = parse_text("R = 'x'*?");
    assert_eq!(
        shape(&steps),
        "(GRAMMAR (NODE (NAME IDENT) EQ (OPT_RULE (REP_RULE (TOKEN STRING) STAR) QUESTION)))"
    );
    let steps = parse_text("R = 'x'?*");
    assert_eq!(
        shape(&steps),
        "(GRAMMAR (NODE (NAME IDENT) EQ (REP_RULE (OPT_RULE (TOKEN STRING) QUESTION) STAR)))"
    );
    let steps = parse_text("R = 'x'**");
    assert_eq!(
        shape(&steps),
        "(GRAMMAR (NODE (NAME IDENT) EQ (REP_RULE (REP_RULE (TOKEN STRING) STAR) STAR)))"
    );
}

#[test]
fn rules_side_by_side_fold_into_one_sequence() {
    let steps = parse_text("R = 'Hello' 'World'");
    assert_eq!(
        shape(&steps),
        "(GRAMMAR (NODE (NAME IDENT) EQ (SEQ_RULE (TOKEN STRING) (TOKEN STRING))))"
    );
    let steps = parse_text("R = 'a' b 'c'");
    assert_eq!(
        shape(&steps),
        "(GRAMMAR (NODE (NAME IDENT) EQ (SEQ_RULE (TOKEN STRING) (SEQ_RULE (NAME_REF IDENT) \
         (TOKEN STRING)))))"
    );
    assert_eq!(errors(&steps).len(), 0);
}

#[test]
fn binding_powers() {
    let steps = parse_text("SOURCE = 'a'? | 'b'* | 'c'");
    assert_eq!(
        shape(&steps),
        "(GRAMMAR (NODE (NAME IDENT) EQ (ALT_RULE (ALT_RULE (OPT_RULE (TOKEN STRING) QUESTION) \
         PIPE (REP_RULE (TOKEN STRING) STAR)) PIPE (TOKEN STRING))))"
    );
    let steps = parse_text("R = a b | c d");
    assert_eq!(
        shape(&steps),
        "(GRAMMAR (NODE (NAME IDENT) EQ (ALT_RULE (SEQ_RULE (NAME_REF IDENT) (NAME_REF IDENT)) \
         PIPE (SEQ_RULE (NAME_REF IDENT) (NAME_REF IDENT)))))"
    );
    let steps = parse_text("R = a b*");
    assert_eq!(
        shape(&steps),
        "(GRAMMAR (NODE (NAME IDENT) EQ (SEQ_RULE (NAME_REF IDENT) (REP_RULE (NAME_REF IDENT) STAR))))"
    );
}

#[test]
fn parentheses_and_labels() {
    let steps = parse_text("SourceFile = (Hello name:'World')* '!'?");
    assert_eq!(
        shape(&steps),
        "(GRAMMAR (NODE (NAME IDENT) EQ (SEQ_RULE (REP_RULE (PAREN_RULE L_PAREN (SEQ_RULE \
         (NAME_REF IDENT) (LABELED_RULE (LABEL IDENT) COLON (TOKEN STRING))) R_PAREN) STAR) \
         (OPT_RULE (TOKEN STRING) QUESTION))))"
    );
    assert_eq!(errors(&steps).len(), 0);
    assert_one_tree(&steps);
}

#[test]
fn the_next_node_ends_a_rule() {
    let steps = parse_text("A = b c\nD = e");
    assert_eq!(
        shape(&steps),
        "(GRAMMAR (NODE (NAME IDENT) EQ (SEQ_RULE (NAME_REF IDENT) (NAME_REF IDENT))) \
         (NODE (NAME IDENT) EQ (NAME_REF IDENT)))"
    );
    assert_eq!(errors(&steps).len(), 0);
}

#[test]
fn missing_close_paren_is_reported() {
    let steps = parse_text("A = ('x'");
    assert_eq!(
        shape(&steps),
        "(GRAMMAR (NODE (NAME IDENT) EQ (PAREN_RULE L_PAREN (TOKEN STRING) !)))"
    );
    assert_eq!(errors(&steps), vec!["expected R_PAREN"]);
}

#[test]
fn missing_name_puts_the_token_into_an_error_node() {
    let steps = parse_text("= 'World'");
    assert_eq!(
        shape(&steps),
        "(GRAMMAR (NODE (ERROR ! EQ) ! (TOKEN STRING)))"
    );
    assert_eq!(errors(&steps), vec!["expected a name", "expected EQ"]);
}

#[test]
fn missing_rule_before_the_next_node() {
    let steps = parse_text("SourceFile =\nHello = 'Hello'");
    assert_eq!(
        shape(&steps),
        "(GRAMMAR (NODE (NAME IDENT) EQ !) (NODE (NAME IDENT) EQ (TOKEN STRING)))"
    );
    assert_eq!(errors(&steps), vec!["expected rule"]);
}

#[test]
fn missing_right_side_of_an_alternation() {
    let steps = parse_text("SourceFile = 'Hello' |\nHello = 'Hello'");
    assert_eq!(
        shape(&steps),
        "(GRAMMAR (NODE (NAME IDENT) EQ (ALT_RULE (TOKEN STRING) PIPE !)) \
         (NODE (NAME IDENT) EQ (TOKEN STRING)))"
    );
    assert_eq!(errors(&steps), vec!["expected rule"]);
}

#[test]
fn recovery_set_token_is_not_consumed_by_a_missing_rule() {
    let steps = parse_text("A = )");
    assert_eq!(
        shape(&steps),
        "(GRAMMAR (NODE (NAME IDENT) EQ !) (ERROR ! R_PAREN))"
    );
    assert_eq!(errors(&steps), vec!["expected rule", "expected an item"]);
}

#[test]
fn stray_tokens_become_error_nodes() {
    let steps = parse_text("* ?");
    assert_eq!(shape(&steps), "(GRAMMAR (ERROR ! STAR) (ERROR ! QUESTION))");
    assert_eq!(errors(&steps), vec!["expected an item", "expected an item"]);
    let steps = parse_text("A = *");
    assert_eq!(
        shape(&steps),
        "(GRAMMAR (NODE (NAME IDENT) EQ (ERROR ! STAR)))"
    );
    assert_eq!(errors(&steps), vec!["expected rule"]);
}

#[test]
fn every_parse_is_one_tree_that_holds_every_token() {
    let kinds = [IDENT, EQ, STRING, L_PAREN, R_PAREN, PIPE, STAR, SyntaxKind::QUESTION,
        SyntaxKind::COLON, SyntaxKind::ERROR];
    // all inputs of up to four tokens
    let mut inputs: Vec<Vec<SyntaxKind>> = vec![vec![]];
    let mut last: Vec<Vec<SyntaxKind>> = vec![vec![]];
    for _ in 0..4 {
        let mut next = Vec::new();
        for input in &last {
            for kind in kinds {
                let mut longer = input.clone();
                longer.push(kind);
                next.push(longer);
            }
        }
        inputs.extend(next.iter().cloned());
        last = next;
    }
    assert_eq!(inputs.len(), 1 + 10 + 100 + 1000 + 10000);
    for input in &inputs {
        let steps = parse_kinds(input);
        assert_one_tree(&steps);
        assert_eq!(tokens_in(&steps), input.len());
        assert_eq!(steps[0], Flat::Enter(SyntaxKind::GRAMMAR));
    }
}

#[test]
fn parsing_twice_gives_the_same() {
    for text in ["", "A = b | 'c'*", "= ) x : ( 'open", "A = (b c:d)? e\nF ="] {
        assert_eq!(parse_text(text), parse_text(text));
        assert_eq!(parse(TopEntryPoint::Grammar, text), parse(TopEntryPoint::Grammar, text));
    }
}

#[test]
fn end_of_input_kind_inside_the_input_ends_the_parse() {
    let steps = parse_kinds(&[IDENT, EQ, IDENT, SyntaxKind::EOF, IDENT]);
    assert_eq!(shape(&steps), "(GRAMMAR (NODE (NAME IDENT) EQ (NAME_REF IDENT)))");
    assert_one_tree(&steps);
}
