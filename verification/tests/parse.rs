use rumpsteak::fsm::{Action, Fsm, Transition};
use rumpsteak::lexer::{lex, Token};
use rumpsteak::parse::{parse, ParseError};
use rumpsteak::render::Dot;

fn transitions(text: &str) -> Vec<(usize, String, Action, String, usize)> {
    let mut results = parse(text);
    assert_eq!(results.len(), 1);
    let fsm = match results.remove(0) {
        Ok(fsm) => fsm,
        Err(e) => panic!("{}", e.message()),
    };
    fsm.transitions()
        .into_iter()
        .map(|(from, t, to)| (from.index(), t.role.clone(), t.action, t.label.clone(), to.index()))
        .collect()
}

#[test]
fn lexer_reads_keywords_identifiers_numbers_and_strings() {
    let lexemes = lex("digraph A { 0 -> 1 [label=\"B!x\"]; }");
    let kinds: Vec<String> = lexemes
        .iter()
        .map(|l| match &l.token {
            Token::Identifier(text) => format!("id:{}", text),
            other => format!("{:?}", other),
        })
        .collect();
    assert_eq!(
        kinds,
        vec![
            "Digraph", "id:A", "LeftBrace", "id:0", "Arrow", "id:1", "LeftSquare", "Label", "Equal",
            "id:B!x", "RightSquare", "Semicolon", "RightBrace",
        ]
    );
}

#[test]
fn lexer_unescapes_quotes_and_keeps_raw_text() {
    let lexemes = lex("\"a\\\"b\" \"label\" -1.5 x_1");
    match &lexemes[0].token {
        Token::Identifier(text) => assert_eq!(text, "a\"b"),
        other => panic!("{:?}", other),
    }
    assert_eq!(lexemes[0].slice, "\"a\\\"b\"");
    assert!(matches!(lexemes[1].token, Token::Label));
    match &lexemes[2].token {
        Token::Identifier(text) => assert_eq!(text, "-1.5"),
        other => panic!("{:?}", other),
    }
    match &lexemes[3].token {
        Token::Identifier(text) => assert_eq!(text, "x_1"),
        other => panic!("{:?}", other),
    }
    assert_eq!(lexemes.len(), 4);
}

#[test]
fn lexer_makes_an_error_of_an_unknown_character() {
    let lexemes = lex("a @ b");
    assert!(matches!(lexemes[1].token, Token::Error));
    assert_eq!(lexemes[1].slice, "@");
}

#[test]
fn parses_a_machine() {
    let text = "digraph A {\n    0;\n    1;\n    2;\n    0 -> 1 [label=\"B!x\"];\n    1 -> 2 [label=\"C?y\", ];\n}";
    assert_eq!(
        transitions(text),
        vec![
            (0, "B".to_string(), Action::Output, "x".to_string(), 1),
            (1, "C".to_string(), Action::Input, "y".to_string(), 2),
        ]
    );
}

#[test]
fn parses_what_dot_writes() {
    let text = "digraph A { s; t; s -> t [label=\"B!x\"]; t -> s [label=\"B?y\"]; }";
    let fsm = parse(text).remove(0).ok().unwrap();
    let written = Dot::new(&fsm).to_string();
    assert_eq!(
        written,
        "digraph A {\n    0;\n    1;\n\n    0 -> 1 [label=\"B!x\"];\n    1 -> 0 [label=\"B?y\"];\n}"
    );
    let again = parse(&written).remove(0).ok().unwrap();
    assert_eq!(Dot::new(&again).to_string(), written);
}

#[test]
fn reads_several_machines() {
    let results = parse("digraph A { 0; } digraph B { 0; 1; }");
    assert_eq!(results.len(), 2);
    assert_eq!(results[0].as_ref().ok().unwrap().size(), (1, 0));
    assert_eq!(results[1].as_ref().ok().unwrap().size(), (2, 0));
}

fn error(text: &str) -> String {
    match parse(text).remove(0) {
        Ok(_) => panic!("no error"),
        Err(e) => e.message(),
    }
}

#[test]
fn duplicate_state_is_an_error() {
    assert_eq!(error("digraph A { 0; 0; }"), "state '0' is defined multiple times");
}

#[test]
fn undefined_state_is_an_error() {
    assert_eq!(error("digraph A { 0; 0 -> 1 [label=\"B!x\"]; }"), "state '1' has not been defined");
}

#[test]
fn duplicate_transition_is_an_error() {
    let text = "digraph A { 0; 1; 0 -> 1 [label=\"B!x\"]; 0 -> 1 [label=\"B!x\"]; }";
    assert_eq!(error(text), "the same transition is defined multiple times");
    assert!(matches!(parse(text).remove(0), Err(ParseError::DuplicateTransition)));
}

#[test]
fn unexpected_token_names_what_was_expected() {
    assert_eq!(error("digraph A { 0 }"), "expected ';' or '->' but found '}'");
    assert_eq!(error("digraph"), "expected an identifier but found end of input");
    assert_eq!(error("graph A {}"), "expected 'digraph' but found 'graph'");
}

#[test]
fn a_label_must_be_a_transition() {
    assert_eq!(
        error("digraph A { 0; 1; 0 -> 1 [label=\"Bx\"]; }"),
        "expected a transition but found 'Bx'"
    );
    assert_eq!(
        error("digraph A { 0; 1; 0 -> 1 [label=\"B!x!y\"]; }"),
        "expected a transition but found 'B!x!y'"
    );
}

#[test]
fn a_machine_that_talks_to_itself_is_an_error() {
    assert_eq!(
        error("digraph A { 0; 1; 0 -> 1 [label=\"A!x\"]; }"),
        "roles cannot communicate with themselves"
    );
}

#[test]
fn what_dot_writes_reads_back_as_the_same_machine() {
    let mut fsm: Fsm<String, String> = Fsm::new("Client".to_string());
    let s0 = fsm.add_state();
    let s1 = fsm.add_state();
    let s2 = fsm.add_state();
    fsm.add_transition(s0, s1, Transition::new("Server".to_string(), Action::Output, "ping".to_string()))
        .unwrap();
    fsm.add_transition(s1, s0, Transition::new("Server".to_string(), Action::Input, "pong".to_string()))
        .unwrap();
    fsm.add_transition(s1, s2, Transition::new("Server".to_string(), Action::Input, "stop".to_string()))
        .unwrap();
    let text = Dot::new(&fsm).to_string();
    let mut results = parse(&text);
    assert_eq!(results.len(), 1);
    let read = match results.remove(0) {
        Ok(read) => read,
        Err(e) => panic!("{}", e.message()),
    };
    assert_eq!(read.role(), fsm.role());
    assert_eq!(read.size(), fsm.size());
    let written: Vec<(usize, String, Action, String, usize)> = fsm
        .transitions()
        .into_iter()
        .map(|(from, t, to)| (from.index(), t.role.clone(), t.action, t.label.clone(), to.index()))
        .collect();
    assert_eq!(transitions(&text), written);
}
