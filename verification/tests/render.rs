use rumpsteak::fsm::{Action, Fsm, Transition};
use rumpsteak::local::Local;
use rumpsteak::render::{Dot, Petrify};
use rumpsteak::text::push_decimal;

fn ping_pong() -> Fsm<String, String> {
    let mut fsm = Fsm::new("A".to_string());
    let s0 = fsm.add_state();
    let s1 = fsm.add_state();
    fsm.add_transition(s0, s1, Transition::new("B".to_string(), Action::Output, "ping".to_string()))
        .unwrap();
    fsm.add_transition(s1, s0, Transition::new("B".to_string(), Action::Input, "pong".to_string()))
        .unwrap();
    fsm
}

#[test]
fn decimal_numbers() {
    let mut text = String::from("n=");
    push_decimal(&mut text, 0);
    text.push(',');
    push_decimal(&mut text, 1203);
    text.push(',');
    push_decimal(&mut text, usize::MAX);
    assert_eq!(text, format!("n=0,1203,{}", usize::MAX));
}

#[test]
fn transition_text() {
    let t = Transition::new("B".to_string(), Action::Input, "x".to_string());
    assert_eq!(t.to_string(), "B?x");
    let t = Transition::new(3usize, Action::Output, 7usize);
    assert_eq!(t.to_string(), "3!7");
}

#[test]
fn dot_of_an_empty_machine() {
    let fsm: Fsm<String, String> = Fsm::new("A".to_string());
    assert_eq!(Dot::new(&fsm).to_string(), "digraph A {}");
}

#[test]
fn dot_of_a_machine() {
    assert_eq!(
        Dot::new(&ping_pong()).to_string(),
        "digraph A {\n    0;\n    1;\n\n    0 -> 1 [label=\"B!ping\"];\n    1 -> 0 [label=\"B?pong\"];\n}"
    );
}

#[test]
fn petrify_of_a_machine() {
    let fsm = ping_pong();
    assert_eq!(
        Petrify::new(&fsm).to_string(),
        ".outputs\n.state graph\ns0 B ! ping s1\ns1 B ? pong s0\n.marking s0\n.end"
    );
}

#[test]
fn local_type_of_a_loop() {
    let local = Local::new(&ping_pong());
    assert_eq!(local.to_string(), "rec X0 . B!ping; B?pong; X0");
}

#[test]
fn local_type_of_a_choice() {
    let mut fsm = Fsm::new("A".to_string());
    let s0 = fsm.add_state();
    let s1 = fsm.add_state();
    let s2 = fsm.add_state();
    fsm.add_transition(s0, s1, Transition::new("B".to_string(), Action::Input, "l".to_string()))
        .unwrap();
    fsm.add_transition(s0, s2, Transition::new("B".to_string(), Action::Input, "r".to_string()))
        .unwrap();
    fsm.add_transition(s2, s0, Transition::new("C".to_string(), Action::Output, "x".to_string()))
        .unwrap();
    let local = Local::new(&fsm);
    assert_eq!(local.to_string(), "rec X0 . [B?r; C!x; X0, B?l; end]");
}

#[test]
fn local_type_of_a_single_state() {
    let mut fsm: Fsm<String, String> = Fsm::new("A".to_string());
    fsm.add_state();
    assert_eq!(Local::new(&fsm).to_string(), "end");
    assert!(matches!(Local::new(&fsm), Local::End));
}
