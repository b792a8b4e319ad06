use rumpsteak::fsm::{Action, Fsm, Transition};
use rumpsteak::prefix::Prefix;
use rumpsteak::subtype::is_subtype;

/// A machine of role `role` that takes the transitions in turn and ends.
fn chain(role: &str, steps: &[(&str, Action, &str)]) -> Fsm<String, String> {
    let mut fsm = Fsm::new(role.to_string());
    let mut state = fsm.add_state();
    for (other, action, label) in steps {
        let next = fsm.add_state();
        fsm.add_transition(
            state,
            next,
            Transition::new(other.to_string(), *action, label.to_string()),
        )
        .unwrap();
        state = next;
    }
    fsm
}

#[test]
fn a_machine_is_a_subtype_of_itself() {
    let fsm = chain("A", &[("B", Action::Output, "x"), ("B", Action::Input, "y")]);
    assert!(is_subtype(&fsm, &fsm, 3));
}

#[test]
fn sending_early_is_a_subtype() {
    let eager = chain("A", &[("B", Action::Output, "y"), ("B", Action::Input, "x")]);
    let lazy = chain("A", &[("B", Action::Input, "x"), ("B", Action::Output, "y")]);
    assert!(is_subtype(&eager, &lazy, 3));
    assert!(!is_subtype(&lazy, &eager, 3));
}

#[test]
fn different_labels_are_not_subtypes() {
    let left = chain("A", &[("B", Action::Output, "x")]);
    let right = chain("A", &[("B", Action::Output, "y")]);
    assert!(!is_subtype(&left, &right, 3));
}

#[test]
fn an_ended_machine_is_not_a_subtype_of_a_sending_one() {
    let ended = chain("A", &[]);
    let sending = chain("A", &[("B", Action::Output, "x")]);
    assert!(!is_subtype(&ended, &sending, 3));
    assert!(!is_subtype(&sending, &ended, 3));
    assert!(is_subtype(&ended, &ended, 1));
}

#[test]
fn no_visits_means_no_subtype() {
    let fsm = chain("A", &[("B", Action::Output, "x")]);
    assert!(!is_subtype(&fsm, &fsm, 0));
}

#[test]
fn reverting_a_prefix_brings_back_its_transitions() {
    let (b, x, y, z) = ("B".to_string(), "x".to_string(), "y".to_string(), "z".to_string());
    let mut prefix: Prefix<String, String> = Prefix::default();
    prefix.push(Transition::new(&b, Action::Output, &x));
    prefix.push(Transition::new(&b, Action::Input, &y));
    let snapshot = prefix.snapshot();
    assert!(!prefix.is_modified(&snapshot));
    prefix.remove_first();
    prefix.push(Transition::new(&b, Action::Output, &z));
    assert!(prefix.is_modified(&snapshot));
    let labels: Vec<String> = prefix.iter().into_iter().map(|t| t.label.clone()).collect();
    assert_eq!(labels, vec!["y".to_string(), "z".to_string()]);
    prefix.revert(&snapshot);
    assert!(!prefix.is_modified(&snapshot));
    let labels: Vec<String> = prefix.iter().into_iter().map(|t| t.label.clone()).collect();
    assert_eq!(labels, vec!["x".to_string(), "y".to_string()]);
}

#[test]
fn more_visits_keep_a_subtype() {
    let eager = chain("A", &[("B", Action::Output, "y"), ("B", Action::Input, "x")]);
    let lazy = chain("A", &[("B", Action::Input, "x"), ("B", Action::Output, "y")]);
    assert!(is_subtype(&eager, &lazy, 2));
    for visits in 2..8 {
        assert!(is_subtype(&eager, &lazy, visits));
    }
}

#[test]
fn reverting_after_pushes_and_removals_gives_the_prefix_back() {
    let (b, c) = ("B".to_string(), "C".to_string());
    let (w, x, y, z) = ("w".to_string(), "x".to_string(), "y".to_string(), "z".to_string());
    let mut prefix: Prefix<String, String> = Prefix::default();
    prefix.push(Transition::new(&b, Action::Output, &w));
    prefix.push(Transition::new(&c, Action::Input, &x));
    prefix.push(Transition::new(&b, Action::Input, &y));
    prefix.remove_first();
    let snapshot = prefix.snapshot();
    let labels = |p: &Prefix<String, String>| -> Vec<String> {
        p.iter().into_iter().map(|t| t.label.clone()).collect()
    };
    let before = labels(&prefix);
    assert_eq!(before, vec!["x".to_string(), "y".to_string()]);
    let first_before = prefix.first().map(|t| t.label.clone());
    prefix.push(Transition::new(&c, Action::Output, &z));
    let items = prefix.iter_full();
    let (index, _) = items[1];
    prefix.remove(index);
    prefix.remove_first();
    prefix.push(Transition::new(&b, Action::Output, &w));
    assert_eq!(labels(&prefix), vec!["z".to_string(), "w".to_string()]);
    assert!(prefix.is_modified(&snapshot));
    prefix.revert(&snapshot);
    assert_eq!(labels(&prefix), before);
    assert_eq!(prefix.first().map(|t| t.label.clone()), first_before);
    assert!(!prefix.is_empty());
    assert_eq!(prefix.snapshot(), snapshot);
    assert!(!prefix.is_modified(&snapshot));
}
