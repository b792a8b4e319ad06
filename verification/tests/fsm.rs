use rumpsteak::fsm::{
    Action, Fsm, Normalizer, Transition, MULTIPLE_ROLES, OWN_ROLE, SEND_AND_RECEIVE,
};

fn t(role: &str, action: Action, label: &str) -> Transition<String, String> {
    Transition::new(role.to_string(), action, label.to_string())
}

#[test]
fn new_machine_has_no_state() {
    let fsm: Fsm<String, String> = Fsm::new("A".to_string());
    assert_eq!(fsm.role(), "A");
    assert_eq!(fsm.size(), (0, 0));
    assert!(fsm.states().is_empty());
}

#[test]
fn states_are_numbered_in_order() {
    let mut fsm: Fsm<String, String> = Fsm::new("A".to_string());
    let s0 = fsm.add_state();
    let s1 = fsm.add_state();
    assert_eq!(s0.index(), 0);
    assert_eq!(s1.index(), 1);
    let states: Vec<usize> = fsm.states().into_iter().map(|s| s.index()).collect();
    assert_eq!(states, vec![0, 1]);
}

#[test]
fn own_role_is_refused() {
    let mut fsm = Fsm::new("A".to_string());
    let s0 = fsm.add_state();
    let s1 = fsm.add_state();
    assert_eq!(fsm.add_transition(s0, s1, t("A", Action::Output, "x")), Err(OWN_ROLE));
    assert_eq!(fsm.size(), (2, 0));
}

#[test]
fn second_role_is_refused() {
    let mut fsm = Fsm::new("A".to_string());
    let s0 = fsm.add_state();
    let s1 = fsm.add_state();
    assert_eq!(fsm.add_transition(s0, s1, t("B", Action::Output, "x")), Ok(()));
    assert_eq!(fsm.add_transition(s0, s1, t("C", Action::Output, "y")), Err(MULTIPLE_ROLES));
    assert_eq!(fsm.size(), (2, 1));
}

#[test]
fn second_action_is_refused() {
    let mut fsm = Fsm::new("A".to_string());
    let s0 = fsm.add_state();
    let s1 = fsm.add_state();
    assert_eq!(fsm.add_transition(s0, s1, t("B", Action::Output, "x")), Ok(()));
    assert_eq!(fsm.add_transition(s0, s1, t("B", Action::Input, "y")), Err(SEND_AND_RECEIVE));
}

#[test]
fn transitions_from_lists_the_last_added_first() {
    let mut fsm = Fsm::new("A".to_string());
    let s0 = fsm.add_state();
    let s1 = fsm.add_state();
    let s2 = fsm.add_state();
    fsm.add_transition(s0, s1, t("B", Action::Input, "x")).unwrap();
    fsm.add_transition(s0, s2, t("B", Action::Input, "y")).unwrap();
    let out: Vec<(String, usize)> = fsm
        .transitions_from(s0)
        .into_iter()
        .map(|(tr, to)| (tr.label.clone(), to.index()))
        .collect();
    assert_eq!(out, vec![("y".to_string(), 2), ("x".to_string(), 1)]);
    assert!(fsm.transitions_from(s1).is_empty());
}

#[test]
fn transitions_come_in_the_order_they_were_added() {
    let mut fsm = Fsm::new("A".to_string());
    let s0 = fsm.add_state();
    let s1 = fsm.add_state();
    fsm.add_transition(s0, s1, t("B", Action::Output, "x")).unwrap();
    fsm.add_transition(s1, s0, t("C", Action::Input, "y")).unwrap();
    let all: Vec<(usize, String, Action, String, usize)> = fsm
        .transitions()
        .into_iter()
        .map(|(from, tr, to)| (from.index(), tr.role.clone(), tr.action, tr.label.clone(), to.index()))
        .collect();
    assert_eq!(
        all,
        vec![
            (0, "B".to_string(), Action::Output, "x".to_string(), 1),
            (1, "C".to_string(), Action::Input, "y".to_string(), 0),
        ]
    );
}

#[test]
fn normalizer_numbers_roles_and_labels_by_first_appearance() {
    let mut left = Fsm::new("A".to_string());
    let l0 = left.add_state();
    let l1 = left.add_state();
    left.add_transition(l0, l1, t("C", Action::Output, "go")).unwrap();
    let mut right = Fsm::new("A".to_string());
    let r0 = right.add_state();
    let r1 = right.add_state();
    right.add_transition(r0, r1, t("B", Action::Input, "stop")).unwrap();
    right.add_transition(r1, r0, t("C", Action::Output, "go")).unwrap();

    let mut normalizer = Normalizer::default();
    let left = normalizer.normalize(&left);
    let right = normalizer.normalize(&right);
    assert_eq!(*left.role(), 0);
    assert_eq!(*right.role(), 0);
    let all: Vec<(usize, Action, usize)> = right
        .transitions()
        .into_iter()
        .map(|(_, tr, _)| (*tr.role, tr.action, *tr.label))
        .collect();
    assert_eq!(all, vec![(2, Action::Input, 1), (1, Action::Output, 0)]);
}

#[test]
fn built_machines_keep_one_role_and_action_per_state() {
    let mut fsm = Fsm::new("A".to_string());
    let s0 = fsm.add_state();
    let s1 = fsm.add_state();
    let s2 = fsm.add_state();
    assert_eq!(fsm.add_transition(s0, s1, t("B", Action::Output, "x")), Ok(()));
    assert_eq!(fsm.add_transition(s0, s2, t("C", Action::Output, "y")), Err(MULTIPLE_ROLES));
    assert_eq!(fsm.add_transition(s0, s2, t("B", Action::Input, "y")), Err(SEND_AND_RECEIVE));
    assert_eq!(fsm.add_transition(s1, s2, t("A", Action::Input, "z")), Err(OWN_ROLE));
    assert_eq!(fsm.add_transition(s0, s2, t("B", Action::Output, "y")), Ok(()));
    assert_eq!(fsm.add_transition(s1, s0, t("C", Action::Input, "z")), Ok(()));
    for state in fsm.states() {
        let out = fsm.transitions_from(state);
        for (tr, _) in &out {
            assert_eq!(tr.role, out[0].0.role);
            assert_eq!(tr.action, out[0].0.action);
            assert_ne!(tr.role, fsm.role());
        }
    }
    for (_, tr, _) in fsm.transitions() {
        assert_ne!(tr.role, fsm.role());
    }
    assert_eq!(fsm.size(), (3, 3));
}
