use rumpsteak::effect::{Constant, Incr, SideEffect};
use rumpsteak::predicate::{
    And, EqualConst, EqualVar, GTnConst, GTnThree, GTnVar, LTnConst, LTnThree, LTnVar, Neg, Or,
    Predicate, Tautology,
};
use rumpsteak::session::{finish_send, on_receive, prepare_send};
use rumpsteak::variables::Variables;

fn vars(pairs: &[(char, i32)]) -> Variables {
    let mut v = Variables::new();
    for (n, x) in pairs {
        v.insert(*n, *x);
    }
    v
}

#[test]
fn variables_read_back_what_was_written() {
    let mut v = Variables::new();
    assert_eq!(v.get('x'), None);
    v.insert('x', 3);
    v.insert('y', 4);
    v.insert('x', 5);
    assert_eq!(v.get('x'), Some(5));
    assert_eq!(v.get('y'), Some(4));
    v.remove('x');
    assert_eq!(v.get('x'), None);
    assert_eq!(v.get('y'), Some(4));
    v.remove('z');
    assert_eq!(v.get('y'), Some(4));
}

#[test]
fn comparisons_of_two_variables() {
    let v = vars(&[('a', 1), ('b', 2), ('c', 2)]);
    assert_eq!(LTnVar::new('a', 'b').check(&v), Ok(()));
    assert_eq!(LTnVar::new('b', 'a').check(&v), Err(()));
    assert_eq!(GTnVar::new('b', 'a').check(&v), Ok(()));
    assert_eq!(GTnVar::new('b', 'c').check(&v), Err(()));
    assert_eq!(EqualVar::new('b', 'c').check(&v), Ok(()));
    assert_eq!(EqualVar::new('a', 'c').check(&v), Err(()));
    assert_eq!(LTnVar::new('a', 'z').check(&v), Err(()));
}

#[test]
fn comparisons_with_a_constant() {
    let v = vars(&[('a', 1)]);
    assert_eq!(LTnConst::new('a', 2).check(&v), Ok(()));
    assert_eq!(LTnConst::new('a', 1).check(&v), Err(()));
    assert_eq!(GTnConst::new('a', 0).check(&v), Ok(()));
    assert_eq!(GTnConst::new('a', 1).check(&v), Err(()));
    assert_eq!(EqualConst::new('a', 1).check(&v), Ok(()));
    assert_eq!(EqualConst::new('z', 1).check(&v), Err(()));
}

#[test]
fn comparisons_of_three_variables() {
    let v = vars(&[('a', 1), ('b', 2), ('c', 3)]);
    assert_eq!(LTnThree::new('a', 'b', 'c').check(&v), Ok(()));
    assert_eq!(LTnThree::new('c', 'b', 'a').check(&v), Err(()));
    assert_eq!(GTnThree::new('c', 'b', 'a').check(&v), Ok(()));
    assert_eq!(GTnThree::new('a', 'b', 'c').check(&v), Err(()));
}

#[test]
fn combinations_of_predicates() {
    let v = vars(&[('a', 1)]);
    assert_eq!(Tautology.check(&v), Ok(()));
    let yes = EqualConst::new('a', 1);
    let no = EqualConst::new('a', 2);
    assert_eq!(And { lhs: EqualConst::new('a', 1), rhs: Tautology }.check(&v), Ok(()));
    assert_eq!(And { lhs: EqualConst::new('a', 1), rhs: EqualConst::new('a', 2) }.check(&v), Err(()));
    assert_eq!(Or { lhs: no, rhs: yes }.check(&v), Ok(()));
    assert_eq!(Neg { inner: Tautology }.check(&v), Err(()));
    assert_eq!(Neg { inner: EqualConst::new('a', 2) }.check(&v), Ok(()));
}

#[test]
fn side_effects() {
    let mut v = vars(&[('a', 1)]);
    Constant.side_effect(&mut v);
    assert_eq!(v.get('a'), Some(1));
    Incr::new('a', 4).side_effect(&mut v);
    assert_eq!(v.get('a'), Some(5));
    Incr::new('z', 4).side_effect(&mut v);
    assert_eq!(v.get('z'), None);
}

#[test]
fn a_send_step_binds_checks_and_unbinds() {
    let mut v = vars(&[('n', 3)]);
    assert!(prepare_send(&mut v, 'x', 2, &LTnVar::new('x', 'n')));
    assert_eq!(v.get('x'), Some(2));
    assert!(finish_send(&mut v, 'x', &mut Incr::new('n', 1)));
    assert_eq!(v.get('x'), None);
    assert_eq!(v.get('n'), Some(4));
    assert!(!prepare_send(&mut v, 'x', 9, &LTnVar::new('x', 'n')));
}

#[test]
fn a_step_whose_effect_would_overflow_changes_nothing_more() {
    let mut v = vars(&[('n', i32::MAX)]);
    assert!(prepare_send(&mut v, 'x', 2, &Tautology));
    assert!(!finish_send(&mut v, 'x', &mut Incr::new('n', 1)));
    assert_eq!(v.get('x'), Some(2));
    assert_eq!(v.get('n'), Some(i32::MAX));
    let mut w = Variables::new();
    assert!(!on_receive(&mut w, 'y', i32::MAX, &mut Incr::new('y', 1)));
    assert_eq!(w.get('y'), Some(i32::MAX));
}

#[test]
fn a_receive_step_binds_then_makes_the_effect() {
    let mut v = Variables::new();
    assert!(on_receive(&mut v, 'x', 7, &mut Incr::new('x', 1)));
    assert_eq!(v.get('x'), Some(8));
}

#[test]
fn a_send_without_effect_leaves_the_variables_as_they_were() {
    let mut v = vars(&[('n', 3)]);
    assert!(prepare_send(&mut v, 'x', 9, &Tautology));
    assert_eq!(v.get('x'), Some(9));
    assert!(finish_send(&mut v, 'x', &mut Constant));
    assert_eq!(v.get('x'), None);
    assert_eq!(v.get('n'), Some(3));
}
