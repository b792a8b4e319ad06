use rumpsteak::channel::{Bidirectional, Nil, Pair};
use rumpsteak::predicate::LTnConst;
use rumpsteak::session::{accept, label_of, prepare_select, Message, ParamName, ReceiveError};
use rumpsteak::variables::Variables;

#[derive(Debug, PartialEq)]
struct Add(i32);

#[derive(Debug, PartialEq)]
struct Sum(i32);

#[derive(Debug, PartialEq)]
enum Label {
    Add(Add),
    Sum(Sum),
}

impl Message<Add> for Label {
    fn upcast(label: Add) -> Self {
        Label::Add(label)
    }

    fn downcast(self) -> Result<Add, Self> {
        match self {
            Label::Add(add) => Ok(add),
            other => Err(other),
        }
    }
}

struct Choice;

impl ParamName<Add, char> for Choice {
    fn get_param_name() -> char {
        'x'
    }
}

#[test]
fn a_receive_takes_the_label_it_expects() {
    let message: Option<Label> = Some(Message::upcast(Add(2)));
    assert_eq!(accept::<Add, Label>(message), Ok(Add(2)));
}

#[test]
fn an_empty_stream_and_an_unexpected_label_are_errors() {
    assert_eq!(accept::<Add, Label>(None), Err(ReceiveError::EmptyStream));
    assert_eq!(accept::<Add, Label>(Some(Label::Sum(Sum(3)))), Err(ReceiveError::UnexpectedType));
    assert_eq!(label_of::<Add, Label>(Err(Label::Sum(Sum(3)))), Err(ReceiveError::UnexpectedType));
    assert_eq!(label_of::<Add, Label>(Ok(Add(4))), Ok(Add(4)));
    assert_eq!(ReceiveError::EmptyStream.message(), "receiver stream is empty");
    assert_eq!(ReceiveError::UnexpectedType.message(), "received message with an unexpected type");
}

#[test]
fn a_selection_binds_the_name_of_its_choice() {
    let mut variables = Variables::new();
    let (name, allowed) = prepare_select::<Choice, Add, LTnConst>(&mut variables, 3, &LTnConst::new('x', 5));
    assert_eq!(name, 'x');
    assert!(allowed);
    assert_eq!(variables.get('x'), Some(3));
    let (_, allowed) = prepare_select::<Choice, Add, LTnConst>(&mut variables, 7, &LTnConst::new('x', 5));
    assert!(!allowed);
    assert_eq!(variables.get('x'), Some(7));
}

#[test]
fn channels_come_in_pairs() {
    let (left, right): (Nil, Nil) = Pair::pair();
    assert_eq!(left, right);
    let channel = Bidirectional::new(1, 'a');
    assert_eq!(channel.sender, 1);
    assert_eq!(channel.receiver, 'a');
    let (_left, _right): (Bidirectional<Nil, Nil>, Bidirectional<Nil, Nil>) = Pair::pair();
}
