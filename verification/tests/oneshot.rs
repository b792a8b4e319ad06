use futures::executor::block_on;
use rumpsteak::oneshot::{End, Left, Queue, Receive, Right, Send, Session, SessionPair};

type Ask = Send<i32, Receive<i32, End>>;

#[test]
fn a_sent_value_comes_with_the_rest_of_the_session() {
    let (asker, answerer): (Ask, <Ask as Session>::Dual) = Session::new();
    let asker = asker.send(2).ok().unwrap();
    let (question, answerer) = block_on(answerer.channel).unwrap();
    assert_eq!(question, 2);
    let _end: End = answerer.send(question + 1).ok().unwrap();
    let (answer, _end): (i32, End) = block_on(asker.channel).unwrap();
    assert_eq!(answer, 3);
}

#[test]
fn a_send_to_a_peer_that_is_gone_gives_the_value_back() {
    let (asker, answerer): (Ask, <Ask as Session>::Dual) = Session::new();
    drop(answerer);
    assert_eq!(asker.send(7).err(), Some(7));
}

#[test]
fn a_pair_sends_in_the_order_of_its_queue() {
    type Left2 = Send<i32, End>;
    type Right2 = Send<i32, End>;
    let (left, left_peer): (Left2, <Left2 as Session>::Dual) = Session::new();
    let (right, right_peer): (Right2, <Right2 as Session>::Dual) = Session::new();
    let pair: SessionPair<Left2, Right2, Left<Right<End>>> = SessionPair(left, right, Queue::new());
    let pair = pair.send(1).ok().unwrap();
    let pair: SessionPair<End, End, End> = pair.send(2).ok().unwrap();
    let SessionPair(End, End, End) = pair;
    let (first, _): (i32, End) = block_on(left_peer.channel).unwrap();
    let (second, _): (i32, End) = block_on(right_peer.channel).unwrap();
    assert_eq!((first, second), (1, 2));
}
