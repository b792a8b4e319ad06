use futures::channel::mpsc;
use vstd::prelude::*;

verus! {

#[verifier::external_type_specification]
#[verifier::external_body]
#[verifier::reject_recursive_types(T)]
pub struct ExUnboundedSender<T>(mpsc::UnboundedSender<T>);

#[verifier::external_type_specification]
#[verifier::external_body]
#[verifier::reject_recursive_types(T)]
pub struct ExUnboundedReceiver<T>(mpsc::UnboundedReceiver<T>);

/// futures' `mpsc::unbounded`: the two ends of a fresh channel without a
/// bound. Nothing is stated of them.
#[verifier::external_body]
fn unbounded<T>() -> (mpsc::UnboundedSender<T>, mpsc::UnboundedReceiver<T>) {
    mpsc::unbounded()
}

/// Makes the two ends of a channel at once: this end, and the one that
/// talks to it.
pub trait Pair<P>: Sized {
    /// Whether `self` is the end that talks to `other`: the two were made
    /// together.
    spec fn connects(&self, other: &P) -> bool;

    fn pair() -> (pair: (Self, P))
        ensures
            pair.0.connects(&pair.1),
    ;
}

/// A channel with nothing in it.
#[derive(Clone, Copy, Debug, Default, PartialEq, Eq, Structural)]
pub struct Nil;

impl Pair<Nil> for Nil {
    open spec fn connects(&self, other: &Nil) -> bool {
        true
    }

    fn pair() -> (Nil, Nil) {
        (Nil, Nil)
    }
}

impl<T> Pair<mpsc::UnboundedReceiver<T>> for mpsc::UnboundedSender<T> {
    /// The ends of futures' channels are opaque: which ends were made
    /// together is not stated of them.
    open spec fn connects(&self, other: &mpsc::UnboundedReceiver<T>) -> bool {
        true
    }

    fn pair() -> (Self, mpsc::UnboundedReceiver<T>) {
        unbounded()
    }
}

impl<T> Pair<mpsc::UnboundedSender<T>> for mpsc::UnboundedReceiver<T> {
    /// The ends of futures' channels are opaque: which ends were made
    /// together is not stated of them.
    open spec fn connects(&self, other: &mpsc::UnboundedSender<T>) -> bool {
        true
    }

    fn pair() -> (Self, mpsc::UnboundedSender<T>) {
        let (sender, receiver) = unbounded();
        (receiver, sender)
    }
}

/// A sending end and a receiving end, used together.
#[derive(Clone, Copy, Debug, Default, PartialEq, Eq)]
pub struct Bidirectional<S, R> {
    pub sender: S,
    pub receiver: R,
}

impl<S, R> Bidirectional<S, R> {
    pub fn new(sender: S, receiver: R) -> (channel: Self)
        ensures
            channel.sender == sender,
            channel.receiver == receiver,
    {
        Bidirectional { sender, receiver }
    }
}

impl<S: Pair<R>, R: Pair<S>> Pair<Self> for Bidirectional<S, R> {
    /// Each side's sender was made with the other side's receiver.
    open spec fn connects(&self, other: &Self) -> bool {
        self.sender.connects(&other.receiver) && other.sender.connects(&self.receiver)
    }

    fn pair() -> (Self, Self) {
        let (left_sender, right_receiver) = S::pair();
        let (right_sender, left_receiver) = S::pair();
        (Bidirectional::new(left_sender, left_receiver), Bidirectional::new(right_sender, right_receiver))
    }
}

} // verus!
