//! Sessions between three participants over one-shot channels: each
//! participant holds a session with each of its two peers and a queue that
//! says with which peer it talks next.

use futures::channel::oneshot;
use vstd::prelude::*;

verus! {

#[verifier::external_type_specification]
#[verifier::external_body]
#[verifier::reject_recursive_types(T)]
pub struct ExOneshotSender<T>(oneshot::Sender<T>);

#[verifier::external_type_specification]
#[verifier::external_body]
#[verifier::reject_recursive_types(T)]
pub struct ExOneshotReceiver<T>(oneshot::Receiver<T>);

#[verifier::external_type_specification]
#[verifier::external_body]
pub struct ExOneshotCanceled(oneshot::Canceled);

/// futures' `oneshot::channel`: the two ends of a fresh channel that
/// carries one message. Nothing is stated of the two ends.
#[verifier::external_body]
fn oneshot_channel<T>() -> (oneshot::Sender<T>, oneshot::Receiver<T>) {
    oneshot::channel()
}

/// futures' `oneshot::Sender::send`: hands `value` to the receiving end;
/// where that end was dropped, `value` comes back as the error. Whether it
/// was dropped is not stated.
#[verifier::external_body]
fn oneshot_send<T>(sender: oneshot::Sender<T>, value: T) -> (result: Result<(), T>)
    ensures
        result is Err ==> result->Err_0 == value,
{
    sender.send(value)
}

/// The order in which a participant of three talks to its two peers.
pub trait Queue: Sized {
    /// The queue that `new` makes.
    spec fn fresh() -> Self;

    /// The queue, as its type spells it out.
    fn new() -> (queue: Self)
        ensures
            queue == Self::fresh(),
    ;
}

/// The end of a session, or of a queue.
pub struct End;

impl Queue for End {
    open spec fn fresh() -> Self {
        End
    }

    fn new() -> Self {
        End
    }
}

/// A queue whose next step is with the left peer.
pub struct Left<Q: Queue>(pub Q);

impl<Q: Queue> Queue for Left<Q> {
    open spec fn fresh() -> Self {
        Left(Q::fresh())
    }

    fn new() -> Self {
        Left(Q::new())
    }
}

/// A queue whose next step is with the right peer.
pub struct Right<Q: Queue>(pub Q);

impl<Q: Queue> Queue for Right<Q> {
    open spec fn fresh() -> Self {
        Right(Q::fresh())
    }

    fn new() -> Self {
        Right(Q::new())
    }
}

/// A session between two participants, with the session of the other one.
pub trait Session: Sized {
    type Dual;

    fn new() -> (Self, Self::Dual);
}

impl Session for End {
    type Dual = End;

    fn new() -> (Self, Self::Dual) {
        (End, End)
    }
}

/// A session that sends a `T`, then goes on as `S`.
#[verifier::reject_recursive_types(T)]
#[verifier::reject_recursive_types(S)]
pub struct Send<T, S: Session> {
    pub channel: oneshot::Sender<(T, S::Dual)>,
}

/// A session that receives a `T`, then goes on as `S`.
#[verifier::reject_recursive_types(T)]
#[verifier::reject_recursive_types(S)]
pub struct Receive<T, S> {
    pub channel: oneshot::Receiver<(T, S)>,
}

impl<T, S: Session> Session for Send<T, S> {
    type Dual = Receive<T, S::Dual>;

    fn new() -> (Self, Self::Dual) {
        let (sender, receiver) = oneshot_channel();
        (Send { channel: sender }, Receive { channel: receiver })
    }
}

impl<T, S: Session> Session for Receive<T, S> where S::Dual: Session<Dual = S> {
    type Dual = Send<T, S::Dual>;

    fn new() -> (Self, Self::Dual) {
        let (other, this) = Send::<T, S::Dual>::new();
        (this, other)
    }
}

impl<T, S: Session> Send<T, S> {
    /// Sends `value` with the peer's continuation, and goes on as `S`.
    /// Where the peer is gone, `value` comes back as the error.
    pub fn send(self, value: T) -> (result: Result<S, T>)
        ensures
            result is Err ==> result->Err_0 == value,
    {
        let (this, other) = S::new();
        match oneshot_send(self.channel, (value, other)) {
            Ok(()) => Ok(this),
            Err((value, _)) => Err(value),
        }
    }
}

/// A participant of three: its sessions with its left and right peers,
/// and the order in which it talks to them.
pub struct SessionPair<S1: Session, S2: Session, Q: Queue>(pub S1, pub S2, pub Q);

impl<T, S1: Session, S2: Session, Q: Queue> SessionPair<Send<T, S1>, S2, Left<Q>> {
    /// Sends `value` to the left peer; the right session stays as it was
    /// and the queue moves on.
    pub fn send(self, value: T) -> (result: Result<SessionPair<S1, S2, Q>, T>)
        ensures
            result is Ok ==> result->Ok_0.1 == self.1 && result->Ok_0.2 == self.2.0,
            result is Err ==> result->Err_0 == value,
    {
        let SessionPair(left, right, queue) = self;
        match left.send(value) {
            Ok(left) => Ok(SessionPair(left, right, queue.0)),
            Err(value) => Err(value),
        }
    }
}

impl<T, S1: Session, S2: Session, Q: Queue> SessionPair<S1, Send<T, S2>, Right<Q>> {
    /// Sends `value` to the right peer; the left session stays as it was
    /// and the queue moves on.
    pub fn send(self, value: T) -> (result: Result<SessionPair<S1, S2, Q>, T>)
        ensures
            result is Ok ==> result->Ok_0.0 == self.0 && result->Ok_0.2 == self.2.0,
            result is Err ==> result->Err_0 == value,
    {
        let SessionPair(left, right, queue) = self;
        match right.send(value) {
            Ok(right) => Ok(SessionPair(left, right, queue.0)),
            Err(value) => Err(value),
        }
    }
}

} // verus!
