use crate::effect::{Constant, SideEffect};
use crate::predicate::Predicate;
use crate::variables::Variables;
use vstd::prelude::*;

verus! {

/// A message exchanged between two participants; `L` is the type of a
/// label (the content of a message) that it may carry.
pub trait Message<L>: Sized {
    /// The message that carries `label`.
    fn upcast(label: L) -> Self;

    /// The label that the message carries, where it is an `L`; otherwise
    /// the message itself, so that it is not lost.
    fn downcast(self) -> Result<L, Self>;
}

/// The name of the variable that a choice binds, for the label `L`.
pub trait ParamName<L, N> {
    fn get_param_name() -> N;
}

/// The variable that a message of a branch binds, and its value.
pub trait Param<N, V, M> {
    fn get_param(message: &M) -> (N, V);
}

/// What a receive makes of the outcome of a downcast: the label, or an
/// unexpected type.
pub fn label_of<L, M>(downcast: Result<L, M>) -> (result: Result<L, ReceiveError>)
    ensures
        match downcast {
            Ok(label) => result == Ok::<L, ReceiveError>(label),
            Err(_) => result == Err::<L, ReceiveError>(ReceiveError::UnexpectedType),
        },
{
    match downcast {
        Ok(label) => Ok(label),
        Err(_) => Err(ReceiveError::UnexpectedType),
    }
}

/// The label of a message that a receive took from its stream: an empty
/// stream gave none, and a message that does not carry an `L` is of an
/// unexpected type.
pub fn accept<L, M: Message<L>>(message: Option<M>) -> (result: Result<L, ReceiveError>)
    ensures
        message is None ==> result == Err::<L, ReceiveError>(ReceiveError::EmptyStream),
        message is Some ==> result != Err::<L, ReceiveError>(ReceiveError::EmptyStream),
{
    match message {
        None => Err(ReceiveError::EmptyStream),
        Some(message) => label_of(message.downcast()),
    }
}

/// What a selection does to its variables before its message goes out:
/// the value of the chosen label is bound to the name that the choice `C`
/// gives it, and the predicate is checked on the result. The name is
/// returned, with whether the message may go out.
pub fn prepare_select<C: ParamName<L, char>, L, P: Predicate>(
    variables: &mut Variables,
    value: i32,
    predicate: &P,
) -> (result: (char, bool))
    ensures
        final(variables)@ == old(variables)@.insert(result.0, value),
        result.1 == predicate.holds(final(variables)@),
{
    let name = C::get_param_name();
    let allowed = prepare_send(variables, name, value, predicate);
    (name, allowed)
}

/// What a session does to its variables before it sends a message (or makes
/// a selection): the message's value is bound to `name`, and the predicate
/// of the step is checked on the result. The message may go out only where
/// the result is `true`.
pub fn prepare_send<P: Predicate>(
    variables: &mut Variables,
    name: char,
    value: i32,
    predicate: &P,
) -> (allowed: bool)
    ensures
        final(variables)@ == old(variables)@.insert(name, value),
        allowed == predicate.holds(final(variables)@),
{
    variables.insert(name, value);
    predicate.check(variables).is_ok()
}

/// What a session does to its variables once a message has gone out: the
/// side effect of the step is made, and `name` is unbound. Where the side
/// effect cannot be made on the variables, nothing changes and `false` is
/// returned.
pub fn finish_send<U: SideEffect>(variables: &mut Variables, name: char, effect: &mut U) -> (applied: bool)
    ensures
        applied == old(effect).defined_on(old(variables)@),
        applied ==> final(variables)@ == old(effect).apply(old(variables)@).remove(name),
        !applied ==> final(variables)@ == old(variables)@,
{
    if !effect.can_apply(variables) {
        return false;
    }
    effect.side_effect(variables);
    variables.remove(name);
    true
}

/// What a session does to its variables when a message comes in (or a
/// branch is taken): the message's value is bound to `name`, then the side
/// effect of the step is made. Where the side effect cannot be made, the
/// value stays bound and `false` is returned.
pub fn on_receive<U: SideEffect>(
    variables: &mut Variables,
    name: char,
    value: i32,
    effect: &mut U,
) -> (applied: bool)
    ensures
        applied == old(effect).defined_on(old(variables)@.insert(name, value)),
        applied ==> final(variables)@ == old(effect).apply(old(variables)@.insert(name, value)),
        !applied ==> final(variables)@ == old(variables)@.insert(name, value),
{
    variables.insert(name, value);
    if !effect.can_apply(variables) {
        return false;
    }
    effect.side_effect(variables);
    true
}

/// A send undoes its own binding: with a side effect that changes
/// nothing, the variables after `finish_send` are those before
/// `prepare_send`, where the name of the message was not bound before.
pub proof fn lemma_send_unbinds(before: Map<char, i32>, name: char, value: i32, effect: Constant)
    requires
        !before.contains_key(name),
    ensures
        effect.defined_on(before.insert(name, value)),
        effect.apply(before.insert(name, value)).remove(name) == before,
{
    assert(before.insert(name, value).remove(name) =~= before);
}

/// Why a message could not be received.
#[derive(Clone, Copy, Debug, PartialEq, Eq, Structural)]
pub enum ReceiveError {
    EmptyStream,
    UnexpectedType,
}

impl ReceiveError {
    /// What went wrong, in words.
    pub fn message(&self) -> (message: &'static str)
        ensures
            message@ == (match self {
                ReceiveError::EmptyStream => "receiver stream is empty"@,
                ReceiveError::UnexpectedType => "received message with an unexpected type"@,
            }),
    {
        match self {
            ReceiveError::EmptyStream => "receiver stream is empty",
            ReceiveError::UnexpectedType => "received message with an unexpected type",
        }
    }
}

} // verus!
