use crate::variables::Variables;
use vstd::prelude::*;

verus! {

/// A change to the variables of a session, made once a message has gone
/// out or come in. `defined_on` says on which values it can be made, and
/// `apply` what it makes of them.
pub trait SideEffect {
    /// Whether the change can be made on these values.
    spec fn defined_on(&self, values: Map<char, i32>) -> bool;

    /// The values after the change.
    spec fn apply(&self, values: Map<char, i32>) -> Map<char, i32>;

    /// Whether the change can be made on these values.
    fn can_apply(&self, values: &Variables) -> (ok: bool)
        ensures
            ok == self.defined_on(values@),
    ;

    /// Makes the change.
    fn side_effect(&mut self, values: &mut Variables)
        requires
            old(self).defined_on(old(values)@),
        ensures
            final(values)@ == old(self).apply(old(values)@),
    ;
}

/// The side effect that changes nothing.
#[derive(Default)]
pub struct Constant;

impl SideEffect for Constant {
    open spec fn defined_on(&self, values: Map<char, i32>) -> bool {
        true
    }

    open spec fn apply(&self, values: Map<char, i32>) -> Map<char, i32> {
        values
    }

    fn can_apply(&self, values: &Variables) -> (ok: bool) {
        true
    }

    fn side_effect(&mut self, values: &mut Variables) {
    }
}

/// Adds `value` to the variable `name`, where it is bound.
pub struct Incr {
    pub name: char,
    pub value: i32,
}

impl Incr {
    pub fn new(name: char, value: i32) -> (effect: Self)
        ensures
            effect.name == name,
            effect.value == value,
    {
        Self { name, value }
    }
}

impl SideEffect for Incr {
    open spec fn defined_on(&self, values: Map<char, i32>) -> bool {
        values.contains_key(self.name) ==> i32::MIN <= values[self.name] + self.value
            <= i32::MAX
    }

    open spec fn apply(&self, values: Map<char, i32>) -> Map<char, i32> {
        if values.contains_key(self.name) {
            values.insert(self.name, (values[self.name] + self.value) as i32)
        } else {
            values
        }
    }

    fn can_apply(&self, values: &Variables) -> (ok: bool) {
        match values.get(self.name) {
            Some(v) => v.checked_add(self.value).is_some(),
            None => true,
        }
    }

    fn side_effect(&mut self, values: &mut Variables) {
        match values.get(self.name) {
            Some(v) => values.insert(self.name, v + self.value),
            None => {},
        }
    }
}

} // verus!
