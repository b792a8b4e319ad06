use vstd::prelude::*;

verus! {

/// Two values of the same type, one on the left and one on the right.
#[derive(Clone, Copy, Debug, Default, PartialEq, Eq)]
pub struct Pair<T> {
    pub left: T,
    pub right: T,
}

impl<T> Pair<T> {
    pub fn new(left: T, right: T) -> (pair: Self)
        ensures
            pair.left == left,
            pair.right == right,
    {
        Self { left, right }
    }

    pub fn as_ref(&self) -> (pair: Pair<&T>)
        ensures
            *pair.left == self.left,
            *pair.right == self.right,
    {
        Pair::new(&self.left, &self.right)
    }

    pub fn as_mut(&mut self) -> (pair: Pair<&mut T>)
        ensures
            *pair.left == old(self).left,
            *pair.right == old(self).right,
            final(self).left == *final(pair.left),
            final(self).right == *final(pair.right),
    {
        Pair { left: &mut self.left, right: &mut self.right }
    }

    pub fn swap(&mut self)
        ensures
            final(self).left == old(self).right,
            final(self).right == old(self).left,
    {
        core::mem::swap(&mut self.left, &mut self.right)
    }

    pub fn zip<U>(self, other: Pair<U>) -> (pair: Pair<(T, U)>)
        ensures
            pair.left == (self.left, other.left),
            pair.right == (self.right, other.right),
    {
        Pair::new((self.left, other.left), (self.right, other.right))
    }

    pub fn map<U, F: Fn(T) -> U>(self, f: F) -> (pair: Pair<U>)
        requires
            f.requires((self.left,)),
            f.requires((self.right,)),
        ensures
            f.ensures((self.left,), pair.left),
            f.ensures((self.right,), pair.right),
    {
        let left = f(self.left);
        let right = f(self.right);
        Pair::new(left, right)
    }

    /// The two values, left first.
    pub fn into_iter(self) -> (items: Vec<T>)
        ensures
            items@ == seq![self.left, self.right],
    {
        let mut items = Vec::new();
        items.push(self.left);
        items.push(self.right);
        items
    }

    /// References to the two values, left first.
    pub fn iter(&self) -> (items: Vec<&T>)
        ensures
            items@.len() == 2,
            *items@[0] == self.left,
            *items@[1] == self.right,
    {
        self.as_ref().into_iter()
    }

    /// Mutable references to the two values, left first.
    pub fn iter_mut(&mut self) -> (items: (&mut T, &mut T))
        ensures
            *items.0 == old(self).left,
            *items.1 == old(self).right,
            *final(self) == (Pair { left: *final(items.0), right: *final(items.1) }),
    {
        (&mut self.left, &mut self.right)
    }

    pub fn into_tuple(self) -> (tuple: (T, T))
        ensures
            tuple == (self.left, self.right),
    {
        (self.left, self.right)
    }
}

} // verus!
