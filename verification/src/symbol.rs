use vstd::prelude::*;

verus! {

/// The names that stand for roles and labels in a state machine: values
/// that can be compared for sameness. Strings compare by their characters,
/// integers by their value.
pub trait Symbol: Sized {
    /// Whether two names are the same name.
    spec fn same(&self, other: &Self) -> bool;

    /// Sameness is an equivalence.
    proof fn lemma_same_equivalence(a: &Self, b: &Self, c: &Self)
        ensures
            a.same(a),
            a.same(b) ==> b.same(a),
            a.same(b) && b.same(c) ==> a.same(c),
    ;

    /// Compares two names.
    fn same_as(&self, other: &Self) -> (same: bool)
        ensures
            same == self.same(other),
    ;

    /// A copy of the name.
    fn duplicate(&self) -> (copy: Self)
        ensures
            copy == *self,
    ;
}

impl Symbol for String {
    open spec fn same(&self, other: &Self) -> bool {
        self@ == other@
    }

    proof fn lemma_same_equivalence(a: &Self, b: &Self, c: &Self) {
    }

    fn same_as(&self, other: &Self) -> (same: bool) {
        self.eq(other)
    }

    fn duplicate(&self) -> (copy: Self) {
        self.clone()
    }
}

impl Symbol for usize {
    open spec fn same(&self, other: &Self) -> bool {
        *self == *other
    }

    proof fn lemma_same_equivalence(a: &Self, b: &Self, c: &Self) {
    }

    fn same_as(&self, other: &Self) -> (same: bool) {
        *self == *other
    }

    fn duplicate(&self) -> (copy: Self) {
        *self
    }
}

impl Symbol for u64 {
    open spec fn same(&self, other: &Self) -> bool {
        *self == *other
    }

    proof fn lemma_same_equivalence(a: &Self, b: &Self, c: &Self) {
    }

    fn same_as(&self, other: &Self) -> (same: bool) {
        *self == *other
    }

    fn duplicate(&self) -> (copy: Self) {
        *self
    }
}

impl Symbol for char {
    open spec fn same(&self, other: &Self) -> bool {
        *self == *other
    }

    proof fn lemma_same_equivalence(a: &Self, b: &Self, c: &Self) {
    }

    fn same_as(&self, other: &Self) -> (same: bool) {
        *self == *other
    }

    fn duplicate(&self) -> (copy: Self) {
        *self
    }
}

} // verus!
