use crate::variables::Variables;
use vstd::prelude::*;

verus! {

/// A property of the variables of a session, checked before a message goes
/// out. Each predicate states in `holds` when it is true of the values of
/// the variables, and `check` decides it.
pub trait Predicate {
    /// Whether the predicate is true of these values.
    spec fn holds(&self, values: Map<char, i32>) -> bool;

    /// Checks the predicate on the current values: `Ok(())` exactly when it
    /// holds.
    fn check(&self, values: &Variables) -> (result: Result<(), ()>)
        ensures
            result is Ok <==> self.holds(values@),
    ;
}

/// The predicate that always holds.
#[derive(Default)]
pub struct Tautology;

impl Predicate for Tautology {
    open spec fn holds(&self, values: Map<char, i32>) -> bool {
        true
    }

    fn check(&self, values: &Variables) -> (result: Result<(), ()>) {
        Ok(())
    }
}

/// Both variables are bound and their values compare as `order` asks: below zero
/// for less than, zero for equal, above zero for greater than.
pub open spec fn compares(values: Map<char, i32>, lhs: char, rhs: char, order: int) -> bool {
    &&& values.contains_key(lhs)
    &&& values.contains_key(rhs)
    &&& (if order < 0 {
        values[lhs] < values[rhs]
    } else if order == 0 {
        values[lhs] == values[rhs]
    } else {
        values[lhs] > values[rhs]
    })
}

/// The variable is bound and its value compares with `constant` as
/// `order` asks.
pub open spec fn compares_to(values: Map<char, i32>, lhs: char, constant: i32, order: int) -> bool {
    &&& values.contains_key(lhs)
    &&& (if order < 0 {
        values[lhs] < constant
    } else if order == 0 {
        values[lhs] == constant
    } else {
        values[lhs] > constant
    })
}

/// `lhs < rhs`, two variables.
pub struct LTnVar {
    pub lhs: char,
    pub rhs: char,
}

impl LTnVar {
    pub fn new(lhs: char, rhs: char) -> (p: Self)
        ensures
            p.lhs == lhs,
            p.rhs == rhs,
    {
        Self { lhs, rhs }
    }
}

impl Predicate for LTnVar {
    open spec fn holds(&self, values: Map<char, i32>) -> bool {
        compares(values, self.lhs, self.rhs, -1)
    }

    fn check(&self, values: &Variables) -> (result: Result<(), ()>) {
        match (values.get(self.lhs), values.get(self.rhs)) {
            (Some(l), Some(r)) => if l < r {
                Ok(())
            } else {
                Err(())
            },
            _ => Err(()),
        }
    }
}

/// `lhs < rhs`, a variable and a constant.
pub struct LTnConst {
    pub lhs: char,
    pub rhs: i32,
}

impl LTnConst {
    pub fn new(lhs: char, rhs: i32) -> (p: Self)
        ensures
            p.lhs == lhs,
            p.rhs == rhs,
    {
        Self { lhs, rhs }
    }
}

impl Predicate for LTnConst {
    open spec fn holds(&self, values: Map<char, i32>) -> bool {
        compares_to(values, self.lhs, self.rhs, -1)
    }

    fn check(&self, values: &Variables) -> (result: Result<(), ()>) {
        match values.get(self.lhs) {
            Some(l) => if l < self.rhs {
                Ok(())
            } else {
                Err(())
            },
            None => Err(()),
        }
    }
}

/// `lhs > rhs`, two variables.
pub struct GTnVar {
    pub lhs: char,
    pub rhs: char,
}

impl GTnVar {
    pub fn new(lhs: char, rhs: char) -> (p: Self)
        ensures
            p.lhs == lhs,
            p.rhs == rhs,
    {
        Self { lhs, rhs }
    }
}

impl Predicate for GTnVar {
    open spec fn holds(&self, values: Map<char, i32>) -> bool {
        compares(values, self.lhs, self.rhs, 1)
    }

    fn check(&self, values: &Variables) -> (result: Result<(), ()>) {
        match (values.get(self.lhs), values.get(self.rhs)) {
            (Some(l), Some(r)) => if l > r {
                Ok(())
            } else {
                Err(())
            },
            _ => Err(()),
        }
    }
}

/// `lhs > rhs`, a variable and a constant.
pub struct GTnConst {
    pub lhs: char,
    pub rhs: i32,
}

impl GTnConst {
    pub fn new(lhs: char, rhs: i32) -> (p: Self)
        ensures
            p.lhs == lhs,
            p.rhs == rhs,
    {
        Self { lhs, rhs }
    }
}

impl Predicate for GTnConst {
    open spec fn holds(&self, values: Map<char, i32>) -> bool {
        compares_to(values, self.lhs, self.rhs, 1)
    }

    fn check(&self, values: &Variables) -> (result: Result<(), ()>) {
        match values.get(self.lhs) {
            Some(l) => if l > self.rhs {
                Ok(())
            } else {
                Err(())
            },
            None => Err(()),
        }
    }
}

/// `lhs == rhs`, two variables.
pub struct EqualVar {
    pub lhs: char,
    pub rhs: char,
}

impl EqualVar {
    pub fn new(lhs: char, rhs: char) -> (p: Self)
        ensures
            p.lhs == lhs,
            p.rhs == rhs,
    {
        Self { lhs, rhs }
    }
}

impl Predicate for EqualVar {
    open spec fn holds(&self, values: Map<char, i32>) -> bool {
        compares(values, self.lhs, self.rhs, 0)
    }

    fn check(&self, values: &Variables) -> (result: Result<(), ()>) {
        match (values.get(self.lhs), values.get(self.rhs)) {
            (Some(l), Some(r)) => if l == r {
                Ok(())
            } else {
                Err(())
            },
            _ => Err(()),
        }
    }
}

/// `lhs == rhs`, a variable and a constant.
pub struct EqualConst {
    pub lhs: char,
    pub rhs: i32,
}

impl EqualConst {
    pub fn new(lhs: char, rhs: i32) -> (p: Self)
        ensures
            p.lhs == lhs,
            p.rhs == rhs,
    {
        Self { lhs, rhs }
    }
}

impl Predicate for EqualConst {
    open spec fn holds(&self, values: Map<char, i32>) -> bool {
        compares_to(values, self.lhs, self.rhs, 0)
    }

    fn check(&self, values: &Variables) -> (result: Result<(), ()>) {
        match values.get(self.lhs) {
            Some(l) => if l == self.rhs {
                Ok(())
            } else {
                Err(())
            },
            None => Err(()),
        }
    }
}

/// `lhs < mid < rhs`, three variables.
pub struct LTnThree {
    pub lhs: char,
    pub mid: char,
    pub rhs: char,
}

impl LTnThree {
    pub fn new(lhs: char, mid: char, rhs: char) -> (p: Self)
        ensures
            p.lhs == lhs,
            p.mid == mid,
            p.rhs == rhs,
    {
        Self { lhs, mid, rhs }
    }
}

impl Predicate for LTnThree {
    open spec fn holds(&self, values: Map<char, i32>) -> bool {
        compares(values, self.lhs, self.mid, -1) && compares(values, self.mid, self.rhs, -1)
    }

    fn check(&self, values: &Variables) -> (result: Result<(), ()>) {
        match (values.get(self.lhs), values.get(self.mid), values.get(self.rhs)) {
            (Some(l), Some(m), Some(r)) => if l < m && m < r {
                Ok(())
            } else {
                Err(())
            },
            _ => Err(()),
        }
    }
}

/// `lhs > mid > rhs`, three variables.
pub struct GTnThree {
    pub lhs: char,
    pub mid: char,
    pub rhs: char,
}

impl GTnThree {
    pub fn new(lhs: char, mid: char, rhs: char) -> (p: Self)
        ensures
            p.lhs == lhs,
            p.mid == mid,
            p.rhs == rhs,
    {
        Self { lhs, mid, rhs }
    }
}

impl Predicate for GTnThree {
    open spec fn holds(&self, values: Map<char, i32>) -> bool {
        compares(values, self.lhs, self.mid, 1) && compares(values, self.mid, self.rhs, 1)
    }

    fn check(&self, values: &Variables) -> (result: Result<(), ()>) {
        match (values.get(self.lhs), values.get(self.mid), values.get(self.rhs)) {
            (Some(l), Some(m), Some(r)) => if l > m && m > r {
                Ok(())
            } else {
                Err(())
            },
            _ => Err(()),
        }
    }
}

/// Both predicates hold.
pub struct And<L, R> {
    pub lhs: L,
    pub rhs: R,
}

impl<L: Predicate, R: Predicate> Predicate for And<L, R> {
    open spec fn holds(&self, values: Map<char, i32>) -> bool {
        self.lhs.holds(values) && self.rhs.holds(values)
    }

    fn check(&self, values: &Variables) -> (result: Result<(), ()>) {
        if self.lhs.check(values).is_ok() && self.rhs.check(values).is_ok() {
            Ok(())
        } else {
            Err(())
        }
    }
}

/// At least one of the predicates holds.
pub struct Or<L, R> {
    pub lhs: L,
    pub rhs: R,
}

impl<L: Predicate, R: Predicate> Predicate for Or<L, R> {
    open spec fn holds(&self, values: Map<char, i32>) -> bool {
        self.lhs.holds(values) || self.rhs.holds(values)
    }

    fn check(&self, values: &Variables) -> (result: Result<(), ()>) {
        if self.lhs.check(values).is_ok() || self.rhs.check(values).is_ok() {
            Ok(())
        } else {
            Err(())
        }
    }
}

/// The predicate does not hold.
pub struct Neg<P> {
    pub inner: P,
}

impl<P: Predicate> Predicate for Neg<P> {
    open spec fn holds(&self, values: Map<char, i32>) -> bool {
        !self.inner.holds(values)
    }

    fn check(&self, values: &Variables) -> (result: Result<(), ()>) {
        if self.inner.check(values).is_ok() {
            Err(())
        } else {
            Ok(())
        }
    }
}

/// Comparisons of two variables mean what they say, and when both are
/// bound exactly one of `<`, `==` and `>` holds; `a < b` is `b > a`.
/// None holds where a variable is unbound.
pub proof fn lemma_variable_comparisons(lhs: char, rhs: char, values: Map<char, i32>)
    ensures
        (LTnVar { lhs, rhs }).holds(values) <==> values.contains_key(lhs) && values.contains_key(rhs)
            && values[lhs] < values[rhs],
        (GTnVar { lhs, rhs }).holds(values) <==> values.contains_key(lhs) && values.contains_key(rhs)
            && values[lhs] > values[rhs],
        (EqualVar { lhs, rhs }).holds(values) <==> values.contains_key(lhs) && values.contains_key(rhs)
            && values[lhs] == values[rhs],
        values.contains_key(lhs) && values.contains_key(rhs) ==> {
            let lt = (LTnVar { lhs, rhs }).holds(values);
            let eq = (EqualVar { lhs, rhs }).holds(values);
            let gt = (GTnVar { lhs, rhs }).holds(values);
            &&& lt || eq || gt
            &&& !(lt && eq) && !(lt && gt) && !(eq && gt)
        },
        (LTnVar { lhs, rhs }).holds(values) == (GTnVar { lhs: rhs, rhs: lhs }).holds(values),
        (EqualVar { lhs, rhs }).holds(values) == (EqualVar { lhs: rhs, rhs: lhs }).holds(values),
        !(LTnVar { lhs, rhs: lhs }).holds(values) && !(GTnVar { lhs, rhs: lhs }).holds(values),
        !values.contains_key(lhs) || !values.contains_key(rhs) ==> !(LTnVar { lhs, rhs }).holds(values)
            && !(GTnVar { lhs, rhs }).holds(values) && !(EqualVar { lhs, rhs }).holds(values),
{
}

/// Comparisons of a variable with a constant mean what they say, agree
/// with comparisons with a variable bound to that constant, and when the
/// variable is bound exactly one of `<`, `==` and `>` holds.
pub proof fn lemma_constant_comparisons(lhs: char, rhs: i32, values: Map<char, i32>)
    ensures
        (LTnConst { lhs, rhs }).holds(values) <==> values.contains_key(lhs) && values[lhs] < rhs,
        (GTnConst { lhs, rhs }).holds(values) <==> values.contains_key(lhs) && values[lhs] > rhs,
        (EqualConst { lhs, rhs }).holds(values) <==> values.contains_key(lhs) && values[lhs] == rhs,
        values.contains_key(lhs) ==> {
            let lt = (LTnConst { lhs, rhs }).holds(values);
            let eq = (EqualConst { lhs, rhs }).holds(values);
            let gt = (GTnConst { lhs, rhs }).holds(values);
            &&& lt || eq || gt
            &&& !(lt && eq) && !(lt && gt) && !(eq && gt)
        },
        forall|v: char| #![auto] values.contains_key(v) && values[v] == rhs ==> {
            &&& (LTnConst { lhs, rhs }).holds(values) == (LTnVar { lhs, rhs: v }).holds(values)
            &&& (GTnConst { lhs, rhs }).holds(values) == (GTnVar { lhs, rhs: v }).holds(values)
            &&& (EqualConst { lhs, rhs }).holds(values) == (EqualVar { lhs, rhs: v }).holds(values)
        },
{
}

/// A chain of three comparisons holds exactly where both of its links do.
pub proof fn lemma_chains(lhs: char, mid: char, rhs: char, values: Map<char, i32>)
    ensures
        (LTnThree { lhs, mid, rhs }).holds(values) <==> (LTnVar { lhs, rhs: mid }).holds(values)
            && (LTnVar { lhs: mid, rhs }).holds(values),
        (GTnThree { lhs, mid, rhs }).holds(values) <==> (GTnVar { lhs, rhs: mid }).holds(values)
            && (GTnVar { lhs: mid, rhs }).holds(values),
        (LTnThree { lhs, mid, rhs }).holds(values) ==> values[lhs] < values[rhs],
        (GTnThree { lhs, mid, rhs }).holds(values) ==> values[lhs] > values[rhs],
{
}

/// A negation holds exactly where its predicate does not; a conjunction
/// where both hold, a disjunction where one does; and the two are related
/// by De Morgan's laws.
pub proof fn lemma_connectives<P: Predicate, Q: Predicate>(p: P, q: Q, values: Map<char, i32>)
    ensures
        (Neg { inner: p }).holds(values) != p.holds(values),
        (And { lhs: p, rhs: q }).holds(values) <==> p.holds(values) && q.holds(values),
        (Or { lhs: p, rhs: q }).holds(values) <==> p.holds(values) || q.holds(values),
        (Neg { inner: And { lhs: p, rhs: q } }).holds(values) == (Or { lhs: Neg { inner: p }, rhs: Neg { inner: q } }).holds(
            values,
        ),
        (Neg { inner: Or { lhs: p, rhs: q } }).holds(values) == (And { lhs: Neg { inner: p }, rhs: Neg { inner: q } }).holds(
            values,
        ),
        (Tautology).holds(values),
{
}

} // verus!
