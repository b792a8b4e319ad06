use crate::protocol;
use vstd::prelude::*;

verus! {

/// The rules of the grammar of edge labels that the conversions below
/// read: a label, its direction, its parameters, and the predicates and
/// side effects that refine it.
#[derive(Clone, Copy, Debug, PartialEq, Eq, Structural)]
pub enum Rule {
    Label,
    Send,
    Receive,
    Parameters,
    Parameter,
    Variable,
    Constant,
    Comp,
    Ltn,
    Gtn,
    Eq,
    Neg,
    Or,
    And,
    Predicate,
    SideEffect,
    Incr,
    Decr,
    Mult,
    Div,
    Other,
}

/// A node of the parse tree of an edge label: the rule it matched, the
/// text it matched, and the nodes inside it.
#[derive(Debug)]
pub struct ParseNode {
    pub rule: Rule,
    pub text: String,
    pub inner: Vec<ParseNode>,
}

/// Whether a transition sends or receives.
#[derive(Clone, Copy, Debug, PartialEq, Eq, Structural)]
pub enum Direction {
    Send,
    Receive,
}

impl Direction {
    /// The direction that a rule names, if it names one.
    pub fn try_from(value: Rule) -> (direction: Result<Direction, ()>)
        ensures
            direction == (match value {
                Rule::Send => Ok::<Direction, ()>(Direction::Send),
                Rule::Receive => Ok(Direction::Receive),
                _ => Err(()),
            }),
    {
        match value {
            Rule::Send => Ok(Direction::Send),
            Rule::Receive => Ok(Direction::Receive),
            _ => Err(()),
        }
    }

    /// The same direction, for generated code.
    pub fn into(self) -> (direction: protocol::Direction)
        ensures
            direction == direction_for(self),
    {
        match self {
            Direction::Send => protocol::Direction::Send,
            Direction::Receive => protocol::Direction::Receive,
        }
    }
}

/// An operand of a comparison: a variable or a constant, by its text.
#[derive(Debug)]
pub enum Atom {
    Var(String),
    Const(String),
}

/// A comparison of two operands.
#[derive(Debug)]
pub enum Predicate {
    LTn(Atom, Atom),
    GTn(Atom, Atom),
    Equal(Atom, Atom),
}

/// A predicate of an edge label.
#[derive(Debug)]
pub enum BoolPredicate {
    Normal(Predicate),
    And(Box<BoolPredicate>, Box<BoolPredicate>),
    Or(Box<BoolPredicate>, Box<BoolPredicate>),
    Neg(Box<BoolPredicate>),
    Tautology,
}

/// A side effect of an edge label on a variable, by a value.
#[derive(Debug)]
pub enum SideEffect {
    Increase(String, String),
    Decrease(String, String),
    Multiply(String, String),
    Divide(String, String),
    NoEffect,
}

/// An edge label: the role of the transition, its direction, its payload
/// and the payload's parameters (name and type), its predicate and its
/// side effect.
#[derive(Debug)]
pub struct Label {
    pub role: String,
    pub direction: Direction,
    pub payload: String,
    pub parameters: Vec<(String, String)>,
    pub predicate: BoolPredicate,
    pub side_effect: SideEffect,
}

/// The operand that a node is.
pub open spec fn atom_of(p: ParseNode) -> Result<Atom, ()> {
    match p.rule {
        Rule::Variable => Ok(Atom::Var(p.text)),
        Rule::Constant => Ok(Atom::Const(p.text)),
        _ => Err(()),
    }
}

impl Atom {
    /// Reads an operand.
    pub fn parse(p: &ParseNode) -> (atom: Result<Atom, ()>)
        ensures
            atom == atom_of(*p),
    {
        match p.rule {
            Rule::Variable => Ok(Atom::Var(p.text.clone())),
            Rule::Constant => Ok(Atom::Const(p.text.clone())),
            _ => Err(()),
        }
    }
}

/// The comparison that a node is: an operand, an operator and an operand.
pub open spec fn predicate_of(p: ParseNode) -> Result<Predicate, ()> {
    if p.rule != Rule::Comp {
        Err(())
    } else {
        let inner = p.inner@;
        match (atom_of(inner[0]), atom_of(inner[2])) {
            (Ok(lhs), Ok(rhs)) => match inner[1].rule {
                Rule::Ltn => Ok(Predicate::LTn(lhs, rhs)),
                Rule::Gtn => Ok(Predicate::GTn(lhs, rhs)),
                Rule::Eq => Ok(Predicate::Equal(lhs, rhs)),
                _ => Err(()),
            },
            (Err(e), _) => Err(e),
            (_, Err(e)) => Err(e),
        }
    }
}

/// A comparison is read from its node as written: it is read exactly when
/// both operands are variables or constants and the operator is `<`, `>`
/// or `==`; the comparison has the operator of the operator node, its
/// left operand is the first node and its right operand the third, each a
/// variable or a constant as its node is, with the node's text. The code
/// generated for it compares the same variable, with the same operator,
/// to the same variable or constant.
pub proof fn lemma_comparison_read(p: ParseNode)
    requires
        p.rule == Rule::Comp,
        p.inner@.len() >= 3,
    ensures
        predicate_of(p) is Ok <==> (p.inner@[0].rule == Rule::Variable || p.inner@[0].rule == Rule::Constant)
            && (p.inner@[2].rule == Rule::Variable || p.inner@[2].rule == Rule::Constant) && (p.inner@[1].rule
            == Rule::Ltn || p.inner@[1].rule == Rule::Gtn || p.inner@[1].rule == Rule::Eq),
        predicate_of(p) matches Ok(c) ==> {
            let (lhs, rhs) = match c {
                Predicate::LTn(a, b) => (a, b),
                Predicate::GTn(a, b) => (a, b),
                Predicate::Equal(a, b) => (a, b),
            };
            &&& (c is LTn <==> p.inner@[1].rule == Rule::Ltn)
            &&& (c is GTn <==> p.inner@[1].rule == Rule::Gtn)
            &&& (c is Equal <==> p.inner@[1].rule == Rule::Eq)
            &&& match lhs {
                Atom::Var(t) => p.inner@[0].rule == Rule::Variable && t == p.inner@[0].text,
                Atom::Const(t) => p.inner@[0].rule == Rule::Constant && t == p.inner@[0].text,
            }
            &&& match rhs {
                Atom::Var(t) => p.inner@[2].rule == Rule::Variable && t == p.inner@[2].text,
                Atom::Const(t) => p.inner@[2].rule == Rule::Constant && t == p.inner@[2].text,
            }
        },
        predicate_of(p) matches Ok(c) ==> (p.inner@[0].rule == Rule::Variable ==> {
            let (l, op, r) = (p.inner@[0].text, p.inner@[1].rule, p.inner@[2]);
            match comparison_for(c) {
                protocol::Predicate::LTnVar(a, b, _) => op == Rule::Ltn && a == l && r.rule == Rule::Variable && b == r.text,
                protocol::Predicate::LTnConst(a, b, _) => op == Rule::Ltn && a == l && r.rule == Rule::Constant && b == r.text,
                protocol::Predicate::GTnVar(a, b, _) => op == Rule::Gtn && a == l && r.rule == Rule::Variable && b == r.text,
                protocol::Predicate::GTnConst(a, b, _) => op == Rule::Gtn && a == l && r.rule == Rule::Constant && b == r.text,
                protocol::Predicate::EqualVar(a, b, _) => op == Rule::Eq && a == l && r.rule == Rule::Variable && b == r.text,
                protocol::Predicate::EqualConst(a, b, _) => op == Rule::Eq && a == l && r.rule == Rule::Constant && b == r.text,
                protocol::Predicate::Tautology(_) => false,
            }
        }),
{
}

/// A predicate is read as its node says: a comparison node gives a
/// comparison, a negation node the negation of the predicate inside it,
/// and a disjunction or conjunction node the disjunction or conjunction of
/// the predicates inside it, the second first; nothing else reads.
pub proof fn lemma_predicate_read(p: ParseNode)
    ensures
        bool_predicate_of(p) matches Ok(b) ==> match b {
            BoolPredicate::Normal(c) => p.rule == Rule::Comp && predicate_of(p) == Ok::<Predicate, ()>(c),
            BoolPredicate::Neg(x) => p.rule == Rule::Neg && bool_predicate_of(p.inner@[0].inner@[0]) == Ok::<
                BoolPredicate,
                (),
            >(*x),
            BoolPredicate::Or(x, y) => p.rule == Rule::Or && bool_predicate_of(p.inner@[1].inner@[0]) == Ok::<
                BoolPredicate,
                (),
            >(*x) && bool_predicate_of(p.inner@[0].inner@[0]) == Ok::<BoolPredicate, ()>(*y),
            BoolPredicate::And(x, y) => p.rule == Rule::And && bool_predicate_of(p.inner@[1].inner@[0]) == Ok::<
                BoolPredicate,
                (),
            >(*x) && bool_predicate_of(p.inner@[0].inner@[0]) == Ok::<BoolPredicate, ()>(*y),
            BoolPredicate::Tautology => false,
        },
        p.rule != Rule::Comp && p.rule != Rule::Neg && p.rule != Rule::Or && p.rule != Rule::And
            ==> bool_predicate_of(p) is Err,
{
}

/// A comparison node has its operands and operator.
pub open spec fn comparison_shaped(p: ParseNode) -> bool {
    p.rule == Rule::Comp ==> p.inner@.len() >= 3
}

impl Predicate {
    /// Reads a comparison.
    pub fn parse(p: &ParseNode) -> (predicate: Result<Predicate, ()>)
        requires
            comparison_shaped(*p),
        ensures
            predicate == predicate_of(*p),
    {
        if p.rule == Rule::Comp {
            let lhs = Atom::parse(&p.inner[0])?;
            let op = &p.inner[1];
            let rhs = Atom::parse(&p.inner[2])?;
            match op.rule {
                Rule::Ltn => Ok(Predicate::LTn(lhs, rhs)),
                Rule::Gtn => Ok(Predicate::GTn(lhs, rhs)),
                Rule::Eq => Ok(Predicate::Equal(lhs, rhs)),
                _ => Err(()),
            }
        } else {
            Err(())
        }
    }
}

/// The predicate that a node is: a comparison, or the negation,
/// disjunction or conjunction of the predicates inside it. A disjunction
/// or conjunction puts its second operand first.
pub open spec fn bool_predicate_of(p: ParseNode) -> Result<BoolPredicate, ()>
    decreases p,
{
    let inner = p.inner@;
    match p.rule {
        Rule::Comp => match predicate_of(p) {
            Ok(c) => Ok(BoolPredicate::Normal(c)),
            Err(e) => Err(e),
        },
        Rule::Neg => if inner.len() > 0 && inner[0].rule == Rule::Predicate && inner[0].inner@.len() > 0 {
            match bool_predicate_of(inner[0].inner@[0]) {
                Ok(b) => Ok(BoolPredicate::Neg(Box::new(b))),
                Err(e) => Err(e),
            }
        } else {
            Err(())
        },
        Rule::Or | Rule::And => if inner.len() > 1 && inner[0].rule == Rule::Predicate
            && inner[1].rule == Rule::Predicate && inner[0].inner@.len() > 0
            && inner[1].inner@.len() > 0 {
            match bool_predicate_of(inner[1].inner@[0]) {
                Err(e) => Err(e),
                Ok(rhs) => match bool_predicate_of(inner[0].inner@[0]) {
                    Err(e) => Err(e),
                    Ok(lhs) => if p.rule == Rule::Or {
                        Ok(BoolPredicate::Or(Box::new(rhs), Box::new(lhs)))
                    } else {
                        Ok(BoolPredicate::And(Box::new(rhs), Box::new(lhs)))
                    },
                },
            }
        } else {
            Err(())
        },
        _ => Err(()),
    }
}

/// Every node that reading a predicate looks into has the nodes that it
/// takes from it.
pub open spec fn predicate_shaped(p: ParseNode) -> bool
    decreases p,
{
    let inner = p.inner@;
    match p.rule {
        Rule::Comp => inner.len() >= 3,
        Rule::Neg => inner.len() > 0 && (inner[0].rule == Rule::Predicate ==> inner[0].inner@.len() > 0
            && predicate_shaped(inner[0].inner@[0])),
        Rule::Or | Rule::And => inner.len() > 1 && (inner[0].rule == Rule::Predicate && inner[1].rule
            == Rule::Predicate ==> inner[0].inner@.len() > 0 && inner[1].inner@.len() > 0
            && predicate_shaped(inner[0].inner@[0]) && predicate_shaped(inner[1].inner@[0])),
        _ => true,
    }
}

impl BoolPredicate {
    /// Reads a predicate.
    pub fn parse(p: &ParseNode) -> (predicate: Result<BoolPredicate, ()>)
        requires
            predicate_shaped(*p),
        ensures
            predicate == bool_predicate_of(*p),
        decreases p,
    {
        match p.rule {
            Rule::Comp => {
                let res = BoolPredicate::Normal(Predicate::parse(p)?);
                Ok(res)
            },
            Rule::Neg => {
                let inner = &p.inner[0];
                if inner.rule == Rule::Predicate {
                    let inner = &inner.inner[0];
                    let inner = BoolPredicate::parse(inner)?;
                    Ok(BoolPredicate::Neg(Box::new(inner)))
                } else {
                    Err(())
                }
            },
            Rule::Or | Rule::And => {
                let lhs = &p.inner[0];
                let rhs = &p.inner[1];
                if rhs.rule == Rule::Predicate && lhs.rule == Rule::Predicate {
                    let rhs = BoolPredicate::parse(&rhs.inner[0])?;
                    let lhs = BoolPredicate::parse(&lhs.inner[0])?;
                    if p.rule == Rule::Or {
                        Ok(BoolPredicate::Or(Box::new(rhs), Box::new(lhs)))
                    } else {
                        Ok(BoolPredicate::And(Box::new(rhs), Box::new(lhs)))
                    }
                } else {
                    Err(())
                }
            },
            _ => Err(()),
        }
    }
}

/// The side effect that a node is: a variable, the same variable again,
/// an operator and a value.
pub open spec fn side_effect_of(p: ParseNode) -> Result<SideEffect, ()> {
    let inner = p.inner@;
    let (param, value) = (inner[0].text, inner[3].text);
    match inner[2].rule {
        Rule::Incr => Ok(SideEffect::Increase(param, value)),
        Rule::Decr => Ok(SideEffect::Decrease(param, value)),
        Rule::Mult => Ok(SideEffect::Multiply(param, value)),
        Rule::Div => Ok(SideEffect::Divide(param, value)),
        _ => Err(()),
    }
}

/// A side effect is read from its node as written: `+=`, `-=`, `*=` and
/// `/=` give an increase, a decrease, a multiplication and a division of
/// the variable of the first node by the value of the fourth, and the
/// code generated for it does the same; any other operator is refused.
pub proof fn lemma_side_effect_read(p: ParseNode)
    requires
        p.inner@.len() >= 4,
    ensures
        side_effect_of(p) is Ok <==> (p.inner@[2].rule == Rule::Incr || p.inner@[2].rule == Rule::Decr
            || p.inner@[2].rule == Rule::Mult || p.inner@[2].rule == Rule::Div),
        side_effect_of(p) matches Ok(e) ==> match (e, side_effect_for(e)) {
            (SideEffect::Increase(a, b), protocol::SideEffect::Increase(c, d)) => p.inner@[2].rule == Rule::Incr
                && a == p.inner@[0].text && b == p.inner@[3].text && c == a && d == b,
            (SideEffect::Decrease(a, b), protocol::SideEffect::Decrease(c, d)) => p.inner@[2].rule == Rule::Decr
                && a == p.inner@[0].text && b == p.inner@[3].text && c == a && d == b,
            (SideEffect::Multiply(a, b), protocol::SideEffect::Multiply(c, d)) => p.inner@[2].rule == Rule::Mult
                && a == p.inner@[0].text && b == p.inner@[3].text && c == a && d == b,
            (SideEffect::Divide(a, b), protocol::SideEffect::Divide(c, d)) => p.inner@[2].rule == Rule::Div
                && a == p.inner@[0].text && b == p.inner@[3].text && c == a && d == b,
            _ => false,
        },
{
}

/// A side effect node has its four parts, and names the same variable
/// twice.
pub open spec fn side_effect_shaped(p: ParseNode) -> bool {
    p.inner@.len() >= 4 && p.inner@[0].text@ == p.inner@[1].text@
}

impl SideEffect {
    /// Reads a side effect.
    pub fn parse(p: &ParseNode) -> (effect: Result<SideEffect, ()>)
        requires
            side_effect_shaped(*p),
        ensures
            effect == side_effect_of(*p),
    {
        let param1 = p.inner[0].text.clone();
        let op = &p.inner[2];
        let value = p.inner[3].text.clone();
        match op.rule {
            Rule::Incr => Ok(SideEffect::Increase(param1, value)),
            Rule::Decr => Ok(SideEffect::Decrease(param1, value)),
            Rule::Mult => Ok(SideEffect::Multiply(param1, value)),
            Rule::Div => Ok(SideEffect::Divide(param1, value)),
            _ => Err(()),
        }
    }

    /// The same side effect, for generated code.
    pub fn into(self) -> (effect: protocol::SideEffect)
        ensures
            effect == side_effect_for(self),
    {
        match self {
            SideEffect::Increase(a, b) => protocol::SideEffect::Increase(a, b),
            SideEffect::Decrease(a, b) => protocol::SideEffect::Decrease(a, b),
            SideEffect::Multiply(a, b) => protocol::SideEffect::Multiply(a, b),
            SideEffect::Divide(a, b) => protocol::SideEffect::Divide(a, b),
            SideEffect::NoEffect => protocol::SideEffect::NoEffect,
        }
    }
}

/// The side effect for generated code.
pub open spec fn side_effect_for(e: SideEffect) -> protocol::SideEffect {
    match e {
        SideEffect::Increase(a, b) => protocol::SideEffect::Increase(a, b),
        SideEffect::Decrease(a, b) => protocol::SideEffect::Decrease(a, b),
        SideEffect::Multiply(a, b) => protocol::SideEffect::Multiply(a, b),
        SideEffect::Divide(a, b) => protocol::SideEffect::Divide(a, b),
        SideEffect::NoEffect => protocol::SideEffect::NoEffect,
    }
}

/// The direction for generated code.
pub open spec fn direction_for(d: Direction) -> protocol::Direction {
    match d {
        Direction::Send => protocol::Direction::Send,
        Direction::Receive => protocol::Direction::Receive,
    }
}

/// The comparison for generated code: a variable compared with a variable
/// or with a constant.
pub open spec fn comparison_for(p: Predicate) -> protocol::Predicate {
    let (lhs, rhs) = match p {
        Predicate::LTn(a, b) => (a, b),
        Predicate::GTn(a, b) => (a, b),
        Predicate::Equal(a, b) => (a, b),
    };
    let name = match lhs {
        Atom::Var(name) => name,
        Atom::Const(value) => value,
    };
    match (p, rhs) {
        (Predicate::LTn(_, _), Atom::Var(other)) => protocol::Predicate::LTnVar(name, other, None),
        (Predicate::LTn(_, _), Atom::Const(value)) => protocol::Predicate::LTnConst(name, value, None),
        (Predicate::GTn(_, _), Atom::Var(other)) => protocol::Predicate::GTnVar(name, other, None),
        (Predicate::GTn(_, _), Atom::Const(value)) => protocol::Predicate::GTnConst(name, value, None),
        (Predicate::Equal(_, _), Atom::Var(other)) => protocol::Predicate::EqualVar(name, other, None),
        (Predicate::Equal(_, _), Atom::Const(value)) => protocol::Predicate::EqualConst(
            name,
            value,
            None,
        ),
    }
}

/// The left operand of a comparison is a variable.
pub open spec fn compares_variable(p: Predicate) -> bool {
    match p {
        Predicate::LTn(a, _) => a is Var,
        Predicate::GTn(a, _) => a is Var,
        Predicate::Equal(a, _) => a is Var,
    }
}

impl Predicate {
    /// The same comparison, for generated code.
    pub fn into(self) -> (predicate: protocol::Predicate)
        requires
            compares_variable(self),
        ensures
            predicate == comparison_for(self),
    {
        match self {
            Predicate::LTn(a, b) => match a {
                Atom::Var(a_name) => match b {
                    Atom::Var(b_name) => protocol::Predicate::LTnVar(a_name, b_name, None),
                    Atom::Const(val) => protocol::Predicate::LTnConst(a_name, val, None),
                },
                Atom::Const(_) => protocol::Predicate::Tautology(None),
            },
            Predicate::GTn(a, b) => match a {
                Atom::Var(a_name) => match b {
                    Atom::Var(b_name) => protocol::Predicate::GTnVar(a_name, b_name, None),
                    Atom::Const(val) => protocol::Predicate::GTnConst(a_name, val, None),
                },
                Atom::Const(_) => protocol::Predicate::Tautology(None),
            },
            Predicate::Equal(a, b) => match a {
                Atom::Var(a_name) => match b {
                    Atom::Var(b_name) => protocol::Predicate::EqualVar(a_name, b_name, None),
                    Atom::Const(val) => protocol::Predicate::EqualConst(a_name, val, None),
                },
                Atom::Const(_) => protocol::Predicate::Tautology(None),
            },
        }
    }
}

/// The predicate for generated code, with no label type yet.
pub open spec fn bool_predicate_for(p: BoolPredicate) -> protocol::BoolPredicate
    decreases p,
{
    match p {
        BoolPredicate::Normal(c) => protocol::BoolPredicate::Normal(comparison_for(c)),
        BoolPredicate::And(a, b) => protocol::BoolPredicate::And(
            None,
            Box::new(bool_predicate_for(*a)),
            Box::new(bool_predicate_for(*b)),
        ),
        BoolPredicate::Or(a, b) => protocol::BoolPredicate::Or(
            None,
            Box::new(bool_predicate_for(*a)),
            Box::new(bool_predicate_for(*b)),
        ),
        BoolPredicate::Neg(a) => protocol::BoolPredicate::Neg(None, Box::new(bool_predicate_for(*a))),
        BoolPredicate::Tautology => protocol::BoolPredicate::Normal(
            protocol::Predicate::Tautology(None),
        ),
    }
}

/// Every comparison in the predicate compares a variable.
pub open spec fn compares_variables(p: BoolPredicate) -> bool
    decreases p,
{
    match p {
        BoolPredicate::Normal(c) => compares_variable(c),
        BoolPredicate::And(a, b) => compares_variables(*a) && compares_variables(*b),
        BoolPredicate::Or(a, b) => compares_variables(*a) && compares_variables(*b),
        BoolPredicate::Neg(a) => compares_variables(*a),
        BoolPredicate::Tautology => true,
    }
}

impl BoolPredicate {
    /// Whether every comparison in the predicate compares a variable, as
    /// generated code needs.
    pub fn checks_variables(&self) -> (ok: bool)
        ensures
            ok == compares_variables(*self),
        decreases self,
    {
        match self {
            BoolPredicate::Normal(c) => match c {
                Predicate::LTn(a, _) => matches!(a, Atom::Var(_)),
                Predicate::GTn(a, _) => matches!(a, Atom::Var(_)),
                Predicate::Equal(a, _) => matches!(a, Atom::Var(_)),
            },
            BoolPredicate::And(a, b) => a.checks_variables() && b.checks_variables(),
            BoolPredicate::Or(a, b) => a.checks_variables() && b.checks_variables(),
            BoolPredicate::Neg(a) => a.checks_variables(),
            BoolPredicate::Tautology => true,
        }
    }

    /// The same predicate, for generated code.
    pub fn into(self) -> (predicate: protocol::BoolPredicate)
        requires
            compares_variables(self),
        ensures
            predicate == bool_predicate_for(self),
        decreases self,
    {
        match self {
            BoolPredicate::Normal(pred) => protocol::BoolPredicate::Normal(pred.into()),
            BoolPredicate::And(pred1, pred2) => {
                let lhs: BoolPredicate = *pred1;
                let rhs: BoolPredicate = *pred2;
                protocol::BoolPredicate::And(None, Box::new(lhs.into()), Box::new(rhs.into()))
            },
            BoolPredicate::Or(pred1, pred2) => {
                let lhs: BoolPredicate = *pred1;
                let rhs: BoolPredicate = *pred2;
                protocol::BoolPredicate::Or(None, Box::new(lhs.into()), Box::new(rhs.into()))
            },
            BoolPredicate::Neg(pred) => {
                let inner: BoolPredicate = *pred;
                protocol::BoolPredicate::Neg(None, Box::new(inner.into()))
            },
            BoolPredicate::Tautology => protocol::BoolPredicate::Normal(
                protocol::Predicate::Tautology(None),
            ),
        }
    }
}

/// Pairs of strings as pairs of texts.
pub open spec fn pairs_view(pairs: Seq<(String, String)>) -> Seq<(Seq<char>, Seq<char>)> {
    pairs.map_values(|n: (String, String)| (n.0@, n.1@))
}

/// The parameters that a node lists, as name and type, unless the node
/// matched no text.
pub open spec fn parameters_of(pair: ParseNode) -> Seq<(Seq<char>, Seq<char>)> {
    if pair.text@.len() == 0 {
        Seq::empty()
    } else {
        pair.inner@.map_values(|q: ParseNode| (q.inner@[0].text@, q.inner@[1].text@))
    }
}

/// The predicate and side effect of a label: from the `k`-th node on,
/// the last predicate and the last side effect that the nodes give.
pub open spec fn refinements(
    inner: Seq<ParseNode>,
    k: int,
    predicate: BoolPredicate,
    side_effect: SideEffect,
) -> (BoolPredicate, SideEffect)
    decreases inner.len() - k,
{
    if k < 0 || k >= inner.len() {
        (predicate, side_effect)
    } else {
        let p = inner[k];
        match p.rule {
            Rule::Predicate => if p.inner@.len() > 0 {
                refinements(inner, k + 1, bool_predicate_of(p.inner@[0])->Ok_0, side_effect)
            } else {
                refinements(inner, k + 1, predicate, side_effect)
            },
            Rule::SideEffect => refinements(inner, k + 1, predicate, side_effect_of(p)->Ok_0),
            _ => refinements(inner, k + 1, predicate, side_effect),
        }
    }
}

/// Every predicate and side effect node from the `k`-th on reads
/// without error.
pub open spec fn refinements_read(inner: Seq<ParseNode>, k: int) -> bool {
    forall|i: int|
        k <= i < inner.len() ==> ({
            let p = #[trigger] inner[i];
            &&& p.rule == Rule::Predicate && p.inner@.len() > 0 ==> predicate_shaped(p.inner@[0])
                && bool_predicate_of(p.inner@[0]) is Ok
            &&& p.rule == Rule::SideEffect ==> side_effect_shaped(p) && side_effect_of(p) is Ok
        })
}

/// A label node has its role, direction and payload; its parameters each
/// have a name and a type; and its refinements read without error.
pub open spec fn label_shaped(p: ParseNode) -> bool {
    let inner = p.inner@;
    p.rule == Rule::Label ==> {
        &&& inner.len() >= 3
        &&& (inner[1].rule == Rule::Send || inner[1].rule == Rule::Receive)
        &&& inner.len() > 3 && inner[3].text@.len() > 0 ==> forall|i: int|
            0 <= i < inner[3].inner@.len() ==> (#[trigger] inner[3].inner@[i]).inner@.len() >= 2
        &&& refinements_read(inner, 4)
    }
}

impl Label {
    /// Reads a label.
    pub fn parse(p: &ParseNode) -> (label: Result<Label, ()>)
        requires
            label_shaped(*p),
        ensures
            p.rule == Rule::Label <==> label is Ok,
            label is Ok ==> ({
                let l = label->Ok_0;
                let inner = p.inner@;
                &&& l.role@ == inner[0].text@
                &&& l.direction == (if inner[1].rule == Rule::Send {
                    Direction::Send
                } else {
                    Direction::Receive
                })
                &&& l.payload@ == inner[2].text@
                &&& pairs_view(l.parameters@) == (if inner.len()
                    > 3 {
                    parameters_of(inner[3])
                } else {
                    Seq::empty()
                })
                &&& (l.predicate, l.side_effect) == refinements(
                    inner,
                    4,
                    BoolPredicate::Tautology,
                    SideEffect::NoEffect,
                )
            }),
    {
        if p.rule != Rule::Label {
            return Err(());
        }
        let inner = &p.inner;
        let role = inner[0].text.clone();
        let direction = match Direction::try_from(inner[1].rule) {
            Ok(direction) => direction,
            Err(()) => Direction::Send,
        };
        let payload = inner[2].text.clone();
        let mut parameters: Vec<(String, String)> = Vec::new();
        if inner.len() > 3 && inner[3].text.as_str().unicode_len() != 0 {
            let pair = &inner[3];
            let mut i: usize = 0;
            while i < pair.inner.len()
                invariant
                    pair == &inner@[3],
                    pair.text@.len() > 0,
                    i <= pair.inner@.len(),
                    forall|j: int| 0 <= j < pair.inner@.len() ==> (#[trigger] pair.inner@[j]).inner@.len() >= 2,
                    pairs_view(parameters@) == parameters_of(*pair).subrange(
                        0,
                        i as int,
                    ),
                decreases pair.inner@.len() - i,
            {
                let param = &pair.inner[i];
                let name = param.inner[0].text.clone();
                let typ = param.inner[1].text.clone();
                let ghost before = parameters@;
                parameters.push((name, typ));
                i = i + 1;
                proof {
                    assert(parameters_of(*pair) == pair.inner@.map_values(
                        |q: ParseNode| (q.inner@[0].text@, q.inner@[1].text@),
                    ));
                    assert(parameters_of(*pair)[i - 1] == (name@, typ@));
                    assert(parameters@ =~= before.push((name, typ)));
                    assert(pairs_view(parameters@) =~= pairs_view(before).push((name@, typ@)));
                    assert(pairs_view(parameters@) =~= parameters_of(
                        *pair,
                    ).subrange(0, i as int));
                }
            }
            proof {
                assert(parameters_of(*pair).subrange(0, i as int) =~= parameters_of(*pair));
            }
        } else {
            proof {
                assert(pairs_view(parameters@) =~= Seq::<
                    (Seq<char>, Seq<char>),
                >::empty());
            }
        }
        let mut predicate = BoolPredicate::Tautology;
        let mut side_effect = SideEffect::NoEffect;
        let ghost goal = refinements(inner@, 4, BoolPredicate::Tautology, SideEffect::NoEffect);
        let mut k: usize = 4;
        while k < inner.len()
            invariant
                4 <= k,
                k <= inner@.len() || inner@.len() < 4,
                refinements_read(inner@, 4),
                refinements(inner@, k as int, predicate, side_effect) == goal,
            decreases inner@.len() - k,
        {
            let p = &inner[k];
            match p.rule {
                Rule::Predicate => {
                    if p.inner.len() > 0 {
                        predicate = match BoolPredicate::parse(&p.inner[0]) {
                            Ok(predicate) => predicate,
                            Err(()) => BoolPredicate::Tautology,
                        };
                    }
                },
                Rule::SideEffect => {
                    side_effect = match SideEffect::parse(p) {
                        Ok(effect) => effect,
                        Err(()) => SideEffect::NoEffect,
                    };
                },
                _ => {},
            }
            k = k + 1;
        }
        proof {
            if inner@.len() < 4 {
                assert(refinements(inner@, 4, BoolPredicate::Tautology, SideEffect::NoEffect) == (
                    BoolPredicate::Tautology,
                    SideEffect::NoEffect,
                ));
            }
        }
        Ok(Label { role, direction, payload, parameters, predicate, side_effect })
    }

    /// The parts of the label.
    pub fn fields(self) -> (fields: (String, Direction, String, Vec<(String, String)>, BoolPredicate, SideEffect))
        ensures
            fields == (self.role, self.direction, self.payload, self.parameters, self.predicate, self.side_effect),
    {
        (self.role, self.direction, self.payload, self.parameters, self.predicate, self.side_effect)
    }
}

impl Atom {
    /// A copy of the operand.
    pub fn duplicate(&self) -> (copy: Self)
        ensures
            copy == *self,
    {
        match self {
            Atom::Var(s) => Atom::Var(s.clone()),
            Atom::Const(s) => Atom::Const(s.clone()),
        }
    }
}

impl Predicate {
    /// A copy of the comparison.
    pub fn duplicate(&self) -> (copy: Self)
        ensures
            copy == *self,
    {
        match self {
            Predicate::LTn(a, b) => Predicate::LTn(a.duplicate(), b.duplicate()),
            Predicate::GTn(a, b) => Predicate::GTn(a.duplicate(), b.duplicate()),
            Predicate::Equal(a, b) => Predicate::Equal(a.duplicate(), b.duplicate()),
        }
    }
}

impl BoolPredicate {
    /// A copy of the predicate.
    pub fn duplicate(&self) -> (copy: Self)
        ensures
            copy == *self,
        decreases self,
    {
        match self {
            BoolPredicate::Normal(p) => BoolPredicate::Normal(p.duplicate()),
            BoolPredicate::And(a, b) => BoolPredicate::And(Box::new(a.duplicate()), Box::new(b.duplicate())),
            BoolPredicate::Or(a, b) => BoolPredicate::Or(Box::new(a.duplicate()), Box::new(b.duplicate())),
            BoolPredicate::Neg(a) => BoolPredicate::Neg(Box::new(a.duplicate())),
            BoolPredicate::Tautology => BoolPredicate::Tautology,
        }
    }
}

impl SideEffect {
    /// A copy of the side effect.
    pub fn duplicate(&self) -> (copy: Self)
        ensures
            copy == *self,
    {
        match self {
            SideEffect::Increase(a, b) => SideEffect::Increase(a.clone(), b.clone()),
            SideEffect::Decrease(a, b) => SideEffect::Decrease(a.clone(), b.clone()),
            SideEffect::Multiply(a, b) => SideEffect::Multiply(a.clone(), b.clone()),
            SideEffect::Divide(a, b) => SideEffect::Divide(a.clone(), b.clone()),
            SideEffect::NoEffect => SideEffect::NoEffect,
        }
    }
}

} // verus!
