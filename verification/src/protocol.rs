use vstd::prelude::*;

verus! {

/// Whether a state of a generated role sends or receives.
#[derive(Clone, Copy, Debug, PartialEq, Eq, Structural)]
pub enum Direction {
    Send,
    Receive,
}

/// The index of a role that a role talks to.
#[derive(Debug)]
pub struct Route(pub usize);

/// A comparison that guards a transition of generated code: between two
/// variables or a variable and a constant, with the label type it reads.
#[derive(Debug)]
pub enum Predicate {
    LTnVar(String, String, Option<String>),
    LTnConst(String, String, Option<String>),
    GTnVar(String, String, Option<String>),
    GTnConst(String, String, Option<String>),
    EqualVar(String, String, Option<String>),
    EqualConst(String, String, Option<String>),
    Tautology(Option<String>),
}

/// A predicate of generated code: a comparison, or a conjunction,
/// disjunction or negation of predicates.
#[derive(Debug)]
pub enum BoolPredicate {
    Normal(Predicate),
    And(Option<String>, Box<BoolPredicate>, Box<BoolPredicate>),
    Or(Option<String>, Box<BoolPredicate>, Box<BoolPredicate>),
    Neg(Option<String>, Box<BoolPredicate>),
}

/// A side effect of generated code on a variable, by a value.
#[derive(Debug)]
pub enum SideEffect {
    Increase(String, String),
    Decrease(String, String),
    Multiply(String, String),
    Divide(String, String),
    NoEffect,
}

/// A session type of generated code: the end, a jump to the type named
/// after a state, a message followed by a type, or a choice between
/// messages whose types a definition gives.
#[derive(Debug)]
pub enum Type {
    End,
    Node(usize),
    Message {
        direction: Direction,
        role: usize,
        label: usize,
        predicate: BoolPredicate,
        side_effect: SideEffect,
        next: Box<Type>,
    },
    Choice {
        direction: Direction,
        role: usize,
        node: usize,
        predicate: BoolPredicate,
        side_effect: SideEffect,
    },
}

impl Type {
    /// Whether this is a choice.
    pub fn is_choice(&self) -> (choice: bool)
        ensures
            choice == (self is Choice),
    {
        match self {
            Type::Choice { .. } => true,
            _ => false,
        }
    }
}

/// One branch of a choice: its label, the type that follows, and its
/// predicate.
#[derive(Debug)]
pub struct Choice {
    pub label: usize,
    pub ty: Type,
    pub predicate: BoolPredicate,
}

/// What a definition defines: a type, and whether it is safe to name it
/// directly, or the branches of a choice.
#[derive(Debug)]
pub enum DefinitionBody {
    Type { safe: bool, ty: Type },
    Choice(Vec<Choice>),
}

/// The definition of the type of a state.
#[derive(Debug)]
pub struct Definition {
    pub node: usize,
    pub body: DefinitionBody,
}

/// A role of a generated protocol: its names, the names of its states,
/// the roles it talks to, and the definitions of its types.
#[derive(Debug)]
pub struct Role {
    pub camel: String,
    pub snake: String,
    pub nodes: Vec<String>,
    pub routes: Vec<Route>,
    pub definitions: Vec<Definition>,
}

/// A label of a generated protocol: its name and its parameters, by name
/// and by type.
#[derive(Debug)]
pub struct Label {
    pub camel: String,
    pub param_names: Vec<String>,
    pub parameters: Vec<String>,
}

/// A generated protocol: its name, its roles and its labels.
#[derive(Debug)]
pub struct Protocol {
    pub camel: String,
    pub roles: Vec<Role>,
    pub labels: Vec<Label>,
}

/// The label type that a predicate names: the one it was given, or
/// `Label`.
pub open spec fn label_or_default(label: Option<String>) -> Seq<char> {
    match label {
        Some(l) => l@,
        None => "Label"@,
    }
}

/// A comparison of two variables as the type that checks it.
pub open spec fn var_text(name: Seq<char>, param: String, value: String, label: Option<String>) -> Seq<
    char,
> {
    name + "::<Value, "@ + label_or_default(label) + ", '"@ + param@ + "', '"@ + value@ + "'>"@
}

/// A comparison of a variable and a constant as the type that checks it.
pub open spec fn const_text(name: Seq<char>, param: String, value: String, label: Option<String>) -> Seq<
    char,
> {
    name + "::<"@ + label_or_default(label) + ", '"@ + param@ + "', "@ + value@ + ">"@
}

/// A comparison as the type that checks it.
pub open spec fn predicate_text(p: Predicate) -> Seq<char> {
    match p {
        Predicate::LTnVar(param, value, label) => var_text("LTnVar"@, param, value, label),
        Predicate::LTnConst(param, value, label) => const_text("LTnConst"@, param, value, label),
        Predicate::GTnVar(param, value, label) => var_text("GTnVar"@, param, value, label),
        Predicate::GTnConst(param, value, label) => const_text("GTnConst"@, param, value, label),
        Predicate::EqualVar(param, value, label) => var_text("EqualVar"@, param, value, label),
        Predicate::EqualConst(param, value, label) => const_text(
            "EqualConst"@,
            param,
            value,
            label,
        ),
        Predicate::Tautology(label) => "Tautology::<Name, Value, "@ + label_or_default(label)
            + ">"@,
    }
}

/// A predicate as the type that checks it.
pub open spec fn bool_predicate_text(p: BoolPredicate) -> Seq<char>
    decreases p,
{
    match p {
        BoolPredicate::Normal(a) => predicate_text(a),
        BoolPredicate::Neg(l, a) => "Neg::<"@ + label_or_default(l) + ", "@ + bool_predicate_text(*a)
            + ", Name, Value>"@,
        BoolPredicate::And(_, a, b) => "And<"@ + bool_predicate_text(*a) + ", "@
            + bool_predicate_text(*b) + ">"@,
        BoolPredicate::Or(l, a, b) => "Or<"@ + label_or_default(l) + ", "@ + bool_predicate_text(*a)
            + ", "@ + bool_predicate_text(*b) + ", Name, Value>"@,
    }
}

/// A side effect as the type that makes it.
pub open spec fn effect_text(e: SideEffect) -> Seq<char> {
    match e {
        SideEffect::Increase(param, value) => "Incr<'"@ + param@ + "', "@ + value@ + ">"@,
        SideEffect::Decrease(param, value) => "Decr<'"@ + param@ + "', "@ + value@ + ">"@,
        SideEffect::Multiply(param, value) => "Mult<'"@ + param@ + "', "@ + value@ + ">"@,
        SideEffect::Divide(param, value) => "Div<'"@ + param@ + "', "@ + value@ + ">"@,
        SideEffect::NoEffect => "Constant<Name, Value>"@,
    }
}

/// The comparison with its label type set.
pub open spec fn predicate_with_label(p: Predicate, label: String) -> Predicate {
    match p {
        Predicate::LTnVar(a, b, _) => Predicate::LTnVar(a, b, Some(label)),
        Predicate::LTnConst(a, b, _) => Predicate::LTnConst(a, b, Some(label)),
        Predicate::GTnVar(a, b, _) => Predicate::GTnVar(a, b, Some(label)),
        Predicate::GTnConst(a, b, _) => Predicate::GTnConst(a, b, Some(label)),
        Predicate::EqualVar(a, b, _) => Predicate::EqualVar(a, b, Some(label)),
        Predicate::EqualConst(a, b, _) => Predicate::EqualConst(a, b, Some(label)),
        Predicate::Tautology(_) => Predicate::Tautology(Some(label)),
    }
}

/// The predicate with its label type set everywhere in it.
pub open spec fn with_label(p: BoolPredicate, label: String) -> BoolPredicate
    decreases p,
{
    match p {
        BoolPredicate::Normal(a) => BoolPredicate::Normal(predicate_with_label(a, label)),
        BoolPredicate::Neg(_, a) => BoolPredicate::Neg(Some(label), Box::new(with_label(*a, label))),
        BoolPredicate::And(_, a, b) => BoolPredicate::And(
            Some(label),
            Box::new(with_label(*a, label)),
            Box::new(with_label(*b, label)),
        ),
        BoolPredicate::Or(_, a, b) => BoolPredicate::Or(
            Some(label),
            Box::new(with_label(*a, label)),
            Box::new(with_label(*b, label)),
        ),
    }
}

fn copy_option(s: &Option<String>) -> (copy: Option<String>)
    ensures
        copy == *s,
{
    match s {
        Some(s) => Some(s.clone()),
        None => None,
    }
}

fn push_label(text: &mut String, label: &Option<String>)
    ensures
        final(text)@ == old(text)@ + label_or_default(*label),
{
    match label {
        Some(l) => text.append(l.as_str()),
        None => text.append("Label"),
    }
}

fn push_var(text: &mut String, name: &str, param: &String, value: &String, label: &Option<String>)
    ensures
        final(text)@ == old(text)@ + var_text(name@, *param, *value, *label),
{
    let ghost start = text@;
    text.append(name);
    text.append("::<Value, ");
    push_label(text, label);
    text.append(", '");
    text.append(param.as_str());
    text.append("', '");
    text.append(value.as_str());
    text.append("'>");
    proof {
        assert(text@ =~= start + var_text(name@, *param, *value, *label));
    }
}

fn push_const(text: &mut String, name: &str, param: &String, value: &String, label: &Option<String>)
    ensures
        final(text)@ == old(text)@ + const_text(name@, *param, *value, *label),
{
    let ghost start = text@;
    text.append(name);
    text.append("::<");
    push_label(text, label);
    text.append(", '");
    text.append(param.as_str());
    text.append("', ");
    text.append(value.as_str());
    text.append(">");
    proof {
        assert(text@ =~= start + const_text(name@, *param, *value, *label));
    }
}

impl Predicate {
    /// A copy of the comparison.
    pub fn duplicate(&self) -> (copy: Self)
        ensures
            copy == *self,
    {
        match self {
            Predicate::LTnVar(a, b, l) => Predicate::LTnVar(a.clone(), b.clone(), copy_option(l)),
            Predicate::LTnConst(a, b, l) => Predicate::LTnConst(a.clone(), b.clone(), copy_option(l)),
            Predicate::GTnVar(a, b, l) => Predicate::GTnVar(a.clone(), b.clone(), copy_option(l)),
            Predicate::GTnConst(a, b, l) => Predicate::GTnConst(a.clone(), b.clone(), copy_option(l)),
            Predicate::EqualVar(a, b, l) => Predicate::EqualVar(a.clone(), b.clone(), copy_option(l)),
            Predicate::EqualConst(a, b, l) => Predicate::EqualConst(
                a.clone(),
                b.clone(),
                copy_option(l),
            ),
            Predicate::Tautology(l) => Predicate::Tautology(copy_option(l)),
        }
    }

    /// Sets the label type of the comparison.
    pub fn set_label_str(&mut self, label: String)
        ensures
            *final(self) == predicate_with_label(*old(self), label),
    {
        match self {
            Predicate::LTnVar(_, _, opt) => *opt = Some(label),
            Predicate::LTnConst(_, _, opt) => *opt = Some(label),
            Predicate::GTnVar(_, _, opt) => *opt = Some(label),
            Predicate::GTnConst(_, _, opt) => *opt = Some(label),
            Predicate::EqualVar(_, _, opt) => *opt = Some(label),
            Predicate::EqualConst(_, _, opt) => *opt = Some(label),
            Predicate::Tautology(opt) => *opt = Some(label),
        }
    }

    /// Appends the type that checks the comparison to `text`.
    pub fn render(&self, text: &mut String)
        ensures
            final(text)@ == old(text)@ + predicate_text(*self),
    {
        match self {
            Predicate::LTnVar(param, value, label) => push_var(text, "LTnVar", param, value, label),
            Predicate::GTnVar(param, value, label) => push_var(text, "GTnVar", param, value, label),
            Predicate::EqualVar(param, value, label) => push_var(
                text,
                "EqualVar",
                param,
                value,
                label,
            ),
            Predicate::LTnConst(param, value, label) => push_const(
                text,
                "LTnConst",
                param,
                value,
                label,
            ),
            Predicate::GTnConst(param, value, label) => push_const(
                text,
                "GTnConst",
                param,
                value,
                label,
            ),
            Predicate::EqualConst(param, value, label) => push_const(
                text,
                "EqualConst",
                param,
                value,
                label,
            ),
            Predicate::Tautology(label) => {
                text.append("Tautology::<Name, Value, ");
                push_label(text, label);
                text.append(">");
            },
        }
    }

    /// The type that checks the comparison.
    pub fn to_string(&self) -> (text: String)
        ensures
            text@ == predicate_text(*self),
    {
        let mut text = String::new();
        self.render(&mut text);
        text
    }
}

impl BoolPredicate {
    /// A copy of the predicate.
    pub fn duplicate(&self) -> (copy: Self)
        ensures
            copy == *self,
        decreases self,
    {
        match self {
            BoolPredicate::Normal(p) => BoolPredicate::Normal(p.duplicate()),
            BoolPredicate::And(l, a, b) => BoolPredicate::And(
                copy_option(l),
                Box::new(a.duplicate()),
                Box::new(b.duplicate()),
            ),
            BoolPredicate::Or(l, a, b) => BoolPredicate::Or(
                copy_option(l),
                Box::new(a.duplicate()),
                Box::new(b.duplicate()),
            ),
            BoolPredicate::Neg(l, a) => BoolPredicate::Neg(copy_option(l), Box::new(a.duplicate())),
        }
    }

    /// The predicate with its label type set everywhere in it.
    fn labelled(self, label: String) -> (labelled: Self)
        ensures
            labelled == with_label(self, label),
        decreases self,
    {
        match self {
            BoolPredicate::Normal(mut p) => {
                p.set_label_str(label);
                BoolPredicate::Normal(p)
            },
            BoolPredicate::Neg(_, p) => BoolPredicate::Neg(
                Some(label.clone()),
                Box::new((*p).labelled(label)),
            ),
            BoolPredicate::And(_, p1, p2) => BoolPredicate::And(
                Some(label.clone()),
                Box::new((*p1).labelled(label.clone())),
                Box::new((*p2).labelled(label)),
            ),
            BoolPredicate::Or(_, p1, p2) => BoolPredicate::Or(
                Some(label.clone()),
                Box::new((*p1).labelled(label.clone())),
                Box::new((*p2).labelled(label)),
            ),
        }
    }

    /// Sets the label type everywhere in the predicate.
    pub fn set_label_str(&mut self, label: String)
        ensures
            *final(self) == with_label(*old(self), label),
    {
        let mut taken = BoolPredicate::Normal(Predicate::Tautology(None));
        core::mem::swap(&mut taken, self);
        *self = taken.labelled(label);
    }

    /// Appends the type that checks the predicate to `text`.
    pub fn render(&self, text: &mut String)
        ensures
            final(text)@ == old(text)@ + bool_predicate_text(*self),
        decreases self,
    {
        match self {
            BoolPredicate::Normal(a) => a.render(text),
            BoolPredicate::Neg(l, a) => {
                text.append("Neg::<");
                push_label(text, l);
                text.append(", ");
                a.render(text);
                text.append(", Name, Value>");
            },
            BoolPredicate::And(_, a, b) => {
                text.append("And<");
                a.render(text);
                text.append(", ");
                b.render(text);
                text.append(">");
            },
            BoolPredicate::Or(l, a, b) => {
                text.append("Or<");
                push_label(text, l);
                text.append(", ");
                a.render(text);
                text.append(", ");
                b.render(text);
                text.append(", Name, Value>");
            },
        }
    }

    /// The type that checks the predicate.
    pub fn to_string(&self) -> (text: String)
        ensures
            text@ == bool_predicate_text(*self),
    {
        let mut text = String::new();
        self.render(&mut text);
        text
    }
}

impl SideEffect {
    /// A copy of the side effect.
    pub fn duplicate(&self) -> (copy: Self)
        ensures
            copy == *self,
    {
        match self {
            SideEffect::Increase(a, b) => SideEffect::Increase(a.clone(), b.clone()),
            SideEffect::Decrease(a, b) => SideEffect::Decrease(a.clone(), b.clone()),
            SideEffect::Multiply(a, b) => SideEffect::Multiply(a.clone(), b.clone()),
            SideEffect::Divide(a, b) => SideEffect::Divide(a.clone(), b.clone()),
            SideEffect::NoEffect => SideEffect::NoEffect,
        }
    }
}

/// Whether every index that `ty` holds names a role, a label with a
/// parameter, or a state of `role`.
pub open spec fn formattable(ty: Type, role: Role, roles: Seq<Role>, labels: Seq<Label>) -> bool
    decreases ty,
{
    match ty {
        Type::End => true,
        Type::Node(n) => n > 0 ==> n < role.nodes@.len(),
        Type::Message { role: r, label, next, .. } => {
            &&& r < roles.len()
            &&& label < labels.len()
            &&& labels[label as int].param_names@.len() > 0
            &&& formattable(*next, role, roles, labels)
        },
        Type::Choice { role: r, node, .. } => r < roles.len() && node < role.nodes@.len(),
    }
}

/// A session type as the Rust type that generated code names it by. `name`
/// is the protocol's name and `role` the role whose type it is.
pub open spec fn type_text(
    ty: Type,
    name: Seq<char>,
    role: Role,
    roles: Seq<Role>,
    labels: Seq<Label>,
) -> Seq<char>
    decreases ty,
{
    match ty {
        Type::End => "End"@,
        Type::Node(n) => if n > 0 {
            name + role.camel@ + role.nodes@[n as int]@
        } else {
            name + role.camel@
        },
        Type::Message { direction, role: r, label, predicate, side_effect, next } => {
            let l = labels[label as int];
            let head = match direction {
                Direction::Send => "Send<"@,
                Direction::Receive => "Receive<"@,
            };
            head + roles[r as int].camel@ + ", '"@ + l.param_names@[0]@ + "', "@ + l.camel@ + ", "@
                + bool_predicate_text(with_label(predicate, l.camel)) + ", "@ + effect_text(
                side_effect,
            ) + ", "@ + type_text(*next, name, role, roles, labels) + ">"@
        },
        Type::Choice { direction, role: r, node, predicate, side_effect } => {
            let full = name + role.camel@ + role.nodes@[node as int]@;
            match direction {
                Direction::Send => "Select<"@ + roles[r as int].camel@ + ", "@ + full
                    + "Predicate, "@ + effect_text(side_effect) + ", "@ + full + ">"@,
                Direction::Receive => "Branch<"@ + roles[r as int].camel@ + ", "@
                    + bool_predicate_text(predicate) + ", "@ + effect_text(side_effect) + ", "@
                    + full + ">"@,
            }
        },
    }
}

/// Writes a session type as the Rust type that generated code names it
/// by, for role `role` of protocol `name`.
pub struct TypeFormatter<'a> {
    pub ty: &'a Type,
    pub name: &'a str,
    pub role: &'a Role,
    pub roles: &'a [Role],
    pub labels: &'a [Label],
}

impl<'a> TypeFormatter<'a> {
    /// A formatter of `ty` for the same role and protocol.
    pub fn with(&self, ty: &'a Type) -> (formatter: Self)
        ensures
            *formatter.ty == *ty,
            formatter.name@ == self.name@,
            *formatter.role == *self.role,
            formatter.roles@ == self.roles@,
            formatter.labels@ == self.labels@,
    {
        Self { ty, name: self.name, role: self.role, roles: self.roles, labels: self.labels }
    }

    /// The name of role `role`.
    pub fn role(&self, role: usize) -> (name: &String)
        requires
            role < self.roles@.len(),
        ensures
            *name == self.roles@[role as int].camel,
    {
        &self.roles[role].camel
    }

    /// The name of label `label`.
    pub fn label(&self, label: usize) -> (name: &String)
        requires
            label < self.labels@.len(),
        ensures
            *name == self.labels@[label as int].camel,
    {
        &self.labels[label].camel
    }

    /// The names of the parameters of label `label`.
    pub fn param_names(&self, label: usize) -> (names: &Vec<String>)
        requires
            label < self.labels@.len(),
        ensures
            *names == self.labels@[label as int].param_names,
    {
        &self.labels[label].param_names
    }

    /// The name of state `node` of the role.
    pub fn node(&self, node: usize) -> (name: &String)
        requires
            node < self.role.nodes@.len(),
        ensures
            *name == self.role.nodes@[node as int],
    {
        &self.role.nodes[node]
    }

    /// The type that checks `predicate`.
    pub fn boolpred(&self, predicate: &BoolPredicate) -> (text: String)
        ensures
            text@ == bool_predicate_text(*predicate),
    {
        predicate.to_string()
    }

    /// The type that makes `side_effect`.
    pub fn effect(&self, side_effect: &SideEffect) -> (text: String)
        ensures
            text@ == effect_text(*side_effect),
    {
        let (mut effect, param, value) = match side_effect {
            SideEffect::Increase(param, value) => (String::from_str("Incr<'"), param, value),
            SideEffect::Decrease(param, value) => (String::from_str("Decr<'"), param, value),
            SideEffect::Multiply(param, value) => (String::from_str("Mult<'"), param, value),
            SideEffect::Divide(param, value) => (String::from_str("Div<'"), param, value),
            SideEffect::NoEffect => return String::from_str("Constant<Name, Value>"),
        };
        effect.append(param.as_str());
        effect.append("', ");
        effect.append(value.as_str());
        effect.append(">");
        effect
    }

    /// The start of the type of a message: its kind, its role, parameter,
    /// label, predicate and side effect.
    fn message_head(
        &self,
        direction: Direction,
        role: usize,
        label: usize,
        predicate: &BoolPredicate,
        side_effect: &SideEffect,
    ) -> (head: String)
        requires
            role < self.roles@.len(),
            label < self.labels@.len(),
            self.labels@[label as int].param_names@.len() > 0,
        ensures
            head@ == ({
                let l = self.labels@[label as int];
                (match direction {
                    Direction::Send => "Send<"@,
                    Direction::Receive => "Receive<"@,
                }) + self.roles@[role as int].camel@ + ", '"@ + l.param_names@[0]@ + "', "@ + l.camel@
                    + ", "@ + bool_predicate_text(with_label(*predicate, l.camel)) + ", "@
                    + effect_text(*side_effect) + ", "@
            }),
    {
        let other = self.role(role);
        let param_name = &self.param_names(label)[0];
        let label = self.label(label);
        let effect = self.effect(side_effect);
        let mut predicate = predicate.duplicate();
        predicate.set_label_str(label.clone());
        let pred = self.boolpred(&predicate);
        let mut head = match direction {
            Direction::Send => String::from_str("Send<"),
            Direction::Receive => String::from_str("Receive<"),
        };
        let ghost start = head@;
        head.append(other.as_str());
        head.append(", '");
        head.append(param_name.as_str());
        head.append("', ");
        head.append(label.as_str());
        head.append(", ");
        head.append(pred.as_str());
        head.append(", ");
        head.append(effect.as_str());
        head.append(", ");
        proof {
            assert(head@ =~= start + other@ + ", '"@ + param_name@ + "', "@ + label@ + ", "@ + pred@
                + ", "@ + effect@ + ", "@);
        }
        head
    }

    /// The type of a choice.
    fn choice_text(
        &self,
        direction: Direction,
        role: usize,
        node: usize,
        predicate: &BoolPredicate,
        side_effect: &SideEffect,
    ) -> (text: String)
        requires
            role < self.roles@.len(),
            node < self.role.nodes@.len(),
        ensures
            text@ == type_text(
                Type::Choice { direction, role, node, predicate: *predicate, side_effect: *side_effect },
                self.name@,
                *self.role,
                self.roles@,
                self.labels@,
            ),
    {
        let other = self.role(role);
        let node = self.node(node);
        let effect = self.effect(side_effect);
        let mut full = String::from_str(self.name);
        full.append(self.role.camel.as_str());
        full.append(node.as_str());
        match direction {
            Direction::Send => {
                let mut text = String::from_str("Select<");
                let ghost start = text@;
                text.append(other.as_str());
                text.append(", ");
                text.append(full.as_str());
                text.append("Predicate, ");
                text.append(effect.as_str());
                text.append(", ");
                text.append(full.as_str());
                text.append(">");
                proof {
                    assert(text@ =~= start + other@ + ", "@ + full@ + "Predicate, "@ + effect@ + ", "@
                        + full@ + ">"@);
                }
                text
            },
            Direction::Receive => {
                let pred = self.boolpred(predicate);
                let mut text = String::from_str("Branch<");
                let ghost start = text@;
                text.append(other.as_str());
                text.append(", ");
                text.append(pred.as_str());
                text.append(", ");
                text.append(effect.as_str());
                text.append(", ");
                text.append(full.as_str());
                text.append(">");
                proof {
                    assert(text@ =~= start + other@ + ", "@ + pred@ + ", "@ + effect@ + ", "@ + full@
                        + ">"@);
                }
                text
            },
        }
    }

    /// Whether every index that the type holds names a role, a label with a
    /// parameter, or a state of the role: whether it can be written.
    pub fn is_formattable(&self) -> (ok: bool)
        ensures
            ok == formattable(*self.ty, *self.role, self.roles@, self.labels@),
        decreases *self.ty,
    {
        match self.ty {
            Type::End => true,
            Type::Node(node) => *node == 0 || *node < self.role.nodes.len(),
            Type::Message { role, label, next, .. } => {
                *role < self.roles.len() && *label < self.labels.len()
                    && self.labels[*label].param_names.len() > 0 && self.with(&**next).is_formattable()
            },
            Type::Choice { role, node, .. } => *role < self.roles.len() && *node < self.role.nodes.len(),
        }
    }

    /// Appends the type, as `type_text` writes it, to `text`.
    pub fn render(&self, text: &mut String)
        requires
            formattable(*self.ty, *self.role, self.roles@, self.labels@),
        ensures
            final(text)@ == old(text)@ + type_text(
                *self.ty,
                self.name@,
                *self.role,
                self.roles@,
                self.labels@,
            ),
        decreases *self.ty,
    {
        match self.ty {
            Type::End => text.append("End"),
            Type::Node(node) => {
                let ghost start = text@;
                text.append(self.name);
                text.append(self.role.camel.as_str());
                if *node > 0 {
                    text.append(self.node(*node).as_str());
                }
                proof {
                    assert(text@ =~= start + type_text(
                        *self.ty,
                        self.name@,
                        *self.role,
                        self.roles@,
                        self.labels@,
                    ));
                }
            },
            Type::Message { direction, role, label, predicate, side_effect, next } => {
                let head = self.message_head(*direction, *role, *label, predicate, side_effect);
                let next = self.with(&**next);
                let ghost start = text@;
                text.append(head.as_str());
                next.render(text);
                text.append(">");
                proof {
                    assert(text@ =~= start + type_text(
                        *self.ty,
                        self.name@,
                        *self.role,
                        self.roles@,
                        self.labels@,
                    ));
                }
            },
            Type::Choice { direction, role, node, predicate, side_effect } => {
                let choice = self.choice_text(*direction, *role, *node, predicate, side_effect);
                text.append(choice.as_str());
            },
        }
    }

    /// The type, as `type_text` writes it.
    pub fn to_string(&self) -> (text: String)
        requires
            formattable(*self.ty, *self.role, self.roles@, self.labels@),
        ensures
            text@ == type_text(*self.ty, self.name@, *self.role, self.roles@, self.labels@),
    {
        let mut text = String::new();
        self.render(&mut text);
        text
    }
}

} // verus!
