use crate::fsm::{Action, Fsm, StateIndex, Transition};
use crate::lexer::{chars_of, kind_name, lex, text_of, models, tokens, Lexeme, Token, TokenKind, TokenModel};
use crate::token::{listing, push_listing};
use vstd::prelude::*;

verus! {

/// A transition written as text: role, action and label as characters.
pub type TextTransition = Transition<Seq<char>, Seq<char>>;

/// A transition statement: the names of its two states and its transition.
pub type Statement = (Seq<char>, Seq<char>, TextTransition);

/// Why a state machine could not be read, as plain values.
pub enum ErrorModel {
    Unexpected(Seq<TokenKind>, Option<Seq<char>>),
    DuplicateState(Seq<char>),
    DuplicateTransition,
    UndefinedState(Seq<char>),
    Transition(&'static str),
}

/// A state machine as plain values: its role, what each state offers (the
/// role and action of its transitions, or nothing for a final state), and
/// its edges in the order in which they were added.
pub struct Machine {
    pub role: Seq<char>,
    pub choices: Seq<Option<(Seq<char>, Action)>>,
    pub edges: Seq<(nat, Seq<char>, nat)>,
}

/// The state machine that `fsm` is.
pub open spec fn machine_of(fsm: Fsm<String, String>) -> Machine {
    Machine {
        role: fsm.spec_role()@,
        choices: Seq::new(
            fsm.num_states(),
            |s: int|
                match fsm.choices_at(s as nat) {
                    Some(choice) => Some((choice.0@, choice.1)),
                    None => None,
                },
        ),
        edges: fsm.spec_edges().map_values(|e: (nat, String, nat)| (e.0, e.1@, e.2)),
    }
}

/// Reading one token of a kind among `expected` at `p`: the token, or the
/// error that names what was expected and what was found (nothing at the
/// end of the input), and the position after it.
pub open spec fn expect_at(t: Seq<TokenModel>, p: int, expected: Seq<TokenKind>) -> (
    Result<TokenModel, ErrorModel>,
    int,
) {
    if p < 0 || p >= t.len() {
        (Err(ErrorModel::Unexpected(expected, None)), p)
    } else if expected.contains(t[p].kind) {
        (Ok(t[p]), p + 1)
    } else {
        (Err(ErrorModel::Unexpected(expected, Some(t[p].raw))), p + 1)
    }
}

pub open spec fn is_mark(c: char) -> bool {
    c == '?' || c == '!'
}

/// The positions of `?` and `!` in `s[lo..hi]`, in order.
pub open spec fn marks(s: Seq<char>, lo: int, hi: int) -> Seq<int>
    decreases hi - lo,
{
    if lo >= hi {
        Seq::empty()
    } else if is_mark(s[lo]) {
        seq![lo] + marks(s, lo + 1, hi)
    } else {
        marks(s, lo + 1, hi)
    }
}

/// The transition that a label writes as role, `?` or `!`, and label: one
/// mark, neither first nor last, splits it.
pub open spec fn transition_of(s: Seq<char>) -> Option<TextTransition> {
    let m = marks(s, 1, s.len() - 1);
    if m.len() == 1 {
        let i = m[0];
        Some(
            Transition {
                role: s.subrange(0, i),
                action: if s[i] == '?' {
                    Action::Input
                } else {
                    Action::Output
                },
                label: s.subrange(i + 1, s.len() as int),
            },
        )
    } else {
        None
    }
}

/// The rest of a transition statement after `left ->`, at `p`.
pub open spec fn edge_statement(
    t: Seq<TokenModel>,
    p: int,
    left: Seq<char>,
    statements: Seq<Statement>,
) -> (Result<Statement, ErrorModel>, int) {
    let (right, p1) = expect_at(t, p, seq![TokenKind::Identifier]);
    let (square, p2) = expect_at(t, p1, seq![TokenKind::LeftSquare]);
    let (label, p3) = expect_at(t, p2, seq![TokenKind::Label]);
    let (equal, p4) = expect_at(t, p3, seq![TokenKind::Equal]);
    let (text, p5) = expect_at(t, p4, seq![TokenKind::Identifier]);
    if right is Err {
        (Err(right->Err_0), p1)
    } else if square is Err {
        (Err(square->Err_0), p2)
    } else if label is Err {
        (Err(label->Err_0), p3)
    } else if equal is Err {
        (Err(equal->Err_0), p4)
    } else if text is Err {
        (Err(text->Err_0), p5)
    } else {
        let text = text->Ok_0.text;
        match transition_of(text) {
            None => (Err(ErrorModel::Unexpected(seq![TokenKind::Transition], Some(text))), p5),
            Some(transition) => {
                let statement = (left, right->Ok_0.text, transition);
                if statements.contains(statement) {
                    (Err(ErrorModel::DuplicateTransition), p5)
                } else {
                    let p6 = if 0 <= p5 < t.len() && t[p5].kind == TokenKind::Comma {
                        p5 + 1
                    } else {
                        p5
                    };
                    let (close, p7) = expect_at(t, p6, seq![TokenKind::RightSquare]);
                    let (end, p8) = expect_at(t, p7, seq![TokenKind::Semicolon]);
                    if close is Err {
                        (Err(close->Err_0), p7)
                    } else if end is Err {
                        (Err(end->Err_0), p8)
                    } else {
                        (Ok(statement), p8)
                    }
                }
            },
        }
    }
}

/// The statements of a machine from `p` to its closing brace: the names
/// of its states and its transition statements, in order, after those
/// already read.
pub open spec fn statements(
    t: Seq<TokenModel>,
    p: int,
    names: Seq<Seq<char>>,
    edges: Seq<Statement>,
) -> (Result<(Seq<Seq<char>>, Seq<Statement>), ErrorModel>, int)
    decreases t.len() - p,
{
    let (first, p1) = expect_at(t, p, seq![TokenKind::RightBrace, TokenKind::Identifier]);
    match first {
        Err(e) => (Err(e), p1),
        Ok(token) => if token.kind == TokenKind::RightBrace {
            (Ok((names, edges)), p1)
        } else {
            let (second, p2) = expect_at(t, p1, seq![TokenKind::Semicolon, TokenKind::Arrow]);
            match second {
                Err(e) => (Err(e), p2),
                Ok(separator) => if separator.kind == TokenKind::Semicolon {
                    if names.contains(token.text) {
                        (Err(ErrorModel::DuplicateState(token.text)), p2)
                    } else if p < p2 <= t.len() {
                        statements(t, p2, names.push(token.text), edges)
                    } else {
                        (Ok((names, edges)), p2)
                    }
                } else {
                    let (statement, q) = edge_statement(t, p2, token.text, edges);
                    match statement {
                        Err(e) => (Err(e), q),
                        Ok(statement) => if p < q <= t.len() {
                            statements(t, q, names, edges.push(statement))
                        } else {
                            (Ok((names, edges)), q)
                        },
                    }
                },
            }
        },
    }
}

/// The first position from `i` on where `names` holds `x`.
pub open spec fn find_from(names: Seq<Seq<char>>, x: Seq<char>, i: int) -> Option<nat>
    decreases names.len() - i,
{
    if i < 0 || i >= names.len() {
        None
    } else if names[i] == x {
        Some(i as nat)
    } else {
        find_from(names, x, i + 1)
    }
}

/// Why a state machine of `role` whose states offer `choices` refuses
/// `transition` out of `from`, if it does.
pub open spec fn add_error(
    role: Seq<char>,
    choices: Seq<Option<(Seq<char>, Action)>>,
    from: nat,
    transition: TextTransition,
) -> Option<&'static str> {
    if transition.role == role {
        Some(crate::fsm::OWN_ROLE)
    } else {
        match choices[from as int] {
            None => None,
            Some(choice) => if transition.role != choice.0 {
                Some(crate::fsm::MULTIPLE_ROLES)
            } else if transition.action != choice.1 {
                Some(crate::fsm::SEND_AND_RECEIVE)
            } else {
                None
            },
        }
    }
}

/// Adds the transition statements from the `k`-th on to a machine of
/// `role` whose states are `names`, in order: each names two defined
/// states, and the machine accepts each transition.
pub open spec fn install(
    role: Seq<char>,
    names: Seq<Seq<char>>,
    edges: Seq<Statement>,
    k: int,
    choices: Seq<Option<(Seq<char>, Action)>>,
    added: Seq<(nat, Seq<char>, nat)>,
) -> Result<(Seq<Option<(Seq<char>, Action)>>, Seq<(nat, Seq<char>, nat)>), ErrorModel>
    decreases edges.len() - k,
{
    if k < 0 || k >= edges.len() {
        Ok((choices, added))
    } else {
        let (from, to, transition) = edges[k];
        match find_from(names, from, 0) {
            None => Err(ErrorModel::UndefinedState(from)),
            Some(f) => match find_from(names, to, 0) {
                None => Err(ErrorModel::UndefinedState(to)),
                Some(g) => match add_error(role, choices, f, transition) {
                    Some(e) => Err(ErrorModel::Transition(e)),
                    None => install(
                        role,
                        names,
                        edges,
                        k + 1,
                        if choices[f as int] is None {
                            choices.update(f as int, Some((transition.role, transition.action)))
                        } else {
                            choices
                        },
                        added.push((f, transition.label, g)),
                    ),
                },
            },
        }
    }
}

/// A machine of `role` from what its body holds: the names of its states
/// and its transition statements, or why the body cannot be read.
pub open spec fn finish(
    role: Seq<char>,
    body: (Result<(Seq<Seq<char>>, Seq<Statement>), ErrorModel>, int),
) -> (Result<Machine, ErrorModel>, int) {
    match body.0 {
        Err(e) => (Err(e), body.1),
        Ok(parts) => {
            let (names, edges) = parts;
            let none = Seq::new(names.len(), |i: int| None::<(Seq<char>, Action)>);
            match install(role, names, edges, 0, none, Seq::empty()) {
                Err(e) => (Err(e), body.1),
                Ok(built) => (Ok(Machine { role, choices: built.0, edges: built.1 }), body.1),
            }
        },
    }
}

/// The state machine written from `p` on, or why it cannot be read, and
/// where reading stopped.
pub open spec fn machine(t: Seq<TokenModel>, p: int) -> (Result<Machine, ErrorModel>, int) {
    let (digraph, p1) = expect_at(t, p, seq![TokenKind::Digraph]);
    let (role, p2) = expect_at(t, p1, seq![TokenKind::Identifier]);
    let (brace, p3) = expect_at(t, p2, seq![TokenKind::LeftBrace]);
    if digraph is Err {
        (Err(digraph->Err_0), p1)
    } else if role is Err {
        (Err(role->Err_0), p2)
    } else if brace is Err {
        (Err(brace->Err_0), p3)
    } else {
        finish(role->Ok_0.text, statements(t, p3, Seq::empty(), Seq::empty()))
    }
}

proof fn lemma_expect_at(t: Seq<TokenModel>, p: int, expected: Seq<TokenKind>)
    requires
        0 <= p <= t.len(),
    ensures
        p <= expect_at(t, p, expected).1 <= t.len(),
        p < t.len() ==> expect_at(t, p, expected).1 == p + 1,
{
}

proof fn lemma_edge_statement(t: Seq<TokenModel>, p: int, left: Seq<char>, edges: Seq<Statement>)
    requires
        0 <= p <= t.len(),
    ensures
        p <= edge_statement(t, p, left, edges).1 <= t.len(),
{
    let (right, p1) = expect_at(t, p, seq![TokenKind::Identifier]);
    lemma_expect_at(t, p, seq![TokenKind::Identifier]);
    lemma_expect_at(t, p1, seq![TokenKind::LeftSquare]);
    let p2 = expect_at(t, p1, seq![TokenKind::LeftSquare]).1;
    lemma_expect_at(t, p2, seq![TokenKind::Label]);
    let p3 = expect_at(t, p2, seq![TokenKind::Label]).1;
    lemma_expect_at(t, p3, seq![TokenKind::Equal]);
    let p4 = expect_at(t, p3, seq![TokenKind::Equal]).1;
    lemma_expect_at(t, p4, seq![TokenKind::Identifier]);
    let p5 = expect_at(t, p4, seq![TokenKind::Identifier]).1;
    let p6 = if 0 <= p5 < t.len() && t[p5].kind == TokenKind::Comma {
        p5 + 1
    } else {
        p5
    };
    lemma_expect_at(t, p6, seq![TokenKind::RightSquare]);
    let p7 = expect_at(t, p6, seq![TokenKind::RightSquare]).1;
    lemma_expect_at(t, p7, seq![TokenKind::Semicolon]);
}

proof fn lemma_statements(t: Seq<TokenModel>, p: int, names: Seq<Seq<char>>, edges: Seq<Statement>)
    requires
        0 <= p <= t.len(),
    ensures
        p <= statements(t, p, names, edges).1 <= t.len(),
    decreases t.len() - p,
{
    lemma_expect_at(t, p, seq![TokenKind::RightBrace, TokenKind::Identifier]);
    let (first, p1) = expect_at(t, p, seq![TokenKind::RightBrace, TokenKind::Identifier]);
    lemma_expect_at(t, p1, seq![TokenKind::Semicolon, TokenKind::Arrow]);
    let (second, p2) = expect_at(t, p1, seq![TokenKind::Semicolon, TokenKind::Arrow]);
    if first is Ok && first->Ok_0.kind != TokenKind::RightBrace && second is Ok {
        if second->Ok_0.kind == TokenKind::Semicolon {
            if !names.contains(first->Ok_0.text) && p < p2 <= t.len() {
                lemma_statements(t, p2, names.push(first->Ok_0.text), edges);
            }
        } else {
            lemma_edge_statement(t, p2, first->Ok_0.text, edges);
            let (statement, q) = edge_statement(t, p2, first->Ok_0.text, edges);
            if statement is Ok && p < q <= t.len() {
                lemma_statements(t, q, names, edges.push(statement->Ok_0));
            }
        }
    }
}

/// Reading a machine from a token on moves past that token, and stays
/// within the tokens.
proof fn lemma_machine_advances(t: Seq<TokenModel>, p: int)
    requires
        0 <= p < t.len(),
    ensures
        p < machine(t, p).1 <= t.len(),
{
    lemma_expect_at(t, p, seq![TokenKind::Digraph]);
    let p1 = expect_at(t, p, seq![TokenKind::Digraph]).1;
    lemma_expect_at(t, p1, seq![TokenKind::Identifier]);
    let p2 = expect_at(t, p1, seq![TokenKind::Identifier]).1;
    lemma_expect_at(t, p2, seq![TokenKind::LeftBrace]);
    let p3 = expect_at(t, p2, seq![TokenKind::LeftBrace]).1;
    lemma_statements(t, p3, Seq::empty(), Seq::empty());
}

/// The machines written in `t` from `p` on, one after the other until
/// the tokens run out.
pub open spec fn machines(t: Seq<TokenModel>, p: int) -> Seq<Result<Machine, ErrorModel>>
    decreases t.len() - p,
{
    if p < 0 || p >= t.len() {
        Seq::empty()
    } else {
        let (result, q) = machine(t, p);
        if p < q <= t.len() {
            seq![result] + machines(t, q)
        } else {
            seq![result]
        }
    }
}

/// The machines written in `input`.
pub open spec fn parsed(input: Seq<char>) -> Seq<Result<Machine, ErrorModel>> {
    machines(tokens(input), 0)
}

/// A token that came where another was expected.
#[derive(Debug)]
pub struct UnexpectedTokenError {
    expected: Vec<TokenKind>,
    actual: Option<String>,
}

impl UnexpectedTokenError {
    pub closed spec fn spec_expected(&self) -> Seq<TokenKind> {
        self.expected@
    }

    pub closed spec fn spec_actual(&self) -> Option<Seq<char>> {
        match self.actual {
            Some(actual) => Some(actual@),
            None => None,
        }
    }

    /// An error that expected one of `expected` and found `actual`, or the
    /// end of the input where `actual` is `None`.
    pub fn new(expected: Vec<TokenKind>, actual: Option<String>) -> (error: Self)
        requires
            expected@.len() > 0,
        ensures
            error.spec_expected() == expected@,
            error.spec_actual() == (match actual {
                Some(a) => Some(a@),
                None => None,
            }),
    {
        Self { expected, actual }
    }

    pub open spec fn model(&self) -> ErrorModel {
        ErrorModel::Unexpected(self.spec_expected(), self.spec_actual())
    }

    /// The kinds of token that were expected.
    pub fn expected(&self) -> (expected: &Vec<TokenKind>)
        ensures
            expected@ == self.spec_expected(),
    {
        &self.expected
    }
}

/// Why a state machine could not be read.
#[derive(Debug)]
pub enum ParseError {
    UnexpectedToken(UnexpectedTokenError),
    DuplicateState(String),
    DuplicateTransition,
    UndefinedState(String),
    Transition(&'static str),
}

impl ParseError {
    pub open spec fn model(&self) -> ErrorModel {
        match self {
            ParseError::UnexpectedToken(e) => e.model(),
            ParseError::DuplicateState(s) => ErrorModel::DuplicateState(s@),
            ParseError::DuplicateTransition => ErrorModel::DuplicateTransition,
            ParseError::UndefinedState(s) => ErrorModel::UndefinedState(s@),
            ParseError::Transition(e) => ErrorModel::Transition(*e),
        }
    }
}

/// What a result of reading one machine is, as plain values.
pub open spec fn result_model(result: Result<Fsm<String, String>, ParseError>) -> Result<
    Machine,
    ErrorModel,
> {
    match result {
        Ok(fsm) => Ok(machine_of(fsm)),
        Err(e) => Err(e.model()),
    }
}

pub open spec fn results_model(results: Seq<Result<Fsm<String, String>, ParseError>>) -> Seq<
    Result<Machine, ErrorModel>,
> {
    results.map_values(|r: Result<Fsm<String, String>, ParseError>| result_model(r))
}

pub open spec fn names_model(names: Seq<String>) -> Seq<Seq<char>> {
    names.map_values(|s: String| s@)
}

pub open spec fn transition_model(transition: Transition<String, String>) -> TextTransition {
    Transition { role: transition.role@, action: transition.action, label: transition.label@ }
}

pub open spec fn statements_model(edges: Seq<(String, String, Transition<String, String>)>) -> Seq<
    Statement,
> {
    edges.map_values(
        |e: (String, String, Transition<String, String>)| (e.0@, e.1@, transition_model(e.2)),
    )
}

fn one(kind: TokenKind) -> (kinds: Vec<TokenKind>)
    ensures
        kinds@ == seq![kind],
{
    let mut kinds = Vec::new();
    kinds.push(kind);
    proof {
        assert(kinds@ =~= seq![kind]);
    }
    kinds
}

fn two(first: TokenKind, second: TokenKind) -> (kinds: Vec<TokenKind>)
    ensures
        kinds@ == seq![first, second],
{
    let mut kinds = Vec::new();
    kinds.push(first);
    kinds.push(second);
    proof {
        assert(kinds@ =~= seq![first, second]);
    }
    kinds
}

fn kind_in(kind: TokenKind, expected: &Vec<TokenKind>) -> (found: bool)
    ensures
        found == expected@.contains(kind),
{
    let mut i: usize = 0;
    while i < expected.len()
        invariant
            i <= expected@.len(),
            forall|k: int| 0 <= k < i ==> expected@[k] != kind,
        decreases expected@.len() - i,
    {
        if expected[i] == kind {
            return true;
        }
        i = i + 1;
    }
    false
}

/// Reads one token of a kind among `expected` at `p`: its position, or the
/// error, and the position after it.
fn expect(tokens: &Vec<Lexeme>, p: usize, expected: Vec<TokenKind>) -> (r: (
    Result<usize, UnexpectedTokenError>,
    usize,
))
    requires
        p <= tokens@.len(),
        expected@.len() > 0,
    ensures
        r.1 == expect_at(models(tokens@), p as int, expected@).1,
        match expect_at(models(tokens@), p as int, expected@).0 {
            Ok(_) => r.0 == Ok::<usize, UnexpectedTokenError>(p) && p < tokens@.len(),
            Err(e) => r.0 is Err && r.0->Err_0.model() == e,
        },
        r.1 <= tokens@.len(),
{
    if p >= tokens.len() {
        return (Err(UnexpectedTokenError::new(expected, None)), p);
    }
    let kind = tokens[p].token.kind();
    if kind_in(kind, &expected) {
        (Ok(p), p + 1)
    } else {
        let actual = tokens[p].slice.clone();
        (Err(UnexpectedTokenError::new(expected, Some(actual))), p + 1)
    }
}

/// The text of the identifier at `p`.
fn text_at(tokens: &Vec<Lexeme>, p: usize) -> (text: String)
    requires
        p < tokens@.len(),
    ensures
        text@ == models(tokens@)[p as int].text,
{
    match &tokens[p].token {
        Token::Identifier(text) => text.clone(),
        _ => String::new(),
    }
}

/// Reads a transition from its label: role, `?` or `!`, and label.
fn parse_transition(input: &String) -> (transition: Option<Transition<String, String>>)
    ensures
        match transition {
            Some(t) => transition_of(input@) == Some(transition_model(t)),
            None => transition_of(input@) is None,
        },
{
    let s = chars_of(input.as_str());
    if s.len() < 3 {
        return None;
    }
    let hi = s.len() - 1;
    let mut found: Option<usize> = None;
    let mut j: usize = 1;
    let ghost mut seen: Seq<int> = Seq::empty();
    while j < hi
        invariant
            s@ == input@,
            hi == s@.len() - 1,
            1 <= j <= hi,
            marks(s@, 1, hi as int) == seen + marks(s@, j as int, hi as int),
            seen.len() <= 1,
            match found {
                Some(i) => seen == seq![i as int] && 1 <= i < hi,
                None => seen.len() == 0,
            },
        decreases hi - j,
    {
        if s[j] == '?' || s[j] == '!' {
            if found.is_some() {
                proof {
                    assert(marks(s@, j as int, hi as int) == seq![j as int] + marks(
                        s@,
                        j + 1,
                        hi as int,
                    ));
                }
                return None;
            }
            found = Some(j);
            proof {
                seen = seen + seq![j as int];
            }
        }
        j = j + 1;
    }
    proof {
        assert(marks(s@, j as int, hi as int) =~= Seq::<int>::empty());
        assert(marks(s@, 1, hi as int) =~= seen);
    }
    match found {
        None => None,
        Some(i) => {
            let role = text_of(&s, 0, i);
            let label = text_of(&s, i + 1, s.len());
            let action = if s[i] == '?' {
                Action::Input
            } else {
                Action::Output
            };
            Some(Transition::new(role, action, label))
        },
    }
}

fn contains_name(names: &Vec<String>, x: &String) -> (found: bool)
    ensures
        found == names_model(names@).contains(x@),
{
    let mut i: usize = 0;
    while i < names.len()
        invariant
            i <= names@.len(),
            forall|k: int| 0 <= k < i ==> (#[trigger] names@[k])@ != x@,
        decreases names@.len() - i,
    {
        if names[i].eq(x) {
            proof {
                assert(names_model(names@)[i as int] == x@);
            }
            return true;
        }
        i = i + 1;
    }
    proof {
        if names_model(names@).contains(x@) {
            let k = choose|k: int| 0 <= k < names@.len() && names_model(names@)[k] == x@;
            assert(names@[k]@ == x@);
        }
    }
    false
}

fn find_name(names: &Vec<String>, x: &String) -> (index: Option<usize>)
    ensures
        match index {
            Some(i) => find_from(names_model(names@), x@, 0) == Some(i as nat) && i < names@.len(),
            None => find_from(names_model(names@), x@, 0) is None,
        },
{
    let ghost m = names_model(names@);
    let mut i: usize = 0;
    while i < names.len()
        invariant
            m == names_model(names@),
            i <= names@.len(),
            find_from(m, x@, i as int) == find_from(m, x@, 0),
        decreases names@.len() - i,
    {
        if names[i].eq(x) {
            return Some(i);
        }
        i = i + 1;
    }
    None
}

fn contains_statement(
    edges: &Vec<(String, String, Transition<String, String>)>,
    left: &String,
    right: &String,
    transition: &Transition<String, String>,
) -> (found: bool)
    ensures
        found == statements_model(edges@).contains((left@, right@, transition_model(*transition))),
{
    let ghost wanted = (left@, right@, transition_model(*transition));
    let mut i: usize = 0;
    while i < edges.len()
        invariant
            i <= edges@.len(),
            wanted == (left@, right@, transition_model(*transition)),
            forall|k: int| 0 <= k < i ==> statements_model(edges@)[k] != wanted,
        decreases edges@.len() - i,
    {
        let e = &edges[i];
        if e.0.eq(left) && e.1.eq(right) && e.2.role.eq(&transition.role) && e.2.action
            == transition.action && e.2.label.eq(&transition.label) {
            proof {
                assert(statements_model(edges@)[i as int] == wanted);
            }
            return true;
        }
        i = i + 1;
    }
    proof {
        if statements_model(edges@).contains(wanted) {
            let k = choose|k: int|
                0 <= k < edges@.len() && statements_model(edges@)[k] == wanted;
            assert(statements_model(edges@)[k] != wanted);
        }
    }
    false
}

/// Reads the rest of a transition statement after `left ->`, at `p`.
fn read_edge(
    tokens: &Vec<Lexeme>,
    p: usize,
    left: String,
    edges: &Vec<(String, String, Transition<String, String>)>,
) -> (r: (Result<(String, String, Transition<String, String>), ParseError>, usize))
    requires
        p <= tokens@.len(),
    ensures
        r.1 == edge_statement(models(tokens@), p as int, left@, statements_model(edges@)).1,
        r.1 <= tokens@.len(),
        match edge_statement(models(tokens@), p as int, left@, statements_model(edges@)).0 {
            Ok(statement) => r.0 is Ok && (r.0->Ok_0.0@, r.0->Ok_0.1@, transition_model(r.0->Ok_0.2))
                == statement,
            Err(e) => r.0 is Err && r.0->Err_0.model() == e,
        },
{
    let ghost t = models(tokens@);
    let ghost spec_result = edge_statement(t, p as int, left@, statements_model(edges@));
    let (right, p1) = expect(tokens, p, one(TokenKind::Identifier));
    let right = match right {
        Err(e) => {
            proof {
                assert(spec_result == (Err::<Statement, ErrorModel>(e.model()), p1 as int));
            }
            return (Err(ParseError::UnexpectedToken(e)), p1);
        },
        Ok(i) => text_at(tokens, i),
    };
    let (square, p2) = expect(tokens, p1, one(TokenKind::LeftSquare));
    if let Err(e) = square {
        proof {
            assert(spec_result == (Err::<Statement, ErrorModel>(e.model()), p2 as int));
        }
        return (Err(ParseError::UnexpectedToken(e)), p2);
    }
    let (label, p3) = expect(tokens, p2, one(TokenKind::Label));
    if let Err(e) = label {
        return (Err(ParseError::UnexpectedToken(e)), p3);
    }
    let (equal, p4) = expect(tokens, p3, one(TokenKind::Equal));
    if let Err(e) = equal {
        return (Err(ParseError::UnexpectedToken(e)), p4);
    }
    let (text, p5) = expect(tokens, p4, one(TokenKind::Identifier));
    let text = match text {
        Err(e) => return (Err(ParseError::UnexpectedToken(e)), p5),
        Ok(i) => text_at(tokens, i),
    };
    let transition = match parse_transition(&text) {
        Some(transition) => transition,
        None => {
            let error = UnexpectedTokenError::new(one(TokenKind::Transition), Some(text));
            return (Err(ParseError::UnexpectedToken(error)), p5);
        },
    };
    if contains_statement(edges, &left, &right, &transition) {
        return (Err(ParseError::DuplicateTransition), p5);
    }
    let p6 = if p5 < tokens.len() && tokens[p5].token.kind() == TokenKind::Comma {
        p5 + 1
    } else {
        p5
    };
    let (close, p7) = expect(tokens, p6, one(TokenKind::RightSquare));
    if let Err(e) = close {
        return (Err(ParseError::UnexpectedToken(e)), p7);
    }
    let (end, p8) = expect(tokens, p7, one(TokenKind::Semicolon));
    if let Err(e) = end {
        return (Err(ParseError::UnexpectedToken(e)), p8);
    }
    (Ok((left, right, transition)), p8)
}

pub open spec fn all_final(fsm: Fsm<String, String>) -> bool {
    forall|s: nat| s < fsm.num_states() ==> #[trigger] fsm.choices_at(s) is None
}

pub open spec fn numbered(states: Seq<StateIndex>) -> bool {
    forall|i: int| 0 <= i < states.len() ==> #[trigger] states[i].spec_index() == i
}

/// Reads one state machine from `pos` on: `digraph`, its role, and its
/// statements between braces. Returns it, or why it cannot be read, and
/// where reading stopped.
pub fn parse_one(tokens: &Vec<Lexeme>, pos: usize) -> (r: (
    Result<Fsm<String, String>, ParseError>,
    usize,
))
    requires
        pos <= tokens@.len(),
    ensures
        result_model(r.0) == machine(models(tokens@), pos as int).0,
        r.1 == machine(models(tokens@), pos as int).1,
        r.1 <= tokens@.len(),
        match r.0 {
            Ok(fsm) => fsm.wf(),
            Err(_) => true,
        },
{
    let ghost t = models(tokens@);
    let (digraph, p1) = expect(tokens, pos, one(TokenKind::Digraph));
    if let Err(e) = digraph {
        return (Err(ParseError::UnexpectedToken(e)), p1);
    }
    let (role, p2) = expect(tokens, p1, one(TokenKind::Identifier));
    let role = match role {
        Err(e) => return (Err(ParseError::UnexpectedToken(e)), p2),
        Ok(i) => text_at(tokens, i),
    };
    let (brace, p3) = expect(tokens, p2, one(TokenKind::LeftBrace));
    if let Err(e) = brace {
        return (Err(ParseError::UnexpectedToken(e)), p3);
    }
    let ghost body = statements(t, p3 as int, Seq::empty(), Seq::empty());
    let mut fsm: Fsm<String, String> = Fsm::new(role.clone());
    let mut names: Vec<String> = Vec::new();
    let mut states: Vec<StateIndex> = Vec::new();
    let mut edges: Vec<(String, String, Transition<String, String>)> = Vec::new();
    let mut p = p3;
    proof {
        assert(names_model(names@) =~= Seq::<Seq<char>>::empty());
        assert(statements_model(edges@) =~= Seq::<Statement>::empty());
    }
    proof {
        assert(machine(t, pos as int) == finish(role@, body));
    }
    loop
        invariant_except_break
            statements(t, p as int, names_model(names@), statements_model(edges@)) == body,
        invariant
            t == models(tokens@),
            machine(t, pos as int) == finish(role@, body),
            p <= tokens@.len(),
            fsm.wf(),
            fsm.spec_role()@ == role@,
            fsm.num_states() == names@.len(),
            fsm.spec_edges().len() == 0,
            all_final(fsm),
            states@.len() == names@.len(),
            numbered(states@),
        ensures
            body == (Ok::<(Seq<Seq<char>>, Seq<Statement>), ErrorModel>(
                (names_model(names@), statements_model(edges@)),
            ), p as int),
        decreases tokens@.len() - p,
    {
        let (first, p4) = expect(tokens, p, two(TokenKind::RightBrace, TokenKind::Identifier));
        let i = match first {
            Err(e) => return (Err(ParseError::UnexpectedToken(e)), p4),
            Ok(i) => i,
        };
        if tokens[i].token.kind() == TokenKind::RightBrace {
            p = p4;
            break ;
        }
        let left = text_at(tokens, i);
        let (second, p5) = expect(tokens, p4, two(TokenKind::Semicolon, TokenKind::Arrow));
        let j = match second {
            Err(e) => return (Err(ParseError::UnexpectedToken(e)), p5),
            Ok(j) => j,
        };
        if tokens[j].token.kind() == TokenKind::Semicolon {
            if contains_name(&names, &left) {
                return (Err(ParseError::DuplicateState(left)), p5);
            }
            let ghost old_names = names@;
            let ghost old_fsm = fsm;
            names.push(left);
            let state = fsm.add_state();
            states.push(state);
            p = p5;
            proof {
                assert(names_model(names@) =~= names_model(old_names).push(left@));
                assert forall|s: nat| s < fsm.num_states() implies #[trigger] fsm.choices_at(s)
                    is None by {
                    if s < old_fsm.num_states() {
                        assert(old_fsm.choices_at(s) is None);
                    }
                }
            }
        } else {
            let (statement, q) = read_edge(tokens, p5, left, &edges);
            match statement {
                Err(e) => return (Err(e), q),
                Ok(statement) => {
                    let ghost old_edges = edges@;
                    edges.push(statement);
                    p = q;
                    proof {
                        assert(statements_model(edges@) =~= statements_model(old_edges).push(
                            (statement.0@, statement.1@, transition_model(statement.2)),
                        ));
                    }
                },
            }
        }
    }
    let ghost names_m = names_model(names@);
    let ghost edges_m = statements_model(edges@);
    let ghost none = Seq::new(names_m.len(), |i: int| None::<(Seq<char>, Action)>);
    let ghost built = install(role@, names_m, edges_m, 0, none, Seq::empty());
    proof {
        assert(machine(t, pos as int) == (match built {
            Err(e) => (Err(e), p as int),
            Ok(b) => (Ok(Machine { role: role@, choices: b.0, edges: b.1 }), p as int),
        }));
        assert(machine_of(fsm).choices =~= none);
        assert(machine_of(fsm).edges =~= Seq::<(nat, Seq<char>, nat)>::empty());
    }
    let mut k: usize = 0;
    while k < edges.len()
        invariant
            t == models(tokens@),
            p <= tokens@.len(),
            names_m == names_model(names@),
            edges_m == statements_model(edges@),
            k <= edges@.len(),
            fsm.wf(),
            fsm.spec_role()@ == role@,
            fsm.num_states() == names@.len(),
            states@.len() == names@.len(),
            numbered(states@),
            install(role@, names_m, edges_m, k as int, machine_of(fsm).choices, machine_of(fsm).edges)
                == built,
            machine(t, pos as int) == (match built {
                Err(e) => (Err(e), p as int),
                Ok(b) => (Ok(Machine { role: role@, choices: b.0, edges: b.1 }), p as int),
            }),
        decreases edges@.len() - k,
    {
        let edge = &edges[k];
        proof {
            assert(edges_m[k as int] == (edge.0@, edge.1@, transition_model(edge.2)));
        }
        let f = match find_name(&names, &edge.0) {
            None => return (Err(ParseError::UndefinedState(edge.0.clone())), p),
            Some(f) => f,
        };
        let g = match find_name(&names, &edge.1) {
            None => return (Err(ParseError::UndefinedState(edge.1.clone())), p),
            Some(g) => g,
        };

        let transition = Transition::new(edge.2.role.clone(), edge.2.action, edge.2.label.clone());
        let ghost before = fsm;
        let ghost tm = transition_model(edge.2);
        let added = fsm.add_transition(states[f], states[g], transition);
        proof {
            assert(states@[f as int].spec_index() == f);
            assert(states@[g as int].spec_index() == g);
            let c = machine_of(before).choices;
            assert(c[f as int] == match before.choices_at(f as nat) {
                Some(choice) => Some((choice.0@, choice.1)),
                None => None,
            });
            assert(add_error(role@, c, f as nat, tm) == before.spec_transition_error(
                f as nat,
                transition,
            ));
        }
        match added {
            Err(e) => return (Err(ParseError::Transition(e)), p),
            Ok(()) => {},
        }
        proof {
            let c = machine_of(before).choices;
            let next = if c[f as int] is None {
                c.update(f as int, Some((tm.role, tm.action)))
            } else {
                c
            };
            assert(machine_of(fsm).choices =~= next);
            assert(machine_of(fsm).edges =~= machine_of(before).edges.push(
                (f as nat, tm.label, g as nat),
            ));
            assert(find_from(names_m, edge.0@, 0) == Some(f as nat));
            assert(find_from(names_m, edge.1@, 0) == Some(g as nat));
            assert(add_error(role@, c, f as nat, tm) is None);
            assert(install(role@, names_m, edges_m, k as int, c, machine_of(before).edges) == install(
                role@,
                names_m,
                edges_m,
                k + 1,
                next,
                machine_of(before).edges.push((f as nat, tm.label, g as nat)),
            ));
        }
        k = k + 1;
    }
    proof {
        assert(built == Ok::<
            (Seq<Option<(Seq<char>, Action)>>, Seq<(nat, Seq<char>, nat)>),
            ErrorModel,
        >((machine_of(fsm).choices, machine_of(fsm).edges)));
    }
    (Ok(fsm), p)
}

/// Reads every state machine that `input` writes, one after the other,
/// until the input ends. Reading goes on after an error, from where the
/// error stopped it.
pub fn parse(input: &str) -> (results: Vec<Result<Fsm<String, String>, ParseError>>)
    ensures
        results_model(results@) == parsed(input@),
{
    let tokens = lex(input);
    let ghost t = models(tokens@);
    let mut results: Vec<Result<Fsm<String, String>, ParseError>> = Vec::new();
    let mut p: usize = 0;
    while p < tokens.len()
        invariant
            t == models(tokens@),
            t == crate::lexer::tokens(input@),
            p <= tokens@.len(),
            results_model(results@) + machines(t, p as int) == machines(t, 0),
        decreases tokens@.len() - p,
    {
        let (result, q) = parse_one(&tokens, p);
        proof {
            lemma_machine_advances(t, p as int);
        }
        let ghost old_results = results@;
        results.push(result);
        proof {
            assert(results_model(results@) =~= results_model(old_results).push(
                result_model(result),
            ));
        }
        proof {
            assert(results_model(results@) + machines(t, q as int) =~= results_model(old_results)
                + machines(t, p as int));
        }
        p = q;
    }
    proof {
        assert(machines(t, p as int) =~= Seq::<Result<Machine, ErrorModel>>::empty());
        assert(results_model(results@) =~= machines(t, 0));
    }
    results
}

/// The names of the kinds.
pub open spec fn kind_names(kinds: Seq<TokenKind>) -> Seq<Seq<char>> {
    kinds.map_values(|k: TokenKind| kind_name(k))
}

/// The message of an error that expected `expected` and found `actual`.
pub open spec fn unexpected_message(expected: Seq<TokenKind>, actual: Option<Seq<char>>) -> Seq<
    char,
> {
    "expected "@ + listing(kind_names(expected)) + " but found "@ + match actual {
        Some(a) => "'"@ + a + "'"@,
        None => kind_name(TokenKind::EndOfInput),
    }
}

impl UnexpectedTokenError {
    /// What went wrong, in words.
    pub fn message(&self) -> (message: String)
        requires
            self.spec_expected().len() > 0,
            forall|i: int|
                0 <= i < self.spec_expected().len() ==> #[trigger] self.spec_expected()[i]
                    != TokenKind::Error,
        ensures
            message@ == unexpected_message(self.spec_expected(), self.spec_actual()),
    {
        let mut names: Vec<&'static str> = Vec::new();
        let mut i: usize = 0;
        while i < self.expected.len()
            invariant
                i <= self.expected@.len(),
                forall|k: int|
                    0 <= k < self.expected@.len() ==> #[trigger] self.expected@[k]
                        != TokenKind::Error,
                names@.map_values(|n: &'static str| n@) =~= kind_names(
                    self.expected@.subrange(0, i as int),
                ),
            decreases self.expected@.len() - i,
        {
            let name = self.expected[i].name();
            let ghost before = names@;
            names.push(name);
            proof {
                assert(self.expected@.subrange(0, i + 1) =~= self.expected@.subrange(0, i as int).push(
                    self.expected@[i as int],
                ));
                assert(names@ =~= before.push(name));
                assert(names@.map_values(|n: &'static str| n@) =~= before.map_values(
                    |n: &'static str| n@,
                ).push(name@));
            }
            i = i + 1;
        }
        proof {
            assert(self.expected@.subrange(0, i as int) =~= self.expected@);
        }
        let mut message = String::from_str("expected ");
        push_listing(&mut message, &names);
        message.append(" but found ");
        match &self.actual {
            Some(actual) => {
                message.append("'");
                message.append(actual.as_str());
                message.append("'");
            },
            None => message.append(TokenKind::EndOfInput.name()),
        }
        message
    }
}

/// The message of a parse error.
pub open spec fn error_message(error: ErrorModel) -> Seq<char> {
    match error {
        ErrorModel::Unexpected(expected, actual) => unexpected_message(expected, actual),
        ErrorModel::DuplicateState(s) => "state '"@ + s + "' is defined multiple times"@,
        ErrorModel::DuplicateTransition => "the same transition is defined multiple times"@,
        ErrorModel::UndefinedState(s) => "state '"@ + s + "' has not been defined"@,
        ErrorModel::Transition(e) => e@,
    }
}

impl ParseError {
    /// What went wrong, in words.
    pub fn message(&self) -> (message: String)
        requires
            self is UnexpectedToken ==> ({
                let e = self->UnexpectedToken_0;
                &&& e.spec_expected().len() > 0
                &&& forall|i: int|
                    0 <= i < e.spec_expected().len() ==> #[trigger] e.spec_expected()[i]
                        != TokenKind::Error
            }),
        ensures
            message@ == error_message(self.model()),
    {
        match self {
            ParseError::UnexpectedToken(e) => e.message(),
            ParseError::DuplicateState(s) => {
                let mut message = String::from_str("state '");
                message.append(s.as_str());
                message.append("' is defined multiple times");
                message
            },
            ParseError::DuplicateTransition => String::from_str(
                "the same transition is defined multiple times",
            ),
            ParseError::UndefinedState(s) => {
                let mut message = String::from_str("state '");
                message.append(s.as_str());
                message.append("' has not been defined");
                message
            },
            ParseError::Transition(e) => String::from_str(e),
        }
    }
}

} // verus!
