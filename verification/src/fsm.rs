use crate::symbol::Symbol;
use vstd::prelude::*;

verus! {

/// Whether a transition receives (`?`) or sends (`!`).
#[derive(Clone, Copy, Debug, PartialEq, Eq, Structural)]
pub enum Action {
    Input,
    Output,
}

/// A communication with `role`: receiving or sending the message `label`.
#[derive(Clone, Copy, Debug, PartialEq, Eq)]
pub struct Transition<R, L> {
    pub role: R,
    pub action: Action,
    pub label: L,
}

impl<R, L> Transition<R, L> {
    pub fn new(role: R, action: Action, label: L) -> (transition: Self)
        ensures
            transition == (Transition { role, action, label }),
    {
        Self { role, action, label }
    }
}

/// The transition that a transition of references points to.
pub open spec fn unref<R, L>(transition: Transition<&R, &L>) -> Transition<R, L> {
    Transition { role: *transition.role, action: transition.action, label: *transition.label }
}

/// Two transitions are the same when their roles, actions and labels are.
pub open spec fn same_transition<R: Symbol, L: Symbol>(
    a: Transition<R, L>,
    b: Transition<R, L>,
) -> bool {
    &&& a.role.same(&b.role)
    &&& a.action == b.action
    &&& a.label.same(&b.label)
}

/// Compares two transitions.
pub fn transitions_same<R: Symbol, L: Symbol>(
    a: &Transition<&R, &L>,
    b: &Transition<&R, &L>,
) -> (same: bool)
    ensures
        same == same_transition(unref(*a), unref(*b)),
{
    a.role.same_as(b.role) && a.action == b.action && a.label.same_as(b.label)
}

/// The position of a state in its state machine.
#[derive(Clone, Copy)]
pub struct StateIndex(usize);

impl Default for StateIndex {
    /// The first state.
    fn default() -> (index: Self)
        ensures
            index.spec_index() == 0,
    {
        StateIndex(0)
    }
}

impl StateIndex {
    pub closed spec fn spec_index(self) -> nat {
        self.0 as nat
    }

    pub fn index(self) -> (index: usize)
        ensures
            index == self.spec_index(),
    {
        self.0
    }
}

struct Choices<R> {
    role: R,
    action: Action,
}

enum State<R> {
    Choices(Choices<R>),
    End,
}

struct Edge<L> {
    source: usize,
    target: usize,
    label: L,
}

/// The transitions that a list of transitions of references points to,
/// each with the index of its target.
pub open spec fn unref_targets<R, L>(transitions: Seq<(Transition<&R, &L>, StateIndex)>) -> Seq<(Transition<R, L>, nat)> {
    transitions.map_values(|p: (Transition<&R, &L>, StateIndex)| (unref(p.0), p.1.spec_index()))
}

/// Outgoing pairs of a label and a target, made into transitions with
/// `role` and `action`.
pub open spec fn with_choices<R, L>(outgoing: Seq<(L, nat)>, role: R, action: Action) -> Seq<(Transition<R, L>, nat)> {
    outgoing.map_values(|p: (L, nat)| (Transition { role, action, label: p.0 }, p.1))
}

/// The outgoing edges of `state` among `edges`, as pairs of a label and a
/// target, the edge added last first.
pub open spec fn outgoing<L>(edges: Seq<(nat, L, nat)>, state: nat) -> Seq<(L, nat)>
    decreases edges.len(),
{
    if edges.len() == 0 {
        Seq::empty()
    } else {
        let edge = edges.last();
        let rest = outgoing(edges.drop_last(), state);
        if edge.0 == state {
            seq![(edge.1, edge.2)] + rest
        } else {
            rest
        }
    }
}

/// Why a transition cannot be added: the role would talk to itself.
pub const OWN_ROLE: &'static str = "roles cannot communicate with themselves";

/// Why a transition cannot be added: its state already talks to another role.
pub const MULTIPLE_ROLES: &'static str = "states cannot communicate with multiple roles";

/// Why a transition cannot be added: its state already has the other action.
pub const SEND_AND_RECEIVE: &'static str = "states cannot both send and receive";

spec fn parts_wf<R, L>(states: Seq<State<R>>, edges: Seq<Edge<L>>) -> bool {
    forall|i: int| 0 <= i < edges.len() ==> {
        let e = #[trigger] edges[i];
        &&& e.source < states.len()
        &&& e.target < states.len()
        &&& states[e.source as int] is Choices
    }
}

/// A communicating finite state machine: the local protocol of `role`.
/// Each state either ends the protocol or offers a choice of transitions,
/// all with the same role and action.
pub struct Fsm<R, L> {
    role: R,
    states: Vec<State<R>>,
    edges: Vec<Edge<L>>,
}

impl<R, L> Fsm<R, L> {
    /// The role whose protocol this is.
    pub closed spec fn spec_role(&self) -> R {
        self.role
    }

    pub closed spec fn num_states(&self) -> nat {
        self.states@.len()
    }

    /// The role and action shared by the transitions of a state, or `None`
    /// for a state that ends the protocol.
    pub closed spec fn choices_at(&self, state: nat) -> Option<(R, Action)> {
        match self.states@[state as int] {
            State::Choices(choices) => Some((choices.role, choices.action)),
            State::End => None,
        }
    }

    /// The edges, in the order in which they were added, as triples of a
    /// source, a label and a target.
    pub closed spec fn spec_edges(&self) -> Seq<(nat, L, nat)> {
        self.edges@.map_values(|e: Edge<L>| (e.source as nat, e.label, e.target as nat))
    }

    /// Every edge joins two states, and its source offers choices. Holds of
    /// every state machine.
    #[verifier::type_invariant]
    closed spec fn edges_join_states(&self) -> bool {
        parts_wf(self.states@, self.edges@)
    }

    proof fn lemma_wf_parts(&self)
        ensures
            self.wf() == parts_wf(self.states@, self.edges@),
    {
        if self.wf() {
            assert forall|i: int| 0 <= i < self.edges@.len() implies {
                let e = #[trigger] self.edges@[i];
                &&& e.source < self.states@.len()
                &&& e.target < self.states@.len()
                &&& self.states@[e.source as int] is Choices
            } by {
                assert(self.spec_edges()[i] == (self.edges@[i].source as nat, self.edges@[i].label, self.edges@[i].target as nat));
            }
        }
        if parts_wf(self.states@, self.edges@) {
            assert forall|i: int| 0 <= i < self.spec_edges().len() implies {
                let e = #[trigger] self.spec_edges()[i];
                &&& e.0 < self.num_states()
                &&& e.2 < self.num_states()
                &&& self.choices_at(e.0) is Some
            } by {
                let x = self.edges@[i];
                assert(x.source < self.states@.len());
            }
        }
    }

    /// Takes the states and edges out, leaving none.
    fn take_parts(&mut self) -> (parts: (Vec<State<R>>, Vec<Edge<L>>))
        ensures
            parts.0@ == old(self).states@,
            parts.1@ == old(self).edges@,
            final(self).role == old(self).role,
            final(self).states@.len() == 0,
            final(self).edges@.len() == 0,
    {
        let mut edges: Vec<Edge<L>> = Vec::new();
        core::mem::swap(&mut edges, &mut self.edges);
        let mut states: Vec<State<R>> = Vec::new();
        core::mem::swap(&mut states, &mut self.states);
        (states, edges)
    }

    /// Puts states and edges into a machine that has none.
    fn put_parts(&mut self, states: Vec<State<R>>, edges: Vec<Edge<L>>)
        requires
            old(self).states@.len() == 0,
            old(self).edges@.len() == 0,
            parts_wf(states@, edges@),
        ensures
            final(self).states@ == states@,
            final(self).edges@ == edges@,
            final(self).role == old(self).role,
    {
        let mut states = states;
        core::mem::swap(&mut states, &mut self.states);
        let mut edges = edges;
        core::mem::swap(&mut edges, &mut self.edges);
    }

    /// Every edge joins two states, and its source offers choices.
    pub open spec fn wf(&self) -> bool {
        forall|i: int|
            0 <= i < self.spec_edges().len() ==> {
                let e = #[trigger] self.spec_edges()[i];
                &&& e.0 < self.num_states()
                &&& e.2 < self.num_states()
                &&& self.choices_at(e.0) is Some
            }
    }

    /// Every state that offers choices has an edge out of it.
    pub open spec fn choices_have_edges(&self) -> bool {
        forall|s: nat|
            s < self.num_states() && (#[trigger] self.choices_at(s)) is Some ==> exists|i: int|
                0 <= i < self.spec_edges().len() && (#[trigger] self.spec_edges()[i]).0 == s
    }

    /// The transitions out of `state`, each with its target, the transition
    /// added last first.
    pub open spec fn spec_transitions_from(&self, state: nat) -> Seq<(Transition<R, L>, nat)> {
        match self.choices_at(state) {
            Some((role, action)) => with_choices(outgoing(self.spec_edges(), state), role, action),
            None => Seq::empty(),
        }
    }

    /// A state machine for `role` with no states.
    pub fn new(role: R) -> (fsm: Self)
        ensures
            fsm.spec_role() == role,
            fsm.num_states() == 0,
            fsm.spec_edges() == Seq::<(nat, L, nat)>::empty(),
            fsm.wf(),
            fsm.model() == FsmModel::<R, L>::empty(role),
    {
        let fsm = Self { role, states: Vec::new(), edges: Vec::new() };
        proof {
            assert(fsm.model().choices =~= Seq::<Option<(R, Action)>>::empty());
            assert(fsm.model().edges =~= Seq::<(nat, L, nat)>::empty());
        }
        fsm
    }

    pub fn role(&self) -> (role: &R)
        ensures
            *role == self.spec_role(),
    {
        &self.role
    }

    /// The numbers of states and of transitions.
    pub fn size(&self) -> (size: (usize, usize))
        ensures
            size.0 == self.num_states(),
            size.1 == self.spec_edges().len(),
    {
        (self.states.len(), self.edges.len())
    }

    /// The states, in the order in which they were added.
    pub fn states(&self) -> (states: Vec<StateIndex>)
        ensures
            states@.len() == self.num_states(),
            forall|i: int| 0 <= i < states@.len() ==> #[trigger] states@[i].spec_index() == i,
    {
        let mut states: Vec<StateIndex> = Vec::new();
        let n = self.states.len();
        let mut i: usize = 0;
        while i < n
            invariant
                i <= n,
                n == self.num_states(),
                states@.len() == i,
                forall|k: int| 0 <= k < i ==> #[trigger] states@[k].spec_index() == k,
            decreases n - i,
        {
            states.push(StateIndex(i));
            i = i + 1;
        }
        states
    }

    /// Adds a state that ends the protocol until a transition leaves it.
    pub fn add_state(&mut self) -> (state: StateIndex)
        ensures
            final(self).wf(),
            state.spec_index() == old(self).num_states(),
            final(self).num_states() == old(self).num_states() + 1,
            final(self).spec_role() == old(self).spec_role(),
            final(self).spec_edges() == old(self).spec_edges(),
            final(self).choices_at(state.spec_index()) is None,
            forall|s: nat| s < old(self).num_states() ==> final(self).choices_at(s) == old(self).choices_at(s),
            old(self).choices_have_edges() ==> final(self).choices_have_edges(),
            final(self).model() == old(self).model().add_state(),
    {
        proof {
            use_type_invariant(&*self);
        }
        let (mut states, edges) = self.take_parts();
        let index = states.len();
        states.push(State::End);
        proof {
            assert forall|i: int| 0 <= i < edges@.len() implies {
                let e = #[trigger] edges@[i];
                &&& e.source < states@.len()
                &&& e.target < states@.len()
                &&& states@[e.source as int] is Choices
            } by {
                assert(states@[edges@[i].source as int] == old(self).states@[edges@[i].source as int]);
            }
        }
        self.put_parts(states, edges);
        proof {
            self.lemma_wf_parts();
            assert(self.spec_edges() =~= old(self).spec_edges());
            assert forall|i: int| 0 <= i < self.spec_edges().len() implies {
                let e = #[trigger] self.spec_edges()[i];
                &&& e.0 < self.num_states()
                &&& e.2 < self.num_states()
                &&& self.choices_at(e.0) is Some
            } by {
                let e = self.spec_edges()[i];
                assert(old(self).spec_edges()[i] == e);
                assert(self.states@[e.0 as int] == old(self).states@[e.0 as int]);
            }
            if old(self).choices_have_edges() {
                assert forall|s: nat| s < self.num_states() && (#[trigger] self.choices_at(s)) is Some implies exists|i: int|
                    0 <= i < self.spec_edges().len() && (#[trigger] self.spec_edges()[i]).0 == s by {
                    assert(s < old(self).num_states());
                    assert(self.states@[s as int] == old(self).states@[s as int]);
                    assert(old(self).choices_at(s) is Some);
                    let i = choose|i: int| 0 <= i < old(self).spec_edges().len() && (#[trigger] old(self).spec_edges()[i]).0 == s;
                    assert(self.spec_edges()[i] == old(self).spec_edges()[i]);
                }
            }
            assert forall|s: int| 0 <= s < self.num_states() implies #[trigger] self.model().choices[s]
                == old(self).model().add_state().choices[s] by {
                if s < old(self).num_states() {
                    assert(self.states@[s] == old(self).states@[s]);
                }
            }
            assert(self.model().choices =~= old(self).model().add_state().choices);
        }
        StateIndex(index)
    }
}


impl<R: Symbol, L> Fsm<R, L> {
    /// No state talks to the machine's own role.
    pub open spec fn talks_to_others(&self) -> bool {
        forall|s: nat|
            s < self.num_states() && (#[trigger] self.choices_at(s)) is Some ==> !self.choices_at(s)->Some_0.0.same(
                &self.spec_role(),
            )
    }

    /// Why `transition` cannot leave `from`, if it cannot.
    pub open spec fn spec_transition_error(&self, from: nat, transition: Transition<R, L>) -> Option<&'static str> {
        if transition.role.same(&self.spec_role()) {
            Some(OWN_ROLE)
        } else {
            match self.choices_at(from) {
                None => None,
                Some((role, action)) => if !transition.role.same(&role) {
                    Some(MULTIPLE_ROLES)
                } else if transition.action != action {
                    Some(SEND_AND_RECEIVE)
                } else {
                    None
                },
            }
        }
    }

    /// Adds `transition` from `from` to `to`. The first transition out of
    /// a state fixes its role and action; every later one must agree.
    pub fn add_transition(&mut self, from: StateIndex, to: StateIndex, transition: Transition<R, L>) -> (result: Result<(), &'static str>)
        requires
            from.spec_index() < old(self).num_states(),
            to.spec_index() < old(self).num_states(),
        ensures
            final(self).wf(),
            final(self).spec_role() == old(self).spec_role(),
            final(self).num_states() == old(self).num_states(),
            old(self).choices_have_edges() ==> final(self).choices_have_edges(),
            old(self).talks_to_others() ==> final(self).talks_to_others(),
            final(self).model() == old(self).model().apply(
                FsmChange::AddTransition(from.spec_index(), to.spec_index(), transition),
            ),
            match old(self).spec_transition_error(from.spec_index(), transition) {
                Some(error) => {
                    &&& result == Err::<(), &'static str>(error)
                    &&& final(self).spec_edges() == old(self).spec_edges()
                    &&& forall|s: nat| s < old(self).num_states() ==> final(self).choices_at(s) == old(self).choices_at(s)
                },
                None => {
                    &&& result == Ok::<(), &'static str>(())
                    &&& final(self).spec_edges() == old(self).spec_edges().push(
                        (from.spec_index(), transition.label, to.spec_index()),
                    )
                    &&& final(self).choices_at(from.spec_index()) == Some((transition.role, transition.action))
                        || final(self).choices_at(from.spec_index()) == old(self).choices_at(from.spec_index())
                    &&& old(self).choices_at(from.spec_index()) is None ==> final(self).choices_at(from.spec_index())
                        == Some((transition.role, transition.action))
                    &&& old(self).choices_at(from.spec_index()) is Some ==> final(self).choices_at(from.spec_index())
                        == old(self).choices_at(from.spec_index())
                    &&& forall|s: nat| s < old(self).num_states() && s != from.spec_index()
                        ==> final(self).choices_at(s) == old(self).choices_at(s)
                },
            },
    {
        proof {
            use_type_invariant(&*self);
            assert(self.model().choices[from.spec_index() as int] == self.choices_at(from.spec_index()));
        }
        let ghost given = transition;
        if transition.role.same_as(&self.role) {
            return Err(OWN_ROLE);
        }
        let Transition { role, action, label } = transition;
        let f = from.0;
        let is_end = match &self.states[f] {
            State::End => true,
            State::Choices(expected) => {
                if !role.same_as(&expected.role) {
                    return Err(MULTIPLE_ROLES);
                }
                if action != expected.action {
                    return Err(SEND_AND_RECEIVE);
                }
                false
            },
        };
        let (mut states, mut edges) = self.take_parts();
        if is_end {
            states.set(f, State::Choices(Choices { role, action }));
        }
        edges.push(Edge { source: f, target: to.0, label });
        proof {
            assert forall|i: int| 0 <= i < edges@.len() implies {
                let e = #[trigger] edges@[i];
                &&& e.source < states@.len()
                &&& e.target < states@.len()
                &&& states@[e.source as int] is Choices
            } by {
                if i < old(self).edges@.len() {
                    assert(edges@[i] == old(self).edges@[i]);
                }
            }
        }
        self.put_parts(states, edges);
        proof {
            self.lemma_wf_parts();
            assert(self.spec_edges() =~= old(self).spec_edges().push((from.spec_index(), label, to.spec_index())));
            assert forall|i: int| 0 <= i < self.spec_edges().len() implies {
                let e = #[trigger] self.spec_edges()[i];
                &&& e.0 < self.num_states()
                &&& e.2 < self.num_states()
                &&& self.choices_at(e.0) is Some
            } by {
                if i < old(self).spec_edges().len() {
                    assert(old(self).spec_edges()[i] == self.spec_edges()[i]);
                }
            }
            let last = old(self).spec_edges().len() as int;
            assert(self.spec_edges()[last].0 == f);
            assert(self.choices_at(f as nat) is Some);
            assert(forall|s: nat| s < self.num_states() && s != f ==> #[trigger] self.choices_at(s) == old(self).choices_at(s)) by {
                assert forall|s: nat| s < self.num_states() && s != f implies #[trigger] self.choices_at(s) == old(self).choices_at(s) by {
                    assert(self.states@[s as int] == old(self).states@[s as int]);
                }
            }
            if old(self).choices_have_edges() {
                assert forall|s: nat| s < self.num_states() && (#[trigger] self.choices_at(s)) is Some implies exists|i: int|
                    0 <= i < self.spec_edges().len() && (#[trigger] self.spec_edges()[i]).0 == s by {
                    if s == f {
                        assert(self.spec_edges()[last].0 == s);
                    } else {
                        assert(old(self).choices_at(s) is Some);
                        let i = choose|i: int| 0 <= i < old(self).spec_edges().len() && (#[trigger] old(self).spec_edges()[i]).0 == s;
                        assert(self.spec_edges()[i] == old(self).spec_edges()[i]);
                    }
                }
            }
            if old(self).talks_to_others() {
                assert forall|s: nat| s < self.num_states() && (#[trigger] self.choices_at(s)) is Some implies !self.choices_at(s)->Some_0.0.same(
                    &self.spec_role(),
                ) by {
                    if s == f {
                        if is_end {
                            assert(self.choices_at(s) == Some((given.role, given.action)));
                        } else {
                            assert(self.states@[s as int] == old(self).states@[s as int]);
                            assert(old(self).choices_at(s) is Some);
                        }
                    } else {
                        assert(old(self).choices_at(s) is Some);
                    }
                }
            }
            let expected = old(self).model().apply(FsmChange::AddTransition(from.spec_index(), to.spec_index(), given));
            assert forall|s: int| 0 <= s < self.num_states() implies #[trigger] self.model().choices[s] == expected.choices[s] by {
                if s == f {
                    if is_end {
                        assert(self.choices_at(s as nat) == Some((given.role, given.action)));
                    } else {
                        assert(self.states@[s] == old(self).states@[s]);
                    }
                } else {
                    assert(self.choices_at(s as nat) == old(self).choices_at(s as nat));
                }
            }
            assert(self.model().choices =~= expected.choices);
        }
        Ok(())
    }
}


/// A state machine as plain values: its role, the role and action that
/// each state offers (`None` for a state that ends the protocol), and its
/// edges in the order in which they were added.
pub struct FsmModel<R, L> {
    pub role: R,
    pub choices: Seq<Option<(R, Action)>>,
    pub edges: Seq<(nat, L, nat)>,
}

/// One change made to a state machine: a new state, or a transition from
/// one state to another.
pub enum FsmChange<R, L> {
    AddState,
    AddTransition(nat, nat, Transition<R, L>),
}

impl<R, L> Fsm<R, L> {
    /// The machine as plain values.
    pub open spec fn model(&self) -> FsmModel<R, L> {
        FsmModel {
            role: self.spec_role(),
            choices: Seq::new(self.num_states(), |s: int| self.choices_at(s as nat)),
            edges: self.spec_edges(),
        }
    }
}

impl<R, L> FsmModel<R, L> {
    /// A machine for `role` with no states.
    pub open spec fn empty(role: R) -> Self {
        FsmModel { role, choices: Seq::empty(), edges: Seq::empty() }
    }

    /// The machine with one more state, which ends the protocol.
    pub open spec fn add_state(self) -> Self {
        FsmModel { choices: self.choices.push(None), ..self }
    }

    /// Whether `change` names only states that exist.
    pub open spec fn allows(self, change: FsmChange<R, L>) -> bool {
        match change {
            FsmChange::AddState => true,
            FsmChange::AddTransition(from, to, _) => from < self.choices.len() && to < self.choices.len(),
        }
    }

    /// Every edge joins two states, and its source offers choices.
    pub open spec fn joins_states(self) -> bool {
        forall|i: int| 0 <= i < self.edges.len() ==> {
            let e = #[trigger] self.edges[i];
            &&& e.0 < self.choices.len()
            &&& e.2 < self.choices.len()
            &&& self.choices[e.0 as int] is Some
        }
    }

    /// Every state that offers choices has an edge out of it.
    pub open spec fn choices_have_edges(self) -> bool {
        forall|s: int| 0 <= s < self.choices.len() && (#[trigger] self.choices[s]) is Some ==> exists|i: int|
            0 <= i < self.edges.len() && (#[trigger] self.edges[i]).0 == s
    }

    /// The transitions out of `state`, each with its target, the one added
    /// last first: all with the role and action that the state offers.
    pub open spec fn transitions_from(self, state: nat) -> Seq<(Transition<R, L>, nat)> {
        match self.choices[state as int] {
            Some((role, action)) => with_choices(outgoing(self.edges, state), role, action),
            None => Seq::empty(),
        }
    }
}

impl<R: Symbol, L> FsmModel<R, L> {
    /// Why `transition` cannot leave `from`, if it cannot.
    pub open spec fn transition_error(self, from: nat, transition: Transition<R, L>) -> Option<&'static str> {
        if transition.role.same(&self.role) {
            Some(OWN_ROLE)
        } else {
            match self.choices[from as int] {
                None => None,
                Some((role, action)) => if !transition.role.same(&role) {
                    Some(MULTIPLE_ROLES)
                } else if transition.action != action {
                    Some(SEND_AND_RECEIVE)
                } else {
                    None
                },
            }
        }
    }

    /// The machine after `change`; a refused transition changes nothing.
    pub open spec fn apply(self, change: FsmChange<R, L>) -> Self {
        match change {
            FsmChange::AddState => self.add_state(),
            FsmChange::AddTransition(from, to, t) => match self.transition_error(from, t) {
                Some(_) => self,
                None => FsmModel {
                    choices: if self.choices[from as int] is None {
                        self.choices.update(from as int, Some((t.role, t.action)))
                    } else {
                        self.choices
                    },
                    edges: self.edges.push((from, t.label, to)),
                    ..self
                },
            },
        }
    }

    /// Whether each of `changes`, first to last, names only states that
    /// exist when it is made.
    pub open spec fn allows_all(self, changes: Seq<FsmChange<R, L>>) -> bool
        decreases changes.len(),
    {
        changes.len() == 0 || (self.allows(changes[0]) && self.apply(changes[0]).allows_all(changes.drop_first()))
    }

    /// The machine after each of `changes`, first to last.
    pub open spec fn apply_all(self, changes: Seq<FsmChange<R, L>>) -> Self
        decreases changes.len(),
    {
        if changes.len() == 0 {
            self
        } else {
            self.apply(changes[0]).apply_all(changes.drop_first())
        }
    }

    /// No state talks to the machine's own role.
    pub open spec fn talks_to_others(self) -> bool {
        forall|s: int| 0 <= s < self.choices.len() && (#[trigger] self.choices[s]) is Some
            ==> !self.choices[s]->Some_0.0.same(&self.role)
    }

    /// A change keeps the three properties of a machine.
    pub proof fn lemma_apply(self, change: FsmChange<R, L>)
        requires
            self.allows(change),
            self.joins_states(),
            self.choices_have_edges(),
            self.talks_to_others(),
        ensures
            self.apply(change).joins_states(),
            self.apply(change).choices_have_edges(),
            self.apply(change).talks_to_others(),
            self.apply(change).role == self.role,
    {
        let next = self.apply(change);
        match change {
            FsmChange::AddState => {
                assert forall|i: int| 0 <= i < next.edges.len() implies {
                    let e = #[trigger] next.edges[i];
                    &&& e.0 < next.choices.len()
                    &&& e.2 < next.choices.len()
                    &&& next.choices[e.0 as int] is Some
                } by {
                    assert(next.choices[self.edges[i].0 as int] == self.choices[self.edges[i].0 as int]);
                }
                assert forall|s: int| 0 <= s < next.choices.len() && (#[trigger] next.choices[s]) is Some implies exists|i: int|
                    0 <= i < next.edges.len() && (#[trigger] next.edges[i]).0 == s by {
                    assert(next.choices[s] == self.choices[s]);
                }
                assert forall|s: int| 0 <= s < next.choices.len() && (#[trigger] next.choices[s]) is Some
                    implies !next.choices[s]->Some_0.0.same(&next.role) by {
                    assert(next.choices[s] == self.choices[s]);
                }
            },
            FsmChange::AddTransition(from, to, t) => {
                if self.transition_error(from, t) is None {
                    let last = self.edges.len() as int;
                    assert(next.edges[last] == (from, t.label, to));
                    assert(next.choices[from as int] is Some);
                    assert forall|s: int| 0 <= s < next.choices.len() && s != from implies #[trigger] next.choices[s]
                        == self.choices[s] by {}
                    assert forall|i: int| 0 <= i < next.edges.len() implies {
                        let e = #[trigger] next.edges[i];
                        &&& e.0 < next.choices.len()
                        &&& e.2 < next.choices.len()
                        &&& next.choices[e.0 as int] is Some
                    } by {
                        if i < last {
                            assert(next.edges[i] == self.edges[i]);
                            if self.edges[i].0 != from {
                                assert(next.choices[self.edges[i].0 as int] == self.choices[self.edges[i].0 as int]);
                            }
                        }
                    }
                    assert forall|s: int| 0 <= s < next.choices.len() && (#[trigger] next.choices[s]) is Some implies exists|i: int|
                        0 <= i < next.edges.len() && (#[trigger] next.edges[i]).0 == s by {
                        if s == from {
                            assert(next.edges[last].0 == s);
                        } else {
                            assert(self.choices[s] is Some);
                            let i = choose|i: int| 0 <= i < self.edges.len() && (#[trigger] self.edges[i]).0 == s;
                            assert(next.edges[i] == self.edges[i]);
                        }
                    }
                    assert forall|s: int| 0 <= s < next.choices.len() && (#[trigger] next.choices[s]) is Some
                        implies !next.choices[s]->Some_0.0.same(&next.role) by {
                        if s != from {
                            assert(self.choices[s] is Some);
                        } else if self.choices[from as int] is Some {
                            assert(self.choices[s] is Some);
                        }
                    }
                }
            },
        }
    }
}

/// Every machine built from a machine with no states by adding states and
/// transitions has one role and one action for each state, shared by every
/// transition out of it; never names its own role in a transition; joins
/// states by its edges; and has an edge out of every state that offers
/// choices. It holds whatever transitions were refused on the way.
pub proof fn lemma_built_machine<R: Symbol, L>(role: R, changes: Seq<FsmChange<R, L>>)
    requires
        FsmModel::<R, L>::empty(role).allows_all(changes),
    ensures
        built(role, changes).role == role,
        built(role, changes).joins_states(),
        built(role, changes).choices_have_edges(),
        built(role, changes).talks_to_others(),
        forall|s: nat, k: int|
            s < built(role, changes).choices.len() && 0 <= k < built(role, changes).transitions_from(s).len() ==> {
                &&& built(role, changes).choices[s as int] matches Some((r, a))
                &&& (#[trigger] built(role, changes).transitions_from(s)[k]).0.role == r
                &&& built(role, changes).transitions_from(s)[k].0.action == a
                &&& !built(role, changes).transitions_from(s)[k].0.role.same(&role)
            },
{
    lemma_apply_all_keeps(FsmModel::<R, L>::empty(role), changes);
    let m = built(role, changes);
    assert forall|s: nat, k: int| s < m.choices.len() && 0 <= k < m.transitions_from(s).len() implies {
        &&& m.choices[s as int] matches Some((r, a))
        &&& (#[trigger] m.transitions_from(s)[k]).0.role == r
        &&& m.transitions_from(s)[k].0.action == a
        &&& !m.transitions_from(s)[k].0.role.same(&role)
    } by {
        assert(m.choices[s as int] is Some);
    }
}

/// The machine built for `role` by `changes` from one with no states.
pub open spec fn built<R: Symbol, L>(role: R, changes: Seq<FsmChange<R, L>>) -> FsmModel<R, L> {
    FsmModel::<R, L>::empty(role).apply_all(changes)
}

impl<R: Symbol, L> Fsm<R, L> {
    /// A machine that `new`, `add_state` and `add_transition` built by
    /// `changes` has one role and one action for each state, which every
    /// transition out of the state shares; no transition names the
    /// machine's own role; every edge joins two states; and every state
    /// that offers choices has an edge out of it.
    pub proof fn lemma_built_fsm(fsm: &Self, changes: Seq<FsmChange<R, L>>)
        requires
            FsmModel::<R, L>::empty(fsm.spec_role()).allows_all(changes),
            fsm.model() == built(fsm.spec_role(), changes),
        ensures
            fsm.wf(),
            fsm.talks_to_others(),
            fsm.choices_have_edges(),
            forall|s: nat, k: int|
                s < fsm.num_states() && 0 <= k < fsm.spec_transitions_from(s).len() ==> {
                    &&& fsm.choices_at(s) matches Some((r, a))
                    &&& (#[trigger] fsm.spec_transitions_from(s)[k]).0.role == r
                    &&& fsm.spec_transitions_from(s)[k].0.action == a
                    &&& !fsm.spec_transitions_from(s)[k].0.role.same(&fsm.spec_role())
                },
    {
        lemma_built_machine(fsm.spec_role(), changes);
        let m = fsm.model();
        assert forall|s: nat| s < fsm.num_states() implies #[trigger] fsm.choices_at(s) == m.choices[s as int] by {}
        assert forall|i: int| 0 <= i < fsm.spec_edges().len() implies {
            let e = #[trigger] fsm.spec_edges()[i];
            &&& e.0 < fsm.num_states()
            &&& e.2 < fsm.num_states()
            &&& fsm.choices_at(e.0) is Some
        } by {
            assert(m.edges[i] == fsm.spec_edges()[i]);
            assert(fsm.choices_at(m.edges[i].0) == m.choices[m.edges[i].0 as int]);
        }
        assert forall|s: nat| s < fsm.num_states() && (#[trigger] fsm.choices_at(s)) is Some implies exists|i: int|
            0 <= i < fsm.spec_edges().len() && (#[trigger] fsm.spec_edges()[i]).0 == s by {
            assert(m.choices[s as int] is Some);
            let i = choose|i: int| 0 <= i < m.edges.len() && (#[trigger] m.edges[i]).0 == s;
            assert(fsm.spec_edges()[i].0 == s);
        }
        assert forall|s: nat| s < fsm.num_states() && (#[trigger] fsm.choices_at(s)) is Some implies !fsm.choices_at(s)->Some_0.0.same(
            &fsm.spec_role(),
        ) by {
            assert(m.choices[s as int] is Some);
        }
        assert forall|s: nat, k: int| s < fsm.num_states() && 0 <= k < fsm.spec_transitions_from(s).len() implies {
            &&& fsm.choices_at(s) matches Some((r, a))
            &&& (#[trigger] fsm.spec_transitions_from(s)[k]).0.role == r
            &&& fsm.spec_transitions_from(s)[k].0.action == a
            &&& !fsm.spec_transitions_from(s)[k].0.role.same(&fsm.spec_role())
        } by {
            assert(fsm.spec_transitions_from(s) == m.transitions_from(s));
            assert(m.transitions_from(s)[k] == built(fsm.spec_role(), changes).transitions_from(s)[k]);
        }
    }
}

/// Changes that name only states that exist keep the three properties of
/// a machine, and its role.
pub proof fn lemma_apply_all_keeps<R: Symbol, L>(model: FsmModel<R, L>, changes: Seq<FsmChange<R, L>>)
    requires
        model.allows_all(changes),
        model.joins_states(),
        model.choices_have_edges(),
        model.talks_to_others(),
    ensures
        model.apply_all(changes).joins_states(),
        model.apply_all(changes).choices_have_edges(),
        model.apply_all(changes).talks_to_others(),
        model.apply_all(changes).role == model.role,
    decreases changes.len(),
{
    if changes.len() > 0 {
        model.lemma_apply(changes[0]);
        lemma_apply_all_keeps(model.apply(changes[0]), changes.drop_first());
    }
}

/// With no edge out of `state`, nothing leaves it.
pub proof fn lemma_outgoing_none<L>(edges: Seq<(nat, L, nat)>, state: nat)
    requires
        forall|i: int| 0 <= i < edges.len() ==> (#[trigger] edges[i]).0 != state,
    ensures
        outgoing(edges, state) == Seq::<(L, nat)>::empty(),
    decreases edges.len(),
{
    if edges.len() > 0 {
        let rest = edges.drop_last();
        assert forall|i: int| 0 <= i < rest.len() implies (#[trigger] rest[i]).0 != state by {
            assert(rest[i] == edges[i]);
        }
        lemma_outgoing_none(rest, state);
    }
}

impl<R, L> Fsm<R, L> {
    /// The transitions out of `state`, each with its target, the transition
    /// added last first.
    pub fn transitions_from(&self, state: StateIndex) -> (transitions: Vec<(Transition<&R, &L>, StateIndex)>)
        requires
            state.spec_index() < self.num_states(),
        ensures
            unref_targets(transitions@) == self.spec_transitions_from(state.spec_index()),
            forall|k: int| 0 <= k < transitions@.len() ==> (#[trigger] transitions@[k]).1.spec_index() < self.num_states(),
    {
        proof {
            use_type_invariant(self);
            self.lemma_wf_parts();
            self.lemma_transitions_from_targets(state.spec_index());
        }
        let mut transitions: Vec<(Transition<&R, &L>, StateIndex)> = Vec::new();
        let s = state.0;
        let ghost edges = self.spec_edges();
        match &self.states[s] {
            State::End => {
                proof {
                    assert forall|i: int| 0 <= i < edges.len() implies (#[trigger] edges[i]).0 != s by {
                        let e = edges[i];
                        assert(self.choices_at(e.0) is Some);
                    }
                    lemma_outgoing_none(edges, s as nat);
                    assert(unref_targets(transitions@) =~= Seq::<(Transition<R, L>, nat)>::empty());
                }
                transitions
            },
            State::Choices(choices) => {
                let ghost role = choices.role;
                let ghost action = choices.action;
                let n = self.edges.len();
                let mut i: usize = 0;
                while i < n
                    invariant
                        i <= n,
                        n == self.edges@.len(),
                        edges == self.spec_edges(),
                        choices.role == role,
                        choices.action == action,
                        unref_targets(transitions@) == with_choices(outgoing(edges.take(i as int), s as nat), role, action),
                    decreases n - i,
                {
                    let ghost before = transitions@;
                    let edge = &self.edges[i];
                    if edge.source == s {
                        let t = Transition::new(&choices.role, choices.action, &edge.label);
                        transitions.insert(0, (t, StateIndex(edge.target)));
                    }
                    proof {
                        assert(edges.take(i + 1).drop_last() =~= edges.take(i as int));
                        assert(edges.take(i + 1).last() == edges[i as int]);
                        if edge.source == s {
                            assert(transitions@ =~= seq![transitions@[0]] + before);
                            assert(edges[i as int] == (edge.source as nat, edge.label, edge.target as nat));
                            let o = outgoing(edges.take(i + 1), s as nat);
                            let o0 = outgoing(edges.take(i as int), s as nat);
                            assert(o == seq![(edge.label, edge.target as nat)] + o0);
                            assert(unref_targets(before) == with_choices(o0, role, action));
                            assert(unref_targets(before).len() == before.len());
                            assert(with_choices(o0, role, action).len() == o0.len());
                            assert(transitions@.len() == before.len() + 1);
                            assert(unref_targets(transitions@).len() == with_choices(o, role, action).len());
                            assert forall|k: int| 0 <= k < o.len() implies unref_targets(transitions@)[k] == with_choices(o, role, action)[k] by {
                                if k > 0 {
                                    assert(transitions@[k] == before[k - 1]);
                                    assert(o[k] == o0[k - 1]);
                                    assert(unref_targets(before)[k - 1] == with_choices(o0, role, action)[k - 1]);
                                }
                            }
                            assert(unref_targets(transitions@) =~= with_choices(o, role, action));
                        } else {
                            assert(outgoing(edges.take(i + 1), s as nat) == outgoing(edges.take(i as int), s as nat));
                        }
                    }
                    i = i + 1;
                }
                proof {
                    assert(edges.take(n as int) =~= edges);
                    assert forall|k: int| 0 <= k < transitions@.len() implies (#[trigger] transitions@[k]).1.spec_index() < self.num_states() by {
                        assert(unref_targets(transitions@)[k] == self.spec_transitions_from(s as nat)[k]);
                    }
                }
                transitions
            },
        }
    }

    /// Every transition with its source and target, in the order in which
    /// they were added.
    pub fn transitions(&self) -> (transitions: Vec<(StateIndex, Transition<&R, &L>, StateIndex)>)
        ensures
            transitions@.len() == self.spec_edges().len(),
            forall|i: int| 0 <= i < transitions@.len() ==> {
                let (from, t, to) = #[trigger] transitions@[i];
                let e = self.spec_edges()[i];
                &&& from.spec_index() == e.0
                &&& to.spec_index() == e.2
                &&& self.choices_at(e.0) matches Some((role, action))
                &&& unref(t) == (Transition { role, action, label: e.1 })
            },
    {
        proof {
            use_type_invariant(self);
        }
        let mut transitions: Vec<(StateIndex, Transition<&R, &L>, StateIndex)> = Vec::new();
        let n = self.edges.len();
        let mut i: usize = 0;
        while i < n
            invariant
                i <= n,
                n == self.edges@.len(),
                self.wf(),
                transitions@.len() == i,
                forall|k: int| 0 <= k < i ==> {
                    let (from, t, to) = #[trigger] transitions@[k];
                    let e = self.spec_edges()[k];
                    &&& from.spec_index() == e.0
                    &&& to.spec_index() == e.2
                    &&& self.choices_at(e.0) matches Some((role, action))
                    &&& unref(t) == (Transition { role, action, label: e.1 })
                },
            decreases n - i,
        {
            let edge = &self.edges[i];
            proof {
                let e = self.spec_edges()[i as int];
                assert(self.choices_at(e.0) is Some);
            }
            match &self.states[edge.source] {
                State::Choices(choices) => {
                    let t = Transition::new(&choices.role, choices.action, &edge.label);
                    transitions.push((StateIndex(edge.source), t, StateIndex(edge.target)));
                },
                State::End => {
                    proof {
                        assert(false);
                    }
                },
            }
            i = i + 1;
        }
        transitions
    }
}


/// Every outgoing target is below a bound that bounds every edge's target.
pub proof fn lemma_outgoing_targets<L>(edges: Seq<(nat, L, nat)>, state: nat, bound: nat)
    requires
        forall|i: int| 0 <= i < edges.len() ==> (#[trigger] edges[i]).2 < bound,
    ensures
        forall|k: int| 0 <= k < outgoing(edges, state).len() ==> (#[trigger] outgoing(edges, state)[k]).1 < bound,
    decreases edges.len(),
{
    if edges.len() > 0 {
        let rest = edges.drop_last();
        assert forall|i: int| 0 <= i < rest.len() implies (#[trigger] rest[i]).2 < bound by {
            assert(rest[i] == edges[i]);
        }
        lemma_outgoing_targets(rest, state, bound);
        let o = outgoing(edges, state);
        let o0 = outgoing(rest, state);
        if edges.last().0 == state {
            assert forall|k: int| 0 <= k < o.len() implies (#[trigger] o[k]).1 < bound by {
                if k > 0 {
                    assert(o[k] == o0[k - 1]);
                }
            }
        }
    }
}

impl<R, L> Fsm<R, L> {
    /// Every transition leads to a state of the machine.
    pub proof fn lemma_transitions_from_targets(&self, state: nat)
        requires
            self.wf(),
        ensures
            forall|k: int| 0 <= k < self.spec_transitions_from(state).len()
                ==> (#[trigger] self.spec_transitions_from(state)[k]).1 < self.num_states(),
    {
        let edges = self.spec_edges();
        assert forall|i: int| 0 <= i < edges.len() implies (#[trigger] edges[i]).2 < self.num_states() by {
        }
        lemma_outgoing_targets(edges, state, self.num_states());
    }
}


/// The position of the first name in `list` the same as `x`, or the
/// length of `list` if there is none.
pub open spec fn position<T: Symbol>(list: Seq<T>, x: T) -> int
    decreases list.len(),
{
    if list.len() == 0 {
        0
    } else if list[0].same(&x) {
        0
    } else {
        1 + position(list.drop_first(), x)
    }
}

/// `list` with `x` added at the end unless a name the same is there.
pub open spec fn register<T: Symbol>(list: Seq<T>, x: T) -> Seq<T> {
    if position(list, x) < list.len() {
        list
    } else {
        list.push(x)
    }
}

/// `list` with each of `items` registered in turn.
pub open spec fn register_all<T: Symbol>(list: Seq<T>, items: Seq<T>) -> Seq<T>
    decreases items.len(),
{
    if items.len() == 0 {
        list
    } else {
        register(register_all(list, items.drop_last()), items.last())
    }
}

pub proof fn lemma_position<T: Symbol>(list: Seq<T>, x: T)
    ensures
        0 <= position(list, x) <= list.len(),
        position(list, x) < list.len() ==> list[position(list, x)].same(&x),
        forall|k: int| 0 <= k < position(list, x) ==> !(#[trigger] list[k]).same(&x),
    decreases list.len(),
{
    if list.len() > 0 && !list[0].same(&x) {
        lemma_position(list.drop_first(), x);
        assert forall|k: int| 0 <= k < position(list, x) implies !(#[trigger] list[k]).same(&x) by {
            if k > 0 {
                assert(list[k] == list.drop_first()[k - 1]);
            }
        }
    }
}

/// A name found in a list keeps its position when the list grows at the end.
pub proof fn lemma_position_extend<T: Symbol>(list: Seq<T>, more: Seq<T>, x: T)
    requires
        position(list, x) < list.len(),
    ensures
        position(list + more, x) == position(list, x),
    decreases list.len(),
{
    if !list[0].same(&x) {
        lemma_position_extend(list.drop_first(), more, x);
        assert((list + more).drop_first() =~= list.drop_first() + more);
    }
}

/// Registering only adds at the end, and afterwards the name is found.
pub proof fn lemma_register<T: Symbol>(list: Seq<T>, x: T)
    ensures
        register(list, x).subrange(0, list.len() as int) == list,
        position(register(list, x), x) < register(list, x).len(),
        position(register(list, x), x) == position(list, x),
{
    lemma_position(list, x);
    if position(list, x) >= list.len() {
        let l2 = list.push(x);
        assert(l2.subrange(0, list.len() as int) =~= list);
        lemma_position(l2, x);
        T::lemma_same_equivalence(&x, &x, &x);
        if position(l2, x) < list.len() {
            assert(l2[position(l2, x)] == list[position(l2, x)]);
        }
        assert(l2[list.len() as int].same(&x));
        assert(position(l2, x) == list.len());
    } else {
        assert(list.subrange(0, list.len() as int) =~= list);
    }
}

/// A normalizer never renumbers: a role or label that already has a number
/// keeps it, whatever is registered after it. So machines normalized one
/// after the other by one normalizer share their numbers.
pub proof fn lemma_numbers_kept<T: Symbol>(list: Seq<T>, items: Seq<T>, x: T)
    requires
        position(list, x) < list.len(),
    ensures
        position(register_all(list, items), x) == position(list, x),
        register_all(list, items).len() >= list.len(),
        register_all(list, items).subrange(0, list.len() as int) == list,
    decreases items.len(),
{
    if items.len() == 0 {
        assert(list.subrange(0, list.len() as int) =~= list);
    } else {
        let before = register_all(list, items.drop_last());
        lemma_numbers_kept(list, items.drop_last(), x);
        lemma_register(before, items.last());
        let after = register(before, items.last());
        assert(after.len() >= before.len());
        let more = after.subrange(before.len() as int, after.len() as int);
        assert(after =~= before + more);
        lemma_position_extend(before, more, x);
        assert(after.subrange(0, list.len() as int) =~= before.subrange(0, list.len() as int));
    }
}

/// The roles a normalizer registers for a machine, in order: its own
/// role, then the role of each state that offers choices.
pub open spec fn roles_of<R, L>(fsm: Fsm<R, L>, k: nat) -> Seq<R>
    decreases k,
{
    if k == 0 {
        seq![fsm.spec_role()]
    } else {
        let rest = roles_of(fsm, (k - 1) as nat);
        match fsm.choices_at((k - 1) as nat) {
            Some((role, _)) => rest.push(role),
            None => rest,
        }
    }
}

/// Numbers roles and labels in the order in which they are first met,
/// across all the machines it normalizes.
pub struct Normalizer<'a, R, L> {
    roles: Vec<&'a R>,
    labels: Vec<&'a L>,
}

impl<'a, R, L> Normalizer<'a, R, L> {
    /// The roles numbered so far, in order.
    pub closed spec fn spec_roles(&self) -> Seq<R> {
        self.roles@.map_values(|r: &'a R| *r)
    }

    /// The labels numbered so far, in order.
    pub closed spec fn spec_labels(&self) -> Seq<L> {
        self.labels@.map_values(|l: &'a L| *l)
    }
}

impl<'a, R, L> Default for Normalizer<'a, R, L> {
    fn default() -> (normalizer: Self)
        ensures
            normalizer.spec_roles() == Seq::<R>::empty(),
            normalizer.spec_labels() == Seq::<L>::empty(),
    {
        let normalizer = Self { roles: Vec::new(), labels: Vec::new() };
        proof {
            assert(normalizer.spec_roles() =~= Seq::<R>::empty());
            assert(normalizer.spec_labels() =~= Seq::<L>::empty());
        }
        normalizer
    }
}

/// The number of `x` in `list`, registering it first if needed.
fn number<'a, T: Symbol>(list: &mut Vec<&'a T>, x: &'a T) -> (index: usize)
    ensures
        final(list)@.map_values(|y: &'a T| *y) == register(old(list)@.map_values(|y: &'a T| *y), *x),
        index == position(final(list)@.map_values(|y: &'a T| *y), *x),
        index < final(list)@.len(),
{
    let ghost before = list@.map_values(|y: &'a T| *y);
    proof {
        lemma_position(before, *x);
        lemma_register(before, *x);
    }
    let n = list.len();
    let mut i: usize = 0;
    while i < n
        invariant
            n == list@.len(),
            before == list@.map_values(|y: &'a T| *y),
            i <= n,
            forall|k: int| 0 <= k < i ==> !(#[trigger] before[k]).same(x),
            i <= position(before, *x),
            0 <= position(before, *x) <= before.len(),
            position(before, *x) < before.len() ==> before[position(before, *x)].same(x),
            forall|k: int| 0 <= k < position(before, *x) ==> !(#[trigger] before[k]).same(x),
        decreases n - i,
    {
        if list[i].same_as(x) {
            proof {
                assert(before[i as int] == *list@[i as int]);
                assert(i == position(before, *x));
            }
            return i;
        }
        proof {
            assert(before[i as int] == *list@[i as int]);
        }
        i = i + 1;
    }
    list.push(x);
    proof {
        assert(list@.map_values(|y: &'a T| *y) =~= before.push(*x));
    }
    n
}

impl<'a, R: Symbol, L: Symbol> Normalizer<'a, R, L> {
    /// `input` with its roles and labels replaced by their numbers, numbering
    /// first the roles not yet numbered (its own role, then those of its
    /// states in order), then its labels not yet numbered (in the order of
    /// its transitions).
    pub fn normalize(&mut self, input: &'a Fsm<R, L>) -> (output: Fsm<usize, usize>)
        ensures
            final(self).spec_roles() == register_all(old(self).spec_roles(), roles_of(*input, input.num_states())),
            final(self).spec_labels() == register_all(
                old(self).spec_labels(),
                input.spec_edges().map_values(|e: (nat, L, nat)| e.1),
            ),
            output.spec_role() == position(final(self).spec_roles(), input.spec_role()),
            output.num_states() == input.num_states(),
            forall|s: nat| s < input.num_states() ==> #[trigger] output.choices_at(s) == match input.choices_at(s) {
                Some((role, action)) => Some((position(final(self).spec_roles(), role) as usize, action)),
                None => None,
            },
            output.spec_edges() == input.spec_edges().map_values(
                |e: (nat, L, nat)| (e.0, position(final(self).spec_labels(), e.1) as usize, e.2),
            ),
            input.choices_have_edges() ==> output.choices_have_edges(),
            input.talks_to_others() ==> output.talks_to_others(),
    {
        proof {
            use_type_invariant(input);
            input.lemma_wf_parts();
        }
        let ghost old_roles = self.spec_roles();
        let ghost old_labels = self.spec_labels();
        let role = number(&mut self.roles, &input.role);
        proof {
            assert(roles_of(*input, 0) == seq![input.role]);
            assert(seq![input.role].drop_last() =~= Seq::<R>::empty());
            assert(register_all(old_roles, Seq::<R>::empty()) == old_roles);
            assert(register_all(old_roles, roles_of(*input, 0)) == register(old_roles, input.role));
        }
        let n = input.states.len();
        let mut states: Vec<State<usize>> = Vec::new();
        let mut k: usize = 0;
        while k < n
            invariant
                n == input.states@.len(),
                k <= n,
                states@.len() == k,
                self.spec_roles() == register_all(old_roles, roles_of(*input, k as nat)),
                self.spec_labels() == old_labels,
                role == position(self.spec_roles(), input.role),
                role < self.spec_roles().len(),
                forall|j: int| 0 <= j < k ==> match (#[trigger] states@[j], input.states@[j]) {
                    (State::End, State::End) => true,
                    (State::Choices(c), State::Choices(d)) => c.role == position(self.spec_roles(), d.role)
                        && c.role < self.spec_roles().len() && c.action == d.action,
                    _ => false,
                },
            decreases n - k,
        {
            let ghost before = self.spec_roles();
            match &input.states[k] {
                State::End => {
                    states.push(State::End);
                    proof {
                        assert(input.choices_at(k as nat) is None);
                        assert(roles_of(*input, (k + 1) as nat) == roles_of(*input, k as nat));
                    }
                },
                State::Choices(choices) => {
                    let index = number(&mut self.roles, &choices.role);
                    states.push(State::Choices(Choices { role: index, action: choices.action }));
                    proof {
                        lemma_register(before, choices.role);
                        let after = self.spec_roles();
                        assert(roles_of(*input, (k + 1) as nat) == roles_of(*input, k as nat).push(choices.role));
                        assert(roles_of(*input, (k + 1) as nat).drop_last() =~= roles_of(*input, k as nat));
                        let more = after.subrange(before.len() as int, after.len() as int);
                        assert(after =~= before + more);
                        lemma_position_extend(before, more, input.role);
                        assert forall|j: int| 0 <= j < k implies match (#[trigger] states@[j], input.states@[j]) {
                            (State::End, State::End) => true,
                            (State::Choices(c), State::Choices(d)) => c.role == position(after, d.role)
                                && c.role < after.len() && c.action == d.action,
                            _ => false,
                        } by {
                            if let State::Choices(d) = input.states@[j] {
                                lemma_position_extend(before, more, d.role);
                            }
                        }
                    }
                },
            }
            k = k + 1;
        }
        let m = input.edges.len();
        let mut edges: Vec<Edge<usize>> = Vec::new();
        let mut k: usize = 0;
        let ghost labels_of = input.spec_edges().map_values(|e: (nat, L, nat)| e.1);
        while k < m
            invariant
                m == input.edges@.len(),
                labels_of == input.spec_edges().map_values(|e: (nat, L, nat)| e.1),
                k <= m,
                edges@.len() == k,
                self.spec_roles() == register_all(old_roles, roles_of(*input, n as nat)),
                role == position(self.spec_roles(), input.role),
                n == input.states@.len(),
                states@.len() == n,
                forall|j: int| 0 <= j < n ==> match (#[trigger] states@[j], input.states@[j]) {
                    (State::End, State::End) => true,
                    (State::Choices(c), State::Choices(d)) => c.role == position(self.spec_roles(), d.role)
                        && c.role < self.spec_roles().len() && c.action == d.action,
                    _ => false,
                },
                self.spec_labels() == register_all(old_labels, labels_of.take(k as int)),
                forall|j: int| 0 <= j < k ==> {
                    let e = #[trigger] edges@[j];
                    let d = input.edges@[j];
                    &&& e.source == d.source
                    &&& e.target == d.target
                    &&& e.label == position(self.spec_labels(), d.label)
                    &&& e.label < self.spec_labels().len()
                },
            decreases m - k,
        {
            let ghost before = self.spec_labels();
            let ghost before_edges = edges@;
            let edge = &input.edges[k];
            let index = number(&mut self.labels, &edge.label);
            edges.push(Edge { source: edge.source, target: edge.target, label: index });
            proof {
                lemma_register(before, edge.label);
                let after = self.spec_labels();
                assert(labels_of[k as int] == edge.label);
                assert(labels_of.take(k + 1).drop_last() =~= labels_of.take(k as int));
                let more = after.subrange(before.len() as int, after.len() as int);
                assert(after =~= before + more);
                assert forall|j: int| 0 <= j < k + 1 implies {
                    let e = #[trigger] edges@[j];
                    let d = input.edges@[j];
                    &&& e.source == d.source
                    &&& e.target == d.target
                    &&& e.label == position(after, d.label)
                    &&& e.label < after.len()
                } by {
                    if j < k {
                        assert(edges@[j] == before_edges[j]);
                        lemma_position_extend(before, more, input.edges@[j].label);
                    }
                }
            }
            k = k + 1;
        }
        proof {
            assert(labels_of.take(m as int) =~= labels_of);
            assert forall|i: int| 0 <= i < edges@.len() implies {
                let e = #[trigger] edges@[i];
                &&& e.source < states@.len()
                &&& e.target < states@.len()
                &&& states@[e.source as int] is Choices
            } by {
                let d = input.edges@[i];
                assert(d.source < input.states@.len());
                assert(input.states@[d.source as int] is Choices);
            }
        }
        let ghost out_states = states@;
        let output = Fsm { role, states, edges };
        proof {
            assert forall|s: nat| s < input.num_states() implies #[trigger] output.choices_at(s) == match input.choices_at(s) {
                Some((role, action)) => Some((position(self.spec_roles(), role) as usize, action)),
                None => None,
            } by {
                assert(output.states@ == out_states);
                assert(match (out_states[s as int], input.states@[s as int]) {
                    (State::End, State::End) => true,
                    (State::Choices(c), State::Choices(d)) => c.role == position(self.spec_roles(), d.role)
                        && c.role < self.spec_roles().len() && c.action == d.action,
                    _ => false,
                });
            }
            assert(output.spec_edges() =~= input.spec_edges().map_values(
                |e: (nat, L, nat)| (e.0, position(self.spec_labels(), e.1) as usize, e.2),
            ));
            if input.choices_have_edges() {
                assert forall|s: nat| s < output.num_states() && (#[trigger] output.choices_at(s)) is Some implies exists|i: int|
                    0 <= i < output.spec_edges().len() && (#[trigger] output.spec_edges()[i]).0 == s by {
                    assert(input.choices_at(s) is Some);
                    let i = choose|i: int| 0 <= i < input.spec_edges().len() && (#[trigger] input.spec_edges()[i]).0 == s;
                    assert(output.spec_edges()[i].0 == input.spec_edges()[i].0);
                }
            }
            if input.talks_to_others() {
                let roles = self.spec_roles();
                assert forall|s: nat| s < output.num_states() && (#[trigger] output.choices_at(s)) is Some implies !output.choices_at(s)->Some_0.0.same(
                    &output.spec_role(),
                ) by {
                    assert(output.states@ == out_states);
                    assert(match (out_states[s as int], input.states@[s as int]) {
                        (State::End, State::End) => true,
                        (State::Choices(c), State::Choices(d)) => c.role == position(roles, d.role)
                            && c.role < roles.len() && c.action == d.action,
                        _ => false,
                    });
                    assert(input.choices_at(s) is Some);
                    let d = input.choices_at(s)->Some_0.0;
                    assert(!d.same(&input.spec_role()));
                    let p = position(roles, d);
                    if p == position(roles, input.role) {
                        lemma_position(roles, d);
                        lemma_position(roles, input.role);
                        R::lemma_same_equivalence(&roles[p], &d, &input.role);
                        R::lemma_same_equivalence(&d, &roles[p], &input.role);
                        assert(false);
                    }
                }
            }
        }
        output
    }
}

impl<R: Symbol, L> Fsm<R, L> {
    /// A transition that was added comes first among the transitions out
    /// of its state, before those that were there: with the role and
    /// action that the state offers, its label and its target.
    pub proof fn lemma_added_transition_listed(
        before: Self,
        after: Self,
        from: nat,
        to: nat,
        transition: Transition<R, L>,
    )
        requires
            before.wf(),
            from < before.num_states(),
            before.spec_transition_error(from, transition) is None,
            after.spec_edges() == before.spec_edges().push((from, transition.label, to)),
            before.choices_at(from) is None ==> after.choices_at(from) == Some(
                (transition.role, transition.action),
            ),
            before.choices_at(from) is Some ==> after.choices_at(from) == before.choices_at(from),
        ensures
            after.spec_transitions_from(from) == seq![
                (
                    Transition {
                        role: after.choices_at(from)->Some_0.0,
                        action: transition.action,
                        label: transition.label,
                    },
                    to,
                ),
            ] + before.spec_transitions_from(from),
    {
        let edges = after.spec_edges();
        assert(edges.drop_last() =~= before.spec_edges());
        let choice = after.choices_at(from)->Some_0;
        assert(outgoing(edges, from) == seq![(transition.label, to)] + outgoing(before.spec_edges(), from));
        if before.choices_at(from) is None {
            lemma_outgoing_none(before.spec_edges(), from);
            assert(outgoing(before.spec_edges(), from).len() == 0);
        }
        assert(with_choices(outgoing(edges, from), choice.0, choice.1) =~= seq![
            (Transition { role: choice.0, action: transition.action, label: transition.label }, to),
        ] + with_choices(outgoing(before.spec_edges(), from), choice.0, choice.1));
    }
}

} // verus!
