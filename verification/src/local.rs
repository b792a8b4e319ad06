use crate::fsm::{Fsm, StateIndex, Transition, unref_targets};
use crate::render::transition_text;
use crate::symbol::Symbol;
use crate::text::{decimal, push_decimal, Render};
use vstd::prelude::*;

verus! {

/// A local type: the protocol of one role as a term. It ends, jumps back
/// to the type that a variable names, binds a variable, or offers a choice
/// of transitions, each followed by a type.
pub enum Local<R, L> {
    End,
    Recursion(usize),
    Variable(usize, Box<Local<R, L>>),
    Transitions(Vec<(Transition<R, L>, Box<Local<R, L>>)>),
}

/// A local type as a plain value.
pub enum LocalModel<R, L> {
    End,
    Recursion(nat),
    Variable(nat, Box<LocalModel<R, L>>),
    Transitions(Seq<(Transition<R, L>, LocalModel<R, L>)>),
}

impl<R, L> Local<R, L> {
    pub open spec fn model(&self) -> LocalModel<R, L>
        decreases self,
    {
        match self {
            Local::End => LocalModel::End,
            Local::Recursion(v) => LocalModel::Recursion(*v as nat),
            Local::Variable(v, ty) => LocalModel::Variable(*v as nat, Box::new(ty.model())),
            Local::Transitions(ts) => LocalModel::Transitions(
                Seq::new(
                    ts@.len(),
                    |i: int|
                        if 0 <= i < ts@.len() {
                            (ts@[i].0, ts@[i].1.model())
                        } else {
                            (ts@[0].0, LocalModel::End)
                        },
                ),
            ),
        }
    }
}

/// How many states are not yet on the path being built.
pub open spec fn unseen(seen: Seq<bool>) -> nat
    decreases seen.len(),
{
    if seen.len() == 0 {
        0
    } else {
        unseen(seen.drop_last()) + if seen.last() {
            0nat
        } else {
            1nat
        }
    }
}

pub proof fn lemma_unseen_mark(seen: Seq<bool>, state: int)
    requires
        0 <= state < seen.len(),
        !seen[state],
    ensures
        unseen(seen.update(state, true)) + 1 == unseen(seen),
    decreases seen.len(),
{
    let marked = seen.update(state, true);
    if state < seen.len() - 1 {
        assert(marked.drop_last() =~= seen.drop_last().update(state, true));
        lemma_unseen_mark(seen.drop_last(), state);
    } else {
        assert(marked.drop_last() =~= seen.drop_last());
    }
}

/// The variable that names `state`: the one it has, or else the next
/// one, which it then has.
pub open spec fn variable_for(looped: Seq<Option<nat>>, next: nat, state: nat) -> (
    nat,
    Seq<Option<nat>>,
    nat,
) {
    match looped[state as int] {
        Some(v) => (v, looped, next),
        None => (next, looped.update(state as int, Some(next)), next + 1),
    }
}

/// The local type of `state`, given the states on the path to it, the
/// variables of the states that are jumped back to, and the next free
/// variable; with the variables and the next free variable after it.
/// A state on the path is a jump back to it; a state with no transition
/// ends; any other state offers its transitions, bound to its variable if
/// some type inside jumps back to it.
pub open spec fn build<R, L>(
    fsm: Fsm<R, L>,
    state: nat,
    seen: Seq<bool>,
    looped: Seq<Option<nat>>,
    next: nat,
) -> (LocalModel<R, L>, Seq<Option<nat>>, nat)
    decreases unseen(seen), 0nat, 0nat,
{
    if state >= seen.len() {
        (LocalModel::End, looped, next)
    } else if seen[state as int] {
        let (v, l, n) = variable_for(looped, next, state);
        (LocalModel::Recursion(v), l, n)
    } else {
        let transitions = fsm.spec_transitions_from(state);
        if transitions.len() == 0 {
            (LocalModel::End, looped, next)
        } else {
            let marked = seen.update(state as int, true);
            proof {
                lemma_unseen_mark(seen, state as int);
            }
            let (children, l, n) = build_list(fsm, transitions, 0, marked, looped, next);
            let ty = LocalModel::Transitions(children);
            match l[state as int] {
                Some(v) => (LocalModel::Variable(v, Box::new(ty)), l.update(state as int, None), n),
                None => (ty, l, n),
            }
        }
    }
}

/// The local types of the targets of `transitions` from the `k`-th on,
/// built one after the other.
pub open spec fn build_list<R, L>(
    fsm: Fsm<R, L>,
    transitions: Seq<(Transition<R, L>, nat)>,
    k: int,
    seen: Seq<bool>,
    looped: Seq<Option<nat>>,
    next: nat,
) -> (Seq<(Transition<R, L>, LocalModel<R, L>)>, Seq<Option<nat>>, nat)
    decreases unseen(seen), 1nat, transitions.len() - k,
{
    if k < 0 || k >= transitions.len() {
        (Seq::empty(), looped, next)
    } else {
        let (child, l, n) = build(fsm, transitions[k].1, seen, looped, next);
        let (rest, l2, n2) = build_list(fsm, transitions, k + 1, seen, l, n);
        (seq![(transitions[k].0, child)] + rest, l2, n2)
    }
}

proof fn lemma_build_grows<R, L>(
    fsm: Fsm<R, L>,
    state: nat,
    seen: Seq<bool>,
    looped: Seq<Option<nat>>,
    next: nat,
)
    requires
        looped.len() == seen.len(),
    ensures
        build(fsm, state, seen, looped, next).2 >= next,
        build(fsm, state, seen, looped, next).1.len() == looped.len(),
    decreases unseen(seen), 0nat, 0nat,
{
    if state < seen.len() && !seen[state as int] {
        let transitions = fsm.spec_transitions_from(state);
        if transitions.len() > 0 {
            lemma_unseen_mark(seen, state as int);
            lemma_build_list_grows(fsm, transitions, 0, seen.update(state as int, true), looped, next);
        }
    }
}

proof fn lemma_build_list_grows<R, L>(
    fsm: Fsm<R, L>,
    transitions: Seq<(Transition<R, L>, nat)>,
    k: int,
    seen: Seq<bool>,
    looped: Seq<Option<nat>>,
    next: nat,
)
    requires
        looped.len() == seen.len(),
    ensures
        build_list(fsm, transitions, k, seen, looped, next).2 >= next,
        build_list(fsm, transitions, k, seen, looped, next).1.len() == looped.len(),
    decreases unseen(seen), 1nat, transitions.len() - k,
{
    if 0 <= k < transitions.len() {
        lemma_build_grows(fsm, transitions[k].1, seen, looped, next);
        let (child, l, n) = build(fsm, transitions[k].1, seen, looped, next);
        lemma_build_list_grows(fsm, transitions, k + 1, seen, l, n);
    }
}

pub open spec fn looped_model(looped: Seq<Option<usize>>) -> Seq<Option<nat>> {
    looped.map_values(|v: Option<usize>| match v {
        Some(v) => Some(v as nat),
        None => None,
    })
}

/// Builds the local type of a state machine, state by state.
struct Builder<'a, R, L> {
    fsm: &'a Fsm<R, L>,
    seen: Vec<bool>,
    looped: Vec<Option<usize>>,
    variables: usize,
}

impl<'a, R: Symbol, L: Symbol> Builder<'a, R, L> {
    /// The variable that names `state`, made if it has none.
    fn variable(&mut self, state: StateIndex) -> (variable: usize)
        requires
            state.spec_index() < old(self).looped@.len(),
            variable_for(looped_model(old(self).looped@), old(self).variables as nat, state.spec_index()).2
                <= usize::MAX,
        ensures
            final(self).fsm == old(self).fsm,
            final(self).seen@ == old(self).seen@,
            final(self).looped@.len() == old(self).looped@.len(),
            (variable as nat, looped_model(final(self).looped@), final(self).variables as nat)
                == variable_for(looped_model(old(self).looped@), old(self).variables as nat, state.spec_index()),
    {
        let i = state.index();
        match self.looped[i] {
            Some(variable) => variable,
            None => {
                let next = self.variables;
                let ghost before = self.looped@;
                self.looped.set(i, Some(next));
                self.variables = self.variables + 1;
                proof {
                    assert(looped_model(self.looped@) =~= looped_model(before).update(
                        i as int,
                        Some(next as nat),
                    ));
                }
                next
            },
        }
    }

    /// The local type of `state`.
    fn build(&mut self, state: StateIndex) -> (local: Local<R, L>)
        requires
            state.spec_index() < old(self).fsm.num_states(),
            old(self).seen@.len() == old(self).fsm.num_states(),
            old(self).looped@.len() == old(self).fsm.num_states(),
            build(*old(self).fsm, state.spec_index(), old(self).seen@, looped_model(old(self).looped@),
                old(self).variables as nat).2 <= usize::MAX,
        ensures
            final(self).fsm == old(self).fsm,
            final(self).seen@ == old(self).seen@,
            final(self).looped@.len() == old(self).looped@.len(),
            (local.model(), looped_model(final(self).looped@), final(self).variables as nat) == build(
                *old(self).fsm,
                state.spec_index(),
                old(self).seen@,
                looped_model(old(self).looped@),
                old(self).variables as nat,
            ),
        decreases unseen(old(self).seen@),
    {
        let i = state.index();
        if self.seen[i] {
            return Local::Recursion(self.variable(state));
        }
        let transitions = self.fsm.transitions_from(state);
        if transitions.len() == 0 {
            return Local::End;
        }
        let ghost fsm = *self.fsm;
        let ghost seen = self.seen@;
        let ghost ts = fsm.spec_transitions_from(state.spec_index());
        let ghost goal = build(fsm, state.spec_index(), seen, looped_model(self.looped@), self.variables as nat);
        self.seen.set(i, true);
        let ghost marked = self.seen@;
        proof {
            lemma_unseen_mark(seen, i as int);
            assert(marked == seen.update(i as int, true));
            assert(unref_targets(transitions@) == ts);
        }
        let ghost whole = build_list(fsm, ts, 0, marked, looped_model(self.looped@), self.variables as nat);
        let mut children: Vec<(Transition<R, L>, Box<Local<R, L>>)> = Vec::new();
        let mut k: usize = 0;
        while k < transitions.len()
            invariant
                *self.fsm == fsm,
                seen == old(self).seen@,
                self.seen@ == marked,
                marked.len() == fsm.num_states(),
                self.looped@.len() == fsm.num_states(),
                unseen(marked) < unseen(seen),
                unref_targets(transitions@) == ts,
                forall|m: int| 0 <= m < transitions@.len() ==> (#[trigger] transitions@[m]).1.spec_index()
                    < fsm.num_states(),
                k <= transitions@.len(),
                whole.2 <= usize::MAX,
                ({
                    let (rest, l, n) = build_list(fsm, ts, k as int, marked, looped_model(self.looped@),
                        self.variables as nat);
                    &&& Seq::new(children@.len(), |m: int| (children@[m].0, children@[m].1.model())) + rest
                        == whole.0
                    &&& l == whole.1
                    &&& n == whole.2
                }),
            decreases transitions@.len() - k,
        {
            let (transition, to) = &transitions[k];
            let ghost before_looped = looped_model(self.looped@);
            let ghost before_next = self.variables as nat;
            proof {
                assert(ts[k as int].1 == to.spec_index());
                lemma_build_grows(fsm, ts[k as int].1, marked, before_looped, before_next);
                let (child, l, n) = build(fsm, ts[k as int].1, marked, before_looped, before_next);
                lemma_build_list_grows(fsm, ts, k + 1, marked, l, n);
            }
            let child = self.build(*to);
            let owned = Transition::new(transition.role.duplicate(), transition.action, transition.label.duplicate());
            let ghost before_children = children@;
            children.push((owned, Box::new(child)));
            proof {
                assert(owned == ts[k as int].0);
                let done = Seq::new(before_children.len(), |m: int| (before_children[m].0, before_children[m].1.model()));
                let now = Seq::new(children@.len(), |m: int| (children@[m].0, children@[m].1.model()));
                assert(now =~= done.push((owned, child.model())));
                let (rest, l, n) = build_list(fsm, ts, k + 1, marked, looped_model(self.looped@),
                    self.variables as nat);
                assert(now + rest =~= done + build_list(fsm, ts, k as int, marked, before_looped, before_next).0);
            }
            k = k + 1;
        }
        proof {
            assert(build_list(fsm, ts, k as int, marked, looped_model(self.looped@), self.variables as nat).0
                =~= Seq::<(Transition<R, L>, LocalModel<R, L>)>::empty());
        }
        self.seen.set(i, false);
        proof {
            assert(self.seen@ =~= seen);
        }
        let ghost v = children@;
        let ghost built = Seq::new(v.len(), |m: int| (v[m].0, v[m].1.model()));
        proof {
            assert(built =~= Seq::new(
                v.len(),
                |m: int|
                    if 0 <= m < v.len() {
                        (v[m].0, v[m].1.model())
                    } else {
                        (v[0].0, LocalModel::End)
                    },
            ));
            assert(built =~= whole.0);
        }
        let ty = Local::Transitions(children);
        proof {
            let m = ty.model();
            assert(m->Transitions_0 =~= whole.0);
            assert(m == LocalModel::Transitions(whole.0));
        }
        let taken = self.looped[i];
        match taken {
            Some(variable) => {
                let ghost before = self.looped@;
                self.looped.set(i, None);
                proof {
                    assert(looped_model(self.looped@) =~= looped_model(before).update(i as int, None));
                }
                Local::Variable(variable, Box::new(ty))
            },
            None => ty,
        }
    }
}

impl<R: Symbol, L: Symbol> Local<R, L> {
    /// The local type of a state machine, from its first state. Each state
    /// that some type jumps back to is bound to a variable, numbered in the
    /// order in which the jumps are met.
    pub fn new(fsm: &Fsm<R, L>) -> (local: Self)
        requires
            fsm.num_states() > 0,
            build(*fsm, 0, Seq::new(fsm.num_states(), |i: int| false), Seq::new(
                fsm.num_states(),
                |i: int| None::<nat>,
            ), 0).2 <= usize::MAX,
        ensures
            local.model() == build(*fsm, 0, Seq::new(fsm.num_states(), |i: int| false), Seq::new(
                fsm.num_states(),
                |i: int| None::<nat>,
            ), 0).0,
            offers_choices(local.model()),
    {
        proof {
            lemma_build_offers_choices(*fsm, 0, Seq::new(fsm.num_states(), |i: int| false), Seq::new(
                fsm.num_states(),
                |i: int| None::<nat>,
            ), 0);
        }
        let (size, _) = fsm.size();
        let mut seen: Vec<bool> = Vec::new();
        let mut looped: Vec<Option<usize>> = Vec::new();
        let mut i: usize = 0;
        while i < size
            invariant
                i <= size,
                seen@ == Seq::new(i as nat, |k: int| false),
                looped@ == Seq::new(i as nat, |k: int| None::<usize>),
            decreases size - i,
        {
            seen.push(false);
            looped.push(None);
            i = i + 1;
            proof {
                assert(seen@ =~= Seq::new(i as nat, |k: int| false));
                assert(looped@ =~= Seq::new(i as nat, |k: int| None::<usize>));
            }
        }
        proof {
            assert(looped_model(looped@) =~= Seq::new(fsm.num_states(), |i: int| None::<nat>));
        }
        let mut builder = Builder { fsm, seen, looped, variables: 0 };
        let first = fsm.states();
        builder.build(first[0])
    }
}

/// Every choice of the type offers at least one transition.
pub open spec fn offers_choices<R, L>(m: LocalModel<R, L>) -> bool
    decreases m,
{
    match m {
        LocalModel::End => true,
        LocalModel::Recursion(_) => true,
        LocalModel::Variable(_, ty) => offers_choices(*ty),
        LocalModel::Transitions(ts) => ts.len() > 0 && forall|i: int|
            0 <= i < ts.len() ==> offers_choices(#[trigger] ts[i].1),
    }
}

/// A local type as text: `end`, a jump `X0`, a binding `rec X0 . T`, a
/// single transition `C!a; T`, or a choice `[C!a; T, C!b; U]`.
pub open spec fn local_text<R: Render, L: Render>(m: LocalModel<R, L>) -> Seq<char>
    decreases m, 0int,
{
    match m {
        LocalModel::End => "end"@,
        LocalModel::Recursion(v) => "X"@ + decimal(v),
        LocalModel::Variable(v, ty) => "rec X"@ + decimal(v) + " . "@ + local_text(*ty),
        LocalModel::Transitions(ts) => if ts.len() == 1 {
            choices_text(ts, 1)
        } else {
            "["@ + choices_text(ts, ts.len() as int) + "]"@
        },
    }
}

/// The first `k` choices of `ts`, separated by commas: each a transition,
/// a semicolon and the type that follows it.
pub open spec fn choices_text<R: Render, L: Render>(
    ts: Seq<(Transition<R, L>, LocalModel<R, L>)>,
    k: int,
) -> Seq<char>
    decreases ts, k,
{
    if k <= 1 {
        if ts.len() > 0 {
            transition_text(ts[0].0) + "; "@ + local_text(ts[0].1)
        } else {
            Seq::empty()
        }
    } else if k <= ts.len() {
        choices_text(ts, k - 1) + ", "@ + transition_text(ts[k - 1].0) + "; "@ + local_text(
            ts[k - 1].1,
        )
    } else {
        Seq::empty()
    }
}

impl<R: Render, L: Render> Local<R, L> {
    /// Appends the type, as `local_text` writes it, to `text`.
    pub fn render(&self, text: &mut String)
        requires
            offers_choices(self.model()),
        ensures
            final(text)@ == old(text)@ + local_text(self.model()),
        decreases self,
    {
        match self {
            Local::End => text.append("end"),
            Local::Recursion(v) => {
                text.append("X");
                push_decimal(text, *v);
            },
            Local::Variable(v, ty) => {
                text.append("rec X");
                push_decimal(text, *v);
                text.append(" . ");
                ty.render(text);
            },
            Local::Transitions(ts) => {
                let ghost m = self.model();
                let ghost mt = m->Transitions_0;
                proof {
                    assert(m == LocalModel::Transitions(mt));
                    assert(mt.len() == ts@.len());
                    assert forall|i: int| 0 <= i < ts@.len() implies #[trigger] mt[i] == (
                        ts@[i].0,
                        ts@[i].1.model(),
                    ) by {}
                    assert forall|i: int| 0 <= i < ts@.len() implies offers_choices(
                        #[trigger] ts@[i].1.model(),
                    ) by {
                        assert(mt[i].1 == ts@[i].1.model());
                    }
                }
                let ghost start = text@;
                let single = ts.len() == 1;
                if !single {
                    text.append("[");
                }
                let ghost open = text@;
                let mut i: usize = 0;
                while i < ts.len()
                    invariant
                        *self == Local::Transitions(*ts),
                        i <= ts@.len(),
                        ts@.len() > 0,
                        mt.len() == ts@.len(),
                        forall|k: int| 0 <= k < ts@.len() ==> #[trigger] mt[k] == (
                            ts@[k].0,
                            ts@[k].1.model(),
                        ),
                        forall|k: int| 0 <= k < ts@.len() ==> offers_choices(#[trigger] ts@[k].1.model()),
                        i == 0 ==> text@ == open,
                        i > 0 ==> text@ == open + choices_text(mt, i as int),
                    decreases ts@.len() - i,
                {
                    if i > 0 {
                        text.append(", ");
                    }
                    let (transition, ty) = &ts[i];
                    transition.role.render(text);
                    transition.action.render(text);
                    transition.label.render(text);
                    text.append("; ");
                    proof {
                        let entry = ts@[i as int];
                        assert(decreases_to!(*self => self->Transitions_0));
                        assert(decreases_to!(self->Transitions_0 => self->Transitions_0@));
                        assert(decreases_to!(self->Transitions_0@ => entry));
                        assert(decreases_to!(entry => entry.1));
                        assert(decreases_to!(*self => *entry.1));
                    }
                    ty.render(text);
                    proof {
                        assert(mt[i as int] == (*transition, ty.model()));
                        assert(text@ =~= open + choices_text(mt, i + 1));
                    }
                    i = i + 1;
                }
                if !single {
                    text.append("]");
                }
                proof {
                    assert(text@ =~= start + local_text(m));
                }
            },
        }
    }

    /// The type as text.
    pub fn to_string(&self) -> (text: String)
        requires
            offers_choices(self.model()),
        ensures
            text@ == local_text(self.model()),
    {
        let mut text = String::new();
        self.render(&mut text);
        text
    }
}

/// Every choice in a type that `build` makes offers a transition.
pub proof fn lemma_build_offers_choices<R, L>(
    fsm: Fsm<R, L>,
    state: nat,
    seen: Seq<bool>,
    looped: Seq<Option<nat>>,
    next: nat,
)
    ensures
        offers_choices(build(fsm, state, seen, looped, next).0),
    decreases unseen(seen), 0nat, 0nat,
{
    if state < seen.len() && !seen[state as int] {
        let transitions = fsm.spec_transitions_from(state);
        if transitions.len() > 0 {
            let marked = seen.update(state as int, true);
            lemma_unseen_mark(seen, state as int);
            lemma_build_list_offers_choices(fsm, transitions, 0, marked, looped, next);
            let (children, l, n) = build_list(fsm, transitions, 0, marked, looped, next);
            lemma_build_list_len(fsm, transitions, 0, marked, looped, next);
            let ty = LocalModel::Transitions(children);
            assert(offers_choices(ty));
        }
    }
}

proof fn lemma_build_list_len<R, L>(
    fsm: Fsm<R, L>,
    transitions: Seq<(Transition<R, L>, nat)>,
    k: int,
    seen: Seq<bool>,
    looped: Seq<Option<nat>>,
    next: nat,
)
    requires
        0 <= k <= transitions.len(),
    ensures
        build_list(fsm, transitions, k, seen, looped, next).0.len() == transitions.len() - k,
    decreases transitions.len() - k,
{
    if k < transitions.len() {
        let (child, l, n) = build(fsm, transitions[k].1, seen, looped, next);
        lemma_build_list_len(fsm, transitions, k + 1, seen, l, n);
    }
}

proof fn lemma_build_list_offers_choices<R, L>(
    fsm: Fsm<R, L>,
    transitions: Seq<(Transition<R, L>, nat)>,
    k: int,
    seen: Seq<bool>,
    looped: Seq<Option<nat>>,
    next: nat,
)
    ensures
        forall|i: int|
            0 <= i < build_list(fsm, transitions, k, seen, looped, next).0.len() ==> offers_choices(
                #[trigger] build_list(fsm, transitions, k, seen, looped, next).0[i].1,
            ),
    decreases unseen(seen), 1nat, transitions.len() - k,
{
    if 0 <= k < transitions.len() {
        lemma_build_offers_choices(fsm, transitions[k].1, seen, looped, next);
        let (child, l, n) = build(fsm, transitions[k].1, seen, looped, next);
        lemma_build_list_offers_choices(fsm, transitions, k + 1, seen, l, n);
        let (rest, l2, n2) = build_list(fsm, transitions, k + 1, seen, l, n);
        let all = seq![(transitions[k].0, child)] + rest;
        assert forall|i: int| 0 <= i < all.len() implies offers_choices(#[trigger] all[i].1) by {
            if i > 0 {
                assert(all[i] == rest[i - 1]);
            }
        }
    }
}

/// The variables that a local type binds, outermost and first choices
/// first.
pub open spec fn binders<R, L>(m: LocalModel<R, L>) -> Seq<nat>
    decreases m,
{
    match m {
        LocalModel::Variable(v, ty) => seq![v] + binders(*ty),
        LocalModel::Transitions(ts) => binders_of_choices(ts),
        _ => Seq::empty(),
    }
}

/// The variables that the types of the choices bind, in order.
pub open spec fn binders_of_choices<R, L>(ts: Seq<(Transition<R, L>, LocalModel<R, L>)>) -> Seq<nat>
    decreases ts,
{
    if ts.len() == 0 {
        Seq::empty()
    } else {
        binders(ts[0].1) + binders_of_choices(ts.subrange(1, ts.len() as int))
    }
}

/// Every jump in the type is to a variable in `bound` or bound around it.
pub open spec fn closed<R, L>(m: LocalModel<R, L>, bound: Set<nat>) -> bool
    decreases m,
{
    match m {
        LocalModel::End => true,
        LocalModel::Recursion(v) => bound.contains(v),
        LocalModel::Variable(v, ty) => closed(*ty, bound.insert(v)),
        LocalModel::Transitions(ts) => forall|i: int| 0 <= i < ts.len() ==> closed(#[trigger] ts[i].1, bound),
    }
}

/// The variables that states have.
pub open spec fn variables_of(looped: Seq<Option<nat>>) -> Set<nat> {
    Set::new(|v: nat| exists|s: int| 0 <= s < looped.len() && looped[s] == Some(v))
}

/// States have variables only while they are on the path, each a
/// different one, all below `next`.
pub open spec fn scoped(seen: Seq<bool>, looped: Seq<Option<nat>>, next: nat) -> bool {
    &&& looped.len() == seen.len()
    &&& forall|s: int| 0 <= s < looped.len() && (#[trigger] looped[s]) is Some ==> seen[s] && looped[s]->Some_0 < next
    &&& forall|a: int, b: int|
        0 <= a < looped.len() && 0 <= b < looped.len() && a != b && (#[trigger] looped[a]) is Some ==> #[trigger] looped[b]
            != looped[a]
}

/// Variables bound by a type that is built between `next` and `n`: each
/// bound once, each new, and none still a state's variable.
pub open spec fn fresh_binders(bs: Seq<nat>, next: nat, n: nat, looped: Seq<Option<nat>>) -> bool {
    &&& bs.no_duplicates()
    &&& forall|j: int| 0 <= j < bs.len() ==> next <= #[trigger] bs[j] < n && !variables_of(looped).contains(bs[j])
}

/// What building a type from `seen`, `looped` and `next` keeps: the
/// variables that states had stay, new ones are between `next` and `n`.
pub open spec fn grows(seen: Seq<bool>, looped: Seq<Option<nat>>, next: nat, l: Seq<Option<nat>>, n: nat) -> bool {
    &&& n >= next
    &&& scoped(seen, l, n)
    &&& forall|s: int| 0 <= s < looped.len() && (#[trigger] looped[s]) is Some ==> l[s] == looped[s]
    &&& forall|s: int| 0 <= s < l.len() && (#[trigger] l[s]) is Some && looped[s] is None ==> next <= l[s]->Some_0
}

proof fn lemma_closed_more<R, L>(m: LocalModel<R, L>, a: Set<nat>, b: Set<nat>)
    requires
        closed(m, a),
        a.subset_of(b),
    ensures
        closed(m, b),
    decreases m,
{
    match m {
        LocalModel::Variable(v, ty) => {
            lemma_closed_more(*ty, a.insert(v), b.insert(v));
        },
        LocalModel::Transitions(ts) => {
            assert forall|i: int| 0 <= i < ts.len() implies closed(#[trigger] ts[i].1, b) by {
                lemma_closed_more(ts[i].1, a, b);
            }
        },
        _ => {},
    }
}

proof fn lemma_build_scoped<R, L>(
    fsm: Fsm<R, L>,
    state: nat,
    seen: Seq<bool>,
    looped: Seq<Option<nat>>,
    next: nat,
)
    requires
        scoped(seen, looped, next),
    ensures
        ({
            let (ty, l, n) = build(fsm, state, seen, looped, next);
            &&& grows(seen, looped, next, l, n)
            &&& fresh_binders(binders(ty), next, n, l)
            &&& closed(ty, variables_of(l))
        }),
    decreases unseen(seen), 0nat, 0nat,
{
    let (ty, l, n) = build(fsm, state, seen, looped, next);
    if state >= seen.len() {
        assert(closed(ty, variables_of(l)));
    } else if seen[state as int] {
        match looped[state as int] {
            Some(v) => {
                assert(variables_of(looped).contains(v));
            },
            None => {
                assert(l == looped.update(state as int, Some(next)));
                assert(variables_of(l).contains(next)) by {
                    assert(l[state as int] == Some(next));
                }
                assert forall|a: int, b: int|
                    0 <= a < l.len() && 0 <= b < l.len() && a != b && (#[trigger] l[a]) is Some implies #[trigger] l[b]
                        != l[a] by {
                    if a != state && b != state {
                        assert(looped[a] is Some);
                    } else if a == state {
                        if l[b] is Some {
                            assert(looped[b] is Some);
                        }
                    } else {
                        assert(looped[a] is Some);
                    }
                }
            },
        }
    } else {
        let transitions = fsm.spec_transitions_from(state);
        if transitions.len() > 0 {
            let marked = seen.update(state as int, true);
            lemma_unseen_mark(seen, state as int);
            lemma_build_list_scoped(fsm, transitions, 0, marked, looped, next);
            let (children, lc, nc) = build_list(fsm, transitions, 0, marked, looped, next);
            let inner = LocalModel::<R, L>::Transitions(children);
            assert(binders(inner) == binders_of_choices(children));
            assert(looped[state as int] is None);
            match lc[state as int] {
                Some(v) => {
                    let lp = lc.update(state as int, None);
                    assert(l == lp);
                    assert(ty == LocalModel::Variable(v, Box::new(inner)));
                    assert(variables_of(lc).contains(v));
                    assert(variables_of(lp).insert(v) =~= variables_of(lc)) by {
                        assert forall|w: nat| variables_of(lc).contains(w) implies variables_of(lp).insert(v).contains(w) by {
                            let s = choose|s: int| 0 <= s < lc.len() && lc[s] == Some(w);
                            if s != state {
                                assert(lp[s] == Some(w));
                                assert(variables_of(lp).contains(w));
                            }
                        }
                        assert forall|w: nat| variables_of(lp).insert(v).contains(w) implies variables_of(lc).contains(w) by {
                            if w != v {
                                let s = choose|s: int| 0 <= s < lp.len() && lp[s] == Some(w);
                                assert(lc[s] == Some(w));
                            }
                        }
                    }
                    assert(closed(inner, variables_of(lc)));
                    assert(closed(ty, variables_of(l)));
                    assert(!variables_of(lp).contains(v)) by {
                        if variables_of(lp).contains(v) {
                            let s = choose|s: int| 0 <= s < lp.len() && lp[s] == Some(v);
                            assert(lc[s] == Some(v));
                            assert(s != state);
                        }
                    }
                    let bs = binders(ty);
                    let bi = binders(inner);
                    assert(bs == seq![v] + bi);
                    assert forall|j: int| 0 <= j < bi.len() implies bi[j] != v by {
                        assert(!variables_of(lc).contains(bi[j]));
                    }
                    assert forall|j: int| 0 <= j < bs.len() implies next <= #[trigger] bs[j] < n && !variables_of(l).contains(bs[j]) by {
                        if j > 0 {
                            assert(bs[j] == bi[j - 1]);
                            if variables_of(l).contains(bs[j]) {
                                let s = choose|s: int| 0 <= s < lp.len() && lp[s] == Some(bs[j]);
                                assert(lc[s] == Some(bs[j]));
                                assert(variables_of(lc).contains(bs[j]));
                            }
                        }
                    }
                    assert(bs.no_duplicates()) by {
                        assert forall|a: int, b: int| 0 <= a < bs.len() && 0 <= b < bs.len() && a != b implies bs[a] != bs[b] by {
                            if a > 0 && b > 0 {
                                assert(bs[a] == bi[a - 1] && bs[b] == bi[b - 1]);
                            } else if a == 0 {
                                assert(bs[b] == bi[b - 1]);
                            } else {
                                assert(bs[a] == bi[a - 1]);
                            }
                        }
                    }
                    assert(grows(seen, looped, next, l, n)) by {
                        assert forall|s: int| 0 <= s < l.len() && (#[trigger] l[s]) is Some implies seen[s] && l[s]->Some_0 < n by {
                            assert(lc[s] == l[s]);
                        }
                        assert forall|s: int| 0 <= s < looped.len() && (#[trigger] looped[s]) is Some implies l[s] == looped[s] by {
                            assert(s != state);
                        }
                    }
                },
                None => {
                    assert(l == lc);
                    assert(grows(seen, looped, next, l, n)) by {
                        assert forall|s: int| 0 <= s < l.len() && (#[trigger] l[s]) is Some implies seen[s] by {
                            assert(marked[s]);
                        }
                    }
                },
            }
        }
    }
}

proof fn lemma_build_list_scoped<R, L>(
    fsm: Fsm<R, L>,
    transitions: Seq<(Transition<R, L>, nat)>,
    k: int,
    seen: Seq<bool>,
    looped: Seq<Option<nat>>,
    next: nat,
)
    requires
        scoped(seen, looped, next),
    ensures
        ({
            let (children, l, n) = build_list(fsm, transitions, k, seen, looped, next);
            &&& grows(seen, looped, next, l, n)
            &&& fresh_binders(binders_of_choices(children), next, n, l)
            &&& forall|i: int| 0 <= i < children.len() ==> closed(#[trigger] children[i].1, variables_of(l))
        }),
    decreases unseen(seen), 1nat, transitions.len() - k,
{
    if 0 <= k < transitions.len() {
        lemma_build_scoped(fsm, transitions[k].1, seen, looped, next);
        let (child, l1, n1) = build(fsm, transitions[k].1, seen, looped, next);
        lemma_build_list_scoped(fsm, transitions, k + 1, seen, l1, n1);
        let (rest, l2, n2) = build_list(fsm, transitions, k + 1, seen, l1, n1);
        let all = seq![(transitions[k].0, child)] + rest;
        assert(all.subrange(1, all.len() as int) =~= rest);
        assert(all[0].1 == child);
        let bc = binders(child);
        let br = binders_of_choices(rest);
        let bs = binders_of_choices(all);
        assert(bs == bc + br);
        assert(variables_of(l1).subset_of(variables_of(l2))) by {
            assert forall|w: nat| variables_of(l1).contains(w) implies variables_of(l2).contains(w) by {
                let s = choose|s: int| 0 <= s < l1.len() && l1[s] == Some(w);
                assert(l2[s] == Some(w));
            }
        }
        assert forall|j: int| 0 <= j < bc.len() implies !variables_of(l2).contains(bc[j]) by {
            if variables_of(l2).contains(bc[j]) {
                let s = choose|s: int| 0 <= s < l2.len() && l2[s] == Some(bc[j]);
                if l1[s] is Some {
                    assert(l1[s] == l2[s]);
                    assert(variables_of(l1).contains(bc[j]));
                } else {
                    assert(n1 <= l2[s]->Some_0);
                }
            }
        }
        assert forall|j: int| 0 <= j < bs.len() implies next <= #[trigger] bs[j] < n2 && !variables_of(l2).contains(bs[j]) by {
            if j < bc.len() {
                assert(bs[j] == bc[j]);
            } else {
                assert(bs[j] == br[j - bc.len()]);
            }
        }
        assert(bs.no_duplicates()) by {
            assert forall|a: int, b: int| 0 <= a < bs.len() && 0 <= b < bs.len() && a != b implies bs[a] != bs[b] by {
                if a < bc.len() && b < bc.len() {
                    assert(bs[a] == bc[a] && bs[b] == bc[b]);
                } else if a >= bc.len() && b >= bc.len() {
                    assert(bs[a] == br[a - bc.len()] && bs[b] == br[b - bc.len()]);
                } else if a < bc.len() {
                    assert(bs[a] == bc[a] && bs[b] == br[b - bc.len()]);
                } else {
                    assert(bs[b] == bc[b] && bs[a] == br[a - bc.len()]);
                }
            }
        }
        assert forall|i: int| 0 <= i < all.len() implies closed(#[trigger] all[i].1, variables_of(l2)) by {
            if i == 0 {
                lemma_closed_more(child, variables_of(l1), variables_of(l2));
            } else {
                assert(all[i] == rest[i - 1]);
            }
        }
        assert(grows(seen, looped, next, l2, n2)) by {
            assert forall|s: int| 0 <= s < l2.len() && (#[trigger] l2[s]) is Some && looped[s] is None implies next
                <= l2[s]->Some_0 by {
                if l1[s] is Some {
                    assert(l1[s] == l2[s]);
                }
            }
        }
    } else {
        let (children, l, n) = build_list(fsm, transitions, k, seen, looped, next);
        assert(binders_of_choices(children) =~= Seq::<nat>::empty());
    }
}

/// In the local type of a state machine every variable is bound once, so
/// that no binder hides another, and every jump back is to a variable
/// bound around it: a state jumped back to gets a variable of its own.
pub proof fn lemma_local_scoped<R, L>(fsm: Fsm<R, L>)
    ensures
        ({
            let m = build(fsm, 0, Seq::new(fsm.num_states(), |i: int| false), Seq::new(
                fsm.num_states(),
                |i: int| None::<nat>,
            ), 0).0;
            &&& binders(m).no_duplicates()
            &&& closed(m, Set::empty())
        }),
{
    let seen = Seq::new(fsm.num_states(), |i: int| false);
    let looped = Seq::new(fsm.num_states(), |i: int| None::<nat>);
    lemma_build_scoped(fsm, 0, seen, looped, 0);
    let (m, l, n) = build(fsm, 0, seen, looped, 0);
    assert(variables_of(l) =~= Set::<nat>::empty()) by {
        assert forall|w: nat| !variables_of(l).contains(w) by {
            if variables_of(l).contains(w) {
                let s = choose|s: int| 0 <= s < l.len() && l[s] == Some(w);
                assert(seen[s]);
            }
        }
    }
}

/// A state that has a variable keeps it; one that has none gets the next
/// variable, and the next one after it is new.
pub proof fn lemma_variable_for(looped: Seq<Option<nat>>, next: nat, state: nat)
    requires
        state < looped.len(),
    ensures
        looped[state as int] matches Some(v) ==> variable_for(looped, next, state) == (v, looped, next),
        looped[state as int] is None ==> variable_for(looped, next, state).0 == next
            && variable_for(looped, next, state).1[state as int] == Some(next)
            && variable_for(looped, next, state).2 == next + 1,
{
}

} // verus!
