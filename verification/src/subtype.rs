use crate::fsm::{same_transition, unref, Action, Fsm, StateIndex, Transition, transitions_same};
use crate::matrix::Matrix;
use crate::pair::Pair;
use crate::prefix::{Index, Prefix, PrefixModel, Snapshot, items_view, lemma_revert_extends};
use crate::symbol::Symbol;
use vstd::prelude::*;

verus! {

/// Whether a transition on the right keeps a transition on the left from
/// being brought forward past it: a receive cannot pass any communication
/// with its role nor any send; a send cannot pass a send to its role.
pub open spec fn rejects<R: Symbol, L: Symbol>(left: Transition<R, L>, right: Transition<R, L>) -> bool {
    match left.action {
        Action::Input => right.role.same(&left.role) || right.action == Action::Output,
        Action::Output => right.role.same(&left.role) && right.action == Action::Output,
    }
}

/// Searches `items` from position `i` for a transition the same as `left`
/// that nothing before it keeps from being brought forward: `Some(Some(p))`
/// names its position `p`, `Some(None)` says there is none, `None` says a
/// transition rejects `left` first.
pub open spec fn scan<R: Symbol, L: Symbol>(
    left: Transition<R, L>,
    items: Seq<(int, Transition<R, L>)>,
    i: int,
) -> Option<Option<int>>
    decreases items.len() - i,
{
    if i < 0 || i >= items.len() {
        Some(None)
    } else if same_transition(left, items[i].1) {
        Some(Some(items[i].0))
    } else if rejects(left, items[i].1) {
        None
    } else {
        scan(left, items, i + 1)
    }
}

/// Where the first transition of the left may be found on the right, the
/// first transition of the right being known to differ from it.
pub open spec fn reorder<R: Symbol, L: Symbol>(
    left: Transition<R, L>,
    items: Seq<(int, Transition<R, L>)>,
) -> Option<Option<int>> {
    if rejects(left, items[0].1) {
        None
    } else {
        scan(left, items, 1)
    }
}

/// Cancels the transitions that begin both prefixes, or that begin the
/// left one and can be brought forward on the right, for as long as there
/// are any. `false` when a transition on the left can never be matched.
pub open spec fn reduce<R: Symbol, L: Symbol>(
    left: PrefixModel<R, L>,
    right: PrefixModel<R, L>,
) -> (bool, PrefixModel<R, L>, PrefixModel<R, L>)
    decreases left.entries.len() - left.start,
{
    match (left.first(), right.first()) {
        (Some(l), Some(r)) => {
            proof {
                left.lemma_next_start(left.start + 1);
            }
            if same_transition(l, r) {
                reduce(left.remove_first(), right.remove_first())
            } else {
                match reorder(l, right.items()) {
                    Some(Some(i)) => reduce(left.remove_first(), right.remove(i)),
                    Some(None) => (true, left, right),
                    None => (false, left, right),
                }
            }
        },
        _ => (true, left, right),
    }
}


/// The search finds the first transition the same as `left` when every
/// transition before it lets `left` pass.
pub proof fn lemma_scan_passes<R: Symbol, L: Symbol>(
    left: Transition<R, L>,
    items: Seq<(int, Transition<R, L>)>,
    i: int,
    p: int,
)
    requires
        0 <= i <= p < items.len(),
        same_transition(left, items[p].1),
        forall|k: int| i <= k < p ==> !same_transition(left, #[trigger] items[k].1) && ((left.action == Action::Output ==> !(items[k].1.action == Action::Output && items[k].1.role.same(&left.role))) && (left.action == Action::Input ==> items[k].1.action == Action::Input && !items[k].1.role.same(&left.role))),
    ensures
        scan(left, items, i) == Some(Some(items[p].0)),
    decreases p - i,
{
    if i < p {
        lemma_scan_passes(left, items, i + 1, p);
    }
}

/// The search stops with `None` at a transition that does not let `left`
/// pass, when no transition the same as `left` comes before it.
pub proof fn lemma_scan_blocked<R: Symbol, L: Symbol>(
    left: Transition<R, L>,
    items: Seq<(int, Transition<R, L>)>,
    i: int,
    p: int,
)
    requires
        0 <= i <= p < items.len(),
        !((left.action == Action::Output ==> !(items[p].1.action == Action::Output && items[p].1.role.same(&left.role))) && (left.action == Action::Input ==> items[p].1.action == Action::Input && !items[p].1.role.same(&left.role))),
        forall|k: int| i <= k <= p ==> !same_transition(left, #[trigger] items[k].1),
    ensures
        scan(left, items, i) is None,
    decreases p - i,
{
    if i < p && !rejects(left, items[i].1) {
        lemma_scan_blocked(left, items, i + 1, p);
    }
}

/// Asynchronous subtyping lets a send be brought forward past anything but
/// a send to the same role, and a receive past receives from other roles
/// only: where every transition of the right before the first one the
/// same as `left` lets it pass, that one is found; where one that does not
/// let it pass comes first, none is.
pub proof fn lemma_reorder<R: Symbol, L: Symbol>(
    left: Transition<R, L>,
    items: Seq<(int, Transition<R, L>)>,
    p: int,
)
    requires
        0 <= p < items.len(),
    ensures
        1 <= p && same_transition(left, items[p].1) && (forall|k: int| 0 <= k < p ==> !same_transition(left, #[trigger] items[k].1)
            && ((left.action == Action::Output ==> !(items[k].1.action == Action::Output && items[k].1.role.same(&left.role))) && (left.action == Action::Input ==> items[k].1.action == Action::Input && !items[k].1.role.same(&left.role)))) ==> reorder(left, items) == Some(Some(items[p].0)),
        !((left.action == Action::Output ==> !(items[p].1.action == Action::Output && items[p].1.role.same(&left.role))) && (left.action == Action::Input ==> items[p].1.action == Action::Input && !items[p].1.role.same(&left.role))) && (forall|k: int| 1 <= k <= p ==> !same_transition(left, #[trigger] items[k].1))
            ==> reorder(left, items) is None,
{
    if 1 <= p && same_transition(left, items[p].1) && (forall|k: int| 0 <= k < p ==> !same_transition(left, #[trigger] items[k].1)
        && ((left.action == Action::Output ==> !(items[k].1.action == Action::Output && items[k].1.role.same(&left.role))) && (left.action == Action::Input ==> items[k].1.action == Action::Input && !items[k].1.role.same(&left.role)))) {
        {
            assert(((left.action == Action::Output ==> !(items[0].1.action == Action::Output && items[0].1.role.same(&left.role))) && (left.action == Action::Input ==> items[0].1.action == Action::Input && !items[0].1.role.same(&left.role))));
            lemma_scan_passes(left, items, 1, p);
        }
    }
    if !((left.action == Action::Output ==> !(items[p].1.action == Action::Output && items[p].1.role.same(&left.role))) && (left.action == Action::Input ==> items[p].1.action == Action::Input && !items[p].1.role.same(&left.role))) && (forall|k: int| 1 <= k <= p ==> !same_transition(left, #[trigger] items[k].1)) {
        if p >= 1 && !rejects(left, items[0].1) {
            lemma_scan_blocked(left, items, 1, p);
        }
    }
}

fn rejects_exec<R: Symbol, L: Symbol>(left: &Transition<&R, &L>, right: &Transition<&R, &L>) -> (rejected: bool)
    ensures
        rejected == rejects(unref(*left), unref(*right)),
{
    match left.action {
        Action::Input => right.role.same_as(left.role) || right.action == Action::Output,
        Action::Output => right.role.same_as(left.role) && right.action == Action::Output,
    }
}

/// Where `left`, which differs from the first transition of `rights`, may
/// be found further on in `rights`.
fn reorder_exec<'a, R: Symbol, L: Symbol>(
    left: &Transition<&'a R, &'a L>,
    rights: &Prefix<'a, R, L>,
) -> (found: Option<Option<Index>>)
    requires
        rights@.wf(),
        !rights@.is_empty(),
    ensures
        match found {
            None => reorder(unref(*left), rights@.items()) is None,
            Some(None) => reorder(unref(*left), rights@.items()) == Some(None::<int>),
            Some(Some(i)) => {
                &&& reorder(unref(*left), rights@.items()) == Some(Some(i.spec_index()))
                &&& rights@.start <= i.spec_index() < rights@.entries.len()
                &&& !rights@.entries[i.spec_index()].0
            },
        },
{
    let items = rights.iter_full();
    let ghost view = rights@.items();
    proof {
        rights@.lemma_items_from(rights@.start);
        assert(items_view(items@)[0] == view[0]);
    }
    if rejects_exec(left, &items[0].1) {
        return None;
    }
    let n = items.len();
    let mut i: usize = 1;
    while i < n
        invariant
            rights@.wf(),
            n == items@.len(),
            view == rights@.items(),
            items_view(items@) == view,
            1 <= i <= n,
            view.len() > 0,
            !rejects(unref(*left), view[0].1),
            scan(unref(*left), view, 1) == scan(unref(*left), view, i as int),
            forall|k: int| 0 <= k < view.len() ==> {
                let (p, t) = #[trigger] view[k];
                &&& rights@.start <= p < rights@.entries.len()
                &&& !rights@.entries[p].0
                &&& rights@.entries[p].1 == t
            },
        decreases n - i,
    {
        proof {
            assert(items_view(items@)[i as int] == view[i as int]);
        }
        if transitions_same(left, &items[i].1) {
            proof {
                assert(view[i as int] == (items@[i as int].0.spec_index(), unref(items@[i as int].1)));
                assert(scan(unref(*left), view, i as int) == Some(Some(view[i as int].0)));
                assert(reorder(unref(*left), view) == scan(unref(*left), view, 1));
                assert(reorder(unref(*left), rights@.items()) == Some(Some(items@[i as int].0.spec_index())));
                let (p, t) = view[i as int];
                assert(rights@.start <= items@[i as int].0.spec_index() < rights@.entries.len());
            }
            return Some(Some(items[i].0));
        }
        if rejects_exec(left, &items[i].1) {
            return None;
        }
        i = i + 1;
    }
    Some(None)
}

/// Cancels what both prefixes can cancel; see `reduce`.
fn reduce_exec<'a, R: Symbol, L: Symbol>(prefixes: &mut Pair<Prefix<'a, R, L>>) -> (reduced: bool)
    requires
        old(prefixes).left@.wf(),
        old(prefixes).right@.wf(),
    ensures
        (reduced, final(prefixes).left@, final(prefixes).right@) == reduce(old(prefixes).left@, old(prefixes).right@),
        final(prefixes).left@.wf(),
        final(prefixes).right@.wf(),
        final(prefixes).left@.extends(old(prefixes).left@),
        final(prefixes).right@.extends(old(prefixes).right@),
{
    proof {
        old(prefixes).left@.lemma_extends_refl();
        old(prefixes).right@.lemma_extends_refl();
    }
    loop
        invariant
            prefixes.left@.wf(),
            prefixes.right@.wf(),
            prefixes.left@.extends(old(prefixes).left@),
            prefixes.right@.extends(old(prefixes).right@),
            reduce(prefixes.left@, prefixes.right@) == reduce(old(prefixes).left@, old(prefixes).right@),
        decreases prefixes.left@.entries.len() - prefixes.left@.start,
    {
        let left = match prefixes.left.first() {
            Some(t) => *t,
            None => return true,
        };
        let right = match prefixes.right.first() {
            Some(t) => *t,
            None => return true,
        };
        let ghost before_left = prefixes.left@;
        let ghost before_right = prefixes.right@;
        proof {
            before_left.lemma_next_start(before_left.start + 1);
        }
        if transitions_same(&left, &right) {
            prefixes.left.remove_first();
            prefixes.right.remove_first();
            proof {
                crate::prefix::lemma_extends_trans(prefixes.left@, before_left, old(prefixes).left@);
                crate::prefix::lemma_extends_trans(prefixes.right@, before_right, old(prefixes).right@);
            }
            continue;
        }
        match reorder_exec(&left, &prefixes.right) {
            Some(Some(i)) => {
                prefixes.left.remove_first();
                prefixes.right.remove(i);
                proof {
                    crate::prefix::lemma_extends_trans(prefixes.left@, before_left, old(prefixes).left@);
                    crate::prefix::lemma_extends_trans(prefixes.right@, before_right, old(prefixes).right@);
                }
            },
            Some(None) => return true,
            None => return false,
        }
    }
}


/// What a visit to a pair of states leaves for later visits to the same
/// pair: how many more visits are allowed, and the prefixes as they were
/// when the pair was last entered, if it is being visited.
#[derive(Clone, Copy)]
pub struct Previous {
    pub visits: usize,
    pub snapshots: Option<Pair<Snapshot>>,
}

impl Previous {
    pub fn new(visits: usize, snapshots: Option<Pair<Snapshot>>) -> (previous: Self)
        ensures
            previous == (Previous { visits, snapshots }),
    {
        Self { visits, snapshots }
    }
}

/// Whether every choice (`All`) or some choice (`Any`) must succeed.
#[derive(Clone, Copy, Debug, PartialEq, Eq, Structural)]
pub enum Quantifier {
    All,
    Any,
}

/// The visits still allowed over the whole history.
pub open spec fn sum_visits(history: Seq<Previous>) -> nat
    decreases history.len(),
{
    if history.len() == 0 {
        0
    } else {
        sum_visits(history.drop_last()) + history.last().visits as nat
    }
}

/// Taking one visit from a pair takes one from the whole history.
pub proof fn lemma_sum_visits_update(history: Seq<Previous>, i: int, previous: Previous)
    requires
        0 <= i < history.len(),
        previous.visits + 1 == history[i].visits,
    ensures
        sum_visits(history.update(i, previous)) + 1 == sum_visits(history),
    decreases history.len(),
{
    let h = history.update(i, previous);
    if i == history.len() - 1 {
        assert(h.drop_last() =~= history.drop_last());
    } else {
        lemma_sum_visits_update(history.drop_last(), i, previous);
        assert(h.drop_last() =~= history.drop_last().update(i, previous));
    }
}

/// The quantifiers of the choices on the left and on the right, by the
/// actions of their states.
pub open spec fn quantifiers(left: Action, right: Action) -> (Quantifier, Quantifier) {
    match (left, right) {
        (Action::Output, Action::Output) => (Quantifier::All, Quantifier::Any),
        (Action::Output, Action::Input) => (Quantifier::All, Quantifier::All),
        (Action::Input, Action::Output) => (Quantifier::Any, Quantifier::Any),
        (Action::Input, Action::Input) => (Quantifier::Any, Quantifier::All),
    }
}

/// Whether the choices of the right are enumerated on the outside: only
/// when both states receive.
pub open spec fn swapped(left: Action, right: Action) -> bool {
    left == Action::Input && right == Action::Input
}

/// Whether the pair of states `(l, r)`, with the given history and
/// prefixes of pending transitions, passes the subtyping check.
pub open spec fn visit<R: Symbol, L: Symbol>(
    lfsm: Fsm<R, L>,
    rfsm: Fsm<R, L>,
    history: Seq<Previous>,
    pl: PrefixModel<R, L>,
    pr: PrefixModel<R, L>,
    l: nat,
    r: nat,
) -> bool
    decreases sum_visits(history), 0nat, 0nat,
{
    let idx = l * rfsm.num_states() + r;
    if idx >= history.len() || history[idx as int].visits == 0 {
        false
    } else {
        let (ok, ql, qr) = reduce(pl, pr);
        if !ok {
            false
        } else if history[idx as int].snapshots matches Some(snapshots) && !ql.is_modified(snapshots.left)
            && !qr.is_modified(snapshots.right) {
            true
        } else {
            let tl = lfsm.spec_transitions_from(l);
            let tr = rfsm.spec_transitions_from(r);
            if tl.len() == 0 && tr.len() == 0 {
                ql.is_empty() && qr.is_empty()
            } else if tl.len() > 0 && tr.len() > 0 {
                let previous = Previous {
                    visits: (history[idx as int].visits - 1) as usize,
                    snapshots: Some(Pair { left: ql.snapshot(), right: qr.snapshot() }),
                };
                let next = history.update(idx as int, previous);
                proof {
                    lemma_sum_visits_update(history, idx as int, previous);
                }
                let (la, ra) = (tl[0].0.action, tr[0].0.action);
                let (ql_q, qr_q) = quantifiers(la, ra);
                if swapped(la, ra) {
                    unroll_outer(lfsm, rfsm, next, qr, ql, tr, tl, qr_q, ql_q, true, 0)
                } else {
                    unroll_outer(lfsm, rfsm, next, ql, qr, tl, tr, ql_q, qr_q, false, 0)
                }
            } else {
                false
            }
        }
    }
}

/// The choices enumerated on the outside, from the `i`th on: each is pushed
/// onto its prefix, as it was, and tried against the inner choices.
pub open spec fn unroll_outer<R: Symbol, L: Symbol>(
    lfsm: Fsm<R, L>,
    rfsm: Fsm<R, L>,
    history: Seq<Previous>,
    outer_prefix: PrefixModel<R, L>,
    inner_prefix: PrefixModel<R, L>,
    outer: Seq<(Transition<R, L>, nat)>,
    inner: Seq<(Transition<R, L>, nat)>,
    outer_q: Quantifier,
    inner_q: Quantifier,
    swap: bool,
    i: int,
) -> bool
    decreases sum_visits(history), 2nat, outer.len() - i,
{
    if i < 0 || i >= outer.len() {
        outer_q == Quantifier::All
    } else {
        let pushed = outer_prefix.push(outer[i].0);
        let output = unroll_inner(lfsm, rfsm, history, pushed, inner_prefix, outer[i].1, inner, inner_q, swap, 0);
        if output == (outer_q == Quantifier::Any) {
            output
        } else {
            unroll_outer(lfsm, rfsm, history, outer_prefix, inner_prefix, outer, inner, outer_q, inner_q, swap, i + 1)
        }
    }
}

/// The choices enumerated on the inside, from the `j`th on, against an
/// outer choice already pushed: each is pushed onto its prefix, as it was,
/// and the pair of targets is visited.
pub open spec fn unroll_inner<R: Symbol, L: Symbol>(
    lfsm: Fsm<R, L>,
    rfsm: Fsm<R, L>,
    history: Seq<Previous>,
    outer_prefix: PrefixModel<R, L>,
    inner_prefix: PrefixModel<R, L>,
    outer_state: nat,
    inner: Seq<(Transition<R, L>, nat)>,
    inner_q: Quantifier,
    swap: bool,
    j: int,
) -> bool
    decreases sum_visits(history), 1nat, inner.len() - j,
{
    if j < 0 || j >= inner.len() {
        inner_q == Quantifier::All
    } else {
        let pushed = inner_prefix.push(inner[j].0);
        let output = if swap {
            visit(lfsm, rfsm, history, pushed, outer_prefix, inner[j].1, outer_state)
        } else {
            visit(lfsm, rfsm, history, outer_prefix, pushed, outer_state, inner[j].1)
        };
        if output == (inner_q == Quantifier::Any) {
            output
        } else {
            unroll_inner(lfsm, rfsm, history, outer_prefix, inner_prefix, outer_state, inner, inner_q, swap, j + 1)
        }
    }
}


/// A snapshot of some older state of a prefix that the prefix extends,
/// as far as sizes show.
pub open spec fn snapshot_fits<R, L>(prefix: PrefixModel<R, L>, snapshot: Snapshot) -> bool {
    &&& prefix.valid_snapshot(snapshot)
    &&& snapshot.start <= snapshot.size
}

/// Every snapshot in the history fits the prefixes.
pub open spec fn history_fits<R, L>(history: Seq<Previous>, pl: PrefixModel<R, L>, pr: PrefixModel<R, L>) -> bool {
    forall|i: int| 0 <= i < history.len() ==> match (#[trigger] history[i]).snapshots {
        Some(s) => snapshot_fits(pl, s.left) && snapshot_fits(pr, s.right),
        None => true,
    }
}

/// Prefixes that grew still fit the history.
pub proof fn lemma_history_fits_grow<R, L>(
    history: Seq<Previous>,
    pl: PrefixModel<R, L>,
    pr: PrefixModel<R, L>,
    ql: PrefixModel<R, L>,
    qr: PrefixModel<R, L>,
)
    requires
        history_fits(history, pl, pr),
        pl.removed.len() <= ql.removed.len(),
        pl.entries.len() <= ql.entries.len(),
        pl.start <= ql.start,
        pr.removed.len() <= qr.removed.len(),
        pr.entries.len() <= qr.entries.len(),
        pr.start <= qr.start,
    ensures
        history_fits(history, ql, qr),
{
    assert forall|i: int| 0 <= i < history.len() implies match (#[trigger] history[i]).snapshots {
        Some(s) => snapshot_fits(ql, s.left) && snapshot_fits(qr, s.right),
        None => true,
    } by {
        match history[i].snapshots {
            Some(s) => {
                assert(snapshot_fits(pl, s.left) && snapshot_fits(pr, s.right));
            },
            None => {},
        }
    }
}

struct SubtypeVisitor<'a, R, L> {
    fsms: Pair<&'a Fsm<R, L>>,
    history: Matrix<Previous>,
    prefixes: Pair<Prefix<'a, R, L>>,
}

impl<'a, R: Symbol, L: Symbol> SubtypeVisitor<'a, R, L> {
    spec fn inv(&self) -> bool {
        &&& self.history.wf()
        &&& self.history.dims() == (self.fsms.left.num_states(), self.fsms.right.num_states())
        &&& self.prefixes.left@.wf()
        &&& self.prefixes.right@.wf()
        &&& history_fits(self.history.cells(), self.prefixes.left@, self.prefixes.right@)
    }

    fn visit(&mut self, states: Pair<StateIndex>) -> (output: bool)
        requires
            old(self).inv(),
            states.left.spec_index() < old(self).fsms.left.num_states(),
            states.right.spec_index() < old(self).fsms.right.num_states(),
        ensures
            final(self).inv(),
            final(self).fsms == old(self).fsms,
            final(self).history.cells() == old(self).history.cells(),
            final(self).history.dims() == old(self).history.dims(),
            final(self).prefixes.left@.extends(old(self).prefixes.left@),
            final(self).prefixes.right@.extends(old(self).prefixes.right@),
            output == visit(
                *old(self).fsms.left,
                *old(self).fsms.right,
                old(self).history.cells(),
                old(self).prefixes.left@,
                old(self).prefixes.right@,
                states.left.spec_index(),
                states.right.spec_index(),
            ),
        decreases sum_visits(old(self).history.cells()), 0nat,
    {
        let ghost h = self.history.cells();
        let ghost pl = self.prefixes.left@;
        let ghost pr = self.prefixes.right@;
        let ghost l = states.left.spec_index();
        let ghost r = states.right.spec_index();
        let ghost m = self.fsms.right.num_states();
        let ghost idx = l * m + r;
        proof {
            pl.lemma_extends_refl();
            pr.lemma_extends_refl();
            self.history.lemma_len();
            let n = self.fsms.left.num_states();
            assert(l * m + r < n * m) by (nonlinear_arith)
                requires
                    l < n,
                    r < m,
            ;
        }
        let index = Pair::new(states.left.index(), states.right.index());
        let previous = *self.history.get(index);
        assert(previous == h[idx as int]);
        if previous.visits == 0 {
            return false;
        }
        if !reduce_exec(&mut self.prefixes) {
            proof {
                lemma_history_fits_grow(h, pl, pr, self.prefixes.left@, self.prefixes.right@);
            }
            return false;
        }
        let ghost ql = self.prefixes.left@;
        let ghost qr = self.prefixes.right@;
        proof {
            lemma_history_fits_grow(h, pl, pr, ql, qr);
        }
        if let Some(snapshots) = previous.snapshots {
            proof {
                assert(snapshot_fits(ql, snapshots.left) && snapshot_fits(qr, snapshots.right));
            }
            if !self.prefixes.left.is_modified(&snapshots.left) && !self.prefixes.right.is_modified(&snapshots.right) {
                return true;
            }
        }
        let left_transitions = self.fsms.left.transitions_from(states.left);
        let right_transitions = self.fsms.right.transitions_from(states.right);
        let empty = self.prefixes.left.is_empty() && self.prefixes.right.is_empty();
        if left_transitions.len() == 0 && right_transitions.len() == 0 {
            return empty;
        }
        if left_transitions.len() == 0 || right_transitions.len() == 0 {
            return false;
        }
        let ghost tl = self.fsms.left.spec_transitions_from(l);
        let ghost tr = self.fsms.right.spec_transitions_from(r);
        proof {
            assert(crate::fsm::unref_targets(left_transitions@)[0] == tl[0]);
            assert(crate::fsm::unref_targets(right_transitions@)[0] == tr[0]);
        }
        let snapshots = Pair::new(self.prefixes.left.snapshot(), self.prefixes.right.snapshot());
        let next_previous = Previous::new(previous.visits - 1, Some(snapshots));
        self.history.set(index, next_previous);
        let ghost next = self.history.cells();
        proof {
            assert(next == h.update(idx as int, next_previous));
            lemma_sum_visits_update(h, idx as int, next_previous);
            assert forall|i: int| 0 <= i < next.len() implies match (#[trigger] next[i]).snapshots {
                Some(s) => snapshot_fits(ql, s.left) && snapshot_fits(qr, s.right),
                None => true,
            } by {
                if i != idx {
                    assert(next[i] == h[i]);
                }
            }
        }
        let left_action = left_transitions[0].0.action;
        let right_action = right_transitions[0].0.action;
        let output = match (left_action, right_action) {
            (Action::Output, Action::Output) => self.unroll(left_transitions, right_transitions, Quantifier::All, Quantifier::Any, false),
            (Action::Output, Action::Input) => self.unroll(left_transitions, right_transitions, Quantifier::All, Quantifier::All, false),
            (Action::Input, Action::Output) => self.unroll(left_transitions, right_transitions, Quantifier::Any, Quantifier::Any, false),
            (Action::Input, Action::Input) => self.unroll(right_transitions, left_transitions, Quantifier::All, Quantifier::Any, true),
        };
        self.history.set(index, previous);
        proof {
            assert(self.history.cells() =~= h);
            crate::prefix::lemma_extends_trans(self.prefixes.left@, ql, pl);
            crate::prefix::lemma_extends_trans(self.prefixes.right@, qr, pr);
            lemma_history_fits_grow(h, pl, pr, self.prefixes.left@, self.prefixes.right@);
        }
        output
    }

    fn unroll(
        &mut self,
        outer: Vec<(Transition<&'a R, &'a L>, StateIndex)>,
        inner: Vec<(Transition<&'a R, &'a L>, StateIndex)>,
        outer_q: Quantifier,
        inner_q: Quantifier,
        swap: bool,
    ) -> (output: bool)
        requires
            old(self).inv(),
            forall|k: int| 0 <= k < outer@.len() ==> (#[trigger] outer@[k]).1.spec_index()
                < (if swap { old(self).fsms.right.num_states() } else { old(self).fsms.left.num_states() }),
            forall|k: int| 0 <= k < inner@.len() ==> (#[trigger] inner@[k]).1.spec_index()
                < (if swap { old(self).fsms.left.num_states() } else { old(self).fsms.right.num_states() }),
        ensures
            final(self).inv(),
            final(self).fsms == old(self).fsms,
            final(self).history.cells() == old(self).history.cells(),
            final(self).history.dims() == old(self).history.dims(),
            final(self).prefixes.left@.extends(old(self).prefixes.left@),
            final(self).prefixes.right@.extends(old(self).prefixes.right@),
            output == unroll_outer(
                *old(self).fsms.left,
                *old(self).fsms.right,
                old(self).history.cells(),
                if swap { old(self).prefixes.right@ } else { old(self).prefixes.left@ },
                if swap { old(self).prefixes.left@ } else { old(self).prefixes.right@ },
                crate::fsm::unref_targets(outer@),
                crate::fsm::unref_targets(inner@),
                outer_q,
                inner_q,
                swap,
                0,
            ),
        decreases sum_visits(old(self).history.cells()), 1nat,
    {
        let ghost h = self.history.cells();
        let ghost fl = *self.fsms.left;
        let ghost fr = *self.fsms.right;
        let ghost old_left = self.prefixes.left@;
        let ghost old_right = self.prefixes.right@;
        let ghost so = if swap { old_right } else { old_left };
        let ghost si = if swap { old_left } else { old_right };
        let ghost os = crate::fsm::unref_targets(outer@);
        let ghost ins = crate::fsm::unref_targets(inner@);
        let ghost nl = self.fsms.left.num_states();
        let ghost nr = self.fsms.right.num_states();
        let outer_snapshot = if swap { self.prefixes.right.snapshot() } else { self.prefixes.left.snapshot() };
        let inner_snapshot = if swap { self.prefixes.left.snapshot() } else { self.prefixes.right.snapshot() };
        proof {
            old_left.lemma_extends_refl();
            old_right.lemma_extends_refl();
        }
        let n_outer = outer.len();
        let n_inner = inner.len();
        let mut i: usize = 0;
        while i < n_outer
            invariant
                self.inv(),
                self.fsms == old(self).fsms,
                self.history.cells() == h,
                h == old(self).history.cells(),
                self.history.dims() == old(self).history.dims(),
                fl == *self.fsms.left,
                fr == *self.fsms.right,
                nl == fl.num_states(),
                nr == fr.num_states(),
                old_left == old(self).prefixes.left@,
                old_right == old(self).prefixes.right@,
                so == (if swap { old_right } else { old_left }),
                si == (if swap { old_left } else { old_right }),
                old_left.wf(),
                old_right.wf(),
                history_fits(h, old_left, old_right),
                outer_snapshot == so.snapshot(),
                inner_snapshot == si.snapshot(),
                self.prefixes.left@.extends(old_left),
                self.prefixes.right@.extends(old_right),
                n_outer == outer@.len(),
                n_inner == inner@.len(),
                i <= n_outer,
                os == crate::fsm::unref_targets(outer@),
                ins == crate::fsm::unref_targets(inner@),
                forall|k: int| 0 <= k < outer@.len() ==> (#[trigger] outer@[k]).1.spec_index() < (if swap { nr } else { nl }),
                forall|k: int| 0 <= k < inner@.len() ==> (#[trigger] inner@[k]).1.spec_index() < (if swap { nl } else { nr }),
                unroll_outer(fl, fr, h, so, si, os, ins, outer_q, inner_q, swap, 0)
                    == unroll_outer(fl, fr, h, so, si, os, ins, outer_q, inner_q, swap, i as int),
            decreases n_outer - i,
        {
            let (outer_t, outer_state) = outer[i];
            let ghost po = so.push(unref(outer_t));
            proof {
                assert(os[i as int] == (unref(outer_t), outer_state.spec_index()));
                if swap {
                    lemma_revert_extends(self.prefixes.right@, so);
                } else {
                    lemma_revert_extends(self.prefixes.left@, so);
                }
            }
            if swap {
                self.prefixes.right.revert(&outer_snapshot);
                self.prefixes.right.push(outer_t);
            } else {
                self.prefixes.left.revert(&outer_snapshot);
                self.prefixes.left.push(outer_t);
            }
            let outer_snapshot2 = if swap { self.prefixes.right.snapshot() } else { self.prefixes.left.snapshot() };
            proof {
                lemma_history_fits_grow(h, old_left, old_right, self.prefixes.left@, self.prefixes.right@);
                po.lemma_extends_refl();
            }
            let mut output = inner_q == Quantifier::All;
            let mut j: usize = 0;
            while j < n_inner
                invariant_except_break
                    output == (inner_q == Quantifier::All),
                    unroll_inner(fl, fr, h, po, si, outer_state.spec_index(), ins, inner_q, swap, 0)
                        == unroll_inner(fl, fr, h, po, si, outer_state.spec_index(), ins, inner_q, swap, j as int),
                invariant
                    self.inv(),
                    self.fsms == old(self).fsms,
                    self.history.cells() == h,
                    h == old(self).history.cells(),
                    self.history.dims() == old(self).history.dims(),
                    fl == *self.fsms.left,
                    fr == *self.fsms.right,
                    nl == fl.num_states(),
                    nr == fr.num_states(),
                    old_left == old(self).prefixes.left@,
                    old_right == old(self).prefixes.right@,
                    so == (if swap { old_right } else { old_left }),
                    si == (if swap { old_left } else { old_right }),
                    old_left.wf(),
                    old_right.wf(),
                    po.wf(),
                    po == so.push(unref(outer_t)),
                    po.extends(so),
                    history_fits(h, old_left, old_right),
                    inner_snapshot == si.snapshot(),
                    outer_snapshot2 == po.snapshot(),
                    swap ==> self.prefixes.right@.extends(po),
                    !swap ==> self.prefixes.left@.extends(po),
                    self.prefixes.left@.extends(old_left),
                    self.prefixes.right@.extends(old_right),
                    n_inner == inner@.len(),
                    j <= n_inner,
                    ins == crate::fsm::unref_targets(inner@),
                    outer_state.spec_index() < (if swap { nr } else { nl }),
                    forall|k: int| 0 <= k < inner@.len() ==> (#[trigger] inner@[k]).1.spec_index() < (if swap { nl } else { nr }),
                ensures
                    output == unroll_inner(fl, fr, h, po, si, outer_state.spec_index(), ins, inner_q, swap, 0),
                decreases n_inner - j,
            {
                let (inner_t, inner_state) = inner[j];
                let ghost pi = si.push(unref(inner_t));
                proof {
                    assert(ins[j as int] == (unref(inner_t), inner_state.spec_index()));
                    if swap {
                        lemma_revert_extends(self.prefixes.right@, po);
                        lemma_revert_extends(self.prefixes.left@, si);
                    } else {
                        lemma_revert_extends(self.prefixes.left@, po);
                        lemma_revert_extends(self.prefixes.right@, si);
                    }
                }
                if swap {
                    self.prefixes.right.revert(&outer_snapshot2);
                    self.prefixes.left.revert(&inner_snapshot);
                    self.prefixes.left.push(inner_t);
                } else {
                    self.prefixes.left.revert(&outer_snapshot2);
                    self.prefixes.right.revert(&inner_snapshot);
                    self.prefixes.right.push(inner_t);
                }
                proof {
                    lemma_history_fits_grow(h, old_left, old_right, self.prefixes.left@, self.prefixes.right@);
                }
                let states = if swap {
                    Pair::new(inner_state, outer_state)
                } else {
                    Pair::new(outer_state, inner_state)
                };
                let ghost before_left = self.prefixes.left@;
                let ghost before_right = self.prefixes.right@;
                assert(sum_visits(self.history.cells()) == sum_visits(old(self).history.cells()));
                output = self.visit(states);
                proof {
                    crate::prefix::lemma_extends_trans(self.prefixes.left@, before_left, old_left);
                    crate::prefix::lemma_extends_trans(self.prefixes.right@, before_right, old_right);
                    if swap {
                        crate::prefix::lemma_extends_trans(self.prefixes.right@, before_right, po);
                    } else {
                        crate::prefix::lemma_extends_trans(self.prefixes.left@, before_left, po);
                    }
                }
                if output == (inner_q == Quantifier::Any) {
                    break;
                }
                j = j + 1;
            }
            proof {
                assert(so.push(os[i as int].0) == po);
            }
            if output == (outer_q == Quantifier::Any) {
                return output;
            }
            i = i + 1;
        }
        outer_q == Quantifier::All
    }
}


/// The empty prefix.
pub open spec fn empty_prefix<R, L>() -> PrefixModel<R, L> {
    PrefixModel { entries: Seq::empty(), start: 0, removed: Seq::empty() }
}

/// The result of the subtyping check: the initial states visited with
/// empty prefixes and `visits` visits allowed to every pair of states.
pub open spec fn spec_is_subtype<R: Symbol, L: Symbol>(left: Fsm<R, L>, right: Fsm<R, L>, visits: usize) -> bool {
    let history = Seq::new(
        left.num_states() * right.num_states(),
        |i: int| Previous { visits, snapshots: None },
    );
    visit(left, right, history, empty_prefix(), empty_prefix(), 0, 0)
}

/// Whether `left` is an asynchronous subtype of `right`, both protocols
/// of the same role: whether `left` may be used where `right` is expected,
/// sending earlier and receiving later than `right` does. The check is
/// bounded: it visits each pair of states at most `visits` times along a
/// path, and answers `false` where the bound runs out.
pub fn is_subtype<R: Symbol, L: Symbol>(left: &Fsm<R, L>, right: &Fsm<R, L>, visits: usize) -> (subtype: bool)
    requires
        left.spec_role().same(&right.spec_role()),
        left.num_states() > 0,
        right.num_states() > 0,
        left.num_states() * right.num_states() <= usize::MAX,
    ensures
        subtype == spec_is_subtype(*left, *right, visits),
{
    let sizes = Pair::new(left.size().0, right.size().0);
    let history = Matrix::new(sizes, Previous::new(visits, None));
    let mut visitor = SubtypeVisitor {
        fsms: Pair::new(left, right),
        history,
        prefixes: Pair::new(Prefix::default(), Prefix::default()),
    };
    proof {
        assert(visitor.prefixes.left@ =~= empty_prefix());
        assert(visitor.prefixes.right@ =~= empty_prefix());
        let h = visitor.history.cells();
        assert(h =~= Seq::new(left.num_states() * right.num_states(), |i: int| Previous { visits, snapshots: None }));
    }
    let start: StateIndex = StateIndex::default();
    visitor.visit(Pair::new(start, start))
}


/// Every pending transition of the prefix has been matched.
pub open spec fn drained<R, L>(prefix: PrefixModel<R, L>) -> bool {
    prefix.start == prefix.entries.len()
}

/// Along the diagonal of a history over `n` states, every pair may still
/// be visited, twice where it is not being visited, and every snapshot of
/// a pair being visited is of drained prefixes no longer than these.
pub open spec fn diagonal_ready<R, L>(history: Seq<Previous>, n: nat, pl: PrefixModel<R, L>, pr: PrefixModel<R, L>) -> bool {
    &&& history.len() == n * n
    &&& forall|k: int| 0 <= k < n ==> {
        let e = #[trigger] history[k * n + k];
        &&& e.visits >= 1
        &&& e.snapshots is None ==> e.visits >= 2
        &&& e.snapshots matches Some(s) ==> {
            &&& s.left.start == s.left.size
            &&& s.left.size <= pl.entries.len()
            &&& s.right.start == s.right.size
            &&& s.right.size <= pr.entries.len()
        }
    }
}

proof fn lemma_diagonal_index(k: nat, s: nat, n: nat)
    requires
        k < n,
        s < n,
    ensures
        k * n + k < n * n,
        k != s ==> k * n + k != s * n + s,
{
    assert(k * n + k < n * n) by (nonlinear_arith)
        requires
            k < n,
    ;
    if k < s {
        assert(k * n + k < s * n + s) by (nonlinear_arith)
            requires
                k < s,
        ;
    } else if s < k {
        assert(s * n + s < k * n + k) by (nonlinear_arith)
            requires
                s < k,
        ;
    }
}

/// A transition pushed onto two drained prefixes cancels out.
proof fn lemma_reduce_pushed<R: Symbol, L: Symbol>(pl: PrefixModel<R, L>, pr: PrefixModel<R, L>, t: Transition<R, L>)
    requires
        drained(pl),
        drained(pr),
    ensures
        reduce(pl.push(t), pr.push(t)).0,
        drained(reduce(pl.push(t), pr.push(t)).1),
        drained(reduce(pl.push(t), pr.push(t)).2),
        reduce(pl.push(t), pr.push(t)).1.entries.len() == pl.entries.len() + 1,
        reduce(pl.push(t), pr.push(t)).2.entries.len() == pr.entries.len() + 1,
{
    R::lemma_same_equivalence(&t.role, &t.role, &t.role);
    L::lemma_same_equivalence(&t.label, &t.label, &t.label);
    let a = pl.push(t);
    let b = pr.push(t);
    assert(a.first() == Some(t));
    assert(b.first() == Some(t));
    assert(same_transition(t, t));
    let a2 = a.remove_first();
    let b2 = b.remove_first();
    assert(a.next_start(a.start + 1) == a.start + 1);
    assert(b.next_start(b.start + 1) == b.start + 1);
    assert(a2.first() is None);
    assert(reduce(a2, b2) == (true, a2, b2));
    assert(reduce(a, b) == reduce(a2, b2));
}

/// Visiting a pair of a state with itself succeeds once the prefixes
/// cancel out, given enough visits.
proof fn lemma_visit_reflexive<R: Symbol, L: Symbol>(
    fsm: Fsm<R, L>,
    history: Seq<Previous>,
    pl: PrefixModel<R, L>,
    pr: PrefixModel<R, L>,
    s: nat,
)
    requires
        fsm.wf(),
        s < fsm.num_states(),
        reduce(pl, pr).0,
        drained(reduce(pl, pr).1),
        drained(reduce(pl, pr).2),
        diagonal_ready(history, fsm.num_states(), reduce(pl, pr).1, reduce(pl, pr).2),
    ensures
        visit(fsm, fsm, history, pl, pr, s, s),
    decreases sum_visits(history), 0nat, 0nat,
{
    let n = fsm.num_states();
    let idx = s * n + s;
    lemma_diagonal_index(s, s, n);
    let (ok, ql, qr) = reduce(pl, pr);
    let e = history[idx as int];
    assert(e.visits >= 1);
    if e.snapshots is Some {
        let snapshots = e.snapshots->0;
        assert(ql.entries.subrange(ql.start, ql.entries.len() as int) =~= Seq::<(bool, Transition<R, L>)>::empty());
        assert(ql.entries.subrange(snapshots.left.start as int, snapshots.left.size as int) =~= Seq::<(bool, Transition<R, L>)>::empty());
        assert(qr.entries.subrange(qr.start, qr.entries.len() as int) =~= Seq::<(bool, Transition<R, L>)>::empty());
        assert(qr.entries.subrange(snapshots.right.start as int, snapshots.right.size as int) =~= Seq::<(bool, Transition<R, L>)>::empty());
    } else {
        let t = fsm.spec_transitions_from(s);
        if t.len() > 0 {
            fsm.lemma_transitions_from_targets(s);
            let previous = Previous {
                visits: (e.visits - 1) as usize,
                snapshots: Some(Pair { left: ql.snapshot(), right: qr.snapshot() }),
            };
            let next = history.update(idx as int, previous);
            lemma_sum_visits_update(history, idx as int, previous);
            assert forall|k: int| 0 <= k < n implies {
                let f = #[trigger] next[k * n + k];
                &&& f.visits >= 1
                &&& f.snapshots is None ==> f.visits >= 2
                &&& f.snapshots matches Some(x) ==> {
                    &&& x.left.start == x.left.size
                    &&& x.left.size <= ql.entries.len()
                    &&& x.right.start == x.right.size
                    &&& x.right.size <= qr.entries.len()
                }
            } by {
                lemma_diagonal_index(k as nat, s, n);
            }
            let a = t[0].0.action;
            if a == Action::Input {
                lemma_unroll_outer_reflexive(fsm, next, qr, ql, t, true, 0);
            } else {
                lemma_unroll_outer_reflexive(fsm, next, ql, qr, t, false, 0);
            }
        }
    }
}

proof fn lemma_unroll_outer_reflexive<R: Symbol, L: Symbol>(
    fsm: Fsm<R, L>,
    history: Seq<Previous>,
    outer_prefix: PrefixModel<R, L>,
    inner_prefix: PrefixModel<R, L>,
    transitions: Seq<(Transition<R, L>, nat)>,
    swap: bool,
    i: int,
)
    requires
        fsm.wf(),
        0 <= i,
        forall|k: int| 0 <= k < transitions.len() ==> (#[trigger] transitions[k]).1 < fsm.num_states(),
        drained(outer_prefix),
        drained(inner_prefix),
        swap ==> diagonal_ready(history, fsm.num_states(), inner_prefix, outer_prefix),
        !swap ==> diagonal_ready(history, fsm.num_states(), outer_prefix, inner_prefix),
    ensures
        unroll_outer(fsm, fsm, history, outer_prefix, inner_prefix, transitions, transitions,
            Quantifier::All, Quantifier::Any, swap, i),
    decreases sum_visits(history), 2nat, transitions.len() - i,
{
    if i < transitions.len() {
        let pushed = outer_prefix.push(transitions[i].0);
        lemma_unroll_inner_reflexive(fsm, history, pushed, outer_prefix, inner_prefix, transitions, i, swap, 0);
        lemma_unroll_outer_reflexive(fsm, history, outer_prefix, inner_prefix, transitions, swap, i + 1);
    }
}

proof fn lemma_unroll_inner_reflexive<R: Symbol, L: Symbol>(
    fsm: Fsm<R, L>,
    history: Seq<Previous>,
    pushed: PrefixModel<R, L>,
    outer_prefix: PrefixModel<R, L>,
    inner_prefix: PrefixModel<R, L>,
    transitions: Seq<(Transition<R, L>, nat)>,
    i: int,
    swap: bool,
    j: int,
)
    requires
        fsm.wf(),
        0 <= j <= i < transitions.len(),
        pushed == outer_prefix.push(transitions[i].0),
        forall|k: int| 0 <= k < transitions.len() ==> (#[trigger] transitions[k]).1 < fsm.num_states(),
        drained(outer_prefix),
        drained(inner_prefix),
        swap ==> diagonal_ready(history, fsm.num_states(), inner_prefix, outer_prefix),
        !swap ==> diagonal_ready(history, fsm.num_states(), outer_prefix, inner_prefix),
    ensures
        unroll_inner(fsm, fsm, history, pushed, inner_prefix, transitions[i].1, transitions, Quantifier::Any, swap, j),
    decreases sum_visits(history), 1nat, i - j,
{
    let t = transitions[i].0;
    let target = transitions[i].1;
    let pi = inner_prefix.push(transitions[j].0);
    if j == i {
        if swap {
            lemma_reduce_pushed(inner_prefix, outer_prefix, t);
            lemma_visit_reflexive(fsm, history, pi, pushed, target);
        } else {
            lemma_reduce_pushed(outer_prefix, inner_prefix, t);
            lemma_visit_reflexive(fsm, history, pushed, pi, target);
        }
    } else {
        lemma_unroll_inner_reflexive(fsm, history, pushed, outer_prefix, inner_prefix, transitions, i, swap, j + 1);
    }
}

/// Every protocol is a subtype of itself, as soon as each pair of states
/// may be visited twice: once on the way in and once more to close a loop.
pub proof fn lemma_is_subtype_reflexive<R: Symbol, L: Symbol>(fsm: Fsm<R, L>, visits: usize)
    requires
        fsm.wf(),
        fsm.num_states() > 0,
        visits >= 2,
    ensures
        spec_is_subtype(fsm, fsm, visits),
{
    let n = fsm.num_states();
    let history = Seq::new(n * n, |i: int| Previous { visits, snapshots: None });
    let e: PrefixModel<R, L> = empty_prefix();
    assert(e.first() is None);
    assert(reduce(e, e) == (true, e, e));
    assert forall|k: int| 0 <= k < n implies {
        let f = #[trigger] history[k * n + k];
        &&& f.visits >= 1
        &&& f.snapshots is None ==> f.visits >= 2
        &&& f.snapshots matches Some(x) ==> {
            &&& x.left.start == x.left.size
            &&& x.left.size <= e.entries.len()
            &&& x.right.start == x.right.size
            &&& x.right.size <= e.entries.len()
        }
    } by {
        lemma_diagonal_index(k as nat, 0, n);
    }
    lemma_visit_reflexive(fsm, history, e, e, 0);
}

/// `wide` allows at least the visits that `narrow` allows, pair by pair,
/// and remembers the same prefixes.
pub open spec fn allows_more(narrow: Seq<Previous>, wide: Seq<Previous>) -> bool {
    &&& narrow.len() == wide.len()
    &&& forall|i: int|
        0 <= i < narrow.len() ==> (#[trigger] narrow[i]).visits <= wide[i].visits && narrow[i].snapshots
            == wide[i].snapshots
}

proof fn lemma_visit_more<R: Symbol, L: Symbol>(
    lfsm: Fsm<R, L>,
    rfsm: Fsm<R, L>,
    narrow: Seq<Previous>,
    wide: Seq<Previous>,
    pl: PrefixModel<R, L>,
    pr: PrefixModel<R, L>,
    l: nat,
    r: nat,
)
    requires
        allows_more(narrow, wide),
        visit(lfsm, rfsm, narrow, pl, pr, l, r),
    ensures
        visit(lfsm, rfsm, wide, pl, pr, l, r),
    decreases sum_visits(narrow), 0nat, 0nat,
{
    let idx = l * rfsm.num_states() + r;
    assert(narrow[idx as int].visits <= wide[idx as int].visits);
    let (ok, ql, qr) = reduce(pl, pr);
    if history_snapshots_close(narrow[idx as int], ql, qr) {
        assert(wide[idx as int].snapshots == narrow[idx as int].snapshots);
    } else {
        let tl = lfsm.spec_transitions_from(l);
        let tr = rfsm.spec_transitions_from(r);
        if tl.len() > 0 && tr.len() > 0 {
            let snapshots = Some(Pair { left: ql.snapshot(), right: qr.snapshot() });
            let pn = Previous { visits: (narrow[idx as int].visits - 1) as usize, snapshots };
            let pw = Previous { visits: (wide[idx as int].visits - 1) as usize, snapshots };
            let nn = narrow.update(idx as int, pn);
            let nw = wide.update(idx as int, pw);
            lemma_sum_visits_update(narrow, idx as int, pn);
            assert(allows_more(nn, nw)) by {
                assert forall|i: int| 0 <= i < nn.len() implies (#[trigger] nn[i]).visits <= nw[i].visits
                    && nn[i].snapshots == nw[i].snapshots by {
                    if i != idx {
                        assert(nn[i] == narrow[i] && nw[i] == wide[i]);
                    }
                }
            }
            let (la, ra) = (tl[0].0.action, tr[0].0.action);
            let (ql_q, qr_q) = quantifiers(la, ra);
            if swapped(la, ra) {
                lemma_outer_more(lfsm, rfsm, nn, nw, qr, ql, tr, tl, qr_q, ql_q, true, 0);
            } else {
                lemma_outer_more(lfsm, rfsm, nn, nw, ql, qr, tl, tr, ql_q, qr_q, false, 0);
            }
        }
    }
}

/// Whether a visit ends at once because the pair is entered again with
/// its prefixes as they were.
pub open spec fn history_snapshots_close<R: Symbol, L: Symbol>(
    previous: Previous,
    ql: PrefixModel<R, L>,
    qr: PrefixModel<R, L>,
) -> bool {
    previous.snapshots matches Some(snapshots) && !ql.is_modified(snapshots.left) && !qr.is_modified(
        snapshots.right,
    )
}

proof fn lemma_outer_more<R: Symbol, L: Symbol>(
    lfsm: Fsm<R, L>,
    rfsm: Fsm<R, L>,
    narrow: Seq<Previous>,
    wide: Seq<Previous>,
    outer_prefix: PrefixModel<R, L>,
    inner_prefix: PrefixModel<R, L>,
    outer: Seq<(Transition<R, L>, nat)>,
    inner: Seq<(Transition<R, L>, nat)>,
    outer_q: Quantifier,
    inner_q: Quantifier,
    swap: bool,
    i: int,
)
    requires
        allows_more(narrow, wide),
        unroll_outer(lfsm, rfsm, narrow, outer_prefix, inner_prefix, outer, inner, outer_q, inner_q, swap, i),
    ensures
        unroll_outer(lfsm, rfsm, wide, outer_prefix, inner_prefix, outer, inner, outer_q, inner_q, swap, i),
    decreases sum_visits(narrow), 2nat, outer.len() - i,
{
    if 0 <= i < outer.len() {
        let pushed = outer_prefix.push(outer[i].0);
        let on = unroll_inner(lfsm, rfsm, narrow, pushed, inner_prefix, outer[i].1, inner, inner_q, swap, 0);
        let ow = unroll_inner(lfsm, rfsm, wide, pushed, inner_prefix, outer[i].1, inner, inner_q, swap, 0);
        if on {
            lemma_inner_more(lfsm, rfsm, narrow, wide, pushed, inner_prefix, outer[i].1, inner, inner_q, swap, 0);
        }
        if on != (outer_q == Quantifier::Any) {
            if ow != (outer_q == Quantifier::Any) {
                lemma_outer_more(lfsm, rfsm, narrow, wide, outer_prefix, inner_prefix, outer, inner, outer_q, inner_q, swap, i + 1);
            }
        }
    }
}

proof fn lemma_inner_more<R: Symbol, L: Symbol>(
    lfsm: Fsm<R, L>,
    rfsm: Fsm<R, L>,
    narrow: Seq<Previous>,
    wide: Seq<Previous>,
    outer_prefix: PrefixModel<R, L>,
    inner_prefix: PrefixModel<R, L>,
    outer_state: nat,
    inner: Seq<(Transition<R, L>, nat)>,
    inner_q: Quantifier,
    swap: bool,
    j: int,
)
    requires
        allows_more(narrow, wide),
        unroll_inner(lfsm, rfsm, narrow, outer_prefix, inner_prefix, outer_state, inner, inner_q, swap, j),
    ensures
        unroll_inner(lfsm, rfsm, wide, outer_prefix, inner_prefix, outer_state, inner, inner_q, swap, j),
    decreases sum_visits(narrow), 1nat, inner.len() - j,
{
    if 0 <= j < inner.len() {
        let pushed = inner_prefix.push(inner[j].0);
        let on = if swap {
            visit(lfsm, rfsm, narrow, pushed, outer_prefix, inner[j].1, outer_state)
        } else {
            visit(lfsm, rfsm, narrow, outer_prefix, pushed, outer_state, inner[j].1)
        };
        let ow = if swap {
            visit(lfsm, rfsm, wide, pushed, outer_prefix, inner[j].1, outer_state)
        } else {
            visit(lfsm, rfsm, wide, outer_prefix, pushed, outer_state, inner[j].1)
        };
        if on {
            if swap {
                lemma_visit_more(lfsm, rfsm, narrow, wide, pushed, outer_prefix, inner[j].1, outer_state);
            } else {
                lemma_visit_more(lfsm, rfsm, narrow, wide, outer_prefix, pushed, outer_state, inner[j].1);
            }
        }
        if on != (inner_q == Quantifier::Any) {
            if ow != (inner_q == Quantifier::Any) {
                lemma_inner_more(lfsm, rfsm, narrow, wide, outer_prefix, inner_prefix, outer_state, inner, inner_q, swap, j + 1);
            }
        }
    }
}

/// A larger budget of visits never turns a positive answer negative:
/// where `left` is found a subtype of `right` within `visits` visits of
/// each pair of states, it is found one within any more.
pub proof fn lemma_is_subtype_more_visits<R: Symbol, L: Symbol>(
    left: Fsm<R, L>,
    right: Fsm<R, L>,
    visits: usize,
    more: usize,
)
    requires
        visits <= more,
        spec_is_subtype(left, right, visits),
    ensures
        spec_is_subtype(left, right, more),
{
    let n = left.num_states() * right.num_states();
    let narrow = Seq::new(n, |i: int| Previous { visits, snapshots: None });
    let wide = Seq::new(n, |i: int| Previous { visits: more, snapshots: None });
    assert(allows_more(narrow, wide));
    lemma_visit_more(left, right, narrow, wide, empty_prefix(), empty_prefix(), 0, 0);
}

} // verus!
