use crate::fsm::{same_transition, unref, Transition};
use crate::symbol::Symbol;
use vstd::prelude::*;

verus! {

/// The position of a transition in a prefix.
#[derive(Clone, Copy)]
pub struct Index(usize);

impl Index {
    pub closed spec fn spec_index(self) -> int {
        self.0 as int
    }
}

/// What a prefix was at some moment: how many transitions it held, where
/// it started and how many transitions had been removed out of order.
#[derive(Clone, Copy, Debug, PartialEq, Eq)]
pub struct Snapshot {
    pub size: usize,
    pub start: usize,
    pub removed: usize,
}

/// The contents of a prefix: every transition pushed and not reverted, each
/// with whether it was removed out of order; the position of the first one
/// still there; and the positions removed out of order, oldest first.
pub struct PrefixModel<R, L> {
    pub entries: Seq<(bool, Transition<R, L>)>,
    pub start: int,
    pub removed: Seq<int>,
}

/// The transitions that a list of transitions of references points to.
pub open spec fn unref_all<R, L>(transitions: Seq<Transition<&R, &L>>) -> Seq<Transition<R, L>> {
    transitions.map_values(|t: Transition<&R, &L>| unref(t))
}

/// Positioned transitions of references, as positions and transitions.
pub open spec fn items_view<R, L>(items: Seq<(Index, Transition<&R, &L>)>) -> Seq<(int, Transition<R, L>)> {
    items.map_values(|p: (Index, Transition<&R, &L>)| (p.0.spec_index(), unref(p.1)))
}

/// The transitions of positioned transitions.
pub open spec fn item_transitions<R, L>(items: Seq<(int, Transition<R, L>)>) -> Seq<Transition<R, L>> {
    items.map_values(|p: (int, Transition<R, L>)| p.1)
}

/// Two runs of entries hold the same flags and the same transitions.
pub open spec fn same_entries<R: Symbol, L: Symbol>(
    a: Seq<(bool, Transition<R, L>)>,
    b: Seq<(bool, Transition<R, L>)>,
) -> bool {
    &&& a.len() == b.len()
    &&& forall|k: int| 0 <= k < a.len() ==> (#[trigger] a[k]).0 == b[k].0 && same_transition(a[k].1, b[k].1)
}

impl<R, L> PrefixModel<R, L> {
    pub open spec fn wf(self) -> bool {
        &&& 0 <= self.start <= self.entries.len()
        &&& self.entries.len() <= usize::MAX
        &&& self.removed.len() <= usize::MAX
        &&& self.start < self.entries.len() ==> !self.entries[self.start].0
        &&& forall|i: int| 0 <= i < self.removed.len() ==> {
            let k = #[trigger] self.removed[i];
            &&& 0 <= k < self.entries.len()
            &&& self.entries[k].0
        }
        &&& forall|i: int, j: int| 0 <= i < j < self.removed.len() ==> self.removed[i] != self.removed[j]
        &&& forall|k: int| 0 <= k < self.entries.len() && (#[trigger] self.entries[k]).0 ==> self.removed.contains(k)
    }

    pub open spec fn is_empty(self) -> bool {
        self.start >= self.entries.len()
    }

    /// The first transition still there.
    pub open spec fn first(self) -> Option<Transition<R, L>> {
        if 0 <= self.start < self.entries.len() {
            Some(self.entries[self.start].1)
        } else {
            None
        }
    }

    pub open spec fn push(self, transition: Transition<R, L>) -> Self {
        PrefixModel { entries: self.entries.push((false, transition)), ..self }
    }

    /// The first position from `i` on that was not removed out of order.
    pub open spec fn next_start(self, i: int) -> int
        decreases self.entries.len() - i,
    {
        if 0 <= i < self.entries.len() && self.entries[i].0 {
            self.next_start(i + 1)
        } else {
            i
        }
    }

    pub open spec fn remove_first(self) -> Self {
        PrefixModel { start: self.next_start(self.start + 1), ..self }
    }

    pub open spec fn remove(self, i: int) -> Self {
        if i == self.start {
            self.remove_first()
        } else {
            PrefixModel {
                entries: self.entries.update(i, (true, self.entries[i].1)),
                removed: self.removed.push(i),
                ..self
            }
        }
    }

    pub open spec fn snapshot(self) -> Snapshot {
        Snapshot {
            size: self.entries.len() as usize,
            start: self.start as usize,
            removed: self.removed.len() as usize,
        }
    }

    pub open spec fn valid_snapshot(self, snapshot: Snapshot) -> bool {
        &&& snapshot.removed <= self.removed.len()
        &&& snapshot.size <= self.entries.len()
        &&& snapshot.start <= self.start
    }

    /// Whether the prefix differs from what it was at `snapshot`: its
    /// entries from its start on differ from those that were there then,
    /// compared as they are now.
    pub open spec fn is_modified(self, snapshot: Snapshot) -> bool
        where R: Symbol, L: Symbol
    {
        !same_entries(
            self.entries.subrange(self.start, self.entries.len() as int),
            self.entries.subrange(snapshot.start as int, snapshot.size as int),
        )
    }

    /// The prefix as it was at `snapshot`: later transitions dropped, later
    /// removals undone.
    pub open spec fn revert(self, snapshot: Snapshot) -> Self {
        let later = self.removed.subrange(snapshot.removed as int, self.removed.len() as int);
        PrefixModel {
            entries: Seq::new(
                snapshot.size as nat,
                |k: int| (self.entries[k].0 && !later.contains(k), self.entries[k].1),
            ),
            start: snapshot.start as int,
            removed: self.removed.subrange(0, snapshot.removed as int),
        }
    }

    /// `self` came from `older` by pushes and removals only.
    pub open spec fn extends(self, older: Self) -> bool {
        let later = self.removed.subrange(older.removed.len() as int, self.removed.len() as int);
        &&& older.removed.len() <= self.removed.len()
        &&& self.removed.subrange(0, older.removed.len() as int) == older.removed
        &&& older.entries.len() <= self.entries.len()
        &&& older.start <= self.start
        &&& forall|k: int| 0 <= k < older.entries.len() ==> {
            &&& (#[trigger] self.entries[k]).1 == older.entries[k].1
            &&& self.entries[k].0 == (older.entries[k].0 || later.contains(k))
        }
    }
}

/// Reverting to a snapshot of an older prefix gives that prefix back.
pub proof fn lemma_revert_extends<R, L>(newer: PrefixModel<R, L>, older: PrefixModel<R, L>)
    requires
        newer.wf(),
        older.wf(),
        newer.extends(older),
    ensures
        newer.revert(older.snapshot()) == older,
        newer.valid_snapshot(older.snapshot()),
{
    let s = older.snapshot();
    let r = newer.revert(s);
    let later = newer.removed.subrange(older.removed.len() as int, newer.removed.len() as int);
    assert forall|k: int| 0 <= k < older.entries.len() implies r.entries[k] == older.entries[k] by {
        if older.entries[k].0 {
            assert(older.removed.contains(k));
            let i = choose|i: int| 0 <= i < older.removed.len() && older.removed[i] == k;
            assert(newer.removed[i] == k);
            if later.contains(k) {
                let j = choose|j: int| 0 <= j < later.len() && later[j] == k;
                assert(newer.removed[older.removed.len() + j] == k);
            }
        }
    }
    assert(r.entries =~= older.entries);
    assert(r.removed =~= older.removed);
}

/// Extension is transitive.
pub proof fn lemma_extends_trans<R, L>(a: PrefixModel<R, L>, b: PrefixModel<R, L>, c: PrefixModel<R, L>)
    requires
        a.extends(b),
        b.extends(c),
    ensures
        a.extends(c),
{
    let later_ab = a.removed.subrange(b.removed.len() as int, a.removed.len() as int);
    let later_bc = b.removed.subrange(c.removed.len() as int, b.removed.len() as int);
    let later_ac = a.removed.subrange(c.removed.len() as int, a.removed.len() as int);
    assert(a.removed.subrange(0, c.removed.len() as int) =~= c.removed) by {
        assert forall|i: int| 0 <= i < c.removed.len() implies a.removed[i] == c.removed[i] by {
            assert(a.removed.subrange(0, b.removed.len() as int)[i] == a.removed[i]);
            assert(b.removed.subrange(0, c.removed.len() as int)[i] == b.removed[i]);
        }
    }
    assert forall|k: int| 0 <= k < c.entries.len() implies {
        &&& (#[trigger] a.entries[k]).1 == c.entries[k].1
        &&& a.entries[k].0 == (c.entries[k].0 || later_ac.contains(k))
    } by {
        assert(a.entries[k].0 == (b.entries[k].0 || later_ab.contains(k)));
        assert(b.entries[k].0 == (c.entries[k].0 || later_bc.contains(k)));
        if later_ab.contains(k) {
            let j = choose|j: int| 0 <= j < later_ab.len() && later_ab[j] == k;
            assert(later_ac[(b.removed.len() - c.removed.len()) + j] == k);
        }
        if later_bc.contains(k) {
            let j = choose|j: int| 0 <= j < later_bc.len() && later_bc[j] == k;
            assert(b.removed[c.removed.len() + j] == k);
            assert(a.removed.subrange(0, b.removed.len() as int)[c.removed.len() + j] == k);
            assert(later_ac[j] == k);
        }
        if later_ac.contains(k) {
            let j = choose|j: int| 0 <= j < later_ac.len() && later_ac[j] == k;
            if c.removed.len() + j < b.removed.len() {
                assert(a.removed.subrange(0, b.removed.len() as int)[c.removed.len() + j] == k);
                assert(later_bc[j] == k);
            } else {
                assert(later_ab[c.removed.len() + j - b.removed.len()] == k);
            }
        }
    }
}


impl<R, L> PrefixModel<R, L> {
    pub proof fn lemma_next_start(self, i: int)
        requires
            0 <= i,
        ensures
            i <= self.next_start(i),
            i <= self.entries.len() ==> self.next_start(i) <= self.entries.len(),
            self.next_start(i) < self.entries.len() ==> !self.entries[self.next_start(i)].0,
            forall|k: int| i <= k < self.next_start(i) ==> self.entries[k].0,
        decreases self.entries.len() - i,
    {
        if 0 <= i < self.entries.len() && self.entries[i].0 {
            self.lemma_next_start(i + 1);
        }
    }

    /// Pushing keeps a prefix well formed and extends it.
    pub proof fn lemma_push(self, transition: Transition<R, L>)
        requires
            self.wf(),
            self.entries.len() < usize::MAX,
        ensures
            self.push(transition).wf(),
            self.push(transition).extends(self),
    {
        let p = self.push(transition);
        assert(p.removed.subrange(0, self.removed.len() as int) =~= self.removed);
        assert forall|i: int| 0 <= i < p.removed.len() implies {
            let k = #[trigger] p.removed[i];
            &&& 0 <= k < p.entries.len()
            &&& p.entries[k].0
        } by {
            assert(p.entries[p.removed[i]] == self.entries[self.removed[i]]);
        }
        assert forall|k: int| 0 <= k < p.entries.len() && (#[trigger] p.entries[k]).0 implies p.removed.contains(k) by {
            assert(k < self.entries.len());
            assert(p.entries[k] == self.entries[k]);
        }
        assert forall|k: int| 0 <= k < self.entries.len() implies {
            &&& (#[trigger] p.entries[k]).1 == self.entries[k].1
            &&& p.entries[k].0 == (self.entries[k].0 || p.removed.subrange(self.removed.len() as int, p.removed.len() as int).contains(k))
        } by {
            assert(p.entries[k] == self.entries[k]);
        }
    }

    /// Removing the first transition keeps a prefix well formed and
    /// extends it.
    pub proof fn lemma_remove_first(self)
        requires
            self.wf(),
            !self.is_empty(),
        ensures
            self.remove_first().wf(),
            self.remove_first().extends(self),
            self.remove_first().start > self.start,
    {
        let p = self.remove_first();
        self.lemma_next_start(self.start + 1);
        assert(p.removed.subrange(0, self.removed.len() as int) =~= self.removed);
    }

    /// Removing a transition that is still there keeps a prefix well
    /// formed and extends it.
    pub proof fn lemma_remove(self, i: int)
        requires
            self.wf(),
            self.start <= i < self.entries.len(),
            !self.entries[i].0,
            i != self.start ==> self.removed.len() < usize::MAX,
        ensures
            self.remove(i).wf(),
            self.remove(i).extends(self),
            self.remove(i).start >= self.start,
            self.remove(i).entries.len() == self.entries.len(),
            self.remove(i).removed.len() >= self.removed.len(),
    {
        if i == self.start {
            self.lemma_remove_first();
        } else {
            let p = self.remove(i);
            assert(p.removed.subrange(0, self.removed.len() as int) =~= self.removed);
            assert(!self.removed.contains(i)) by {
                if self.removed.contains(i) {
                    let j = choose|j: int| 0 <= j < self.removed.len() && self.removed[j] == i;
                    assert(self.entries[self.removed[j]].0);
                }
            }
            assert forall|j: int| 0 <= j < p.removed.len() implies {
                let k = #[trigger] p.removed[j];
                &&& 0 <= k < p.entries.len()
                &&& p.entries[k].0
            } by {
                if j < self.removed.len() {
                    assert(p.removed[j] == self.removed[j]);
                    assert(self.entries[self.removed[j]].0);
                }
            }
            assert forall|a: int, b: int| 0 <= a < b < p.removed.len() implies p.removed[a] != p.removed[b] by {
                if b == self.removed.len() {
                    assert(self.removed[a] != i) by {
                        assert(self.entries[self.removed[a]].0);
                    }
                }
            }
            assert forall|k: int| 0 <= k < p.entries.len() && (#[trigger] p.entries[k]).0 implies p.removed.contains(k) by {
                if k == i {
                    assert(p.removed[self.removed.len() as int] == i);
                } else {
                    assert(p.entries[k] == self.entries[k]);
                    let j = choose|j: int| 0 <= j < self.removed.len() && self.removed[j] == k;
                    assert(p.removed[j] == k);
                }
            }
            let later = p.removed.subrange(self.removed.len() as int, p.removed.len() as int);
            assert(later =~= seq![i]);
            assert forall|k: int| 0 <= k < self.entries.len() implies {
                &&& (#[trigger] p.entries[k]).1 == self.entries[k].1
                &&& p.entries[k].0 == (self.entries[k].0 || later.contains(k))
            } by {
                if k != i {
                    assert(!later.contains(k)) by {
                        if later.contains(k) {
                            let x = choose|x: int| 0 <= x < later.len() && later[x] == k;
                        }
                    }
                } else {
                    assert(later[0] == i);
                }
            }
        }
    }

    /// The transitions still there from position `i` on, each with its
    /// position.
    pub open spec fn items_from(self, i: int) -> Seq<(int, Transition<R, L>)>
        decreases self.entries.len() - i,
    {
        if i < 0 || i >= self.entries.len() {
            Seq::empty()
        } else if self.entries[i].0 {
            self.items_from(i + 1)
        } else {
            seq![(i, self.entries[i].1)] + self.items_from(i + 1)
        }
    }

    /// The transitions still there, in order, each with its position.
    pub open spec fn items(self) -> Seq<(int, Transition<R, L>)> {
        self.items_from(self.start)
    }

    /// Every item is a transition still there, at its position.
    pub proof fn lemma_items_from(self, i: int)
        requires
            self.wf(),
            0 <= i,
        ensures
            forall|k: int| 0 <= k < self.items_from(i).len() ==> {
                let (p, t) = #[trigger] self.items_from(i)[k];
                &&& i <= p < self.entries.len()
                &&& !self.entries[p].0
                &&& self.entries[p].1 == t
            },
            0 <= i < self.entries.len() && !self.entries[i].0 ==> self.items_from(i).len() > 0
                && self.items_from(i)[0] == (i, self.entries[i].1),
        decreases self.entries.len() - i,
    {
        if i < self.entries.len() {
            self.lemma_items_from(i + 1);
            let items = self.items_from(i);
            let rest = self.items_from(i + 1);
            if !self.entries[i].0 {
                assert forall|k: int| 0 <= k < items.len() implies {
                    let (p, t) = #[trigger] items[k];
                    &&& i <= p < self.entries.len()
                    &&& !self.entries[p].0
                    &&& self.entries[p].1 == t
                } by {
                    if k > 0 {
                        assert(items[k] == rest[k - 1]);
                    }
                }
            }
        }
    }

    /// Extension is reflexive.
    pub proof fn lemma_extends_refl(self)
        ensures
            self.extends(self),
    {
        assert(self.removed.subrange(0, self.removed.len() as int) =~= self.removed);
        assert(self.removed.subrange(self.removed.len() as int, self.removed.len() as int) =~= Seq::<int>::empty());
    }
}

/// One change made to a prefix: a push, a removal of the first transition
/// still there, or a removal of the transition at a position.
pub enum PrefixChange<R, L> {
    Push(Transition<R, L>),
    RemoveFirst,
    Remove(int),
}

impl<R, L> PrefixModel<R, L> {
    /// Whether `change` can be made to this prefix: a push while there is
    /// room for one more transition, a removal of the first transition when
    /// there is one, and a removal at a position whose transition is still
    /// there.
    pub open spec fn allows(self, change: PrefixChange<R, L>) -> bool {
        match change {
            PrefixChange::Push(_) => self.entries.len() < usize::MAX,
            PrefixChange::RemoveFirst => !self.is_empty(),
            PrefixChange::Remove(i) => {
                &&& self.start <= i < self.entries.len()
                &&& !self.entries[i].0
                &&& i != self.start ==> self.removed.len() < usize::MAX
            },
        }
    }

    /// The prefix after `change`.
    pub open spec fn apply(self, change: PrefixChange<R, L>) -> Self {
        match change {
            PrefixChange::Push(t) => self.push(t),
            PrefixChange::RemoveFirst => self.remove_first(),
            PrefixChange::Remove(i) => self.remove(i),
        }
    }

    /// Whether each of `changes`, first to last, can be made in turn.
    pub open spec fn allows_all(self, changes: Seq<PrefixChange<R, L>>) -> bool
        decreases changes.len(),
    {
        changes.len() == 0 || (self.allows(changes[0]) && self.apply(changes[0]).allows_all(changes.drop_first()))
    }

    /// The prefix after each of `changes`, first to last.
    pub open spec fn apply_all(self, changes: Seq<PrefixChange<R, L>>) -> Self
        decreases changes.len(),
    {
        if changes.len() == 0 {
            self
        } else {
            self.apply(changes[0]).apply_all(changes.drop_first())
        }
    }

    /// Any changes that can be made keep a prefix well formed, and what
    /// comes out extends what went in.
    pub proof fn lemma_apply_all(self, changes: Seq<PrefixChange<R, L>>)
        requires
            self.wf(),
            self.allows_all(changes),
        ensures
            self.apply_all(changes).wf(),
            self.apply_all(changes).extends(self),
        decreases changes.len(),
    {
        if changes.len() == 0 {
            self.lemma_extends_refl();
        } else {
            let next = self.apply(changes[0]);
            match changes[0] {
                PrefixChange::Push(t) => self.lemma_push(t),
                PrefixChange::RemoveFirst => self.lemma_remove_first(),
                PrefixChange::Remove(i) => self.lemma_remove(i),
            }
            next.lemma_apply_all(changes.drop_first());
            lemma_extends_trans(self.apply_all(changes), next, self);
        }
    }
}

/// Reverting a prefix to one of its snapshots, after any pushes and
/// removals that could be made, gives back the prefix as it was when the
/// snapshot was taken: the same transitions still there, in order, the
/// same first transition, the same snapshot, and nothing modified with
/// respect to it.
pub proof fn lemma_revert_after_changes<R: Symbol, L: Symbol>(
    prefix: PrefixModel<R, L>,
    changes: Seq<PrefixChange<R, L>>,
)
    requires
        prefix.wf(),
        prefix.allows_all(changes),
    ensures
        prefix.apply_all(changes).wf(),
        prefix.apply_all(changes).valid_snapshot(prefix.snapshot()),
        prefix.apply_all(changes).revert(prefix.snapshot()) == prefix,
        prefix.apply_all(changes).revert(prefix.snapshot()).items() == prefix.items(),
        prefix.apply_all(changes).revert(prefix.snapshot()).first() == prefix.first(),
        prefix.apply_all(changes).revert(prefix.snapshot()).snapshot() == prefix.snapshot(),
        !prefix.apply_all(changes).revert(prefix.snapshot()).is_modified(prefix.snapshot()),
{
    prefix.lemma_apply_all(changes);
    lemma_revert_extends(prefix.apply_all(changes), prefix);
    lemma_unmodified_at_snapshot(prefix);
}

/// A prefix is not modified with respect to its own snapshot.
pub proof fn lemma_unmodified_at_snapshot<R: Symbol, L: Symbol>(prefix: PrefixModel<R, L>)
    requires
        prefix.wf(),
    ensures
        !prefix.is_modified(prefix.snapshot()),
{
    let now = prefix.entries.subrange(prefix.start, prefix.entries.len() as int);
    assert forall|k: int| 0 <= k < now.len() implies (#[trigger] now[k]).0 == now[k].0 && same_transition(now[k].1, now[k].1) by {
        R::lemma_same_equivalence(&now[k].1.role, &now[k].1.role, &now[k].1.role);
        L::lemma_same_equivalence(&now[k].1.label, &now[k].1.label, &now[k].1.label);
    }
}

/// A sequence of transitions already removed from a prefix, or still to
/// be taken from a transition system, pushed one at a time.
pub struct Prefix<'a, R, L> {
    transitions: Vec<(bool, Transition<&'a R, &'a L>)>,
    start: usize,
    removed: Vec<usize>,
}

impl<'a, R, L> View for Prefix<'a, R, L> {
    type V = PrefixModel<R, L>;

    closed spec fn view(&self) -> PrefixModel<R, L> {
        PrefixModel {
            entries: self.transitions@.map_values(
                |e: (bool, Transition<&'a R, &'a L>)| (e.0, unref(e.1)),
            ),
            start: self.start as int,
            removed: self.removed@.map_values(|i: usize| i as int),
        }
    }
}

impl<'a, R, L> Default for Prefix<'a, R, L> {
    fn default() -> (prefix: Self)
        ensures
            prefix@.wf(),
            prefix@.entries == Seq::<(bool, Transition<R, L>)>::empty(),
            prefix@.start == 0,
            prefix@.removed == Seq::<int>::empty(),
    {
        let prefix = Self { transitions: Vec::new(), start: 0, removed: Vec::new() };
        proof {
            assert(prefix@.entries =~= Seq::<(bool, Transition<R, L>)>::empty());
            assert(prefix@.removed =~= Seq::<int>::empty());
        }
        prefix
    }
}

impl<'a, R, L> Prefix<'a, R, L> {
    proof fn lemma_view(&self)
        ensures
            self@.entries.len() == self.transitions@.len(),
            self@.removed.len() == self.removed@.len(),
            forall|k: int| 0 <= k < self.transitions@.len() ==> (#[trigger] self@.entries[k]) == (self.transitions@[k].0, unref(self.transitions@[k].1)),
            forall|k: int| 0 <= k < self.removed@.len() ==> (#[trigger] self@.removed[k]) == self.removed@[k] as int,
    {
    }

    pub fn is_empty(&self) -> (empty: bool)
        ensures
            empty == self@.is_empty(),
    {
        self.start >= self.transitions.len()
    }

    /// The first transition still there.
    pub fn first(&self) -> (first: Option<&Transition<&'a R, &'a L>>)
        requires
            self@.wf(),
        ensures
            match first {
                Some(t) => self@.first() == Some(unref(*t)),
                None => self@.first() is None,
            },
    {
        if self.start < self.transitions.len() {
            let entry = &self.transitions[self.start];
            Some(&entry.1)
        } else {
            None
        }
    }

    pub fn push(&mut self, transition: Transition<&'a R, &'a L>)
        requires
            old(self)@.wf(),
        ensures
            final(self)@ == old(self)@.push(unref(transition)),
            final(self)@.wf(),
            final(self)@.extends(old(self)@),
    {
        self.transitions.push((false, transition));
        let _ = self.transitions.len();
        proof {
            old(self)@.lemma_push(unref(transition));
            assert(self@.entries =~= old(self)@.push(unref(transition)).entries);
            assert(self@.removed =~= old(self)@.removed);
        }
    }

    /// Removes the first transition still there.
    pub fn remove_first(&mut self)
        requires
            old(self)@.wf(),
            !old(self)@.is_empty(),
        ensures
            final(self)@ == old(self)@.remove_first(),
            final(self)@.wf(),
            final(self)@.extends(old(self)@),
    {
        proof {
            old(self)@.lemma_remove_first();
        }
        let ghost model = old(self)@;
        self.start = self.start + 1;
        while self.start < self.transitions.len() && self.transitions[self.start].0
            invariant
                model == old(self)@,
                self.transitions@ == old(self).transitions@,
                self.removed@ == old(self).removed@,
                model.start < self.start <= self.transitions@.len(),
                model.next_start(self.start as int) == model.next_start(model.start + 1),
            decreases self.transitions@.len() - self.start,
        {
            self.start = self.start + 1;
        }
        proof {
            assert(self@.entries =~= model.entries);
            assert(self@.removed =~= model.removed);
        }
    }

    /// Removes the transition at `index`, out of order unless it is the
    /// first.
    pub fn remove(&mut self, index: Index)
        requires
            old(self)@.wf(),
            old(self)@.start <= index.spec_index() < old(self)@.entries.len(),
            !old(self)@.entries[index.spec_index()].0,
        ensures
            final(self)@ == old(self)@.remove(index.spec_index()),
            final(self)@.wf(),
            final(self)@.extends(old(self)@),
            final(self)@.start >= old(self)@.start,
            final(self)@.entries.len() == old(self)@.entries.len(),
            final(self)@.removed.len() >= old(self)@.removed.len(),
    {
        let i = index.0;
        if i == self.start {
            self.remove_first();
            proof {
                old(self)@.lemma_remove(i as int);
            }
            return;
        }
        let t = self.transitions[i].1;
        self.transitions.set(i, (true, t));
        self.removed.push(i);
        let _ = self.removed.len();
        proof {
            assert(old(self).removed@.len() < usize::MAX);
            old(self)@.lemma_remove(i as int);
            assert(self@.entries =~= old(self)@.remove(i as int).entries);
            assert(self@.removed =~= old(self)@.remove(i as int).removed);
        }
    }

    /// The transitions still there, in order, each with its position.
    pub fn iter_full(&self) -> (items: Vec<(Index, Transition<&'a R, &'a L>)>)
        requires
            self@.wf(),
        ensures
            items_view(items@) == self@.items(),
    {
        let mut items: Vec<(Index, Transition<&'a R, &'a L>)> = Vec::new();
        let n = self.transitions.len();
        let mut k: usize = self.start;
        while k < n
            invariant
                self@.wf(),
                n == self.transitions@.len(),
                self.start <= k <= n,
                self@.items() == items_view(items@) + self@.items_from(k as int),
            decreases n - k,
        {
            let ghost before = items@;
            let entry = &self.transitions[k];
            proof {
                self.lemma_view();
            }
            if !entry.0 {
                items.push((Index(k), entry.1));
            }
            proof {
                if !entry.0 {
                    assert(items_view(items@) =~= items_view(before).push((k as int, unref(entry.1))));
                    assert(self@.items_from(k as int) == seq![(k as int, unref(entry.1))] + self@.items_from(k + 1));
                    assert(self@.items() =~= items_view(items@) + self@.items_from(k + 1));
                } else {
                    assert(items@ == before);
                }
            }
            k = k + 1;
        }
        proof {
            assert(self@.items_from(n as int) =~= Seq::<(int, Transition<R, L>)>::empty());
            assert(self@.items() =~= items_view(items@));
        }
        items
    }

    /// The transitions still there, in order.
    pub fn iter(&self) -> (transitions: Vec<Transition<&'a R, &'a L>>)
        requires
            self@.wf(),
        ensures
            unref_all(transitions@) == item_transitions(self@.items()),
    {
        let items = self.iter_full();
        let mut transitions: Vec<Transition<&'a R, &'a L>> = Vec::new();
        let n = items.len();
        let mut k: usize = 0;
        while k < n
            invariant
                n == items@.len(),
                k <= n,
                transitions@.len() == k,
                forall|j: int| 0 <= j < k ==> #[trigger] transitions@[j] == items@[j].1,
            decreases n - k,
        {
            transitions.push(items[k].1);
            k = k + 1;
        }
        proof {
            assert forall|j: int| 0 <= j < n implies #[trigger] unref_all(transitions@)[j] == item_transitions(self@.items())[j] by {
                assert(items_view(items@)[j] == self@.items()[j]);
            }
            assert(unref_all(transitions@) =~= item_transitions(self@.items()));
        }
        transitions
    }

    pub fn snapshot(&self) -> (snapshot: Snapshot)
        ensures
            snapshot == self@.snapshot(),
    {
        Snapshot { size: self.transitions.len(), start: self.start, removed: self.removed.len() }
    }

    fn valid_snapshot(&self, snapshot: &Snapshot) -> (valid: bool)
        ensures
            valid == self@.valid_snapshot(*snapshot),
    {
        snapshot.removed <= self.removed.len() && snapshot.size <= self.transitions.len()
            && snapshot.start <= self.start
    }

    /// Whether the prefix differs from what it was at `snapshot`.
    pub fn is_modified(&self, snapshot: &Snapshot) -> (modified: bool)
        where R: Symbol, L: Symbol
        requires
            self@.wf(),
            self@.valid_snapshot(*snapshot),
            snapshot.start <= snapshot.size,
        ensures
            modified == self@.is_modified(*snapshot),
    {
        let len = self.transitions.len();
        let ghost now = self@.entries.subrange(self@.start, len as int);
        let ghost then = self@.entries.subrange(snapshot.start as int, snapshot.size as int);
        if len - self.start != snapshot.size - snapshot.start {
            return true;
        }
        let count = len - self.start;
        let mut k: usize = 0;
        while k < count
            invariant
                self@.wf(),
                len == self.transitions@.len(),
                count == len - self.start,
                count == snapshot.size - snapshot.start,
                snapshot.size <= len,
                k <= count,
                now == self@.entries.subrange(self@.start, len as int),
                then == self@.entries.subrange(snapshot.start as int, snapshot.size as int),
                forall|j: int| 0 <= j < k ==> (#[trigger] now[j]).0 == then[j].0 && same_transition(now[j].1, then[j].1),
            decreases count - k,
        {
            let a = &self.transitions[self.start + k];
            let b = &self.transitions[snapshot.start + k];
            proof {
                self.lemma_view();
                assert(now[k as int] == self@.entries[self.start + k]);
                assert(then[k as int] == self@.entries[snapshot.start + k]);
            }
            if a.0 != b.0 || !crate::fsm::transitions_same(&a.1, &b.1) {
                return true;
            }
            k = k + 1;
        }
        false
    }

    /// Brings the prefix back to what it was at `snapshot`.
    pub fn revert(&mut self, snapshot: &Snapshot)
        requires
            old(self)@.wf(),
            old(self)@.valid_snapshot(*snapshot),
        ensures
            final(self)@ == old(self)@.revert(*snapshot),
    {
        let ghost model = old(self)@;
        let ghost later = model.removed.subrange(snapshot.removed as int, model.removed.len() as int);
        let n = self.removed.len();
        let mut i: usize = snapshot.removed;
        while i < n
            invariant
                model == old(self)@,
                model.wf(),
                model.valid_snapshot(*snapshot),
                later == model.removed.subrange(snapshot.removed as int, model.removed.len() as int),
                n == self.removed@.len(),
                snapshot.removed <= i <= n,
                self.removed@ == old(self).removed@,
                self.start == old(self).start,
                self.transitions@.len() == old(self).transitions@.len(),
                forall|k: int| 0 <= k < self.transitions@.len() ==> (#[trigger] self.transitions@[k]).1 == old(self).transitions@[k].1,
                forall|k: int| 0 <= k < self.transitions@.len() ==> (#[trigger] self.transitions@[k]).0 ==
                    (old(self).transitions@[k].0 && !self.removed@.subrange(snapshot.removed as int, i as int).contains(k as usize)),
            decreases n - i,
        {
            let k = self.removed[i];
            proof {
                assert(model.removed[i as int] == k as int);
                assert(model.entries[k as int].0);
            }
            let t = self.transitions[k].1;
            self.transitions.set(k, (false, t));
            proof {
                let before = self.removed@.subrange(snapshot.removed as int, i as int);
                let after = self.removed@.subrange(snapshot.removed as int, i + 1);
                assert(after =~= before.push(k));
                assert forall|j: int| 0 <= j < self.transitions@.len() implies (#[trigger] self.transitions@[j]).0 ==
                    (old(self).transitions@[j].0 && !after.contains(j as usize)) by {
                    if j != k {
                        assert(after.contains(j as usize) == before.contains(j as usize)) by {
                            if after.contains(j as usize) {
                                let x = choose|x: int| 0 <= x < after.len() && after[x] == j as usize;
                                if x < before.len() {
                                    assert(before[x] == j as usize);
                                }
                            }
                            if before.contains(j as usize) {
                                let x = choose|x: int| 0 <= x < before.len() && before[x] == j as usize;
                                assert(after[x] == j as usize);
                            }
                        }
                    } else {
                        assert(after[after.len() - 1] == k);
                    }
                }
            }
            i = i + 1;
        }
        self.removed.truncate(snapshot.removed);
        self.transitions.truncate(snapshot.size);
        self.start = snapshot.start;
        proof {
            let r = model.revert(*snapshot);
            assert(self@.removed =~= r.removed);
            let suffix = old(self).removed@.subrange(snapshot.removed as int, n as int);
            assert forall|k: int| 0 <= k < snapshot.size implies #[trigger] self@.entries[k] == r.entries[k] by {
                assert(suffix.contains(k as usize) == later.contains(k)) by {
                    if suffix.contains(k as usize) {
                        let x = choose|x: int| 0 <= x < suffix.len() && suffix[x] == k as usize;
                        assert(later[x] == k);
                    }
                    if later.contains(k) {
                        let x = choose|x: int| 0 <= x < later.len() && later[x] == k;
                        assert(suffix[x] == k as usize);
                    }
                }
            }
            assert(self@.entries =~= r.entries);
        }
    }
}

} // verus!
