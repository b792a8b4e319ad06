use vstd::prelude::*;

verus! {

/// Whether `name` is bound somewhere in `entries`.
pub open spec fn binds(entries: Seq<(char, i32)>, name: char) -> bool {
    exists|i: int| 0 <= i < entries.len() && #[trigger] entries[i].0 == name
}

/// The position of the binding of `name` in `entries`.
pub open spec fn position_of(entries: Seq<(char, i32)>, name: char) -> int {
    choose|i: int| 0 <= i < entries.len() && #[trigger] entries[i].0 == name
}

/// No name is bound twice.
pub open spec fn names_distinct(entries: Seq<(char, i32)>) -> bool {
    forall|i: int, j: int|
        0 <= i < entries.len() && 0 <= j < entries.len() && #[trigger] entries[i].0
            == #[trigger] entries[j].0 ==> i == j
}

/// The values of the variables of a session, by name.
pub struct Variables {
    entries: Vec<(char, i32)>,
}

impl View for Variables {
    type V = Map<char, i32>;

    closed spec fn view(&self) -> Map<char, i32> {
        Map::new(
            |c: char| binds(self.entries@, c),
            |c: char| self.entries@[position_of(self.entries@, c)].1,
        )
    }
}

impl Variables {
    #[verifier::type_invariant]
    spec fn distinct(&self) -> bool {
        names_distinct(self.entries@)
    }

    /// No variables.
    pub fn new() -> (variables: Self)
        ensures
            variables@ == Map::<char, i32>::empty(),
    {
        let variables = Self { entries: Vec::new() };
        proof {
            assert(variables@ =~= Map::<char, i32>::empty());
        }
        variables
    }

    /// Where `name` is bound, if it is.
    fn find(&self, name: char) -> (found: Option<usize>)
        ensures
            match found {
                Some(i) => i < self.entries@.len() && self.entries@[i as int].0 == name,
                None => !binds(self.entries@, name),
            },
    {
        let mut i: usize = 0;
        while i < self.entries.len()
            invariant
                i <= self.entries@.len(),
                forall|k: int| 0 <= k < i ==> #[trigger] self.entries@[k].0 != name,
            decreases self.entries@.len() - i,
        {
            if self.entries[i].0 == name {
                return Some(i);
            }
            i = i + 1;
        }
        None
    }

    /// The value of `name`, if it is set.
    pub fn get(&self, name: char) -> (value: Option<i32>)
        ensures
            value == (if self@.contains_key(name) { Some(self@[name]) } else { None::<i32> }),
    {
        proof {
            use_type_invariant(self);
        }
        match self.find(name) {
            Some(i) => {
                proof {
                    let p = position_of(self.entries@, name);
                    assert(self.entries@[p].0 == name);
                }
                Some(self.entries[i].1)
            },
            None => None,
        }
    }

    /// Sets `name` to `value`.
    pub fn insert(&mut self, name: char, value: i32)
        ensures
            final(self)@ == old(self)@.insert(name, value),
    {
        proof {
            use_type_invariant(&*self);
        }
        let ghost before = self.entries@;
        let mut entries: Vec<(char, i32)> = Vec::new();
        std::mem::swap(&mut entries, &mut self.entries);
        let mut i: usize = 0;
        let mut found = false;
        while i < entries.len()
            invariant
                entries@.len() == before.len(),
                i <= entries@.len(),
                names_distinct(before),
                forall|k: int|
                    0 <= k < entries@.len() ==> (#[trigger] entries@[k]).0 == before[k].0,
                forall|k: int|
                    0 <= k < entries@.len() && before[k].0 != name ==> #[trigger] entries@[k]
                        == before[k],
                forall|k: int|
                    0 <= k < i && before[k].0 == name ==> #[trigger] entries@[k] == (name, value),
                found == exists|k: int| 0 <= k < i && #[trigger] before[k].0 == name,
            decreases entries@.len() - i,
        {
            if entries[i].0 == name {
                entries.set(i, (name, value));
                found = true;
            }
            i = i + 1;
        }
        if !found {
            entries.push((name, value));
        }
        proof {
            let after = entries@;
            assert(names_distinct(after)) by {
                assert forall|a: int, b: int|
                    0 <= a < after.len() && 0 <= b < after.len() && #[trigger] after[a].0
                        == #[trigger] after[b].0 implies a == b by {
                    if a < before.len() && b < before.len() {
                        assert(before[a].0 == after[a].0);
                        assert(before[b].0 == after[b].0);
                    } else if a < before.len() {
                        assert(before[a].0 == name);
                    } else if b < before.len() {
                        assert(before[b].0 == name);
                    }
                }
            }
        }
        self.entries = entries;
        proof {
            let m = self@;
            let expected = old(self)@.insert(name, value);
            let after = self.entries@;
            assert forall|c: char| #[trigger] m.contains_key(c) <==> expected.contains_key(c) by {
                if c != name && binds(before, c) {
                    let k = position_of(before, c);
                    assert(after[k].0 == c);
                }
                if c != name && binds(after, c) {
                    let k = position_of(after, c);
                    if k < before.len() {
                        assert(before[k].0 == c);
                    }
                }
                if c == name && !found {
                    assert(after[before.len() as int].0 == name);
                }
                if c == name && found {
                    let k = choose|k: int| 0 <= k < before.len() && #[trigger] before[k].0 == name;
                    assert(after[k].0 == name);
                }
            }
            assert forall|c: char| #[trigger] m.contains_key(c) implies m[c] == expected[c] by {
                let k = position_of(after, c);
                assert(after[k].0 == c);
                if c == name {
                    if k < before.len() {
                        assert(before[k].0 == name);
                    }
                } else {
                    assert(k < before.len());
                    assert(before[k].0 == c);
                    let j = position_of(before, c);
                    assert(before[j].0 == c);
                    assert(j == k);
                }
            }
            assert(m =~= expected);
        }
    }

    /// Unsets `name`.
    pub fn remove(&mut self, name: char)
        ensures
            final(self)@ == old(self)@.remove(name),
    {
        proof {
            use_type_invariant(&*self);
        }
        let ghost before = self.entries@;
        match self.find(name) {
            None => {
                proof {
                    assert(self@ =~= old(self)@.remove(name));
                }
            },
            Some(i) => {
                let mut entries: Vec<(char, i32)> = Vec::new();
                std::mem::swap(&mut entries, &mut self.entries);
                entries.remove(i);
                let ghost after = entries@;
                proof {
                    assert(after =~= before.remove(i as int));
                    assert forall|a: int, b: int|
                        0 <= a < after.len() && 0 <= b < after.len() && #[trigger] after[a].0
                            == #[trigger] after[b].0 implies a == b by {
                        let a0 = if a < i { a } else { a + 1 };
                        let b0 = if b < i { b } else { b + 1 };
                        assert(before[a0].0 == before[b0].0);
                    }
                }
                self.entries = entries;
                proof {
                    let m = self@;
                    let expected = old(self)@.remove(name);
                    assert forall|c: char| #[trigger] m.contains_key(c) <==> expected.contains_key(
                        c,
                    ) by {
                        if binds(after, c) {
                            let k = position_of(after, c);
                            let k0 = if k < i { k } else { k + 1 };
                            assert(before[k0].0 == c);
                            assert(c != name);
                        }
                        if c != name && binds(before, c) {
                            let j = position_of(before, c);
                            assert(j != i);
                            let k = if j < i { j } else { j - 1 };
                            assert(after[k].0 == c);
                        }
                    }
                    assert forall|c: char| #[trigger] m.contains_key(c) implies m[c]
                        == expected[c] by {
                        let k = position_of(after, c);
                        let k0 = if k < i { k } else { k + 1 };
                        assert(after[k] == before[k0]);
                        let p = position_of(before, c);
                        assert(before[p].0 == c);
                        assert(p == k0);
                    }
                    assert(m =~= expected);
                }
            },
        }
    }
}

} // verus!
