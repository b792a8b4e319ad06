use indexmap::{IndexMap, IndexSet};
use std::collections::hash_map::RandomState;
use vstd::prelude::*;

verus! {

#[verifier::external_type_specification]
#[verifier::external_body]
#[verifier::reject_recursive_types(K)]
#[verifier::reject_recursive_types(V)]
#[verifier::reject_recursive_types(S)]
pub struct ExIndexMap<K, V, S>(IndexMap<K, V, S>);

#[verifier::external_type_specification]
#[verifier::external_body]
#[verifier::reject_recursive_types(T)]
#[verifier::reject_recursive_types(S)]
pub struct ExIndexSet<T, S>(IndexSet<T, S>);

/// The position of the first entry with `key`.
pub open spec fn entry_index<V>(entries: Seq<(Seq<char>, V)>, key: Seq<char>) -> Option<nat>
    decreases entries.len(),
{
    if entries.len() == 0 {
        None
    } else {
        match entry_index(entries.drop_last(), key) {
            Some(i) => Some(i),
            None => if entries.last().0 == key {
                Some((entries.len() - 1) as nat)
            } else {
                None
            },
        }
    }
}

/// The value of `key` among `entries`.
pub open spec fn lookup<V>(entries: Seq<(Seq<char>, V)>, key: Seq<char>) -> Option<V> {
    match entry_index(entries, key) {
        Some(i) => Some(entries[i as int].1),
        None => None,
    }
}

/// The entries after inserting `key` with `value`: an entry with `key`
/// keeps its place and takes the value; otherwise the pair comes last.
pub open spec fn insert_entry<V>(entries: Seq<(Seq<char>, V)>, key: Seq<char>, value: V) -> Seq<
    (Seq<char>, V),
> {
    match entry_index(entries, key) {
        Some(i) => entries.update(i as int, (key, value)),
        None => entries.push((key, value)),
    }
}

/// The position of the first name equal to `key`.
pub open spec fn name_index(names: Seq<Seq<char>>, key: Seq<char>) -> Option<nat>
    decreases names.len(),
{
    if names.len() == 0 {
        None
    } else {
        match name_index(names.drop_last(), key) {
            Some(i) => Some(i),
            None => if names.last() == key {
                Some((names.len() - 1) as nat)
            } else {
                None
            },
        }
    }
}

/// A position found among entries is one of theirs.
pub(crate) proof fn lemma_entry_index_bound<V>(entries: Seq<(Seq<char>, V)>, key: Seq<char>)
    ensures
        entry_index(entries, key) matches Some(i) ==> i < entries.len(),
    decreases entries.len(),
{
    if entries.len() > 0 {
        lemma_entry_index_bound(entries.drop_last(), key);
    }
}

/// Inserting never removes an entry.
pub(crate) proof fn lemma_insert_entry_len<V>(entries: Seq<(Seq<char>, V)>, key: Seq<char>, value: V)
    ensures
        insert_entry(entries, key, value).len() >= entries.len(),
{
    lemma_entry_index_bound(entries, key);
}

/// A position found among names is one of theirs.
pub(crate) proof fn lemma_name_index_bound(names: Seq<Seq<char>>, key: Seq<char>)
    ensures
        name_index(names, key) matches Some(i) ==> i < names.len(),
    decreases names.len(),
{
    if names.len() > 0 {
        lemma_name_index_bound(names.drop_last(), key);
    }
}

/// What a state of a role's graph does, as plain values: nothing yet, or
/// sends (`true`) to or receives (`false`) from a role.
pub open spec fn direction_view(direction: Option<(bool, String)>) -> Option<(bool, Seq<char>)> {
    match direction {
        Some(d) => Some((d.0, d.1@)),
        None => None,
    }
}

/// Parameters, by name and type, as plain values.
pub open spec fn parameters_view(parameters: Vec<(String, String)>) -> Seq<(Seq<char>, Seq<char>)> {
    parameters@.map_values(|p: (String, String)| (p.0@, p.1@))
}

/// The entries of a map from the names of states to what they do, in
/// the order in which their keys came in.
pub uninterp spec fn direction_entries(map: IndexMap<String, Option<(bool, String)>>) -> Seq<
    (Seq<char>, Option<(bool, Seq<char>)>),
>;

/// The entries of a map from the names of labels to their parameters, in
/// the order in which their keys came in.
pub uninterp spec fn parameter_entries(map: IndexMap<String, Vec<(String, String)>>) -> Seq<
    (Seq<char>, Seq<(Seq<char>, Seq<char>)>),
>;

/// The names in a set of names, in the order in which they came in.
pub uninterp spec fn set_names(set: IndexSet<String>) -> Seq<Seq<char>>;

/// `IndexMap::new`: a map with no entry.
#[verifier::external_body]
pub(crate) fn directions_new() -> (map: IndexMap<String, Option<(bool, String)>>)
    ensures
        direction_entries(map) == Seq::<(Seq<char>, Option<(bool, Seq<char>)>)>::empty(),
{
    IndexMap::new()
}

/// `IndexMap::get`, the value cloned: the value of `key`, if it has one.
#[verifier::external_body]
pub(crate) fn directions_get(
    map: &IndexMap<String, Option<(bool, String)>>,
    key: &String,
) -> (value: Option<Option<(bool, String)>>)
    ensures
        match value {
            Some(v) => lookup(direction_entries(*map), key@) == Some(direction_view(v)),
            None => lookup(direction_entries(*map), key@) is None,
        },
{
    map.get(key).cloned()
}

/// `IndexMap::insert`: `key` takes `value`, keeping its place if it had
/// an entry and coming last if it had none.
#[verifier::external_body]
pub(crate) fn directions_insert(
    map: &mut IndexMap<String, Option<(bool, String)>>,
    key: String,
    value: Option<(bool, String)>,
)
    ensures
        direction_entries(*final(map)) == insert_entry(
            direction_entries(*old(map)),
            key@,
            direction_view(value),
        ),
{
    map.insert(key, value);
}

/// `IndexMap::new`: a map with no entry.
#[verifier::external_body]
pub(crate) fn parameters_new() -> (map: IndexMap<String, Vec<(String, String)>>)
    ensures
        parameter_entries(map) == Seq::<(Seq<char>, Seq<(Seq<char>, Seq<char>)>)>::empty(),
{
    IndexMap::new()
}

/// `IndexMap::get`, the value cloned: the parameters of `key`, if it has
/// an entry.
#[verifier::external_body]
pub(crate) fn parameters_get(
    map: &IndexMap<String, Vec<(String, String)>>,
    key: &String,
) -> (value: Option<Vec<(String, String)>>)
    ensures
        match value {
            Some(v) => lookup(parameter_entries(*map), key@) == Some(parameters_view(v)),
            None => lookup(parameter_entries(*map), key@) is None,
        },
{
    map.get(key).cloned()
}

/// `IndexMap::insert`: `key` takes `value`, keeping its place if it had
/// an entry and coming last if it had none.
#[verifier::external_body]
pub(crate) fn parameters_insert(
    map: &mut IndexMap<String, Vec<(String, String)>>,
    key: String,
    value: Vec<(String, String)>,
)
    ensures
        parameter_entries(*final(map)) == insert_entry(
            parameter_entries(*old(map)),
            key@,
            parameters_view(value),
        ),
{
    map.insert(key, value);
}

/// `IndexMap::contains_key`: whether `key` has an entry.
#[verifier::external_body]
pub(crate) fn parameters_contains(map: &IndexMap<String, Vec<(String, String)>>, key: &String) -> (found: bool)
    ensures
        found == (entry_index(parameter_entries(*map), key@) is Some),
{
    map.contains_key(key)
}

/// `IndexMap::get_index_of`: the position of the entry of `key`.
#[verifier::external_body]
pub(crate) fn parameters_index_of(
    map: &IndexMap<String, Vec<(String, String)>>,
    key: &String,
) -> (index: Option<usize>)
    ensures
        match index {
            Some(i) => entry_index(parameter_entries(*map), key@) == Some(i as nat),
            None => entry_index(parameter_entries(*map), key@) is None,
        },
{
    map.get_index_of(key)
}

/// `IndexMap::iter`, each entry cloned: the entries in order.
#[verifier::external_body]
pub(crate) fn parameters_entries(map: &IndexMap<String, Vec<(String, String)>>) -> (entries: Vec<
    (String, Vec<(String, String)>),
>)
    ensures
        entries@.map_values(|e: (String, Vec<(String, String)>)| (e.0@, parameters_view(e.1)))
            == parameter_entries(*map),
{
    map.iter().map(|(key, value)| (key.clone(), value.clone())).collect()
}

/// `IndexSet::with_capacity`: a set with no name, with room for
/// `capacity` names.
#[verifier::external_body]
pub(crate) fn names_with_capacity(capacity: usize) -> (set: IndexSet<String>)
    ensures
        set_names(set) == Seq::<Seq<char>>::empty(),
{
    IndexSet::with_capacity(capacity)
}

/// `IndexSet::insert`: adds `name` last, unless the set has it; says
/// whether it was added.
#[verifier::external_body]
pub(crate) fn names_insert(set: &mut IndexSet<String>, name: String) -> (added: bool)
    ensures
        added == (name_index(set_names(*old(set)), name@) is None),
        set_names(*final(set)) == (if added {
            set_names(*old(set)).push(name@)
        } else {
            set_names(*old(set))
        }),
{
    set.insert(name)
}

/// `IndexSet::get_index_of`: the position of `name` in the set.
#[verifier::external_body]
pub(crate) fn names_index_of(set: &IndexSet<String>, name: &String) -> (index: Option<usize>)
    ensures
        match index {
            Some(i) => name_index(set_names(*set), name@) == Some(i as nat),
            None => name_index(set_names(*set), name@) is None,
        },
{
    set.get_index_of(name)
}

} // verus!
