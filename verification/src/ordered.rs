//! The insertion-ordered map and set of the `indexmap` crate, as far as a
//! quiz uses them.
//!
//! Nothing in this file is proved: the contracts state what the crate's
//! methods do to the entries of the map and to the members of the set.

use indexmap::{IndexMap, IndexSet};
use vstd::prelude::*;

verus! {

/// `IndexMap` of the `indexmap` crate: a map that keeps its entries in the
/// order in which their keys were first inserted.
#[verifier::external_type_specification]
#[verifier::external_body]
#[verifier::reject_recursive_types(K)]
#[verifier::reject_recursive_types(V)]
#[verifier::reject_recursive_types(S)]
pub struct ExIndexMap<K, V, S>(IndexMap<K, V, S>);

/// `IndexSet` of the `indexmap` crate: a set that keeps its members in
/// the order in which they were inserted.
#[verifier::external_type_specification]
#[verifier::external_body]
#[verifier::reject_recursive_types(T)]
#[verifier::reject_recursive_types(S)]
pub struct ExIndexSet<T, S>(IndexSet<T, S>);

/// The entries of a map of strings, keys with their values, in the order
/// in which the keys were first inserted.
pub uninterp spec fn entries_of(map: IndexMap<String, String>) -> Seq<(Seq<char>, Seq<char>)>;

/// The members of a set of numbers.
pub uninterp spec fn members_of(set: IndexSet<u64>) -> Set<u64>;

/// Whether one of the entries has the key.
pub open spec fn has_key(entries: Seq<(Seq<char>, Seq<char>)>, key: Seq<char>) -> bool {
    exists|i: int| 0 <= i < entries.len() && (#[trigger] entries[i]).0 == key
}

/// The entries after `key` was recorded with `value`: a key that is there
/// keeps its value and its place, a new one goes to the end.
pub open spec fn recorded(
    entries: Seq<(Seq<char>, Seq<char>)>,
    key: Seq<char>,
    value: Seq<char>,
) -> Seq<(Seq<char>, Seq<char>)> {
    if has_key(entries, key) {
        entries
    } else {
        entries.push((key, value))
    }
}

/// `IndexMap::new`: a map without entries.
#[verifier::external_body]
pub(crate) fn map_new() -> (map: IndexMap<String, String>)
    ensures
        entries_of(map) == Seq::<(Seq<char>, Seq<char>)>::empty(),
{
    IndexMap::new()
}

/// `IndexMap::entry` and `Entry::or_insert`: inserts the value under the
/// key if the key is vacant, at the end of the order, and changes nothing
/// if it is occupied.
#[verifier::external_body]
pub(crate) fn map_record(map: &mut IndexMap<String, String>, key: &str, value: &str)
    ensures
        entries_of(*final(map)) == recorded(entries_of(*old(map)), key@, value@),
{
    map.entry(key.to_string()).or_insert(value.to_string());
}

/// `IndexMap::len`: the number of entries.
#[verifier::external_body]
pub(crate) fn map_len(map: &IndexMap<String, String>) -> (r: usize)
    ensures
        r == entries_of(*map).len(),
{
    map.len()
}

/// `IndexMap::iter`: the entries in their order, here copied into a list.
#[verifier::external_body]
pub(crate) fn map_entries(map: &IndexMap<String, String>) -> (r: Vec<(String, String)>)
    ensures
        r@.len() == entries_of(*map).len(),
        forall|i: int|
            0 <= i < r@.len() ==> (#[trigger] r@[i]).0@ == entries_of(*map)[i].0 && r@[i].1@
                == entries_of(*map)[i].1,
{
    map.iter().map(|(key, value)| (key.clone(), value.clone())).collect()
}

/// `IndexSet::new`: a set without members.
#[verifier::external_body]
pub(crate) fn set_new() -> (set: IndexSet<u64>)
    ensures
        members_of(set) == Set::<u64>::empty(),
{
    IndexSet::new()
}

/// `IndexSet::insert`: makes the value a member and says whether it was
/// none before.
#[verifier::external_body]
pub(crate) fn set_insert(set: &mut IndexSet<u64>, value: u64) -> (r: bool)
    ensures
        r == !members_of(*old(set)).contains(value),
        members_of(*final(set)) == members_of(*old(set)).insert(value),
{
    set.insert(value)
}

/// `IndexSet::remove`: takes the value out of the set and says whether it
/// was a member.
#[verifier::external_body]
pub(crate) fn set_remove(set: &mut IndexSet<u64>, value: u64) -> (r: bool)
    ensures
        r == members_of(*old(set)).contains(value),
        members_of(*final(set)) == members_of(*old(set)).remove(value),
{
    set.remove(&value)
}

/// `IndexSet::contains`: whether the value is a member.
#[verifier::external_body]
pub(crate) fn set_contains(set: &IndexSet<u64>, value: u64) -> (r: bool)
    ensures
        r == members_of(*set).contains(value),
{
    set.contains(&value)
}

/// `IndexSet::is_empty`: whether the set has no member.
#[verifier::external_body]
pub(crate) fn set_is_empty(set: &IndexSet<u64>) -> (r: bool)
    ensures
        r == (members_of(*set) == Set::<u64>::empty()),
{
    set.is_empty()
}

} // verus!
