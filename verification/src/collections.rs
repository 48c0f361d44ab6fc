//! Hash maps and sets over the fast hasher, keyed by numbers.

use vstd::prelude::*;

use rustc_hash::{FxHashMap, FxHashSet};

verus! {

/// The builder of the fast hasher, which maps and sets carry.
#[verifier::external_type_specification]
#[verifier::external_body]
pub struct ExFxBuildHasher(rustc_hash::FxBuildHasher);

/// `FxHashMap::default` gives a map without entries.
#[verifier::external_body]
pub(crate) fn empty_map<V>() -> (map: FxHashMap<u64, V>)
    ensures
        map@.dom() == Set::<u64>::empty(),
{
    FxHashMap::default()
}

/// `HashMap::insert` gives the key the value, in place of the one it had.
#[verifier::external_body]
pub(crate) fn insert_entry<V>(map: &mut FxHashMap<u64, V>, key: u64, value: V)
    ensures
        final(map)@ == old(map)@.insert(key, value),
{
    map.insert(key, value);
}

/// `HashMap::get` gives the value of a key, where it has one.
#[verifier::external_body]
pub(crate) fn find_entry<'a, V>(map: &'a FxHashMap<u64, V>, key: u64) -> (value: Option<&'a V>)
    ensures
        match value {
            Some(value) => map@.dom().contains(key) && map@[key] == *value,
            None => !map@.dom().contains(key),
        },
{
    map.get(&key)
}

/// `HashMap::remove` takes a key and its value out, where it has one.
#[verifier::external_body]
pub(crate) fn remove_entry<V>(map: &mut FxHashMap<u64, V>, key: u64) -> (value: Option<V>)
    ensures
        final(map)@ == old(map)@.remove(key),
        match value {
            Some(value) => old(map)@.dom().contains(key) && old(map)@[key] == value,
            None => !old(map)@.dom().contains(key),
        },
{
    map.remove(&key)
}

/// `HashMap::keys` gives every key once, in an order that is left open.
#[verifier::external_body]
pub(crate) fn entry_keys<V>(map: &FxHashMap<u64, V>) -> (keys: Vec<u64>)
    ensures
        keys@.to_set() == map@.dom(),
        keys@.no_duplicates(),
{
    map.keys().copied().collect()
}

/// `FxHashSet::default` gives a set without members.
#[verifier::external_body]
pub(crate) fn empty_set() -> (set: FxHashSet<u64>)
    ensures
        set@ == Set::<u64>::empty(),
{
    FxHashSet::default()
}

/// `HashSet::insert` adds a member, and tells whether it is new.
#[verifier::external_body]
pub(crate) fn insert_member(set: &mut FxHashSet<u64>, member: u64) -> (fresh: bool)
    ensures
        final(set)@ == old(set)@.insert(member),
        fresh == !old(set)@.contains(member),
{
    set.insert(member)
}

/// `HashMap::clone` gives a map with the same entries.
#[verifier::external_body]
pub(crate) fn copy_map(map: &FxHashMap<u64, usize>) -> (copy: FxHashMap<u64, usize>)
    ensures
        copy@ == map@,
{
    map.clone()
}

/// `HashSet::clone` gives a set with the same members.
#[verifier::external_body]
pub(crate) fn copy_set(set: &FxHashSet<u64>) -> (copy: FxHashSet<u64>)
    ensures
        copy@ == set@,
{
    set.clone()
}

/// `HashSet::contains` tells whether a number is a member.
#[verifier::external_body]
pub(crate) fn has_member(set: &FxHashSet<u64>, member: u64) -> (result: bool)
    ensures
        result == set@.contains(member),
{
    set.contains(&member)
}

/// `HashSet::len` counts the members.
#[verifier::external_body]
pub(crate) fn member_count(set: &FxHashSet<u64>) -> (count: usize)
    ensures
        count == set@.len(),
{
    set.len()
}

/// A map that keeps its entries in the order that they came in.
#[verifier::external_type_specification]
#[verifier::external_body]
#[verifier::reject_recursive_types(K)]
#[verifier::reject_recursive_types(V)]
#[verifier::reject_recursive_types(S)]
pub struct ExIndexMap<K, V, S>(indexmap::IndexMap<K, V, S>);

/// A map from numbers to numbers that keeps its entries in order.
pub type OrderedMap = indexmap::IndexMap<u64, u64, std::hash::RandomState>;

/// The entries of an ordered map, in the order that their keys came in.
pub uninterp spec fn ordered_entries(map: OrderedMap) -> Seq<(u64, u64)>;

/// Whether a list of entries has a key.
pub open spec fn has_key(entries: Seq<(u64, u64)>, key: u64) -> bool {
    exists|i: int| 0 <= i < entries.len() && (#[trigger] entries[i]).0 == key
}

/// `IndexMap::new` gives a map without entries.
#[verifier::external_body]
pub(crate) fn empty_ordered_map() -> (map: OrderedMap)
    ensures
        ordered_entries(map) == Seq::<(u64, u64)>::empty(),
{
    indexmap::IndexMap::new()
}

/// `Entry::or_insert` adds an entry at the end, unless its key is there.
#[verifier::external_body]
pub(crate) fn insert_if_absent(map: &mut OrderedMap, key: u64, value: u64)
    ensures
        ordered_entries(*final(map)) == (if has_key(ordered_entries(*old(map)), key) {
            ordered_entries(*old(map))
        } else {
            ordered_entries(*old(map)).push((key, value))
        }),
{
    map.entry(key).or_insert(value);
}

/// `IndexMap::iter` gives the entries in order, each key once.
#[verifier::external_body]
pub(crate) fn list_entries(map: &OrderedMap) -> (entries: Vec<(u64, u64)>)
    ensures
        entries@ == ordered_entries(*map),
        forall|i: int, j: int| 0 <= i < j < entries@.len() ==> entries@[i].0 != entries@[j].0,
{
    map.iter().map(|(key, value)| (*key, *value)).collect()
}

/// A set that keeps its members in the order that they came in.
#[verifier::external_type_specification]
#[verifier::external_body]
#[verifier::reject_recursive_types(T)]
#[verifier::reject_recursive_types(S)]
pub struct ExIndexSet<T, S>(indexmap::IndexSet<T, S>);

/// A set of numbers that keeps its members in order.
pub type OrderedSet = indexmap::IndexSet<u64, std::hash::RandomState>;

/// The members of an ordered set, in the order that they came in.
pub uninterp spec fn ordered_members(set: OrderedSet) -> Seq<u64>;

/// A list of members with one more, unless it is there.
pub open spec fn with_member(members: Seq<u64>, member: u64) -> Seq<u64> {
    if members.contains(member) {
        members
    } else {
        members.push(member)
    }
}

/// `IndexSet::new` gives a set without members.
#[verifier::external_body]
pub(crate) fn empty_ordered_set() -> (set: OrderedSet)
    ensures
        ordered_members(set) == Seq::<u64>::empty(),
{
    indexmap::IndexSet::new()
}

/// `IndexSet::insert` adds a member at the end, unless it is there.
#[verifier::external_body]
pub(crate) fn insert_ordered(set: &mut OrderedSet, member: u64)
    ensures
        ordered_members(*final(set)) == with_member(ordered_members(*old(set)), member),
{
    set.insert(member);
}

/// `IndexSet::iter` gives the members in order.
#[verifier::external_body]
pub(crate) fn list_members(set: &OrderedSet) -> (members: Vec<u64>)
    ensures
        members@ == ordered_members(*set),
{
    set.iter().copied().collect()
}

} // verus!
