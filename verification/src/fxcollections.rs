//! The hash collections of `rustc_hash` (`FxHashSet`, `FxHashMap`), as the
//! library uses them.
//!
//! `FxBuildHasher` builds `FxHasher`s, which carry no random seed: two hashers
//! fed the same bytes produce the same digest. The collections therefore
//! behave as mathematical sets and maps over keys whose `==` and `Hash` agree,
//! which is what vstd's `obeys_key_model` states of a key type. The order in
//! which a collection is walked is left open by every contract here.
use rustc_hash::{FxBuildHasher, FxHashMap, FxHashSet};
use std::hash::Hash;
use vstd::prelude::*;
use vstd::std_specs::hash::obeys_key_model;

verus! {

/// The hash builder of `rustc_hash`.
#[verifier::external_type_specification]
#[verifier::external_body]
pub struct ExFxBuildHasher(FxBuildHasher);

/// `HashSet::insert` on an `FxHashSet`: the key joins the set; the result says
/// whether it was absent before.
#[verifier::external_body]
pub(crate) fn set_insert<K: Hash + Eq>(set: &mut FxHashSet<K>, key: K) -> (added: bool)
    requires
        obeys_key_model::<K>(),
    ensures
        final(set)@ == old(set)@.insert(key),
        added == !old(set)@.contains(key),
{
    set.insert(key)
}

/// `HashSet::contains` on an `FxHashSet`.
#[verifier::external_body]
pub(crate) fn set_contains<K: Hash + Eq>(set: &FxHashSet<K>, key: &K) -> (found: bool)
    requires
        obeys_key_model::<K>(),
    ensures
        found == set@.contains(*key),
{
    set.contains(key)
}

/// `HashSet::remove` on an `FxHashSet`: the key leaves the set; the result says
/// whether it was present before.
#[verifier::external_body]
pub(crate) fn set_remove<K: Hash + Eq>(set: &mut FxHashSet<K>, key: &K) -> (removed: bool)
    requires
        obeys_key_model::<K>(),
    ensures
        final(set)@ == old(set)@.remove(*key),
        removed == old(set)@.contains(*key),
{
    set.remove(key)
}

/// `HashSet::iter` on an `FxHashSet`, each key copied out: every key once, in
/// the order in which the set is walked.
#[verifier::external_body]
pub(crate) fn set_items<K: Hash + Eq + Copy>(set: &FxHashSet<K>) -> (items: Vec<K>)
    requires
        obeys_key_model::<K>(),
    ensures
        items@.to_set() == set@,
        items@.no_duplicates(),
{
    set.iter().copied().collect()
}

/// `HashMap::get` on an `FxHashMap`, the value copied out.
#[verifier::external_body]
pub(crate) fn map_get<K: Hash + Eq, V: Copy>(map: &FxHashMap<K, V>, key: &K) -> (value: Option<V>)
    requires
        obeys_key_model::<K>(),
    ensures
        value == (if map@.contains_key(*key) {
            Some(map@[*key])
        } else {
            None
        }),
{
    map.get(key).copied()
}

/// `HashMap::insert` on an `FxHashMap`: the key is bound to the value.
#[verifier::external_body]
pub(crate) fn map_insert<K: Hash + Eq, V>(map: &mut FxHashMap<K, V>, key: K, value: V)
    requires
        obeys_key_model::<K>(),
    ensures
        final(map)@ == old(map)@.insert(key, value),
{
    map.insert(key, value);
}

/// `HashMap::iter` on an `FxHashMap`, each entry copied out: every key once with
/// its value, in the order in which the map is walked.
#[verifier::external_body]
pub(crate) fn map_entries<K: Hash + Eq + Copy, V: Copy>(map: &FxHashMap<K, V>) -> (entries: Vec<(K, V)>)
    requires
        obeys_key_model::<K>(),
    ensures
        entries@.map_values(|e: (K, V)| e.0).to_set() == map@.dom(),
        entries@.map_values(|e: (K, V)| e.0).no_duplicates(),
        forall|i: int| 0 <= i < entries@.len() ==> map@[#[trigger] entries@[i].0] == entries@[i].1,
{
    map.iter().map(|(k, v)| (*k, *v)).collect()
}

} // verus!
