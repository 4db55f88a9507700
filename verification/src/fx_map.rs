//! Hash maps with the Fx hasher, as the rest of the library uses them.
//!
//! A map is `std::collections::HashMap` with `rustc_hash::FxBuildHasher`.
//! Its contents are its view, a `Map` from keys to values. Each function here
//! makes one call on such a map; its contract says what the standard
//! library's documentation says of that call on a map whose keys hash and
//! compare by value, which the Fx hasher, being deterministic, keeps true.

use rustc_hash::{FxBuildHasher, FxHashMap};
use std::hash::Hash;
use vstd::prelude::*;
use vstd::std_specs::hash::obeys_key_model;

verus! {

/// `rustc_hash::FxBuildHasher`: builds the Fx hasher; carried as is.
#[verifier::external_type_specification]
#[verifier::external_body]
pub struct ExFxBuildHasher(FxBuildHasher);

/// `FxHashMap::default`: a map that holds nothing.
#[verifier::external_body]
pub(crate) fn map_new<K, V>() -> (m: FxHashMap<K, V>)
    ensures
        (m@ == Map::<K, V>::empty()),
{
    FxHashMap::default()
}

/// `HashMap::insert`: puts `v` under `k` and hands back what was there.
#[verifier::external_body]
pub(crate) fn map_insert<K: Hash + Eq, V>(m: &mut FxHashMap<K, V>, k: K, v: V) -> (r: Option<V>)
    requires
        obeys_key_model::<K>(),
    ensures
        final(m)@ == old(m)@.insert(k, v),
        r == (if old(m)@.contains_key(k) {
            Some(old(m)@[k])
        } else {
            None
        }),
{
    m.insert(k, v)
}

/// `HashMap::remove`: takes out what is under `k`, if anything.
#[verifier::external_body]
pub(crate) fn map_remove<K: Hash + Eq, V>(m: &mut FxHashMap<K, V>, k: &K) -> (r: Option<V>)
    requires
        obeys_key_model::<K>(),
    ensures
        final(m)@ == old(m)@.remove(*k),
        r == (if old(m)@.contains_key(*k) {
            Some(old(m)@[*k])
        } else {
            None
        }),
{
    m.remove(k)
}

/// `HashMap::get`: what is under `k`, if anything.
#[verifier::external_body]
pub(crate) fn map_get<'a, K: Hash + Eq, V>(m: &'a FxHashMap<K, V>, k: &K) -> (r: Option<&'a V>)
    requires
        obeys_key_model::<K>(),
    ensures
        r == (if m@.contains_key(*k) {
            Some(&m@[*k])
        } else {
            None
        }),
{
    m.get(k)
}

/// `HashMap::get_mut`: what is under `k`, if anything, to be changed in
/// place. Nothing else in the map changes.
#[verifier::external_body]
pub(crate) fn map_get_mut<'a, K: Hash + Eq, V>(m: &'a mut FxHashMap<K, V>, k: &K) -> (r: Option<
    &'a mut V,
>)
    requires
        obeys_key_model::<K>(),
    ensures
        match r {
            Some(v) => old(m)@.contains_key(*k) && *v == old(m)@[*k] && final(m)@ == old(
                m,
            )@.insert(*k, *final(v)),
            None => !old(m)@.contains_key(*k) && final(m)@ == old(m)@,
        },
{
    m.get_mut(k)
}

/// `HashMap::contains_key`: whether anything is under `k`.
#[verifier::external_body]
pub(crate) fn map_contains<K: Hash + Eq, V>(m: &FxHashMap<K, V>, k: &K) -> (r: bool)
    requires
        obeys_key_model::<K>(),
    ensures
        r == m@.contains_key(*k),
{
    m.contains_key(k)
}

/// `HashMap::len`: how many keys the map holds.
#[verifier::external_body]
pub(crate) fn map_len<K, V>(m: &FxHashMap<K, V>) -> (r: usize)
    ensures
        r == m@.dom().len(),
{
    m.len()
}

/// `HashMap::clear`: empties the map.
#[verifier::external_body]
pub(crate) fn map_clear<K, V>(m: &mut FxHashMap<K, V>)
    ensures
        (final(m)@ == Map::<K, V>::empty()),
{
    m.clear()
}

/// `HashMap::keys`, copied into a vector: every key once, in the order the
/// map walks them, of which nothing is said.
#[verifier::external_body]
pub(crate) fn map_keys<K: Hash + Eq + Copy, V>(m: &FxHashMap<K, V>) -> (r: Vec<K>)
    requires
        obeys_key_model::<K>(),
    ensures
        r@.no_duplicates(),
        forall|k: K| r@.contains(k) <==> m@.contains_key(k),
{
    m.keys().copied().collect()
}

} // verus!
