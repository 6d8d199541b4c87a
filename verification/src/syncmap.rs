//! A map shared between the parts of the server.

use vstd::prelude::*;
use std::collections::HashMap;
use std::hash::Hash;
use vstd::std_specs::hash::obeys_key_model;

verus! {

broadcast use vstd::std_specs::hash::group_hash_axioms;

/// A map from keys to values; the server keeps one per kind of record.
#[derive(Debug)]
pub struct SyncMap<K, V> {
    inner: HashMap<K, V>,
}

impl<K, V> View for SyncMap<K, V> {
    type V = Map<K, V>;

    closed spec fn view(&self) -> Map<K, V> {
        self.inner@
    }
}

impl<K: Eq + Hash, V> SyncMap<K, V> {
    /// An empty map.
    pub fn new() -> (m: Self)
        ensures
            m@ == Map::<K, V>::empty(),
    {
        SyncMap { inner: HashMap::new() }
    }

    /// A copy of the value stored under `key`, if any.
    pub fn load(&self, key: &K) -> (r: Option<V>) where V: Clone
        ensures
            obeys_key_model::<K>() ==> (r.is_some() <==> self@.contains_key(*key)),
            obeys_key_model::<K>() ==> (r matches Some(v) ==> cloned(self@[*key], v)),
    {
        match self.inner.get(key) {
            Some(v) => Some(v.clone()),
            None => None,
        }
    }

    /// Stores `value` under `key`, replacing any earlier value.
    pub fn store(&mut self, key: K, value: V)
        ensures
            obeys_key_model::<K>() ==> final(self)@ == old(self)@.insert(key, value),
    {
        self.inner.insert(key, value);
    }

    /// A copy of all entries.
    pub fn items(&self) -> (m: HashMap<K, V>) where K: Clone, V: Clone
        ensures
            m@ == self@,
    {
        self.inner.clone()
    }
}

impl<K: Eq + Hash, V> Default for SyncMap<K, V> {
    fn default() -> (m: Self)
        ensures
            m@ == Map::<K, V>::empty(),
    {
        SyncMap::new()
    }
}

/// Law: a value stored under a key is what a later load of that key
/// returns (for keys that hash and compare as their values).
pub proof fn law_store_then_load<K, V>(m: Map<K, V>, k: K, v: V)
    ensures
        m.insert(k, v).contains_key(k),
        m.insert(k, v)[k] == v,
{
}

} // verus!
