//! A key-value store keyed by 64-bit content hashes, used to cache
//! engine results for snippets that were already analyzed.

use std::collections::HashMap;
use vstd::prelude::*;

verus! {

broadcast use vstd::std_specs::hash::group_hash_axioms;

/// A store from content-hash keys to cached values. Its model is the map
/// of the entries it holds.
pub struct Store<V> {
    data: HashMap<u64, V>,
}

impl<V> View for Store<V> {
    type V = Map<u64, V>;

    closed spec fn view(&self) -> Map<u64, V> {
        self.data@
    }
}

impl<V> Store<V> {
    /// Create an empty store.
    pub fn new() -> (r: Store<V>)
        ensures
            r@ == Map::<u64, V>::empty(),
    {
        Store { data: HashMap::new() }
    }

    /// Insert a key-value pair, replacing any value held under the key.
    pub fn set(&mut self, key: u64, value: V)
        ensures
            final(self)@ == old(self)@.insert(key, value),
    {
        self.data.insert(key, value);
    }

    /// Get a reference to the value held under a key.
    pub fn get(&self, key: &u64) -> (r: Option<&V>)
        ensures
            match r {
                Some(v) => self@.contains_key(*key) && *v == self@[*key],
                None => !self@.contains_key(*key),
            },
    {
        self.data.get(key)
    }

    /// Check whether the store holds a value under the key.
    pub fn contains(&self, key: &u64) -> (r: bool)
        ensures
            r == self@.contains_key(*key),
    {
        self.data.contains_key(key)
    }
}

} // verus!
