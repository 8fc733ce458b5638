//! A map keyed by collection index, held in a `HashMap`.
use vstd::prelude::*;
use std::collections::HashMap;

verus! {

/// Map from collection index to a value.
pub struct IndexMap<V> {
    map: HashMap<usize, V>,
}

impl<V> View for IndexMap<V> {
    type V = Map<usize, V>;

    closed spec fn view(&self) -> Map<usize, V> {
        self.map@
    }
}

impl<V> IndexMap<V> {
    pub fn new() -> (r: IndexMap<V>)
        ensures
            r@ == Map::<usize, V>::empty(),
    {
        IndexMap { map: HashMap::new() }
    }

    pub fn contains_key(&self, key: usize) -> (r: bool)
        ensures
            r == self@.contains_key(key),
    {
        self.map.contains_key(&key)
    }

    pub fn get(&self, key: usize) -> (r: Option<&V>)
        ensures
            match r {
                Some(v) => self@.contains_key(key) && *v == self@[key],
                None => !self@.contains_key(key),
            },
    {
        self.map.get(&key)
    }

    /// Adds an entry for a key that has none.
    pub fn insert_new(&mut self, key: usize, value: V)
        requires
            !old(self)@.contains_key(key),
        ensures
            final(self)@ == old(self)@.insert(key, value),
    {
        self.map.insert(key, value);
    }

    pub fn remove(&mut self, key: usize)
        ensures
            final(self)@ == old(self)@.remove(key),
    {
        self.map.remove(&key);
    }

    /// Keeps the entries whose key occurs in `keep`, and drops the others.
    pub fn retain_keys(&mut self, keep: &Vec<usize>)
        ensures
            final(self)@ == old(self)@.restrict(keep@.to_set()),
    {
        let ghost m0 = self.map@;
        let mut kept: HashMap<usize, V> = HashMap::new();
        let mut j: usize = 0;
        while j < keep.len()
            invariant
                j <= keep@.len(),
                m0 == old(self)@,
                kept@ == m0.restrict(keep@.take(j as int).to_set()),
                self.map@ == m0.remove_keys(keep@.take(j as int).to_set()),
            decreases keep@.len() - j,
        {
            let k = keep[j];
            let ghost before = keep@.take(j as int).to_set();
            assert(keep@.take(j + 1).to_set() =~= before.insert(k)) by {
                assert(keep@.take(j + 1) =~= keep@.take(j as int).push(k));
                keep@.take(j as int).lemma_push_to_set_commute(k);
            }
            match self.map.remove(&k) {
                Some(v) => {
                    kept.insert(k, v);
                },
                None => {},
            }
            j = j + 1;
            assert(kept@ =~= m0.restrict(keep@.take(j as int).to_set()));
            assert(self.map@ =~= m0.remove_keys(keep@.take(j as int).to_set()));
        }
        assert(keep@.take(j as int) =~= keep@);
        self.map = kept;
    }
}

} // verus!
