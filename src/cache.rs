//! A bounded in-memory key/value cache.
use std::collections::HashMap;
use std::hash::Hash;
use vstd::prelude::*;
use vstd::std_specs::hash::obeys_key_model;

verus! {

/// The capacity of a cache made by `default`.
pub const DEFAULT_CACHE_CAPACITY: usize = 1000;

/// Key/value pairs, at most `max_size` of them once full: storing a new key
/// in a full cache first evicts one stored key.
pub struct MemoryCache<K, V> {
    data: HashMap<K, V>,
    max_size: usize,
}

impl<K, V> View for MemoryCache<K, V> {
    type V = Map<K, V>;

    closed spec fn view(&self) -> Map<K, V> {
        self.data@
    }
}

impl<K: Hash + Eq + Clone, V: Clone> Default for MemoryCache<K, V> {
    fn default() -> (c: Self)
        ensures
            c@ == Map::<K, V>::empty(),
            c.capacity() == DEFAULT_CACHE_CAPACITY,
    {
        MemoryCache { data: HashMap::new(), max_size: DEFAULT_CACHE_CAPACITY }
    }
}

impl<K: Hash + Eq + Clone, V: Clone> MemoryCache<K, V> {
    /// The bound that the cache was made with.
    pub closed spec fn capacity(&self) -> usize {
        self.max_size
    }

    /// The key type hashes and compares consistently with its equality.
    pub open spec fn wf(&self) -> bool {
        obeys_key_model::<K>()
    }

    /// An empty cache that holds at most `max_size` entries.
    pub fn new(max_size: usize) -> (c: Self)
        requires
            obeys_key_model::<K>(),
        ensures
            c.wf(),
            c@ == Map::<K, V>::empty(),
            c.capacity() == max_size,
    {
        MemoryCache { data: HashMap::new(), max_size }
    }

    /// The value stored under `key`, if any.
    pub fn get(&self, key: &K) -> (r: Option<&V>)
        requires
            self.wf(),
        ensures
            match r {
                Some(v) => self@.contains_key(*key) && *v == self@[*key],
                None => !self@.contains_key(*key),
            },
    {
        self.data.get(key)
    }

    /// Stores `value` under `key`. When the cache is full and `key` is new,
    /// one stored entry is evicted first, the one that the map lists first.
    #[verifier::loop_isolation(false)]
    pub fn set(&mut self, key: K, value: V)
        requires
            old(self).wf(),
        ensures
            final(self).wf(),
            final(self).capacity() == old(self).capacity(),
            old(self)@.len() < old(self).capacity() || old(self)@.contains_key(key) || old(
                self,
            )@.len() == 0 ==> final(self)@ == old(self)@.insert(key, value),
            !(old(self)@.len() < old(self).capacity() || old(self)@.contains_key(key) || old(
                self,
            )@.len() == 0) ==> exists|k: K, c: K|
                #![trigger old(self)@.contains_key(k), old(self)@.remove(c)]
                old(self)@.contains_key(k) && cloned(k, c) && final(self)@ == old(self)@.remove(
                    c,
                ).insert(key, value),
    {
        if self.data.len() >= self.max_size && !self.data.contains_key(&key) {
            let ghost before = self.data@;
            let mut first: Option<K> = None;
            for k in it: self.data.keys()
                invariant
                    self.data@ == before,
                    obeys_key_model::<K>(),
                    first is None,
                    it.seq().len() == before.len(),
                    it.index() == 0,
            {
                proof {
                    assert(it.seq().contains(k));
                }
                let c = k.clone();
                proof {
                    assert(before.contains_key(*k) && cloned(*k, c));
                }
                first = Some(c);
                break;
            }
            if let Some(first_key) = first {
                self.data.remove(&first_key);
            }
        }
        self.data.insert(key, value);
    }

    /// Whether `key` is stored.
    pub fn contains(&self, key: &K) -> (r: bool)
        requires
            self.wf(),
        ensures
            r == self@.contains_key(*key),
    {
        self.data.contains_key(key)
    }

    /// Removes `key` and returns the value it had.
    pub fn remove(&mut self, key: &K) -> (r: Option<V>)
        requires
            old(self).wf(),
        ensures
            final(self).wf(),
            final(self).capacity() == old(self).capacity(),
            final(self)@ == old(self)@.remove(*key),
            match r {
                Some(v) => old(self)@.contains_key(*key) && v == old(self)@[*key],
                None => !old(self)@.contains_key(*key),
            },
    {
        self.data.remove(key)
    }

    /// Removes every entry.
    pub fn clear(&mut self)
        ensures
            final(self).wf() == old(self).wf(),
            final(self).capacity() == old(self).capacity(),
            final(self)@ == Map::<K, V>::empty(),
    {
        self.data.clear();
    }

    /// The number of stored entries.
    pub fn size(&self) -> (n: usize)
        requires
            self.wf(),
        ensures
            n == self@.len(),
    {
        self.data.len()
    }

    /// Whether nothing is stored.
    pub fn is_empty(&self) -> (r: bool)
        ensures
            r == (self@.len() == 0),
    {
        self.data.is_empty()
    }
}

} // verus!
