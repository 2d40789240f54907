//! Per-frame cache of quantized forces, keyed by packed force keys, with
//! hit and miss counters.
use std::collections::HashMap;
use vstd::prelude::*;

verus! {

broadcast use vstd::std_specs::hash::group_hash_axioms;

/// Cached force values of type `V`, keyed by `u64` force keys.
pub struct ForceCache<V> {
    entries: HashMap<u64, V>,
    hits: u32,
    misses: u32,
}

impl<V: Copy> ForceCache<V> {
    /// The cached values.
    pub closed spec fn entries(&self) -> Map<u64, V> {
        self.entries@
    }

    /// Lookups answered from the cache since the last reset.
    pub closed spec fn hit_count(&self) -> u32 {
        self.hits
    }

    /// Values computed and stored since the last reset.
    pub closed spec fn miss_count(&self) -> u32 {
        self.misses
    }

    /// An empty cache with both counters at zero.
    pub fn new() -> (c: Self)
        ensures
            c.entries() == Map::<u64, V>::empty(),
            c.hit_count() == 0,
            c.miss_count() == 0,
    {
        ForceCache { entries: HashMap::new(), hits: 0, misses: 0 }
    }

    /// Empties the cache and sets both counters to zero.
    pub fn clear(&mut self)
        ensures
            final(self).entries() == Map::<u64, V>::empty(),
            final(self).hit_count() == 0,
            final(self).miss_count() == 0,
    {
        self.entries.clear();
        self.hits = 0;
        self.misses = 0;
    }

    /// Sets both counters to zero, keeping the entries.
    pub fn reset_counters(&mut self)
        ensures
            final(self).entries() == old(self).entries(),
            final(self).hit_count() == 0,
            final(self).miss_count() == 0,
    {
        self.hits = 0;
        self.misses = 0;
    }

    /// The cached value under `key`, if any; a found value counts as a hit.
    pub fn lookup(&mut self, key: u64) -> (r: Option<V>)
        requires
            old(self).hit_count() < u32::MAX,
        ensures
            final(self).entries() == old(self).entries(),
            final(self).miss_count() == old(self).miss_count(),
            match r {
                Some(v) => {
                    &&& old(self).entries().contains_key(key)
                    &&& v == old(self).entries()[key]
                    &&& final(self).hit_count() == old(self).hit_count() + 1
                },
                None => {
                    &&& !old(self).entries().contains_key(key)
                    &&& final(self).hit_count() == old(self).hit_count()
                },
            },
    {
        match self.entries.get(&key) {
            Some(v) => {
                let v = *v;
                self.hits = self.hits + 1;
                Some(v)
            },
            None => None,
        }
    }

    /// Whether a value is cached under `key` (not counted).
    pub fn contains(&self, key: u64) -> (r: bool)
        ensures
            r == self.entries().contains_key(key),
    {
        self.entries.contains_key(&key)
    }

    /// Stores a value computed after a failed lookup of `key`; this counts
    /// as a miss, so that from an empty cache the number of cached values
    /// always equals the number of misses.
    pub fn store(&mut self, key: u64, value: V)
        requires
            old(self).miss_count() < u32::MAX,
            !old(self).entries().contains_key(key),
        ensures
            final(self).entries() == old(self).entries().insert(key, value),
            final(self).entries().len() == old(self).entries().len() + 1,
            final(self).hit_count() == old(self).hit_count(),
            final(self).miss_count() == old(self).miss_count() + 1,
    {
        proof {
            assert(self.entries@.dom().finite());
        }
        self.misses = self.misses + 1;
        self.entries.insert(key, value);
    }

    /// Number of cached values.
    pub fn len(&self) -> (r: usize)
        ensures
            r == self.entries().len(),
    {
        self.entries.len()
    }

    /// Lookups answered from the cache since the last reset.
    pub fn hits(&self) -> (r: u32)
        ensures
            r == self.hit_count(),
    {
        self.hits
    }

    /// Values stored since the last reset.
    pub fn misses(&self) -> (r: u32)
        ensures
            r == self.miss_count(),
    {
        self.misses
    }
}

/// After a value is stored under `key`, a lookup of `key` finds it, and
/// every other key keeps what it had.
pub proof fn lemma_lookup_after_store<V>(entries: Map<u64, V>, key: u64, value: V, other: u64)
    ensures
        entries.insert(key, value).contains_key(key),
        entries.insert(key, value)[key] == value,
        other != key ==> (entries.insert(key, value).contains_key(other) <==> entries.contains_key(
            other,
        )),
        other != key && entries.contains_key(other) ==> entries.insert(key, value)[other]
            == entries[other],
{
}

/// Clearing leaves nothing to find.
pub proof fn lemma_lookup_after_clear<V>(key: u64)
    ensures
        !Map::<u64, V>::empty().contains_key(key),
{
}

} // verus!
