//! A fixed-capacity in-memory key-value cache with least-recently-used
//! eviction.
//!
//! The cache holds its entries in a single vector in recency order: the
//! front is the least-recently-used entry, the back the most-recently-used
//! one. When an insertion of a fresh key finds the cache full, the front
//! entry is evicted to make room.

use vstd::prelude::*;

use crate::cache::model::{
    distinct_keys, has_key, lemma_position_unique, lemma_push_fresh_properties,
    lemma_remove_key_properties, remove_key, value_of,
};
use crate::cache::trait_cache::TraitCache;

verus! {

/// A bounded associative container mapping `u64` keys to values, evicting
/// the least-recently-used entry when a fresh key arrives with the cache
/// full.
pub struct Cache<V> {
    size: usize,
    cache_entries: Vec<(u64, V)>,
}

impl<V> View for Cache<V> {
    type V = Seq<(u64, V)>;

    /// The abstract state: the resident entries in recency order, front =
    /// least-recently-used, back = most-recently-used.
    closed spec fn view(&self) -> Seq<(u64, V)> {
        self.cache_entries@
    }
}

impl<V> Cache<V> {
    /// Creates an empty cache that will hold at most `size` entries.
    ///
    /// The capacity must be positive: a zero-capacity cache could store
    /// nothing, so it is ruled out at construction rather than tolerated.
    pub fn new(size: usize) -> (r: Self)
        requires
            1 <= size,
        ensures
            r.inv(),
            r@ == Seq::<(u64, V)>::empty(),
            r.capacity() == size as nat,
    {
        Self { size, cache_entries: Vec::new() }
    }

    /// Linear scan for `key`, from the least-recently-used end.
    fn index_of_key(&self, key: u64) -> (r: Option<usize>)
        ensures
            match r {
                Some(i) => i < self@.len() && self@[i as int].0 == key,
                None => !has_key(self@, key),
            },
    {
        let mut i: usize = 0;
        while i < self.cache_entries.len()
            invariant
                i <= self.cache_entries.len(),
                forall|j: int| 0 <= j < i ==> self.cache_entries@[j].0 != key,
            decreases self.cache_entries.len() - i,
        {
            if self.cache_entries[i].0 == key {
                return Some(i);
            }
            i = i + 1;
        }
        None
    }
}

impl<V> TraitCache<V> for Cache<V> {
    open spec fn state(&self) -> Seq<(u64, V)> {
        self.view()
    }

    closed spec fn capacity(&self) -> nat {
        self.size as nat
    }

    open spec fn inv(&self) -> bool {
        &&& distinct_keys(self@)
        &&& self@.len() <= self.capacity()
        &&& 1 <= self.capacity()
    }

    proof fn inv_properties(&self) {
    }

    fn put(&mut self, key: u64, value: V) {
        match self.index_of_key(key) {
            Some(i) => {
                proof {
                    lemma_position_unique(self@, key, i as int);
                    lemma_remove_key_properties(self@, key);
                }
                let _previous = self.cache_entries.remove(i);
                proof {
                    assert(self@ == remove_key(old(self)@, key));
                    lemma_push_fresh_properties(self@, key, value);
                }
                self.cache_entries.push((key, value));
            },
            None => {
                if self.cache_entries.len() >= self.size {
                    proof {
                        lemma_position_unique(self@, self@[0].0, 0);
                        lemma_remove_key_properties(self@, self@[0].0);
                        assert(old(self)@.remove(0) =~= old(self)@.subrange(
                            1,
                            old(self)@.len() as int,
                        ));
                    }
                    let _evicted = self.cache_entries.remove(0);
                    proof {
                        assert(!has_key(self@, key));
                        lemma_push_fresh_properties(self@, key, value);
                    }
                    self.cache_entries.push((key, value));
                } else {
                    proof {
                        lemma_push_fresh_properties(self@, key, value);
                    }
                    self.cache_entries.push((key, value));
                }
            },
        }
    }

    fn get(&mut self, key: u64) -> (r: Option<&V>) {
        match self.index_of_key(key) {
            Some(i) => {
                proof {
                    lemma_position_unique(self@, key, i as int);
                    lemma_remove_key_properties(self@, key);
                }
                let pair = self.cache_entries.remove(i);
                proof {
                    assert(self@ == remove_key(old(self)@, key));
                    assert(pair == (key, value_of(old(self)@, key)));
                    lemma_push_fresh_properties(self@, key, pair.1);
                }
                self.cache_entries.push(pair);
                let j: usize = self.cache_entries.len() - 1;
                Some(&self.cache_entries[j].1)
            },
            None => None,
        }
    }

    fn move_key_end_cache(&mut self, key: &u64) {
        match self.index_of_key(*key) {
            Some(i) => {
                proof {
                    lemma_position_unique(self@, *key, i as int);
                    lemma_remove_key_properties(self@, *key);
                }
                let pair = self.cache_entries.remove(i);
                proof {
                    assert(self@ == remove_key(old(self)@, *key));
                    assert(pair == (*key, value_of(old(self)@, *key)));
                    lemma_push_fresh_properties(self@, *key, pair.1);
                }
                self.cache_entries.push(pair);
            },
            None => {},
        }
    }
}

} // verus!
