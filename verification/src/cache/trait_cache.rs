//! The interface of an LRU cache, with its full functional contract.
//!
//! An implementor exposes an abstract state (`state`), a fixed capacity
//! (`capacity`) and a well-formedness invariant (`inv`); the three operations
//! promise to realise exactly the transitions of `crate::cache::model`.

use vstd::prelude::*;

use crate::cache::model::{distinct_keys, has_key, put_spec, touch_spec, value_of};

verus! {

pub trait TraitCache<V>: Sized {
    /// The abstract cache state: the resident entries in recency order,
    /// front = least-recently-used, back = most-recently-used.
    spec fn state(&self) -> Seq<(u64, V)>;

    /// The fixed capacity: the largest number of entries ever resident.
    spec fn capacity(&self) -> nat;

    /// Well-formedness of the cache.
    spec fn inv(&self) -> bool;

    /// A well-formed cache has pairwise distinct keys, never holds more
    /// entries than its capacity, and its capacity is positive.
    proof fn inv_properties(&self)
        requires
            self.inv(),
        ensures
            distinct_keys(self.state()),
            self.state().len() <= self.capacity(),
            1 <= self.capacity(),
    ;

    /// Insert-or-update: binds `key` to `value` and makes it the
    /// most-recently-used entry, evicting the least-recently-used entry
    /// when a fresh key arrives with the cache full.
    fn put(&mut self, key: u64, value: V)
        requires
            old(self).inv(),
        ensures
            final(self).inv(),
            final(self).capacity() == old(self).capacity(),
            final(self).state() == put_spec(
                old(self).state(),
                old(self).capacity(),
                key,
                value,
            ),
    ;

    /// Lookup with recency promotion: returns the value bound to `key` if it
    /// is resident, promoting it to most-recently-used; on a miss the cache
    /// is left untouched and the lookup signals absence.
    fn get(&mut self, key: u64) -> (r: Option<&V>)
        requires
            old(self).inv(),
        ensures
            final(self).inv(),
            final(self).capacity() == old(self).capacity(),
            final(self).state() == touch_spec(old(self).state(), key),
            match r {
                Some(v) => has_key(old(self).state(), key) && *v == value_of(
                    old(self).state(),
                    key,
                ),
                None => !has_key(old(self).state(), key),
            },
    ;

    /// Recency promotion of a resident key: its entry moves to the back of
    /// the recency order, its value unchanged.
    fn move_key_end_cache(&mut self, key: &u64)
        requires
            old(self).inv(),
            has_key(old(self).state(), *key),
        ensures
            final(self).inv(),
            final(self).capacity() == old(self).capacity(),
            final(self).state() == touch_spec(old(self).state(), *key),
    ;
}

} // verus!
