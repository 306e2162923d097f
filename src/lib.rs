//! An insertion-ordered dictionary: unique keys mapped to values, kept in a
//! positional order, with O(1) lookup by key and by position.
//!
//! [`dict::Dictionary`] grows its capacity by doubling. The [`Dictionary`] at
//! the crate root starts with room for 20 entries and grows 10 at a time.
use core::hash::Hash;
use vstd::prelude::*;
use vstd::std_specs::hash::obeys_key_model;

pub mod dict;
pub mod order;
pub mod pairing;

use crate::order::{is_sorted, is_total_order};
use crate::pairing::{lookup, zip_pairs};

verus! {

/// The capacity of a dictionary made by [`Dictionary::new`].
pub const DEFAULT_CAPACITY: usize = 20;

/// How much [`Dictionary::update`] adds to a full dictionary's capacity.
pub const GROWTH_STEP: usize = 10;

/// An ordered map that can be indexed, growing its capacity in fixed steps.
pub struct Dictionary<K, V> {
    inner: dict::Dictionary<K, V>,
}

impl<K, V> Dictionary<K, V> {
    /// The keys, in their order.
    pub closed spec fn key_seq(&self) -> Seq<K> {
        self.inner.key_seq()
    }

    /// The values, at the positions of their keys.
    pub closed spec fn value_seq(&self) -> Seq<V> {
        self.inner.value_seq()
    }

    /// The reserved capacity.
    pub closed spec fn spec_capacity(&self) -> nat {
        self.inner.spec_capacity()
    }

    /// The value stored under `k`, if `k` is present.
    pub open spec fn spec_get(&self, k: K) -> Option<V> {
        lookup(self.key_seq(), self.value_seq(), k)
    }

    /// The entries as (key, value) pairs, in order.
    pub open spec fn pairs(&self) -> Seq<(K, V)> {
        zip_pairs(self.key_seq(), self.value_seq())
    }

    /// The keys, the values and the index agree, and the capacity covers the
    /// entries.
    pub closed spec fn wf(&self) -> bool {
        self.inner.wf()
    }
}

impl<
    K: PartialOrd + PartialEq + Hash + Eq + Clone + Ord + Copy,
    V: Clone + Ord + PartialEq + PartialOrd + Eq,
> Dictionary<K, V> {
    /// An empty dictionary with room for 20 entries.
    pub fn new() -> (r: Dictionary<K, V>)
        requires
            obeys_key_model::<K>(),
        ensures
            r.wf(),
            r.key_seq() == Seq::<K>::empty(),
            r.value_seq() == Seq::<V>::empty(),
            r.spec_capacity() == DEFAULT_CAPACITY,
    {
        Dictionary { inner: dict::Dictionary::with_capacity(DEFAULT_CAPACITY) }
    }

    /// An empty dictionary with `size` entries reserved.
    pub fn with_capacity(size: usize) -> (r: Dictionary<K, V>)
        requires
            obeys_key_model::<K>(),
        ensures
            r.wf(),
            r.key_seq() == Seq::<K>::empty(),
            r.value_seq() == Seq::<V>::empty(),
            r.spec_capacity() == size,
    {
        Dictionary { inner: dict::Dictionary::with_capacity(size) }
    }

    /// Adds `key` with `value` at the end. A key that is already present
    /// keeps its position and takes the new value. A new entry that finds the
    /// dictionary full first raises the capacity by 10.
    pub fn update(&mut self, key: K, value: V)
        requires
            old(self).wf(),
            old(self).key_seq().len() < old(self).spec_capacity() || old(self).spec_capacity()
                + GROWTH_STEP <= usize::MAX,
        ensures
            final(self).wf(),
            old(self).key_seq().contains(key) ==> {
                &&& final(self).key_seq() == old(self).key_seq()
                &&& final(self).value_seq() == old(self).value_seq().update(
                    old(self).key_seq().index_of(key),
                    value,
                )
                &&& final(self).spec_capacity() == old(self).spec_capacity()
            },
            !old(self).key_seq().contains(key) ==> {
                &&& final(self).key_seq() == old(self).key_seq().push(key)
                &&& final(self).value_seq() == old(self).value_seq().push(value)
                &&& final(self).spec_capacity() == if old(self).key_seq().len()
                    == old(self).spec_capacity() {
                    old(self).spec_capacity() + GROWTH_STEP as nat
                } else {
                    old(self).spec_capacity()
                }
            },
    {
        proof {
            dict::lemma_len_within_capacity(self.inner);
        }
        if !self.inner.contains_key(key) && self.inner.len() == self.inner.capacity() {
            self.inner.reserve(GROWTH_STEP);
        }
        self.inner.push_back(key, value);
    }

    /// Removes the entry of `key` and returns its value; the entries after
    /// it move down one position. Returns `None`, and changes nothing, when
    /// `key` is absent.
    pub fn remove(&mut self, key: K) -> (r: Option<V>)
        requires
            old(self).wf(),
        ensures
            final(self).wf(),
            final(self).spec_capacity() == old(self).spec_capacity(),
            old(self).key_seq().contains(key) ==> {
                let i = old(self).key_seq().index_of(key);
                &&& r == Some(old(self).value_seq()[i])
                &&& final(self).key_seq() == old(self).key_seq().remove(i)
                &&& final(self).value_seq() == old(self).value_seq().remove(i)
            },
            !old(self).key_seq().contains(key) ==> {
                &&& r is None
                &&& final(self).key_seq() == old(self).key_seq()
                &&& final(self).value_seq() == old(self).value_seq()
            },
    {
        self.inner.remove(key)
    }

    /// The values, in the order of their keys.
    pub fn values(&self) -> (r: &Vec<V>)
        ensures
            r@ == self.value_seq(),
    {
        self.inner.values()
    }

    /// The keys, in their order.
    pub fn keys(&self) -> (r: &Vec<K>)
        ensures
            r@ == self.key_seq(),
    {
        self.inner.keys()
    }

    /// A copy of the value stored under `key`, or `None` when it is absent.
    pub fn get(&self, key: K) -> (r: Option<V>)
        requires
            self.wf(),
        ensures
            r is Some <==> self.key_seq().contains(key),
            r matches Some(v) ==> cloned(self.spec_get(key)->Some_0, v),
    {
        self.inner.get(key)
    }

    /// A copy of the value at position `i`, or `None` past the end.
    pub fn get_index(&self, i: usize) -> (r: Option<V>)
        requires
            self.wf(),
        ensures
            r is Some <==> i < self.key_seq().len(),
            r matches Some(v) ==> cloned(self.value_seq()[i as int], v),
    {
        self.inner.get_index(i)
    }

    /// A copy of the value stored under `key`, or `default` when it is
    /// absent.
    pub fn get_or(&self, key: K, default: Option<V>) -> (r: Option<V>)
        requires
            self.wf(),
        ensures
            self.key_seq().contains(key) ==> (r matches Some(v) && cloned(
                self.spec_get(key)->Some_0,
                v,
            )),
            !self.key_seq().contains(key) ==> r == default,
    {
        match self.inner.get(key) {
            Some(v) => Some(v),
            None => default,
        }
    }

    /// The number of entries.
    pub fn len(&self) -> (r: usize)
        requires
            self.wf(),
        ensures
            r == self.key_seq().len(),
    {
        self.inner.len()
    }

    /// The reserved capacity.
    pub fn capacity(&self) -> (r: usize)
        ensures
            r == self.spec_capacity(),
    {
        self.inner.capacity()
    }

    /// Raises the capacity by exactly `size`; the entries stay as they are.
    pub fn reserve(&mut self, size: usize)
        requires
            old(self).wf(),
            old(self).spec_capacity() + size <= usize::MAX,
        ensures
            final(self).wf(),
            final(self).key_seq() == old(self).key_seq(),
            final(self).value_seq() == old(self).value_seq(),
            final(self).spec_capacity() == old(self).spec_capacity() + size,
    {
        self.inner.reserve(size)
    }

    /// Sorts the entries by key, ascending; each value moves with its key.
    pub fn sort_by_keys(&mut self)
        requires
            old(self).wf(),
            is_total_order::<K>(),
        ensures
            final(self).wf(),
            is_sorted(final(self).key_seq()),
            final(self).pairs().to_multiset() == old(self).pairs().to_multiset(),
            forall|k: K| #[trigger] final(self).spec_get(k) == old(self).spec_get(k),
            final(self).spec_capacity() == old(self).spec_capacity(),
    {
        self.inner.sort_by_keys();
        proof {
            assert forall|k: K| #[trigger] self.spec_get(k) == old(self).spec_get(k) by {
                assert(self.inner.spec_get(k) == old(self).inner.spec_get(k));
            }
        }
    }

    /// Sorts the entries by value, ascending; each key moves with its value.
    pub fn sort_by_values(&mut self)
        requires
            old(self).wf(),
            is_total_order::<V>(),
        ensures
            final(self).wf(),
            is_sorted(final(self).value_seq()),
            final(self).pairs().to_multiset() == old(self).pairs().to_multiset(),
            forall|k: K| #[trigger] final(self).spec_get(k) == old(self).spec_get(k),
            final(self).spec_capacity() == old(self).spec_capacity(),
    {
        self.inner.sort_by_values();
        proof {
            assert forall|k: K| #[trigger] self.spec_get(k) == old(self).spec_get(k) by {
                assert(self.inner.spec_get(k) == old(self).inner.spec_get(k));
            }
        }
    }
}

} // verus!
