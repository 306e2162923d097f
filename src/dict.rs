//! An ordered map that can be indexed: keys keep the order in which they were
//! added, values can be read by key or by position, and the entries can be
//! sorted by key or by value.
use core::hash::Hash;
use std::collections::HashMap;
use vstd::prelude::*;
use vstd::std_specs::cmp::PartialEqSpec;
use vstd::std_specs::hash::obeys_key_model;

use crate::order::{
    greater, is_sorted, is_sorted_prefix, is_total_order, lemma_insertion_step, moved,
};
use crate::pairing::{lemma_move_pairs, lemma_same_pairs_same_lookup, lookup, zip_pairs};

verus! {

broadcast use vstd::std_specs::hash::group_hash_axioms;

/// The capacity that the next growth step gives to a dictionary of capacity
/// `c`: the smallest power of two strictly greater than `c`, and 2 from an
/// empty reservation.
pub open spec fn next_capacity(c: nat) -> nat
    decreases c,
{
    if c <= 1 {
        2
    } else {
        2 * next_capacity(c / 2)
    }
}

/// An ordered map that can be indexed.
///
/// Three structures are kept in lockstep: the keys in their order, the values
/// at the same positions, and a map from each key to its position.
#[derive(Debug, Clone)]
pub struct Dictionary<K, V> {
    len: usize,
    capacity: usize,
    keys: Vec<K>,
    key_map: HashMap<K, usize>,
    values: Vec<V>,
}

impl<K, V> Dictionary<K, V> {
    /// The keys, in their order.
    pub closed spec fn key_seq(&self) -> Seq<K> {
        self.keys@
    }

    /// The values, at the positions of their keys.
    pub closed spec fn value_seq(&self) -> Seq<V> {
        self.values@
    }

    /// The reserved capacity.
    pub closed spec fn spec_capacity(&self) -> nat {
        self.capacity as nat
    }

    /// The position recorded for each key.
    pub closed spec fn position_map(&self) -> Map<K, usize> {
        self.key_map@
    }

    /// The entries as (key, value) pairs, in order.
    pub open spec fn pairs(&self) -> Seq<(K, V)> {
        zip_pairs(self.key_seq(), self.value_seq())
    }

    /// The value stored under `k`, if `k` is present.
    pub open spec fn spec_get(&self, k: K) -> Option<V> {
        lookup(self.key_seq(), self.value_seq(), k)
    }

    /// The three structures agree (each key is recorded at the one position
    /// where it stands, so the keys are distinct), and the capacity covers the
    /// entries.
    pub closed spec fn wf(&self) -> bool {
        &&& obeys_key_model::<K>()
        &&& self.len == self.keys@.len()
        &&& self.values@.len() == self.keys@.len()
        &&& self.len <= self.capacity
        &&& forall|k: K| self.key_map@.contains_key(k) <==> self.keys@.contains(k)
        &&& forall|p: int|
            0 <= p < self.keys@.len() ==> self.key_map@[#[trigger] self.keys@[p]] == p
    }
}

/// The capacity given to a dictionary collected from `n` entries: a tenth
/// more, rounded down, or the largest `usize` where that does not fit.
pub open spec fn spare_capacity(n: nat) -> nat {
    if n + n / 10 > usize::MAX {
        usize::MAX as nat
    } else {
        n + n / 10
    }
}

/// Two sequences have the same length and are equal element by element, as
/// the elements' own `==` decides.
pub open spec fn seq_eq_spec<T: PartialEq>(a: Seq<T>, b: Seq<T>) -> bool {
    &&& a.len() == b.len()
    &&& forall|i: int| 0 <= i < a.len() ==> (#[trigger] a[i]).eq_spec(&b[i])
}

/// Two dictionaries are equal when they hold the same keys with the same
/// values in the same order.
impl<K: PartialEq, V: PartialEq> PartialEq for Dictionary<K, V> {
    fn eq(&self, rhs: &Self) -> (r: bool) {
        self.values == rhs.values && self.keys == rhs.keys
    }
}

impl<K: PartialEq, V: PartialEq> vstd::std_specs::cmp::PartialEqSpecImpl for Dictionary<K, V> {
    open spec fn obeys_eq_spec() -> bool {
        K::obeys_eq_spec() && V::obeys_eq_spec()
    }

    open spec fn eq_spec(&self, rhs: &Self) -> bool {
        seq_eq_spec(self.key_seq(), rhs.key_seq()) && seq_eq_spec(self.value_seq(), rhs.value_seq())
    }
}

/// Growth never goes below 2, and stays within twice a capacity of at least 1.
proof fn lemma_next_capacity_bounds(c: nat)
    ensures
        next_capacity(c) >= 2,
        c >= 1 ==> next_capacity(c) <= 2 * c,
        next_capacity(c) > c,
    decreases c,
{
    if c > 1 {
        lemma_next_capacity_bounds(c / 2);
    }
}

impl<
    K: PartialOrd + PartialEq + Hash + Eq + Clone + Ord + Copy,
    V: Clone + Ord + PartialEq + PartialOrd + Eq,
> Dictionary<K, V> {
    /// An empty dictionary with capacity 0.
    pub fn new() -> (r: Dictionary<K, V>)
        requires
            obeys_key_model::<K>(),
        ensures
            r.wf(),
            r.key_seq() == Seq::<K>::empty(),
            r.value_seq() == Seq::<V>::empty(),
            r.spec_capacity() == 0,
    {
        Dictionary {
            len: 0,
            capacity: 0,
            keys: Vec::new(),
            key_map: HashMap::new(),
            values: Vec::new(),
        }
    }

    /// An empty dictionary with `size` entries reserved, so that it does not
    /// grow before it holds that many.
    pub fn with_capacity(size: usize) -> (r: Dictionary<K, V>)
        requires
            obeys_key_model::<K>(),
        ensures
            r.wf(),
            r.key_seq() == Seq::<K>::empty(),
            r.value_seq() == Seq::<V>::empty(),
            r.spec_capacity() == size,
    {
        Dictionary {
            len: 0,
            capacity: size,
            keys: Vec::with_capacity(size),
            key_map: HashMap::with_capacity(size),
            values: Vec::with_capacity(size),
        }
    }

    /// The keys are distinct.
    proof fn lemma_keys_distinct(&self)
        requires
            self.wf(),
        ensures
            self.key_seq().no_duplicates(),
    {
        assert forall|i: int, j: int|
            0 <= i < self.keys@.len() && 0 <= j < self.keys@.len() && i != j implies
            self.keys@[i] != self.keys@[j] by {
            assert(self.key_map@[self.keys@[i]] == i);
            assert(self.key_map@[self.keys@[j]] == j);
        }
    }

    /// The position recorded for a present key is where that key stands.
    proof fn lemma_position_of(&self, k: K)
        requires
            self.wf(),
            self.keys@.contains(k),
        ensures
            self.key_map@.contains_key(k),
            0 <= self.key_map@[k] < self.keys@.len(),
            self.keys@[self.key_map@[k] as int] == k,
            self.keys@.index_of(k) == self.key_map@[k],
    {
        let p = self.keys@.index_of(k);
        assert(self.key_map@[self.keys@[p]] == p);
    }

    /// Raises the capacity one step along the growth schedule.
    fn update_capacity(&mut self)
        requires
            old(self).wf(),
            old(self).capacity <= usize::MAX / 2,
        ensures
            final(self).wf(),
            final(self).keys@ == old(self).keys@,
            final(self).values@ == old(self).values@,
            final(self).key_map@ == old(self).key_map@,
            final(self).capacity == next_capacity(old(self).capacity as nat),
            final(self).capacity > old(self).capacity,
    {
        let mut temp: usize = self.capacity;
        let mut new_capacity: usize = 2;
        proof {
            lemma_next_capacity_bounds(temp as nat);
        }
        while temp > 1
            invariant
                new_capacity >= 2,
                new_capacity * next_capacity(temp as nat) == 2 * next_capacity(
                    self.capacity as nat,
                ),
                next_capacity(self.capacity as nat) <= usize::MAX,
            decreases temp,
        {
            let ghost t = temp as nat;
            let ghost n = new_capacity as int;
            proof {
                lemma_next_capacity_bounds(t / 2);
                let m = next_capacity(t / 2) as int;
                assert(next_capacity(t) == 2 * m);
                assert(n * (2 * m) == (n * 2) * m) by (nonlinear_arith);
                assert((n * 2) * 2 <= (n * 2) * m) by (nonlinear_arith)
                    requires
                        m >= 2,
                        n >= 2,
                ;
            }
            temp = temp / 2;
            new_capacity = new_capacity * 2;
        }
        proof {
            let n = new_capacity as int;
            assert(next_capacity(temp as nat) == 2);
            assert(n * 2 == 2 * next_capacity(self.capacity as nat));
            lemma_next_capacity_bounds(self.capacity as nat);
        }
        let additional = new_capacity - self.capacity;
        self.values.reserve(additional);
        self.keys.reserve(additional);
        self.key_map.reserve(additional);
        self.capacity = new_capacity;
    }

    /// The number of entries.
    pub fn len(&self) -> (r: usize)
        requires
            self.wf(),
        ensures
            r == self.key_seq().len(),
    {
        self.len
    }

    /// The reserved capacity: how many entries fit before the next growth.
    pub fn capacity(&self) -> (r: usize)
        ensures
            r == self.spec_capacity(),
    {
        self.capacity
    }

    /// Adds `key` with `value` at the end. A key that is already present
    /// keeps its position and takes the new value. A new entry that finds the
    /// dictionary full first raises the capacity one step along the growth
    /// schedule.
    pub fn push_back(&mut self, key: K, value: V)
        requires
            old(self).wf(),
            old(self).key_seq().contains(key) || old(self).key_seq().len() < old(
                self,
            ).spec_capacity() || old(self).spec_capacity() <= usize::MAX / 2,
        ensures
            final(self).wf(),
            old(self).key_seq().contains(key) ==> {
                &&& final(self).key_seq() == old(self).key_seq()
                &&& final(self).value_seq() == old(self).value_seq().update(
                    old(self).key_seq().index_of(key),
                    value,
                )
                &&& final(self).spec_capacity() == old(self).spec_capacity()
            },
            !old(self).key_seq().contains(key) ==> {
                &&& final(self).key_seq() == old(self).key_seq().push(key)
                &&& final(self).value_seq() == old(self).value_seq().push(value)
                &&& final(self).spec_capacity() == if old(self).key_seq().len()
                    == old(self).spec_capacity() {
                    next_capacity(old(self).spec_capacity())
                } else {
                    old(self).spec_capacity()
                }
            },
    {
        match self.key_map.get(&key) {
            Some(i) => {
                let i = *i;
                proof {
                    self.lemma_position_of(key);
                }
                self.values.set(i, value);
            },
            None => {
                proof {
                    assert(!self.key_map@.contains_key(key));
                    assert(!self.keys@.contains(key));
                }
                if self.len == self.capacity {
                    self.update_capacity();
                }
                let ghost old_keys = self.keys@;
                let ghost old_map = self.key_map@;
                self.keys.push(key);
                self.key_map.insert(key, self.len);
                self.len = self.len + 1;
                self.values.push(value);
                proof {
                    assert forall|k: K| self.keys@.contains(k) <==> (old_keys.contains(k) || k == key) by {
                        if old_keys.contains(k) {
                            let p = old_keys.index_of(k);
                            assert(self.keys@[p] == k);
                        }
                        if k == key {
                            assert(self.keys@[old_keys.len() as int] == k);
                        }
                        if self.keys@.contains(k) && k != key {
                            let p = self.keys@.index_of(k);
                            assert(old_keys[p] == k);
                        }
                    }
                    assert forall|k: K| self.key_map@.contains_key(k) <==> self.keys@.contains(k) by {
                        assert(old_map.contains_key(k) <==> old_keys.contains(k));
                    }
                    assert forall|p: int| 0 <= p < self.keys@.len() implies self.key_map@[
                        #[trigger] self.keys@[p]] == p by {
                        if p < old_keys.len() {
                            assert(old_keys[p] != key);
                        }
                    }
                }
            },
        }
    }

    /// Removes the entry of `key` and returns its value; the entries after
    /// it move down one position. Returns `None`, and changes nothing, when
    /// `key` is absent.
    pub fn remove(&mut self, key: K) -> (r: Option<V>)
        requires
            old(self).wf(),
        ensures
            final(self).wf(),
            final(self).spec_capacity() == old(self).spec_capacity(),
            old(self).key_seq().contains(key) ==> {
                let i = old(self).key_seq().index_of(key);
                &&& r == Some(old(self).value_seq()[i])
                &&& final(self).key_seq() == old(self).key_seq().remove(i)
                &&& final(self).value_seq() == old(self).value_seq().remove(i)
            },
            !old(self).key_seq().contains(key) ==> {
                &&& r is None
                &&& final(self).key_seq() == old(self).key_seq()
                &&& final(self).value_seq() == old(self).value_seq()
            },
    {
        proof {
            self.lemma_keys_distinct();
            if self.keys@.contains(key) {
                self.lemma_position_of(key);
            }
        }
        let ghost old_keys = self.keys@;
        let ghost old_map = self.key_map@;
        match self.key_map.remove(&key) {
            Some(index) => {
                proof {
                    assert(old_keys.contains(key));
                    assert(index == old_map[key]);
                    assert(old_keys[index as int] == key);
                }
                let value = self.values.remove(index);
                self.keys.remove(index);
                proof {
                    assert(self.keys@ =~= old_keys.remove(index as int));
                    assert(self.key_map@ == old_map.remove(key));
                    assert forall|k: K| self.key_map@.contains_key(k) <==> self.keys@.contains(k) by {
                        if self.keys@.contains(k) {
                            let p = self.keys@.index_of(k);
                            let q = if p < index { p } else { p + 1 };
                            assert(old_keys[q] == k);
                            assert(old_keys.contains(k));
                            assert(old_map.contains_key(k));
                            assert(k != key);
                        }
                        if old_map.contains_key(k) && k != key {
                            assert(old(self).wf());
                            assert(old_keys.contains(k));
                            let p = old_keys.index_of(k);
                            assert(old_keys[p] == k);
                            assert(p != index);
                            if p < index {
                                assert(self.keys@[p] == k);
                            } else {
                                assert(self.keys@[p - 1] == k);
                            }
                        }
                    }
                    assert(self.keys@.no_duplicates());
                }
                let mut j: usize = index;
                while j < self.keys.len()
                    invariant
                        obeys_key_model::<K>(),
                        index <= j <= self.keys@.len(),
                        self.keys@ == old_keys.remove(index as int),
                        self.values@ == old(self).values@.remove(index as int),
                        self.len == old(self).len,
                        self.capacity == old(self).capacity,
                        self.keys@.no_duplicates(),
                        forall|k: K| self.key_map@.contains_key(k) <==> self.keys@.contains(k),
                        forall|p: int|
                            0 <= p < j ==> self.key_map@[#[trigger] self.keys@[p]] == p,
                        forall|p: int|
                            j <= p < self.keys@.len() ==> self.key_map@[#[trigger] self.keys@[p]]
                                == p + 1,
                    decreases self.keys@.len() - j,
                {
                    let k = self.keys[j];
                    self.key_map.insert(k, j);
                    proof {
                        assert forall|q: K| self.key_map@.contains_key(q) <==> self.keys@.contains(q) by {
                            if q == k {
                                assert(self.keys@[j as int] == k);
                            }
                        }
                    }
                    j = j + 1;
                }
                self.len = self.len - 1;
                Some(value)
            },
            None => None,
        }
    }

    /// Puts `key` with `value` at position `index`; the entries from there on
    /// move up one position. A key that is already present keeps its position
    /// and takes the new value. A new entry that finds the dictionary full
    /// first raises the capacity one step along the growth schedule.
    pub fn insert(&mut self, key: K, value: V, index: usize)
        requires
            old(self).wf(),
            index <= old(self).key_seq().len(),
            old(self).key_seq().contains(key) || old(self).key_seq().len() < old(
                self,
            ).spec_capacity() || old(self).spec_capacity() <= usize::MAX / 2,
        ensures
            final(self).wf(),
            old(self).key_seq().contains(key) ==> {
                &&& final(self).key_seq() == old(self).key_seq()
                &&& final(self).value_seq() == old(self).value_seq().update(
                    old(self).key_seq().index_of(key),
                    value,
                )
                &&& final(self).spec_capacity() == old(self).spec_capacity()
            },
            !old(self).key_seq().contains(key) ==> {
                &&& final(self).key_seq() == old(self).key_seq().insert(index as int, key)
                &&& final(self).value_seq() == old(self).value_seq().insert(index as int, value)
                &&& final(self).spec_capacity() == if old(self).key_seq().len()
                    == old(self).spec_capacity() {
                    next_capacity(old(self).spec_capacity())
                } else {
                    old(self).spec_capacity()
                }
            },
    {
        match self.key_map.get(&key) {
            Some(i) => {
                let i = *i;
                proof {
                    self.lemma_position_of(key);
                }
                self.values.set(i, value);
            },
            None => {
                proof {
                    assert(!self.key_map@.contains_key(key));
                    assert(!self.keys@.contains(key));
                }
                if self.len == self.capacity {
                    self.update_capacity();
                }
                proof {
                    self.lemma_keys_distinct();
                }
                let ghost old_keys = self.keys@;
                let ghost old_values = self.values@;
                let ghost old_capacity = self.capacity;
                self.values.insert(index, value);
                self.keys.insert(index, key);
                self.key_map.insert(key, index);
                self.len = self.len + 1;
                proof {
                    assert forall|k: K| self.key_map@.contains_key(k) <==> self.keys@.contains(k) by {
                        if self.keys@.contains(k) && k != key {
                            let p = self.keys@.index_of(k);
                            if p < index {
                                assert(old_keys[p] == k);
                            } else {
                                assert(old_keys[p - 1] == k);
                            }
                        }
                        if old_keys.contains(k) {
                            let p = old_keys.index_of(k);
                            if p < index {
                                assert(self.keys@[p] == k);
                            } else {
                                assert(self.keys@[p + 1] == k);
                            }
                        }
                        if k == key {
                            assert(self.keys@[index as int] == k);
                        }
                    }
                    assert forall|p: int, q: int|
                        0 <= p < q < self.keys@.len() implies self.keys@[p] != self.keys@[q] by {
                        if p != index && q != index {
                            let p0 = if p < index { p } else { p - 1 };
                            let q0 = if q < index { q } else { q - 1 };
                            assert(old_keys[p0] == self.keys@[p]);
                            assert(old_keys[q0] == self.keys@[q]);
                        } else if p == index {
                            assert(old_keys[q - 1] == self.keys@[q]);
                        } else {
                            let p0 = if p < index { p } else { p - 1 };
                            assert(old_keys[p0] == self.keys@[p]);
                        }
                    }
                    assert forall|p: int| 0 <= p <= index implies self.key_map@[
                        #[trigger] self.keys@[p]] == p by {
                        if p < index {
                            assert(old_keys[p] != key);
                        }
                    }
                    assert forall|p: int| index < p < self.keys@.len() implies self.key_map@[
                        #[trigger] self.keys@[p]] == p - 1 by {
                        assert(self.keys@[p] == old_keys[p - 1]);
                        assert(old_keys[p - 1] != key);
                    }
                }
                let mut j: usize = index + 1;
                while j < self.keys.len()
                    invariant
                        obeys_key_model::<K>(),
                        index < j <= self.keys@.len(),
                        self.keys@ == old_keys.insert(index as int, key),
                        self.values@ == old_values.insert(index as int, value),
                        self.keys@.len() == self.len,
                        self.len <= self.capacity,
                        self.capacity == old_capacity,
                        forall|p: int, q: int|
                            0 <= p < q < self.keys@.len() ==> self.keys@[p] != self.keys@[q],
                        forall|k: K| self.key_map@.contains_key(k) <==> self.keys@.contains(k),
                        forall|p: int|
                            0 <= p < j ==> self.key_map@[#[trigger] self.keys@[p]] == p,
                        forall|p: int|
                            j <= p < self.keys@.len() ==> self.key_map@[#[trigger] self.keys@[p]]
                                == p - 1,
                    decreases self.keys@.len() - j,
                {
                    let k = self.keys[j];
                    self.key_map.insert(k, j);
                    proof {
                        assert forall|q: K| self.key_map@.contains_key(q) <==> self.keys@.contains(q) by {
                            if q == k {
                                assert(self.keys@[j as int] == k);
                            }
                        }
                    }
                    j = j + 1;
                }
            },
        }
    }

    /// The values, in the order of their keys.
    pub fn values(&self) -> (r: &Vec<V>)
        ensures
            r@ == self.value_seq(),
    {
        &self.values
    }

    /// The keys, in their order.
    pub fn keys(&self) -> (r: &Vec<K>)
        ensures
            r@ == self.key_seq(),
    {
        &self.keys
    }

    /// A copy of the value stored under `key`, or `None` when it is absent.
    pub fn get(&self, key: K) -> (r: Option<V>)
        requires
            self.wf(),
        ensures
            r is Some <==> self.key_seq().contains(key),
            r matches Some(v) ==> cloned(self.spec_get(key)->Some_0, v),
    {
        match self.key_map.get(&key) {
            Some(i) => {
                proof {
                    self.lemma_position_of(key);
                }
                Some(self.values[*i].clone())
            },
            None => None,
        }
    }

    /// Whether `key` is present.
    pub fn contains_key(&self, key: K) -> (r: bool)
        requires
            self.wf(),
        ensures
            r == self.key_seq().contains(key),
    {
        self.key_map.contains_key(&key)
    }

    /// A copy of the value at position `i`, or `None` past the end.
    pub fn get_index(&self, i: usize) -> (r: Option<V>)
        requires
            self.wf(),
        ensures
            r is Some <==> i < self.key_seq().len(),
            r matches Some(v) ==> cloned(self.value_seq()[i as int], v),
    {
        if i >= self.len {
            return None;
        }
        Some(self.values[i].clone())
    }

    /// A copy of the value stored under `key`, or `default` when it is
    /// absent. The dictionary is left as it is.
    pub fn get_or(&self, key: K, default: V) -> (r: V)
        requires
            self.wf(),
        ensures
            self.key_seq().contains(key) ==> cloned(self.spec_get(key)->Some_0, r),
            !self.key_seq().contains(key) ==> r == default,
    {
        match self.key_map.get(&key) {
            Some(i) => {
                proof {
                    self.lemma_position_of(key);
                }
                self.values[*i].clone()
            },
            None => default,
        }
    }

    /// Raises the capacity by exactly `size`; the entries stay as they are.
    pub fn reserve(&mut self, size: usize)
        requires
            old(self).wf(),
            old(self).spec_capacity() + size <= usize::MAX,
        ensures
            final(self).wf(),
            final(self).key_seq() == old(self).key_seq(),
            final(self).value_seq() == old(self).value_seq(),
            final(self).spec_capacity() == old(self).spec_capacity() + size,
    {
        self.capacity = self.capacity + size;
        self.values.reserve(size);
        self.key_map.reserve(size);
        self.keys.reserve(size);
    }

    /// Moves the entry at `from` back to position `to`, in the keys and the
    /// values alike. The position map is left for the caller to rebuild.
    fn move_entry(&mut self, from: usize, to: usize)
        requires
            old(self).keys@.len() == old(self).values@.len(),
            to <= from < old(self).keys@.len(),
        ensures
            final(self).keys@ == moved(old(self).keys@, from as int, to as int),
            final(self).values@ == moved(old(self).values@, from as int, to as int),
            final(self).key_map@ == old(self).key_map@,
            final(self).len == old(self).len,
            final(self).capacity == old(self).capacity,
    {
        let k = self.keys.remove(from);
        self.keys.insert(to, k);
        let v = self.values.remove(from);
        self.values.insert(to, v);
    }

    /// Rebuilds the position map from the order of the keys.
    fn recompute_map(&mut self)
        requires
            obeys_key_model::<K>(),
            old(self).keys@.no_duplicates(),
            old(self).len == old(self).keys@.len(),
            old(self).values@.len() == old(self).keys@.len(),
            old(self).len <= old(self).capacity,
        ensures
            final(self).wf(),
            final(self).keys@ == old(self).keys@,
            final(self).values@ == old(self).values@,
            final(self).capacity == old(self).capacity,
    {
        self.key_map.clear();
        let mut i: usize = 0;
        while i < self.keys.len()
            invariant
                obeys_key_model::<K>(),
                i <= self.keys@.len(),
                self.keys@ == old(self).keys@,
                self.values@ == old(self).values@,
                self.len == old(self).len,
                self.capacity == old(self).capacity,
                self.keys@.no_duplicates(),
                forall|k: K|
                    self.key_map@.contains_key(k) <==> exists|p: int|
                        0 <= p < i && #[trigger] self.keys@[p] == k,
                forall|p: int| 0 <= p < i ==> self.key_map@[#[trigger] self.keys@[p]] == p,
            decreases self.keys@.len() - i,
        {
            let k = self.keys[i];
            let ghost pre_map = self.key_map@;
            self.key_map.insert(k, i);
            proof {
                assert forall|q: K|
                    self.key_map@.contains_key(q) <==> exists|p: int|
                        0 <= p < i + 1 && #[trigger] self.keys@[p] == q by {
                    if q == k {
                        assert(self.keys@[i as int] == q);
                    } else {
                        assert(self.key_map@.contains_key(q) == pre_map.contains_key(q));
                        if exists|p: int| 0 <= p < i + 1 && #[trigger] self.keys@[p] == q {
                            let p = choose|p: int| 0 <= p < i + 1 && #[trigger] self.keys@[p] == q;
                            assert(p < i);
                            assert(pre_map.contains_key(q));
                        }
                        if pre_map.contains_key(q) {
                            let p = choose|p: int| 0 <= p < i && #[trigger] self.keys@[p] == q;
                            assert(0 <= p < i + 1 && self.keys@[p] == q);
                        }
                    }
                }
            }
            i = i + 1;
        }
        proof {
            assert forall|k: K| self.key_map@.contains_key(k) <==> self.keys@.contains(k) by {
                if self.keys@.contains(k) {
                    let p = self.keys@.index_of(k);
                    assert(self.keys@[p] == k);
                }
            }
        }
    }

    /// Sorts the entries by key, ascending; each value moves with its key.
    /// Entries already in order are left where they are.
    pub fn sort_by_keys(&mut self)
        requires
            old(self).wf(),
            is_total_order::<K>(),
        ensures
            final(self).wf(),
            is_sorted(final(self).key_seq()),
            final(self).pairs().to_multiset() == old(self).pairs().to_multiset(),
            forall|k: K| #[trigger] final(self).spec_get(k) == old(self).spec_get(k),
            final(self).spec_capacity() == old(self).spec_capacity(),
            is_sorted(old(self).key_seq()) ==> final(self).key_seq() == old(self).key_seq()
                && final(self).value_seq() == old(self).value_seq(),
    {
        proof {
            self.lemma_keys_distinct();
        }
        let n = self.keys.len();
        let mut i: usize = 0;
        while i < n
            invariant
                obeys_key_model::<K>(),
                is_total_order::<K>(),
                i <= n,
                self.keys@.len() == n,
                self.values@.len() == n,
                self.len == n,
                n <= self.capacity,
                self.capacity == old(self).capacity,
                self.keys@.no_duplicates(),
                is_sorted_prefix(self.keys@, i as int),
                zip_pairs(self.keys@, self.values@).to_multiset() == zip_pairs(
                    old(self).keys@,
                    old(self).values@,
                ).to_multiset(),
                is_sorted(old(self).keys@) ==> self.keys@ == old(self).keys@ && self.values@
                    == old(self).values@,
            decreases n - i,
        {
            let x = self.keys[i];
            let mut j: usize = i;
            while j > 0 && self.keys[j - 1] > x
                invariant
                    is_total_order::<K>(),
                    j <= i < n,
                    self.keys@.len() == n,
                    x == self.keys@[i as int],
                    forall|t: int| j <= t < i ==> #[trigger] greater(self.keys@[t], x),
                decreases j,
            {
                j = j - 1;
            }
            proof {
                lemma_insertion_step(self.keys@, i as int, j as int);
                lemma_move_pairs(self.keys@, self.values@, i as int, j as int);
                if is_sorted(old(self).keys@) && i > 0 {
                    assert(!greater(self.keys@[i - 1], self.keys@[i as int]));
                }
            }
            if j < i {
                self.move_entry(i, j);
            } else {
                proof {
                    assert(moved(self.keys@, i as int, j as int) =~= self.keys@);
                }
            }
            i = i + 1;
        }
        self.recompute_map();
        proof {
            assert forall|k: K| #[trigger] self.spec_get(k) == old(self).spec_get(k) by {
                old(self).lemma_keys_distinct();
                lemma_same_pairs_same_lookup(
                    self.keys@,
                    self.values@,
                    old(self).keys@,
                    old(self).values@,
                    k,
                );
            }
        }
    }

    /// Sorts the entries by value, ascending; each key moves with its value,
    /// and entries with equal values keep their order.
    pub fn sort_by_values(&mut self)
        requires
            old(self).wf(),
            is_total_order::<V>(),
        ensures
            final(self).wf(),
            is_sorted(final(self).value_seq()),
            final(self).pairs().to_multiset() == old(self).pairs().to_multiset(),
            forall|k: K| #[trigger] final(self).spec_get(k) == old(self).spec_get(k),
            final(self).spec_capacity() == old(self).spec_capacity(),
    {
        proof {
            self.lemma_keys_distinct();
        }
        let n = self.values.len();
        let mut i: usize = 0;
        while i < n
            invariant
                obeys_key_model::<K>(),
                is_total_order::<V>(),
                i <= n,
                self.keys@.len() == n,
                self.values@.len() == n,
                self.len == n,
                n <= self.capacity,
                self.capacity == old(self).capacity,
                self.keys@.no_duplicates(),
                is_sorted_prefix(self.values@, i as int),
                zip_pairs(self.keys@, self.values@).to_multiset() == zip_pairs(
                    old(self).keys@,
                    old(self).values@,
                ).to_multiset(),
            decreases n - i,
        {
            let mut j: usize = i;
            while j > 0 && self.values[j - 1] > self.values[i]
                invariant
                    is_total_order::<V>(),
                    j <= i < n,
                    self.values@.len() == n,
                    forall|t: int| j <= t < i ==> #[trigger] greater(self.values@[t], self.values@[i as int]),
                decreases j,
            {
                j = j - 1;
            }
            proof {
                lemma_insertion_step(self.values@, i as int, j as int);
                lemma_move_pairs(self.keys@, self.values@, i as int, j as int);
            }
            if j < i {
                self.move_entry(i, j);
            } else {
                proof {
                    assert(moved(self.values@, i as int, j as int) =~= self.values@);
                    assert(moved(self.keys@, i as int, j as int) =~= self.keys@);
                }
            }
            i = i + 1;
        }
        self.recompute_map();
        proof {
            assert forall|k: K| #[trigger] self.spec_get(k) == old(self).spec_get(k) by {
                old(self).lemma_keys_distinct();
                lemma_same_pairs_same_lookup(
                    self.keys@,
                    self.values@,
                    old(self).keys@,
                    old(self).values@,
                    k,
                );
            }
        }
    }

    /// Hands the entries over, in their order, to a traversal that owns them.
    pub fn iter(self) -> (r: DictIter<K, V>)
        requires
            self.wf(),
        ensures
            r.wf(),
            r.remaining() == self.pairs(),
    {
        proof {
            self.lemma_keys_distinct();
        }
        let ghost all_keys = self.keys@;
        let ghost all_values = self.values@;
        let Dictionary { mut keys, mut values, .. } = self;
        let mut rev_keys: Vec<K> = Vec::new();
        let mut rev_values: Vec<V> = Vec::new();
        while keys.len() > 0
            invariant
                keys@.len() == values@.len(),
                keys@ + rev_keys@.reverse() == all_keys,
                values@ + rev_values@.reverse() == all_values,
            decreases keys@.len(),
        {
            let ghost ks = keys@;
            let ghost vs = values@;
            let ghost rks = rev_keys@;
            let ghost rvs = rev_values@;
            let k = keys.pop().unwrap();
            let v = values.pop().unwrap();
            rev_keys.push(k);
            rev_values.push(v);
            proof {
                assert(keys@ + rev_keys@.reverse() =~= ks + rks.reverse());
                assert(values@ + rev_values@.reverse() =~= vs + rvs.reverse());
            }
        }
        proof {
            assert(keys@ + rev_keys@.reverse() =~= rev_keys@.reverse());
            assert(values@ + rev_values@.reverse() =~= rev_values@.reverse());
            let n = rev_keys@.len() as int;
            assert forall|a: int, b: int| 0 <= a < b < n implies rev_keys@[a] != rev_keys@[b] by {
                assert(rev_keys@[a] == all_keys[n - 1 - a]);
                assert(rev_keys@[b] == all_keys[n - 1 - b]);
            }
        }
        DictIter { keys: rev_keys, values: rev_values }
    }

    /// The same as [`Dictionary::iter`].
    pub fn into_iter(self) -> (r: DictIter<K, V>)
        requires
            self.wf(),
        ensures
            r.wf(),
            r.remaining() == self.pairs(),
    {
        self.iter()
    }
}

/// A one-shot traversal of a dictionary's entries, in order, that owns them.
pub struct DictIter<K, V> {
    // Stored back to front: the next entry is the last one.
    keys: Vec<K>,
    values: Vec<V>,
}

impl<K, V> DictIter<K, V> {
    /// The entries not handed out yet, next first.
    pub closed spec fn remaining(&self) -> Seq<(K, V)> {
        zip_pairs(self.keys@.reverse(), self.values@.reverse())
    }

    /// Keys and values pair up, and the keys are distinct.
    pub closed spec fn wf(&self) -> bool {
        &&& self.keys@.len() == self.values@.len()
        &&& self.keys@.no_duplicates()
    }
}

impl<
    K: PartialOrd + PartialEq + Hash + Eq + Clone + Ord + Copy,
    V: Clone + Ord + PartialEq + PartialOrd + Eq,
> DictIter<K, V> {
    /// The next entry, or `None` once all have been handed out.
    pub fn next(&mut self) -> (r: Option<(K, V)>)
        requires
            old(self).wf(),
        ensures
            final(self).wf(),
            old(self).remaining().len() == 0 ==> r is None && final(self).remaining() == old(
                self,
            ).remaining(),
            old(self).remaining().len() > 0 ==> r == Some(old(self).remaining()[0])
                && final(self).remaining() == old(self).remaining().drop_first(),
    {
        let ghost ks = self.keys@;
        let ghost vs = self.values@;
        match self.keys.pop() {
            Some(k) => {
                let v = self.values.pop().unwrap();
                proof {
                    assert(self.remaining() =~= zip_pairs(ks.reverse(), vs.reverse()).drop_first());
                    assert(zip_pairs(ks.reverse(), vs.reverse())[0] == (k, v));
                }
                Some((k, v))
            },
            None => None,
        }
    }

    /// Collects the entries not handed out yet into a new dictionary, in
    /// their order, with a tenth more capacity than they need.
    pub fn into(self) -> (r: Dictionary<K, V>)
        requires
            self.wf(),
            obeys_key_model::<K>(),
        ensures
            r.wf(),
            r.pairs() == self.remaining(),
            r.spec_capacity() == spare_capacity(self.remaining().len()),
    {
        let ghost all = self.remaining();
        let DictIter { mut keys, mut values } = self;
        let n = keys.len();
        let capacity = if n > usize::MAX - n / 10 {
            usize::MAX
        } else {
            n + n / 10
        };
        let mut dict = Dictionary::with_capacity(capacity);
        while keys.len() > 0
            invariant
                keys@.len() == values@.len(),
                keys@.no_duplicates(),
                n == all.len(),
                n <= capacity,
                dict.wf(),
                dict.spec_capacity() == capacity,
                dict.pairs() + zip_pairs(keys@.reverse(), values@.reverse()) == all,
                forall|k: K| dict.key_seq().contains(k) ==> !keys@.contains(k),
            decreases keys@.len(),
        {
            let ghost ks = keys@;
            let ghost vs = values@;
            let ghost before = dict.pairs();
            let ghost before_keys = dict.key_seq();
            let k = keys.pop().unwrap();
            let v = values.pop().unwrap();
            proof {
                assert(ks[ks.len() - 1] == k);
                assert(ks.contains(k));
                assert(!dict.key_seq().contains(k));
                assert(dict.key_seq().len() < n) by {
                    assert(before.len() + ks.len() == n);
                }
            }
            dict.push_back(k, v);
            proof {
                assert(zip_pairs(ks.reverse(), vs.reverse()) =~= seq![(k, v)] + zip_pairs(
                    keys@.reverse(),
                    values@.reverse(),
                ));
                assert(dict.pairs() =~= before.push((k, v)));
                assert(dict.pairs() + zip_pairs(keys@.reverse(), values@.reverse()) =~= before
                    + zip_pairs(ks.reverse(), vs.reverse()));
                assert forall|q: K| dict.key_seq().contains(q) implies !keys@.contains(q) by {
                    if keys@.contains(q) {
                        let t = keys@.index_of(q);
                        assert(ks[t] == q);
                        assert(ks.contains(q));
                        if q == k {
                            assert(ks[ks.len() - 1] == q);
                        } else {
                            assert(dict.key_seq() == before_keys.push(k));
                            let u = dict.key_seq().index_of(q);
                            assert(before_keys[u] == q);
                            assert(before_keys.contains(q));
                        }
                    }
                }
            }
        }
        proof {
            assert(dict.pairs() =~= all);
        }
        dict
    }
}

/// The capacity after `n` entries were appended, one by one, to a dictionary
/// made by `new`: 0 for none, then the smallest power of two that is at least
/// `n` and at least 2.
pub open spec fn scheduled_capacity(n: nat) -> nat
    decreases n,
{
    if n == 0 {
        0
    } else if n <= 2 {
        2
    } else {
        2 * scheduled_capacity(((n + 1) / 2) as nat)
    }
}

proof fn lemma_schedule_steps(n: nat)
    ensures
        n <= scheduled_capacity(n),
        1 <= n < scheduled_capacity(n) ==> scheduled_capacity(n + 1) == scheduled_capacity(n),
        n == scheduled_capacity(n) ==> scheduled_capacity(n + 1) == next_capacity(n),
    decreases n,
{
    if n > 2 {
        let m = ((n + 1) / 2) as nat;
        lemma_schedule_steps(m);
        if n % 2 == 0 {
            assert(m == n / 2);
            assert(((n + 2) / 2) as nat == m + 1);
            assert(next_capacity(n) == 2 * next_capacity(m));
        } else {
            assert(((n + 2) / 2) as nat == m);
        }
    } else if n == 2 {
        assert(scheduled_capacity(3) == 2 * scheduled_capacity(2));
        assert(next_capacity(2) == 2 * next_capacity(1));
    }
}

/// Appending a new key to a dictionary whose capacity follows the growth
/// schedule keeps it on the schedule: from `new`, one append after another
/// gives the capacities 2, 2, 4, 4, 8, 8, 8, 8, 16, ...
pub proof fn lemma_growth_schedule<
    K: PartialOrd + PartialEq + Hash + Eq + Clone + Ord + Copy,
    V: Clone + Ord + PartialEq + PartialOrd + Eq,
>(before: Dictionary<K, V>, key: K, after: Dictionary<K, V>)
    requires
        before.wf(),
        before.spec_capacity() == scheduled_capacity(before.key_seq().len()),
        !before.key_seq().contains(key),
        after.key_seq() == before.key_seq().push(key),
        after.spec_capacity() == if before.key_seq().len() == before.spec_capacity() {
            next_capacity(before.spec_capacity())
        } else {
            before.spec_capacity()
        },
    ensures
        after.spec_capacity() == scheduled_capacity(after.key_seq().len()),
{
    lemma_schedule_steps(before.key_seq().len());
}

/// For every present key, the value at the position that the index records
/// for it is the value that lookup by key gives; and the index holds exactly
/// the present keys.
pub proof fn lemma_position_agrees_with_key<
    K: PartialOrd + PartialEq + Hash + Eq + Clone + Ord + Copy,
    V: Clone + Ord + PartialEq + PartialOrd + Eq,
>(d: Dictionary<K, V>, k: K)
    requires
        d.wf(),
    ensures
        d.position_map().contains_key(k) <==> d.key_seq().contains(k),
        d.position_map().contains_key(k) ==> {
            &&& d.position_map()[k] < d.key_seq().len()
            &&& d.spec_get(k) == Some(d.value_seq()[d.position_map()[k] as int])
        },
{
    if d.key_seq().contains(k) {
        d.lemma_position_of(k);
    }
}

/// The capacity always covers the entries.
pub proof fn lemma_len_within_capacity<
    K: PartialOrd + PartialEq + Hash + Eq + Clone + Ord + Copy,
    V: Clone + Ord + PartialEq + PartialOrd + Eq,
>(d: Dictionary<K, V>)
    requires
        d.wf(),
    ensures
        d.key_seq().len() <= d.spec_capacity(),
{
}

/// The keys and the values are always equally many.
pub proof fn lemma_lengths_agree<
    K: PartialOrd + PartialEq + Hash + Eq + Clone + Ord + Copy,
    V: Clone + Ord + PartialEq + PartialOrd + Eq,
>(d: Dictionary<K, V>)
    requires
        d.wf(),
    ensures
        d.key_seq().len() == d.value_seq().len(),
        d.pairs().len() == d.key_seq().len(),
{
}

/// Handing a dictionary's entries to a traversal and collecting them back
/// gives the same keys with the same values in the same order.
pub proof fn lemma_round_trip<
    K: PartialOrd + PartialEq + Hash + Eq + Clone + Ord + Copy,
    V: Clone + Ord + PartialEq + PartialOrd + Eq,
>(d: Dictionary<K, V>, it: DictIter<K, V>, back: Dictionary<K, V>)
    requires
        d.wf(),
        it.remaining() == d.pairs(),
        back.wf(),
        back.pairs() == it.remaining(),
    ensures
        back.key_seq() == d.key_seq(),
        back.value_seq() == d.value_seq(),
        back.position_map() == d.position_map(),
{
    assert(back.pairs().len() == d.pairs().len());
    assert(back.pairs().len() == back.key_seq().len());
    assert(d.pairs().len() == d.key_seq().len());
    assert(back.key_seq().len() == d.key_seq().len());
    assert(back.key_seq() =~= d.key_seq()) by {
        assert forall|i: int| 0 <= i < d.key_seq().len() implies back.key_seq()[i]
            == d.key_seq()[i] by {
            assert(back.pairs()[i] == d.pairs()[i]);
            assert(back.pairs()[i].0 == back.key_seq()[i]);
            assert(back.pairs()[i].1 == back.value_seq()[i]);
        }
    }
    assert(back.value_seq() =~= d.value_seq()) by {
        assert forall|i: int| 0 <= i < d.key_seq().len() implies back.value_seq()[i]
            == d.value_seq()[i] by {
            assert(back.pairs()[i] == d.pairs()[i]);
            assert(back.pairs()[i].0 == back.key_seq()[i]);
            assert(back.pairs()[i].1 == back.value_seq()[i]);
        }
    }
    lemma_same_keys_same_positions(d, back);
}

/// Sorting by key a second time changes nothing: the keys, the values, the
/// capacity and the index stay as the first sort left them.
pub proof fn lemma_sort_by_keys_idempotent<
    K: PartialOrd + PartialEq + Hash + Eq + Clone + Ord + Copy,
    V: Clone + Ord + PartialEq + PartialOrd + Eq,
>(once: Dictionary<K, V>, twice: Dictionary<K, V>)
    requires
        once.wf(),
        is_sorted(once.key_seq()),
        twice.wf(),
        twice.spec_capacity() == once.spec_capacity(),
        is_sorted(once.key_seq()) ==> twice.key_seq() == once.key_seq() && twice.value_seq()
            == once.value_seq(),
    ensures
        twice.key_seq() == once.key_seq(),
        twice.value_seq() == once.value_seq(),
        twice.spec_capacity() == once.spec_capacity(),
        twice.position_map() == once.position_map(),
{
    lemma_same_keys_same_positions(once, twice);
}

/// The keys decide the index.
proof fn lemma_same_keys_same_positions<
    K: PartialOrd + PartialEq + Hash + Eq + Clone + Ord + Copy,
    V: Clone + Ord + PartialEq + PartialOrd + Eq,
>(a: Dictionary<K, V>, b: Dictionary<K, V>)
    requires
        a.wf(),
        b.wf(),
        a.key_seq() == b.key_seq(),
    ensures
        a.position_map() == b.position_map(),
{
    assert forall|k: K| a.key_map@.contains_key(k) implies a.key_map@[k] == b.key_map@[k] by {
        a.lemma_position_of(k);
        b.lemma_position_of(k);
    }
    assert forall|k: K| a.key_map@.contains_key(k) <==> b.key_map@.contains_key(k) by {
        assert(a.keys@.contains(k) == b.keys@.contains(k));
    }
    assert(a.key_map@ =~= b.key_map@);
}

} // verus!
