//! The ordered-aware hash map façade.
//!
//! Composes the hash table of AVL trees with a hasher factory into a
//! map with the usual surface: insert, remove, lookup, iteration,
//! capacity control. The model of a map is a `Map<K, V>`; every
//! operation is specified against it.

use vstd::prelude::*;
use vstd::std_specs::cmp::PartialEqSpec;
use core::mem;
use crate::key::{HashKey, BuildKeyHash, SeedState};
use crate::hash_table::{HashTable, make_hash};

verus! {

/// The ordered hash map: a hash table of AVL trees and the hasher
/// factory its entries are dispatched by.
#[verifier::reject_recursive_types(K)]
pub struct HashMap<K, V, S = SeedState> {
    pub hash_table: HashTable<K, V>,
    pub hash_builder: S,
}

impl<K, V, S> View for HashMap<K, V, S> {
    type V = Map<K, V>;

    open spec fn view(&self) -> Map<K, V> {
        self.hash_table@
    }
}

impl<K: HashKey, V, S: BuildKeyHash> HashMap<K, V, S> {
    /// The map's invariant: a well-formed table whose entries were
    /// stored under this map's hasher.
    pub open spec fn wf(self) -> bool {
        &&& self.hash_table.wf()
        &&& (forall|k: K|
            (#[trigger] (self.hash_table.hf@)(k)) == self.hash_builder.hash_spec(k.hash_model()))
        &&& crate::hash_table::load_rule(self.hash_table.index_size, self.hash_table.count)
    }

    /// The number of buckets the map reports as its capacity.
    pub open spec fn spec_capacity(self) -> int {
        self.hash_table.index_size as int
    }

    /// An empty map over the given hasher factory, grown to the load
    /// target of `capacity` entries.
    pub fn with_capacity_and_hasher(capacity: usize, hash_builder: S) -> (m: Self)
        ensures
            m.wf(),
            m@ == Map::<K, V>::empty(),
            m.spec_capacity() >= 8,
            capacity <= usize::MAX / 6 && crate::hash_table::calc_limit_spec(capacity as nat)
                <= usize::MAX / 2 + 1 ==> m.spec_capacity() >= crate::hash_table::calc_limit_spec(
                capacity as nat,
            ),
            capacity == 0 ==> m.spec_capacity() == 8,
    {
        let mut hash_table = HashTable::<K, V>::new(
            Ghost(|k: K| hash_builder.hash_spec(k.hash_model())),
        );
        hash_table.rehash(capacity);
        HashMap { hash_table, hash_builder }
    }

    /// An empty map over the given hasher factory.
    pub fn with_hasher(hash_builder: S) -> (m: Self)
        ensures
            m.wf(),
            m@ == Map::<K, V>::empty(),
            m.spec_capacity() == 8,
    {
        Self::with_capacity_and_hasher(0, hash_builder)
    }

    /// The number of live entries.
    pub fn len(&self) -> (n: usize)
        requires
            self.wf(),
        ensures
            n == self@.dom().len(),
    {
        self.hash_table.size()
    }

    /// Whether the map holds no entry.
    pub fn is_empty(&self) -> (b: bool)
        requires
            self.wf(),
        ensures
            b == (self@ == Map::<K, V>::empty()),
    {
        let b = self.hash_table.size() == 0;
        proof {
            if self@.dom().len() == 0 {
                self@.dom().lemma_len0_is_empty();
                assert(self@ =~= Map::<K, V>::empty());
            }
            if self@ == Map::<K, V>::empty() {
                assert(self@.dom() =~= Set::<K>::empty());
            }
        }
        b
    }

    /// The map's capacity: the size of its bucket index. On a
    /// well-formed map it has kept up with the load rule: at least six
    /// quarters of the population.
    pub fn capacity(&self) -> (n: usize)
        ensures
            n as int == self.spec_capacity(),
            self.wf() && crate::hash_table::calc_limit_spec(self@.dom().len()) <= usize::MAX / 2
                + 1 ==> n as int >= crate::hash_table::calc_limit_spec(self@.dom().len()),
    {
        self.hash_table.capacity()
    }

    /// The population of the fullest bucket: a balance diagnostic.
    pub fn get_max_node_of_single_index(&self) -> (n: usize)
        requires
            self.wf(),
        ensures
            forall|j: int|
                0 <= j < self.hash_table.live@.len() ==> crate::avl_node::link_size(
                    self.hash_table.bucket_at(#[trigger] self.hash_table.live@[j] as int),
                ) <= n,
            n > 0 ==> exists|j: int|
                0 <= j < self.hash_table.live@.len() && crate::avl_node::link_size(
                    self.hash_table.bucket_at(self.hash_table.live@[j] as int),
                ) == n,
            self.hash_table.live@.len() == 0 ==> n == 0,
    {
        self.hash_table.get_max_node_of_single_index()
    }

    /// Inserts a pair. On a collision the new key and value replace
    /// the old ones, which come back out; the capacity never shrinks.
    pub fn insert(&mut self, key: K, value: V) -> (r: Option<(K, V)>)
        requires
            old(self).wf(),
            old(self)@.dom().len() < usize::MAX,
        ensures
            final(self).wf(),
            final(self)@ == old(self)@.insert(key, value),
            r == (if old(self)@.contains_key(key) {
                Some((key, old(self)@[key]))
            } else {
                None::<(K, V)>
            }),
            old(self)@.contains_key(key) ==> final(self)@.dom().len() == old(self)@.dom().len(),
            !old(self)@.contains_key(key) ==> final(self)@.dom().len() == old(self)@.dom().len()
                + 1,
            final(self).spec_capacity() >= old(self).spec_capacity(),
    {
        let h = make_hash(&self.hash_builder, &key);
        let r = self.hash_table.hash_add(h, key, value);
        self.hash_table.default_rehash();
        r
    }

    /// Removes a key's entry and returns the stored pair.
    pub fn remove(&mut self, q: &K) -> (r: Option<(K, V)>)
        requires
            old(self).wf(),
        ensures
            final(self).wf(),
            final(self)@ == old(self)@.remove(*q),
            r == (if old(self)@.contains_key(*q) {
                Some((*q, old(self)@[*q]))
            } else {
                None::<(K, V)>
            }),
            old(self)@.contains_key(*q) ==> final(self)@.dom().len() + 1 == old(self)@.dom().len(),
            !old(self)@.contains_key(*q) ==> final(self)@.dom().len() == old(self)@.dom().len(),
            final(self).spec_capacity() == old(self).spec_capacity(),
    {
        let h = make_hash(&self.hash_builder, q);
        self.hash_table.hash_erase(h, q)
    }

    /// Borrows the value stored for a key.
    pub fn get<'a>(&'a self, q: &K) -> (r: Option<&'a V>)
        requires
            self.wf(),
        ensures
            r == (if self@.contains_key(*q) {
                Some(&self@[*q])
            } else {
                None::<&'a V>
            }),
    {
        let h = make_hash(&self.hash_builder, q);
        self.hash_table.hash_find(h, q)
    }

    /// Whether the map holds an entry for this key.
    pub fn contains_key(&self, q: &K) -> (r: bool)
        requires
            self.wf(),
        ensures
            r == self@.contains_key(*q),
    {
        let h = make_hash(&self.hash_builder, q);
        self.hash_table.hash_find(h, q).is_some()
    }

    /// Mutably borrows the value stored for a key; only that value can
    /// change through the borrow.
    pub fn get_mut<'a>(&'a mut self, q: &K) -> (r: Option<&'a mut V>)
        requires
            old(self).wf(),
        ensures
            final(self).wf(),
            r is Some <==> old(self)@.contains_key(*q),
            r is Some ==> *r.unwrap() == old(self)@[*q] && final(self)@ =~= old(self)@.insert(
                *q,
                *final(r.unwrap()),
            ),
            r is None ==> *final(self) == *old(self),
            final(self).spec_capacity() == old(self).spec_capacity(),
    {
        let h = make_hash(&self.hash_builder, q);
        self.hash_table.hash_find_mut(h, q)
    }

    /// Grows the bucket index to the load target of `capacity`
    /// entries; never shrinks it.
    pub fn reserve(&mut self, capacity: usize)
        requires
            old(self).wf(),
        ensures
            final(self).wf(),
            final(self)@ == old(self)@,
            final(self).spec_capacity() >= old(self).spec_capacity(),
            capacity <= usize::MAX / 6 && crate::hash_table::calc_limit_spec(capacity as nat)
                <= usize::MAX / 2 + 1 ==> final(self).spec_capacity() >= crate::hash_table::calc_limit_spec(capacity as nat),
    {
        self.hash_table.rehash(capacity);
    }

    /// Removes every entry, dropping the stored pairs; the bucket
    /// index keeps its size.
    pub fn clear(&mut self)
        requires
            old(self).wf(),
        ensures
            final(self).wf(),
            final(self)@ == Map::<K, V>::empty(),
            final(self).spec_capacity() == old(self).spec_capacity(),
    {
        let mut entries = self.hash_table.take_all_entries();
        entries.clear();
    }

    /// Shrinks the bucket index to the smallest power of two that
    /// still meets the load target of the current population, never
    /// below the initial eight slots.
    pub fn shrink_to_fit(&mut self)
        requires
            old(self).wf(),
        ensures
            final(self).wf(),
            final(self)@ == old(self)@,
            final(self).spec_capacity() <= old(self).spec_capacity(),
            final(self).spec_capacity() >= 8,
            old(self)@.dom().len() <= usize::MAX / 6 && old(self).spec_capacity() >= crate::hash_table::calc_limit_spec(old(self)@.dom().len() as nat) ==> final(self).spec_capacity()
                >= crate::hash_table::calc_limit_spec(old(self)@.dom().len() as nat),
            final(self).spec_capacity() <= 8 || final(self).spec_capacity() < 2 * crate::hash_table::calc_limit_spec(old(self)@.dom().len() as nat) || old(self)@.dom().len()
                > usize::MAX / 6,
    {
        let n = self.hash_table.size();
        let limit = HashTable::<K, V>::calc_limit(n);
        let old_size = self.hash_table.index_size();
        proof {
            if n <= usize::MAX / 6 {
                assert(n * 6 <= usize::MAX) by (nonlinear_arith)
                    requires
                        n <= usize::MAX / 6,
                ;
                assert(crate::hash_table::calc_limit_spec(n as nat) <= usize::MAX / 2 + 1);
                assert(old_size >= limit);
            }
        }
        let mut new_size = old_size;
        while new_size / 2 >= limit && new_size > 8
            invariant
                crate::hash_table::is_pow2(new_size as nat),
                8 <= new_size <= old_size,
                old_size >= limit ==> new_size >= limit,
                limit > usize::MAX / 2 ==> new_size == old_size,
            decreases new_size,
        {
            proof {
                assert(crate::hash_table::is_pow2(8nat)) by {
                    reveal_with_fuel(crate::hash_table::is_pow2, 5);
                }
                crate::hash_table::lemma_pow2_double_bound(new_size as nat, 8nat);
            }
            new_size = new_size / 2;
        }
        proof {
            if n > usize::MAX / 6 {
                assert(new_size == old_size);
            }
        }
        if new_size < old_size {
            self.hash_table.hash_swap(new_size);
        }
    }

    /// The first entry of the map's walk.
    pub fn first<'a>(&'a self) -> (r: Option<(&'a K, &'a V)>)
        requires
            self.wf(),
        ensures
            r is Some <==> self.hash_table.iter_seq().len() > 0,
            r is Some ==> r.unwrap() == (
                &self.hash_table.iter_seq()[0].0.1,
                &self.hash_table.iter_seq()[0].1,
            ),
    {
        match self.hash_table.node_first() {
            None => None,
            Some((_, k, v)) => Some((k, v)),
        }
    }

    /// The last entry of the map's walk.
    pub fn last<'a>(&'a self) -> (r: Option<(&'a K, &'a V)>)
        requires
            self.wf(),
        ensures
            r is Some <==> self.hash_table.iter_seq().len() > 0,
            r is Some ==> r.unwrap() == (
                &self.hash_table.iter_seq().last().0.1,
                &self.hash_table.iter_seq().last().1,
            ),
    {
        match self.hash_table.node_last() {
            None => None,
            Some((_, k, v)) => Some((k, v)),
        }
    }

    /// The entry after the given key in the map's walk.
    pub fn next<'a>(&'a self, q: &K) -> (r: Option<(&'a K, &'a V)>)
        requires
            self.wf(),
            self@.contains_key(*q),
        ensures
            ({
                let s = self.hash_table.iter_seq();
                let i = self.hash_table.iter_index_of(((self.hash_table.hf@)(*q), *q));
                &&& 0 <= i < s.len()
                &&& (i + 1 < s.len() ==> r == Some((&s[i + 1].0.1, &s[i + 1].1)))
                &&& (i + 1 == s.len() ==> r is None)
            }),
    {
        let h = make_hash(&self.hash_builder, q);
        match self.hash_table.node_next(h, q) {
            None => None,
            Some((_, k, v)) => Some((k, v)),
        }
    }

    /// The entry before the given key in the map's walk.
    pub fn prev<'a>(&'a self, q: &K) -> (r: Option<(&'a K, &'a V)>)
        requires
            self.wf(),
            self@.contains_key(*q),
        ensures
            ({
                let s = self.hash_table.iter_seq();
                let i = self.hash_table.iter_index_of(((self.hash_table.hf@)(*q), *q));
                &&& 0 <= i < s.len()
                &&& (i > 0 ==> r == Some((&s[i - 1].0.1, &s[i - 1].1)))
                &&& (i == 0 ==> r is None)
            }),
    {
        let h = make_hash(&self.hash_builder, q);
        match self.hash_table.node_prev(h, q) {
            None => None,
            Some((_, k, v)) => Some((k, v)),
        }
    }

    /// A borrowing walk over all entries.
    pub fn iter<'a>(&'a self) -> (it: Iter<'a, K, V>)
        requires
            self.wf(),
        ensures
            it.entries_match(self@),
            it@.len() == self@.dom().len(),
    {
        let items = self.hash_table.collect_entries();
        proof {
            self.hash_table.lemma_iter_seq();
        }
        let it = Iter { items, pos: 0 };
        proof {
            assert forall|i1: int, i2: int| 0 <= i1 < i2 < it@.len() implies it@[i1].0
                != it@[i2].0 by {
                assert(it@[i1].0 == self.hash_table.iter_seq()[i1].0.1);
                assert(it@[i2].0 == self.hash_table.iter_seq()[i2].0.1);
            }
            assert forall|k: K| #[trigger] self@.contains_key(k) implies exists|i: int|
                0 <= i < it@.len() && it@[i].0 == k by {
                let i = choose|i: int|
                    0 <= i < self.hash_table.iter_seq().len() && (#[trigger] self.hash_table.iter_seq()[i]).0 == (
                        (self.hash_table.hf@)(k),
                        k,
                    );
                assert(it@[i].0 == k);
            }
        }
        it
    }

    /// A borrowing walk over all keys.
    pub fn keys<'a>(&'a self) -> (it: Keys<'a, K, V>)
        requires
            self.wf(),
        ensures
            it.inner.entries_match(self@),
            it.inner@.len() == self@.dom().len(),
    {
        Keys { inner: self.iter() }
    }

    /// A borrowing walk over all values.
    pub fn values<'a>(&'a self) -> (it: Values<'a, K, V>)
        requires
            self.wf(),
        ensures
            it.inner.entries_match(self@),
            it.inner@.len() == self@.dom().len(),
    {
        Values { inner: self.iter() }
    }

    /// A walk over all entries that lends the values out mutably.
    pub fn iter_mut<'a>(&'a mut self) -> (it: IterMut<'a, K, V>)
        requires
            old(self).wf(),
        ensures
            final(self).wf(),
            final(self).spec_capacity() == old(self).spec_capacity(),
            it@.len() == old(self)@.dom().len(),
            forall|i1: int, i2: int| 0 <= i1 < i2 < it@.len() ==> *it@[i1].1 != *it@[i2].1,
            forall|i: int|
                #![trigger it@[i]]
                0 <= i < it@.len() ==> old(self)@.contains_key(*it@[i].1) && *it@[i].2 == old(
                    self,
                )@[*it@[i].1],
            forall|k: K| #[trigger]
                old(self)@.contains_key(k) ==> exists|i: int| 0 <= i < it@.len() && *it@[i].1 == k,
            final(self)@.dom() =~= old(self)@.dom(),
            forall|i: int|
                #![trigger it@[i]]
                0 <= i < it@.len() ==> final(self)@[*it@[i].1] == *final(it@[i].2),
    {
        let items = self.hash_table.collect_entries_mut();
        let ghost iv = items@;
        let it = IterMut { items };
        proof {
            assert forall|k: K| #[trigger] old(self)@.contains_key(k) implies exists|i: int|
                0 <= i < it@.len() && *it@[i].1 == k by {
                let i = choose|i: int| 0 <= i < iv.len() && *iv[i].1 == k;
                assert(0 <= i < it@.len() && *it@[i].1 == k);
            }
        }
        it
    }

    /// A walk over all values that lends them out mutably.
    pub fn values_mut<'a>(&'a mut self) -> (it: ValuesMut<'a, K, V>)
        requires
            old(self).wf(),
        ensures
            final(self).wf(),
            final(self).spec_capacity() == old(self).spec_capacity(),
            it.inner@.len() == old(self)@.dom().len(),
            forall|i: int|
                #![trigger it.inner@[i]]
                0 <= i < it.inner@.len() ==> old(self)@.contains_key(*it.inner@[i].1)
                    && *it.inner@[i].2 == old(self)@[*it.inner@[i].1],
            final(self)@.dom() =~= old(self)@.dom(),
            forall|i: int|
                #![trigger it.inner@[i]]
                0 <= i < it.inner@.len() ==> final(self)@[*it.inner@[i].1] == *final(it.inner@[i].2),
    {
        ValuesMut { inner: self.iter_mut() }
    }

    /// Consumes the map into a walk that hands every pair out by
    /// value; pairs never handed out are dropped with the walk.
    pub fn into_iter(self) -> (it: IntoIter<K, V>)
        requires
            self.wf(),
        ensures
            it.wf(),
            it@.len() == self@.dom().len(),
            forall|i: int|
                #![trigger it@[i]]
                0 <= i < it@.len() ==> self@.contains_key(it@[i].0) && self@[it@[i].0] == it@[i].1,
            forall|k: K| #[trigger]
                self@.contains_key(k) ==> exists|i: int| 0 <= i < it@.len() && it@[i].0 == k,
    {
        let mut m = self;
        let entries = m.hash_table.take_all_entries();
        let ghost ev = entries@;
        let it = IntoIter { entries };
        proof {
            assert forall|k: K| #[trigger] self@.contains_key(k) implies exists|i: int|
                0 <= i < it@.len() && it@[i].0 == k by {
                let i = choose|i: int| 0 <= i < ev.len() && ev[i].1 == k;
                assert(0 <= i < it@.len() && it@[i].0 == k);
            }
        }
        it
    }

    /// Inserts every pair the walk yields, newest value winning.
    pub fn extend(&mut self, iter: IntoIter<K, V>)
        requires
            old(self).wf(),
            iter.wf(),
            old(self)@.dom().len() + iter@.len() < usize::MAX,
        ensures
            final(self).wf(),
            forall|k: K|
                #![trigger final(self)@.contains_key(k)]
                final(self)@.contains_key(k) == (old(self)@.contains_key(k) || exists|i: int|
                    0 <= i < iter@.len() && iter@[i].0 == k),
            forall|i: int|
                0 <= i < iter@.len() ==> final(self)@[(#[trigger] iter@[i]).0] == iter@[i].1,
            forall|k: K| #[trigger]
                final(self)@.contains_key(k) && !old(self)@.contains_key(k) ==> exists|i: int|
                    0 <= i < iter@.len() && iter@[i].0 == k,
            forall|k: K|
                old(self)@.contains_key(k) && !(exists|i: int|
                    0 <= i < iter@.len() && (#[trigger] iter@[i]).0 == k) ==> final(self)@.contains_key(k) && final(self)@[k] == old(self)@[k],
    {
        let ghost s = iter@;
        let ghost pre = *old(self);
        let mut iter = iter;
        let ghost done: int = 0;
        loop
            invariant
                self.wf(),
                0 <= done <= s.len(),
                iter@ == s.skip(done),
                forall|i1: int, i2: int| 0 <= i1 < i2 < s.len() ==> s[i1].0 != s[i2].0,
                self@.dom().len() <= pre@.dom().len() + done,
                pre@.dom().len() + s.len() < usize::MAX,
                forall|k: K|
                    #![trigger self@.contains_key(k)]
                    self@.contains_key(k) == (pre@.contains_key(k) || exists|i: int|
                        0 <= i < done && s[i].0 == k),
                forall|i: int|
                    0 <= i < done ==> self@[(#[trigger] s[i]).0] == s[i].1,
                forall|k: K|
                    pre@.contains_key(k) && !(exists|i: int|
                        0 <= i < done && (#[trigger] s[i]).0 == k) ==> self@[k] == pre@[k],
            ensures
                done == s.len(),
            decreases s.len() - done,
        {
            match iter.next() {
                None => {
                    proof {
                        assert(done == s.len());
                    }
                    break ;
                },
                Some((k, v)) => {
                    proof {
                        assert((k, v) == s[done]);
                    }
                    self.insert(k, v);
                    proof {
                        done = done + 1;
                        assert(iter@ =~= s.skip(done));
                    }
                },
            }
        }
    }
}

impl<K: HashKey, V, S: BuildKeyHash> HashMap<K, V, S> {
    /// The user's handle to a possibly present key: occupied or
    /// vacant, resolved by one lookup.
    pub fn entry<'a>(&'a mut self, key: K) -> (e: Entry<'a, K, V, S>)
        requires
            old(self).wf(),
            old(self)@.dom().len() < usize::MAX,
        ensures
            match e {
                Entry::Occupied(o) => old(self)@.contains_key(key) && o.key == key && o.map_now()
                    == old(self)@ && o.entry_wf(),
                Entry::Vacant(v) => !old(self)@.contains_key(key) && v.key == key && v.map_now()
                    == old(self)@ && v.entry_wf(),
            },
    {
        let occupied = self.contains_key(&key);
        if occupied {
            Entry::Occupied(OccupiedEntry { key, map: self })
        } else {
            Entry::Vacant(VacantEntry { key, map: self })
        }
    }
}

/// A handle to a key's slot in a map: occupied or vacant.
#[verifier::reject_recursive_types(K)]
pub enum Entry<'a, K, V, S> {
    Occupied(OccupiedEntry<'a, K, V, S>),
    Vacant(VacantEntry<'a, K, V, S>),
}

/// A handle to a key that is present in the map.
#[verifier::reject_recursive_types(K)]
pub struct OccupiedEntry<'a, K, V, S> {
    pub key: K,
    pub map: &'a mut HashMap<K, V, S>,
}

/// A handle to a key that is absent from the map, ready to insert it.
#[verifier::reject_recursive_types(K)]
pub struct VacantEntry<'a, K, V, S> {
    pub key: K,
    pub map: &'a mut HashMap<K, V, S>,
}

impl<'a, K: HashKey, V, S: BuildKeyHash> OccupiedEntry<'a, K, V, S> {
    /// The map behind the handle, as it stands now.
    pub open spec fn map_now(self) -> Map<K, V> {
        (*self.map)@
    }

    /// A usable handle: the map is well formed and holds the key.
    pub open spec fn entry_wf(self) -> bool {
        &&& (*self.map).wf()
        &&& (*self.map)@.contains_key(self.key)
        &&& (*self.map)@.dom().len() < usize::MAX
    }

    /// The key this handle stands for.
    pub fn key(&self) -> (r: &K)
        ensures
            *r == self.key,
    {
        &self.key
    }

    /// Borrows the value.
    pub fn get<'b>(&'b self) -> (r: &'b V)
        requires
            self.entry_wf(),
        ensures
            *r == self.map_now()[self.key],
    {
        self.map.get(&self.key).unwrap()
    }

    /// Mutably borrows the value for the handle's lifetime, giving the
    /// handle up.
    pub fn into_mut(self) -> (r: &'a mut V)
        requires
            self.entry_wf(),
        ensures
            *r == self.map_now()[self.key],
            (*final(self.map)).wf(),
            (*final(self.map))@ =~= self.map_now().insert(self.key, *final(r)),
    {
        let OccupiedEntry { key, map } = self;
        map.get_mut(&key).unwrap()
    }

    /// Mutably borrows the value.
    pub fn get_mut<'b>(&'b mut self) -> (r: &'b mut V)
        requires
            old(self).entry_wf(),
        ensures
            *r == old(self).map_now()[old(self).key],
            final(self).key == old(self).key,
            final(self).entry_wf(),
            final(self).map_now() =~= old(self).map_now().insert(old(self).key, *final(r)),
    {
        self.map.get_mut(&self.key).unwrap()
    }

    /// Swaps the stored value for a new one and returns the old.
    pub fn insert(&mut self, value: V) -> (r: V)
        requires
            old(self).entry_wf(),
        ensures
            r == old(self).map_now()[old(self).key],
            final(self).key == old(self).key,
            final(self).entry_wf(),
            final(self).map_now() =~= old(self).map_now().insert(old(self).key, value),
    {
        let mut value = value;
        let vref = self.map.get_mut(&self.key).unwrap();
        mem::swap(&mut value, vref);
        value
    }

    /// Removes the entry, returning the stored pair.
    pub fn remove_entry(self) -> (r: (K, V))
        requires
            self.entry_wf(),
        ensures
            r == (self.key, self.map_now()[self.key]),
            (*final(self.map)).wf(),
            (*final(self.map))@ == self.map_now().remove(self.key),
    {
        let OccupiedEntry { key, map } = self;
        map.remove(&key).unwrap()
    }

    /// Removes the entry, returning the stored value.
    pub fn remove(self) -> (r: V)
        requires
            self.entry_wf(),
        ensures
            r == self.map_now()[self.key],
            (*final(self.map)).wf(),
            (*final(self.map))@ == self.map_now().remove(self.key),
    {
        self.remove_entry().1
    }
}

impl<'a, K: HashKey + Copy, V, S: BuildKeyHash> OccupiedEntry<'a, K, V, S> {
    /// Swaps the stored key instance for the handle's and returns the
    /// old one; with keys equal under the total order, the map reads
    /// the same afterwards.
    pub fn replace_key(self) -> (r: K)
        requires
            self.entry_wf(),
        ensures
            r == self.key,
            (*final(self.map)).wf(),
            (*final(self.map))@ == self.map_now(),
    {
        let OccupiedEntry { key, map } = self;
        let ghost pre = (*map)@;
        let (old_key, value) = map.remove(&key).unwrap();
        map.insert(key, value);
        proof {
            assert((*map)@ =~= pre);
        }
        old_key
    }

    /// Replaces both the stored key instance and the value, returning
    /// the old pair.
    pub fn replace_entry(self, value: V) -> (r: (K, V))
        requires
            self.entry_wf(),
        ensures
            r == (self.key, self.map_now()[self.key]),
            (*final(self.map)).wf(),
            (*final(self.map))@ == self.map_now().insert(self.key, value),
    {
        let OccupiedEntry { key, map } = self;
        let ghost pre = (*map)@;
        let old_pair = map.remove(&key).unwrap();
        map.insert(key, value);
        proof {
            assert((*map)@ =~= pre.insert(key, value));
        }
        old_pair
    }
}

impl<'a, K: HashKey, V, S: BuildKeyHash> VacantEntry<'a, K, V, S> {
    /// The map behind the handle, as it stands now.
    pub open spec fn map_now(self) -> Map<K, V> {
        (*self.map)@
    }

    /// A usable handle: the map is well formed and lacks the key.
    pub open spec fn entry_wf(self) -> bool {
        &&& (*self.map).wf()
        &&& !(*self.map)@.contains_key(self.key)
        &&& (*self.map)@.dom().len() < usize::MAX
    }

    /// The key this handle stands for.
    pub fn key(&self) -> (r: &K)
        ensures
            *r == self.key,
    {
        &self.key
    }

    /// Gives the key back, abandoning the lookup.
    pub fn into_key(self) -> (r: K)
        ensures
            r == self.key,
    {
        self.key
    }
}

impl<'a, K: HashKey + Copy, V, S: BuildKeyHash> VacantEntry<'a, K, V, S> {
    /// Inserts a value for the key and lends the slot out mutably.
    pub fn insert(self, value: V) -> (r: &'a mut V)
        requires
            self.entry_wf(),
        ensures
            *r == value,
            (*final(self.map)).wf(),
            (*final(self.map))@ =~= self.map_now().insert(self.key, *final(r)),
    {
        let VacantEntry { key, map } = self;
        map.insert(key, value);
        map.get_mut(&key).unwrap()
    }
}

impl<'a, K: HashKey, V, S: BuildKeyHash> Entry<'a, K, V, S> {
    /// The map behind the handle, as it stands now.
    pub open spec fn map_now(self) -> Map<K, V> {
        match self {
            Entry::Occupied(o) => o.map_now(),
            Entry::Vacant(v) => v.map_now(),
        }
    }

    /// The key this handle stands for.
    pub open spec fn spec_key(self) -> K {
        match self {
            Entry::Occupied(o) => o.key,
            Entry::Vacant(v) => v.key,
        }
    }

    /// A usable handle over a well-formed map.
    pub open spec fn entry_wf(self) -> bool {
        match self {
            Entry::Occupied(o) => o.entry_wf(),
            Entry::Vacant(v) => v.entry_wf(),
        }
    }

    /// The key this handle stands for.
    pub fn key(&self) -> (r: &K)
        ensures
            *r == self.spec_key(),
    {
        match self {
            Entry::Occupied(o) => o.key(),
            Entry::Vacant(v) => v.key(),
        }
    }
}

impl<'a, K: HashKey + Copy, V, S: BuildKeyHash> Entry<'a, K, V, S> {
    /// The stored value, inserting the default where the key was
    /// absent; lends the slot out mutably.
    pub fn or_insert(self, default: V) -> (r: &'a mut V)
        requires
            self.entry_wf(),
        ensures
            *r == (match self {
                Entry::Occupied(o) => o.map_now()[o.key],
                Entry::Vacant(_) => default,
            }),
            match self {
                Entry::Occupied(o) => (*final(o.map)).wf() && (*final(o.map))@ =~= o.map_now().insert(o.key, *final(r)),
                Entry::Vacant(v) => (*final(v.map)).wf() && (*final(v.map))@ =~= v.map_now().insert(v.key, *final(r)),
            },
    {
        match self {
            Entry::Occupied(o) => o.into_mut(),
            Entry::Vacant(v) => v.insert(default),
        }
    }

    /// The stored value, inserting what the closure makes where the
    /// key was absent; lends the slot out mutably.
    pub fn or_insert_with<F: FnOnce() -> V>(self, default: F) -> (r: &'a mut V)
        requires
            self.entry_wf(),
            call_requires(default, ()),
        ensures
            match self {
                Entry::Occupied(o) => *r == o.map_now()[o.key],
                Entry::Vacant(_) => call_ensures(default, (), *r),
            },
            match self {
                Entry::Occupied(o) => (*final(o.map)).wf() && (*final(o.map))@ =~= o.map_now().insert(o.key, *final(r)),
                Entry::Vacant(v) => (*final(v.map)).wf() && (*final(v.map))@ =~= v.map_now().insert(v.key, *final(r)),
            },
    {
        match self {
            Entry::Occupied(o) => o.into_mut(),
            Entry::Vacant(v) => v.insert(default()),
        }
    }

    /// Applies the closure to the stored value, where there is one,
    /// and hands the entry back.
    pub fn and_modify<F: FnMut(&mut V)>(self, f: F) -> (r: Entry<'a, K, V, S>)
        requires
            self.entry_wf(),
            forall|arg: &mut V| call_requires(f, (arg,)),
        ensures
            r.spec_key() == self.spec_key(),
            r.entry_wf(),
            self is Occupied ==> r is Occupied && r.map_now().dom() =~= self.map_now().dom()
                && (forall|k2: K|
                    #![trigger r.map_now()[k2]]
                    self.map_now().contains_key(k2) && k2 != self.spec_key() ==> r.map_now()[k2]
                        == self.map_now()[k2]),
            self is Occupied ==> (exists|a: &mut V|
                *a == self.map_now()[self.spec_key()] && call_ensures(f, (a,), ())
                    && r.map_now()[r.spec_key()] == *final(a)),
            self is Vacant ==> r is Vacant && r.map_now() == self.map_now(),
    {
        match self {
            Entry::Occupied(o) => {
                let mut o = o;
                let mut f = f;
                let vref = o.get_mut();
                f(vref);
                Entry::Occupied(o)
            },
            Entry::Vacant(v) => Entry::Vacant(v),
        }
    }
}

impl<K: HashKey, V> HashMap<K, V, SeedState> {
    /// An empty map over the default hasher factory.
    pub fn new() -> (m: Self)
        ensures
            m.wf(),
            m@ == Map::<K, V>::empty(),
            m.spec_capacity() == 8,
    {
        Self::with_hasher(SeedState::with_seed(0))
    }

    /// An empty map over the default hasher factory, grown to the
    /// load target of `capacity` entries.
    pub fn with_capacity(capacity: usize) -> (m: Self)
        ensures
            m.wf(),
            m@ == Map::<K, V>::empty(),
            m.spec_capacity() >= 8,
            capacity <= usize::MAX / 6 && crate::hash_table::calc_limit_spec(capacity as nat)
                <= usize::MAX / 2 + 1 ==> m.spec_capacity() >= crate::hash_table::calc_limit_spec(
                capacity as nat,
            ),
    {
        Self::with_capacity_and_hasher(capacity, SeedState::with_seed(0))
    }
}

impl<K: HashKey, V, S: BuildKeyHash + Default> Default for HashMap<K, V, S> {
    /// An empty map over the factory the hasher type defaults to.
    fn default() -> (m: Self)
        ensures
            m.wf(),
            m@ == Map::<K, V>::empty(),
            m.spec_capacity() == 8,
    {
        Self::with_hasher(S::default())
    }
}

impl<K: HashKey + Copy, V: Copy, S: BuildKeyHash + Copy> HashMap<K, V, S> {
    /// An independent copy: same entries, same hasher, its own
    /// storage.
    pub fn clone(&self) -> (m: Self)
        requires
            self.wf(),
        ensures
            m.wf(),
            m@ == self@,
    {
        let mut m = Self::with_capacity_and_hasher(self.hash_table.size(), self.hash_builder);
        let v = self.hash_table.collect_entries();
        proof {
            self.hash_table.lemma_iter_seq();
        }
        let ghost s = self.hash_table.iter_seq();
        let n = v.len();
        let mut i: usize = 0;
        while i < n
            invariant
                self.wf(),
                m.wf(),
                s == self.hash_table.iter_seq(),
                n == v@.len(),
                i <= n,
                v@.len() == s.len(),
                s.len() == self@.dom().len(),
                forall|j: int|
                    #![trigger v@[j]]
                    0 <= j < n ==> v@[j] == (s[j].0.0, &s[j].0.1, &s[j].1),
                forall|k: K|
                    #![trigger m@.contains_key(k)]
                    m@.contains_key(k) == exists|j: int| 0 <= j < i && s[j].0.1 == k,
                forall|k: K| #[trigger] m@.contains_key(k) ==> m@[k] == self@[k],
                m@.dom().len() <= i,
            decreases n - i,
        {
            proof {
                self.hash_table.lemma_iter_seq();
            }
            let e = v[i];
            m.insert(*e.1, *e.2);
            i = i + 1;
            proof {
                assert forall|k: K|
                    m@.contains_key(k) == exists|j: int| 0 <= j < i && s[j].0.1 == k by {
                    if m@.contains_key(k) {
                        if k == s[i - 1].0.1 {
                            assert(s[i - 1].0.1 == k);
                        }
                    } else {
                        if exists|j: int| 0 <= j < i && s[j].0.1 == k {
                            let j = choose|j: int| 0 <= j < i && s[j].0.1 == k;
                            assert(m@.contains_key(k));
                        }
                    }
                }
            }
        }
        proof {
            self.hash_table.lemma_iter_seq();
            assert forall|k: K| #[trigger] self@.contains_key(k) implies m@.contains_key(k) by {
                let j = choose|j: int|
                    0 <= j < s.len() && (#[trigger] s[j]).0 == ((self.hash_table.hf@)(k), k);
                assert(s[j].0.1 == k);
            }
            assert forall|k: K| #[trigger] m@.contains_key(k) implies self@.contains_key(k) by {
                let j = choose|j: int| 0 <= j < n && s[j].0.1 == k;
            }
            assert(m@ =~= self@);
        }
        m
    }
}

impl<K: HashKey, V: PartialEq, S: BuildKeyHash> HashMap<K, V, S> {
    /// Whether two maps hold the same keys with values that compare
    /// equal under the value type's own equality.
    pub open spec fn values_equiv(a: Map<K, V>, b: Map<K, V>) -> bool {
        &&& a.dom() == b.dom()
        &&& (forall|k: K| #[trigger] a.contains_key(k) ==> a[k].eq_spec(&b[k]))
    }

    /// Compares two maps: equal length and every entry of one found,
    /// with an equal value, in the other.
    pub fn eq_map(&self, other: &Self) -> (r: bool)
        requires
            self.wf(),
            other.wf(),
        ensures
            V::obeys_eq_spec() ==> r == Self::values_equiv(self@, other@),
    {
        if self.len() != other.len() {
            proof {
                if self@.dom() == other@.dom() {
                    assert(self@.dom().len() == other@.dom().len());
                }
            }
            return false;
        }
        let v = self.hash_table.collect_entries();
        proof {
            self.hash_table.lemma_iter_seq();
        }
        let ghost s = self.hash_table.iter_seq();
        let n = v.len();
        let mut i: usize = 0;
        while i < n
            invariant
                self.wf(),
                other.wf(),
                s == self.hash_table.iter_seq(),
                n == v@.len(),
                i <= n,
                v@.len() == s.len(),
                s.len() == self@.dom().len(),
                self@.dom().len() == other@.dom().len(),
                forall|j: int|
                    #![trigger v@[j]]
                    0 <= j < n ==> v@[j] == (s[j].0.0, &s[j].0.1, &s[j].1),
                V::obeys_eq_spec() ==> forall|j: int|
                    0 <= j < i ==> other@.contains_key((#[trigger] s[j]).0.1) && self@[s[j].0.1].eq_spec(
                        &other@[s[j].0.1],
                    ),
            decreases n - i,
        {
            proof {
                self.hash_table.lemma_iter_seq();
            }
            let e = v[i];
            match other.get(e.1) {
                None => {
                    proof {
                        assert(self@.contains_key(s[i as int].0.1));
                        assert(!other@.contains_key(s[i as int].0.1));
                        if self@.dom() == other@.dom() {
                            assert(other@.dom().contains(s[i as int].0.1));
                        }
                    }
                    return false;
                },
                Some(ov) => {
                    let same = *e.2 == *ov;
                    if !same {
                        proof {
                            if V::obeys_eq_spec() {
                                assert(self@.contains_key(s[i as int].0.1));
                                assert(!self@[s[i as int].0.1].eq_spec(&other@[s[i as int].0.1]));
                            }
                        }
                        return false;
                    }
                },
            }
            i = i + 1;
        }
        proof {
            if V::obeys_eq_spec() {
                self.hash_table.lemma_iter_seq();
                assert forall|k: K| #[trigger] self@.contains_key(k) implies other@.contains_key(
                    k,
                ) && self@[k].eq_spec(&other@[k]) by {
                    let j = choose|j: int|
                        0 <= j < s.len() && (#[trigger] s[j]).0 == ((self.hash_table.hf@)(k), k);
                    assert(s[j].0.1 == k);
                }
                assert(self@.dom().subset_of(other@.dom()));
                assert forall|k: K| other@.dom().contains(k) implies self@.dom().contains(k) by {
                    if !self@.dom().contains(k) {
                        self@.dom().lemma_subset_not_in_lt(other@.dom(), k);
                    }
                }
                assert(self@.dom() =~= other@.dom());
            }
        }
        true
    }
}

/// Size law: an insert of an absent key grows the map by one, an
/// insert over a present key keeps the size, a successful remove
/// shrinks it by one, and a remove of an absent key changes nothing.
/// Chained along any operation sequence, `n` inserts of distinct
/// fresh keys minus `m` successful removes leave `n - m` entries.
pub proof fn lemma_size_law<K, V>(m: Map<K, V>, k: K, v: V)
    requires
        m.dom().finite(),
    ensures
        !m.contains_key(k) ==> m.insert(k, v).dom().len() == m.dom().len() + 1,
        m.contains_key(k) ==> m.insert(k, v).dom().len() == m.dom().len(),
        m.contains_key(k) ==> m.remove(k).dom().len() + 1 == m.dom().len(),
        !m.contains_key(k) ==> m.remove(k) == m,
{
    if !m.contains_key(k) {
        assert(m.remove(k) =~= m);
    }
}

/// Round trip: after an insert the key reads back as the inserted
/// value, and after the matching remove it is gone.
pub proof fn lemma_round_trip<K, V>(m: Map<K, V>, k: K, v: V)
    ensures
        m.insert(k, v).contains_key(k),
        m.insert(k, v)[k] == v,
        !m.insert(k, v).remove(k).contains_key(k),
{
}

/// Overwriting insert: a second insert of the same key replaces the
/// value, leaves every other key alone and keeps the size.
pub proof fn lemma_insert_overwrite<K, V>(m: Map<K, V>, k: K, v1: V, v2: V)
    requires
        m.dom().finite(),
    ensures
        m.insert(k, v1).insert(k, v2) == m.insert(k, v2),
        m.insert(k, v1)[k] == v1,
        m.insert(k, v1).insert(k, v2).dom().len() == m.insert(k, v1).dom().len(),
        forall|k2: K|
            k2 != k ==> m.insert(k, v1).insert(k, v2).contains_key(k2) == m.contains_key(k2) && (
            m.contains_key(k2) ==> m.insert(k, v1).insert(k, v2)[k2] == m[k2]),
{
    assert(m.insert(k, v1).insert(k, v2) =~= m.insert(k, v2));
}

/// Iteration covers the map: a walk that yields each key exactly once
/// with its stored value is, as a multiset, exactly the map's set of
/// live entries, each counted once.
pub proof fn lemma_iteration_covers<K, V>(m: Map<K, V>, s: Seq<(K, V)>)
    requires
        forall|i1: int, i2: int| 0 <= i1 < i2 < s.len() ==> s[i1].0 != s[i2].0,
        forall|i: int|
            0 <= i < s.len() ==> m.contains_key((#[trigger] s[i]).0) && m[s[i].0] == s[i].1,
        forall|k: K| #[trigger]
            m.contains_key(k) ==> exists|i: int| 0 <= i < s.len() && s[i].0 == k,
    ensures
        forall|p: (K, V)| #[trigger]
            s.to_multiset().count(p) == (if m.contains_key(p.0) && m[p.0] == p.1 {
                1nat
            } else {
                0nat
            }),
{
    s.to_multiset_ensures();
    assert(s.no_duplicates()) by {
        assert forall|i1: int, i2: int|
            0 <= i1 < i2 < s.len() implies s[i1] != s[i2] by {
            assert(s[i1].0 != s[i2].0);
        }
    }
    s.lemma_multiset_has_no_duplicates();
    assert forall|p: (K, V)| #[trigger]
        s.to_multiset().count(p) == (if m.contains_key(p.0) && m[p.0] == p.1 {
            1nat
        } else {
            0nat
        }) by {
        if m.contains_key(p.0) && m[p.0] == p.1 {
            let i = choose|i: int| 0 <= i < s.len() && s[i].0 == p.0;
            assert(s[i] == p);
            assert(s.contains(p));
            assert(s.to_multiset().count(p) > 0);
            assert(s.to_multiset().count(p) <= 1);
        } else {
            if s.to_multiset().count(p) > 0 {
                assert(s.contains(p));
                let i = choose|i: int| 0 <= i < s.len() && s[i] == p;
                assert(m.contains_key(p.0) && m[p.0] == p.1);
            }
        }
    }
}

/// A borrowing walk over a map's entries: hands out key and value
/// borrows in walk order.
pub struct Iter<'a, K, V> {
    items: Vec<(u64, &'a K, &'a V)>,
    pos: usize,
}

impl<'a, K, V> Iter<'a, K, V> {
    /// The entries not yet yielded, by value.
    pub closed spec fn remaining(self) -> Seq<(K, V)> {
        if self.pos as int <= self.items@.len() {
            Seq::new(
                (self.items@.len() - self.pos as int) as nat,
                |i: int| (*self.items@[self.pos + i].1, *self.items@[self.pos + i].2),
            )
        } else {
            Seq::empty()
        }
    }

    /// Whether this walk enumerates exactly the entries of `m`: each
    /// key at most once, every key of `m` once, values as stored.
    pub open spec fn entries_match(self, m: Map<K, V>) -> bool {
        &&& self@.len() == m.dom().len()
        &&& (forall|i1: int, i2: int| 0 <= i1 < i2 < self@.len() ==> self@[i1].0 != self@[i2].0)
        &&& (forall|i: int|
            0 <= i < self@.len() ==> m.contains_key((#[trigger] self@[i]).0) && m[self@[i].0]
                == self@[i].1)
        &&& (forall|k: K| #[trigger]
            m.contains_key(k) ==> exists|i: int| 0 <= i < self@.len() && self@[i].0 == k)
    }

    /// The next entry of the walk, or nothing at its end.
    pub fn next(&mut self) -> (r: Option<(&'a K, &'a V)>)
        ensures
            old(self)@.len() == 0 ==> r is None && final(self)@ == old(self)@,
            old(self)@.len() > 0 ==> r is Some && *r.unwrap().0 == old(self)@[0].0
                && *r.unwrap().1 == old(self)@[0].1 && final(self)@ == old(self)@.drop_first(),
    {
        if self.pos < self.items.len() {
            let e = self.items[self.pos];
            self.pos = self.pos + 1;
            proof {
                assert(e == self.items@[old(self).pos as int]);
                assert(old(self)@[0] == (*e.1, *e.2));
                assert(final(self)@ =~= old(self)@.drop_first());
            }
            Some((e.1, e.2))
        } else {
            proof {
                assert(final(self)@ =~= old(self)@);
            }
            None
        }
    }

    /// How many entries are left: an exact lower and upper bound.
    pub fn size_hint(&self) -> (r: (usize, Option<usize>))
        ensures
            r.0 == self@.len(),
            r.1 == Some(r.0),
    {
        let n = if self.pos <= self.items.len() {
            self.items.len() - self.pos
        } else {
            0
        };
        (n, Some(n))
    }
}

impl<'a, K, V> View for Iter<'a, K, V> {
    type V = Seq<(K, V)>;

    closed spec fn view(&self) -> Seq<(K, V)> {
        self.remaining()
    }
}

/// A borrowing walk over a map's keys.
pub struct Keys<'a, K, V> {
    pub inner: Iter<'a, K, V>,
}

impl<'a, K, V> Keys<'a, K, V> {
    /// The next key of the walk, or nothing at its end.
    pub fn next(&mut self) -> (r: Option<&'a K>)
        ensures
            old(self).inner@.len() == 0 ==> r is None && final(self).inner@ == old(self).inner@,
            old(self).inner@.len() > 0 ==> r is Some && *r.unwrap() == old(self).inner@[0].0
                && final(self).inner@ == old(self).inner@.drop_first(),
    {
        match self.inner.next() {
            None => None,
            Some((k, _)) => Some(k),
        }
    }

    /// How many keys are left.
    pub fn size_hint(&self) -> (r: (usize, Option<usize>))
        ensures
            r.0 == self.inner@.len(),
            r.1 == Some(r.0),
    {
        self.inner.size_hint()
    }
}

/// A borrowing walk over a map's values.
pub struct Values<'a, K, V> {
    pub inner: Iter<'a, K, V>,
}

impl<'a, K, V> Values<'a, K, V> {
    /// The next value of the walk, or nothing at its end.
    pub fn next(&mut self) -> (r: Option<&'a V>)
        ensures
            old(self).inner@.len() == 0 ==> r is None && final(self).inner@ == old(self).inner@,
            old(self).inner@.len() > 0 ==> r is Some && *r.unwrap() == old(self).inner@[0].1
                && final(self).inner@ == old(self).inner@.drop_first(),
    {
        match self.inner.next() {
            None => None,
            Some((_, v)) => Some(v),
        }
    }

    /// How many values are left.
    pub fn size_hint(&self) -> (r: (usize, Option<usize>))
        ensures
            r.0 == self.inner@.len(),
            r.1 == Some(r.0),
    {
        self.inner.size_hint()
    }
}

/// A walk over a map's entries that lends each value out mutably,
/// exactly once.
pub struct IterMut<'a, K, V> {
    items: Vec<(u64, &'a K, &'a mut V)>,
}

impl<'a, K, V> IterMut<'a, K, V> {
    /// The borrows not yet handed out.
    pub closed spec fn spec_items(self) -> Seq<(u64, &'a K, &'a mut V)> {
        self.items@
    }

    /// The next entry, or nothing at the walk's end.
    pub fn next(&mut self) -> (r: Option<(&'a K, &'a mut V)>)
        ensures
            old(self)@.len() == 0 ==> r is None && final(self)@ == old(self)@,
            old(self)@.len() > 0 ==> r is Some && r.unwrap().0 == old(self)@[0].1
                && *r.unwrap().1 == *old(self)@[0].2 && *final(r.unwrap().1) == *final(old(self)@[0].2)
                && final(self)@ == old(self)@.drop_first(),
    {
        if self.items.len() > 0 {
            let e = self.items.remove(0);
            proof {
                assert(e == old(self).items@[0]);
                assert(old(self)@[0] == e);
                assert(final(self)@ =~= old(self)@.drop_first());
            }
            Some((e.1, e.2))
        } else {
            None
        }
    }

    /// How many entries are left.
    pub fn size_hint(&self) -> (r: (usize, Option<usize>))
        ensures
            r.0 == self@.len(),
            r.1 == Some(r.0),
    {
        let n = self.items.len();
        (n, Some(n))
    }
}

impl<'a, K, V> View for IterMut<'a, K, V> {
    type V = Seq<(u64, &'a K, &'a mut V)>;

    closed spec fn view(&self) -> Seq<(u64, &'a K, &'a mut V)> {
        self.items@
    }
}

/// A walk over a map's values that lends each out mutably.
pub struct ValuesMut<'a, K, V> {
    pub inner: IterMut<'a, K, V>,
}

impl<'a, K, V> ValuesMut<'a, K, V> {
    /// The next value, or nothing at the walk's end.
    pub fn next(&mut self) -> (r: Option<&'a mut V>)
        ensures
            old(self).inner@.len() == 0 ==> r is None && final(self).inner@ == old(self).inner@,
            old(self).inner@.len() > 0 ==> r is Some && *r.unwrap() == *old(self).inner@[0].2
                && *final(r.unwrap()) == *final(old(self).inner@[0].2) && final(self).inner@ == old(
            self).inner@.drop_first(),
    {
        match self.inner.next() {
            None => None,
            Some((_, v)) => Some(v),
        }
    }

    /// How many values are left.
    pub fn size_hint(&self) -> (r: (usize, Option<usize>))
        ensures
            r.0 == self.inner@.len(),
            r.1 == Some(r.0),
    {
        self.inner.size_hint()
    }
}

/// An owning walk over a map's entries: the map is consumed, each pair
/// comes out by value, pairs never asked for are dropped with the walk.
pub struct IntoIter<K, V> {
    entries: Vec<(u64, K, V)>,
}

impl<K, V> IntoIter<K, V> {
    /// The walk's keys are distinct.
    pub open spec fn wf(self) -> bool {
        forall|i1: int, i2: int| 0 <= i1 < i2 < self@.len() ==> self@[i1].0 != self@[i2].0
    }

    /// The next pair, or nothing at the walk's end.
    pub fn next(&mut self) -> (r: Option<(K, V)>)
        ensures
            old(self)@.len() == 0 ==> r is None && final(self)@ == old(self)@,
            old(self)@.len() > 0 ==> r == Some(old(self)@[0]) && final(self)@ == old(
                self,
            )@.drop_first(),
    {
        if self.entries.len() > 0 {
            let e = self.entries.remove(0);
            proof {
                assert(final(self)@ =~= old(self)@.drop_first());
            }
            Some((e.1, e.2))
        } else {
            proof {
                assert(final(self)@ =~= old(self)@);
            }
            None
        }
    }

    /// How many pairs are left.
    pub fn size_hint(&self) -> (r: (usize, Option<usize>))
        ensures
            r.0 == self@.len(),
            r.1 == Some(r.0),
    {
        let n = self.entries.len();
        (n, Some(n))
    }
}

impl<K, V> View for IntoIter<K, V> {
    type V = Seq<(K, V)>;

    closed spec fn view(&self) -> Seq<(K, V)> {
        self.entries@.map(|i: int, e: (u64, K, V)| (e.1, e.2))
    }
}

} // verus!
