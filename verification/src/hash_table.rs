//! The hash table of AVL trees.
//!
//! An array of buckets, each a small AVL tree keyed by `(hash, key)`,
//! together with a list of the live (non-empty) buckets so that a walk
//! over all entries touches only populated slots. The index is always a
//! power of two, at least eight slots; a hash is dispatched to the
//! bucket `hash & index_mask`.
//!
//! The model of a table is a `Map<K, V>`, carried alongside the buckets
//! and tied to them pointwise by the invariant.

use vstd::prelude::*;
use crate::key::{HashKey, BuildKeyHash};
use crate::avl_node::{
    HashNode, Link, link_map, link_wf, link_size, link_height, link_seq, lemma_link_counts,
    lemma_link_seq,
};
use core::mem;

verus! {

/// The initial (and smallest) number of buckets.
pub const AVL_HASH_INIT_SIZE: usize = 8;

/// One slot of the hash index: the root of this bucket's AVL tree.
pub struct HashIndex<K, V> {
    pub avl_root: Link<K, V>,
}

/// Computes the table hash of a key under the given hasher factory.
pub fn make_hash<K: HashKey, S: BuildKeyHash>(hash_state: &S, t: &K) -> (h: u64)
    ensures
        h == hash_state.hash_spec(t.hash_model()),
{
    hash_state.finish_hash(t.key_hash())
}

/// Whether `n` is a power of two.
pub open spec fn is_pow2(n: nat) -> bool
    decreases n,
{
    if n == 0 {
        false
    } else if n == 1 {
        true
    } else {
        n % 2 == 0 && is_pow2(n / 2)
    }
}

/// Of two powers of two, the larger is at least double the smaller.
pub proof fn lemma_pow2_double_bound(n: nat, b: nat)
    requires
        is_pow2(n),
        is_pow2(b),
        n > b,
    ensures
        n >= 2 * b,
        n % 2 == 0,
        is_pow2(n / 2),
        n / 2 >= b,
    decreases n,
{
    if b == 1 {
    } else {
        lemma_pow2_double_bound(n / 2, b / 2);
    }
}

/// The growth target for a population: six quarters of it, the
/// table's load rule.
pub open spec fn calc_limit_spec(n: nat) -> nat {
    (n * 6) / 4
}

/// The growth target never shrinks as the population grows.
pub proof fn lemma_calc_limit_monotone(a: nat, b: nat)
    requires
        a <= b,
    ensures
        calc_limit_spec(a) <= calc_limit_spec(b),
{
    assert(a * 6 <= b * 6) by (nonlinear_arith)
        requires
            a <= b,
    ;
    assert(a * 6 / 4 <= b * 6 / 4) by (nonlinear_arith)
        requires
            a * 6 <= b * 6,
    ;
}

/// The load rule: the index has reached the growth target of the
/// population, or the largest index any machine can address.
pub open spec fn load_rule(index_size: usize, count: usize) -> bool {
    &&& (calc_limit_spec(count as nat) <= usize::MAX / 2 + 1 ==> index_size >= calc_limit_spec(
        count as nat,
    ))
    &&& (calc_limit_spec(count as nat) > usize::MAX / 2 + 1 ==> index_size >= usize::MAX / 2 + 1)
}

/// The load rule survives any drop in population.
pub proof fn lemma_load_rule_mono(index_size: usize, c1: usize, c2: usize)
    requires
        load_rule(index_size, c1),
        c2 <= c1,
    ensures
        load_rule(index_size, c2),
{
    lemma_calc_limit_monotone(c2 as nat, c1 as nat);
}

/// The total number of entries across a sequence of buckets.
pub open spec fn buckets_sum<K, V>(s: Seq<HashIndex<K, V>>) -> nat
    decreases s.len(),
{
    if s.len() == 0 {
        0nat
    } else {
        buckets_sum(s.drop_last()) + link_size(s.last().avl_root)
    }
}

/// Replacing one bucket changes the total by that bucket's difference.
pub proof fn lemma_buckets_sum_update<K, V>(s: Seq<HashIndex<K, V>>, i: int, b: HashIndex<K, V>)
    requires
        0 <= i < s.len(),
    ensures
        buckets_sum(s.update(i, b)) + link_size(s[i].avl_root) == buckets_sum(s) + link_size(
            b.avl_root,
        ),
    decreases s.len(),
{
    let t = s.update(i, b);
    if i == s.len() - 1 {
        assert(t.drop_last() =~= s.drop_last());
    } else {
        lemma_buckets_sum_update(s.drop_last(), i, b);
        assert(t.drop_last() =~= s.drop_last().update(i, b));
        assert(t.last() == s.last());
    }
}

/// Two bucket runs whose trees match in size slot by slot hold the
/// same total.
pub proof fn lemma_buckets_sum_pointwise<K, V>(a: Seq<HashIndex<K, V>>, b: Seq<HashIndex<K, V>>)
    requires
        a.len() == b.len(),
        forall|j: int|
            0 <= j < a.len() ==> link_size((#[trigger] a[j]).avl_root) == link_size(b[j].avl_root),
    ensures
        buckets_sum(a) == buckets_sum(b),
    decreases a.len(),
{
    if a.len() > 0 {
        lemma_buckets_sum_pointwise(a.drop_last(), b.drop_last());
    }
}

/// No bucket holds more entries than all buckets together.
pub proof fn lemma_buckets_sum_bound<K, V>(s: Seq<HashIndex<K, V>>, i: int)
    requires
        0 <= i < s.len(),
    ensures
        link_size(s[i].avl_root) <= buckets_sum(s),
    decreases s.len(),
{
    if i < s.len() - 1 {
        lemma_buckets_sum_bound(s.drop_last(), i);
    }
}

/// The entries of a sequence of buckets, flattened in slot order.
pub open spec fn buckets_seq<K, V>(s: Seq<HashIndex<K, V>>) -> Seq<((u64, K), V)>
    decreases s.len(),
{
    if s.len() == 0 {
        Seq::empty()
    } else {
        link_seq(s[0].avl_root) + buckets_seq(s.drop_first())
    }
}

/// Dropping the first element of a concatenation whose left part is a
/// single element leaves the right part.
pub broadcast proof fn lemma_unit_concat_drop_first<A>(a: Seq<A>, b: Seq<A>)
    requires
        a.len() == 1,
    ensures
        #[trigger] ((a + b).drop_first()) == b,
{
    assert((a + b).drop_first() =~= b);
}

/// The hash table: `count` live entries spread over `index_size`
/// buckets, with the live buckets listed in the order they first came
/// alive. `hf` names the hash function its entries are stored under.
#[verifier::reject_recursive_types(K)]
pub struct HashTable<K, V> {
    pub count: usize,
    pub index_size: usize,
    pub index_mask: usize,
    pub index: Vec<HashIndex<K, V>>,
    pub live: Vec<usize>,
    pub hf: Ghost<spec_fn(K) -> u64>,
}

impl<K, V> HashTable<K, V> {
    /// The bucket tree at slot `i`.
    pub open spec fn bucket_at(self, i: int) -> Link<K, V> {
        self.index@[i].avl_root
    }

    /// The slot a key is dispatched to: its hash, masked.
    pub open spec fn bucket_of(self, k: K) -> int {
        ((self.hf@)(k) & (self.index_mask as u64)) as int
    }
}

impl<K, V> View for HashTable<K, V> {
    type V = Map<K, V>;

    /// The table as a map: a key is present when the bucket its hash
    /// dispatches it to holds it.
    open spec fn view(&self) -> Map<K, V> {
        Map::new(
            |k: K| link_map(self.bucket_at(self.bucket_of(k))).contains_key(((self.hf@)(k), k)),
            |k: K| link_map(self.bucket_at(self.bucket_of(k)))[((self.hf@)(k), k)],
        )
    }
}

impl<K: HashKey, V> HashTable<K, V> {
    /// Dispatch always lands inside the index: a masked hash is no
    /// bigger than the mask.
    pub proof fn lemma_bucket_in_range(self, k: K)
        requires
            self.index_mask < self.index@.len(),
        ensures
            0 <= self.bucket_of(k) < self.index@.len(),
    {
        let h = (self.hf@)(k);
        let m = self.index_mask as u64;
        assert(h & m <= m) by (bit_vector);
    }

    /// Assembles the invariant from its parts.
    proof fn lemma_wf_parts(t: Self)
        requires
            t.index@.len() == t.index_size,
            AVL_HASH_INIT_SIZE <= t.index_size,
            is_pow2(t.index_size as nat),
            t.index_mask == t.index_size - 1,
            forall|i: int| 0 <= i < t.index@.len() ==> link_wf(#[trigger] t.bucket_at(i)),
            forall|i: int, p: (u64, K)|
                0 <= i < t.index@.len() && #[trigger] link_map(t.bucket_at(i)).contains_key(p)
                    ==> p.0 == (t.hf@)(p.1) && (p.0 & (t.index_mask as u64)) == i,
            t@.dom().finite(),
            t.count == t@.dom().len(),
            t.count == buckets_sum(t.index@),
            forall|j: int|
                0 <= j < t.live@.len() ==> (#[trigger] t.live@[j]) < t.index@.len()
                    && t.bucket_at(t.live@[j] as int) is Some,
            forall|i: int|
                0 <= i < t.index@.len() && #[trigger] t.bucket_at(i) is Some ==> exists|j: int|
                    0 <= j < t.live@.len() && t.live@[j] == i,
            forall|j1: int, j2: int|
                0 <= j1 < j2 < t.live@.len() ==> t.live@[j1] != t.live@[j2],
        ensures
            t.wf(),
    {
    }

    /// The table's invariant.
    pub open spec fn wf(self) -> bool {
        &&& self.index@.len() == self.index_size
        &&& AVL_HASH_INIT_SIZE <= self.index_size
        &&& is_pow2(self.index_size as nat)
        &&& self.index_mask == self.index_size - 1
        &&& (forall|i: int| 0 <= i < self.index@.len() ==> link_wf(#[trigger] self.bucket_at(i)))
        &&& (forall|i: int, p: (u64, K)|
            0 <= i < self.index@.len() && #[trigger] link_map(self.bucket_at(i)).contains_key(p)
                ==> p.0 == (self.hf@)(p.1) && (p.0 & (self.index_mask as u64)) == i)
        &&& self@.dom().finite()
        &&& self.count == self@.dom().len()
        &&& self.count == buckets_sum(self.index@)
        &&& (forall|j: int|
            0 <= j < self.live@.len() ==> (#[trigger] self.live@[j]) < self.index@.len()
                && self.bucket_at(self.live@[j] as int) is Some)
        &&& (forall|i: int|
            0 <= i < self.index@.len() && #[trigger] self.bucket_at(i) is Some ==> exists|j: int|
                0 <= j < self.live@.len() && self.live@[j] == i)
        &&& (forall|j1: int, j2: int|
            0 <= j1 < j2 < self.live@.len() ==> self.live@[j1] != self.live@[j2])
    }

    /// A fresh index vector of `n` empty buckets.
    fn new_index_vec(n: usize) -> (v: Vec<HashIndex<K, V>>)
        ensures
            v@.len() == n,
            forall|i: int| 0 <= i < n ==> (#[trigger] v@[i].avl_root) is None,
            buckets_sum(v@) == 0,
    {
        let mut v: Vec<HashIndex<K, V>> = Vec::new();
        let mut i: usize = 0;
        proof {
            assert(buckets_sum(v@) == 0);
        }
        while i < n
            invariant
                i <= n,
                v@.len() == i,
                forall|j: int| 0 <= j < i ==> (#[trigger] v@[j].avl_root) is None,
                buckets_sum(v@) == 0,
            decreases n - i,
        {
            let ghost pre = v@;
            v.push(HashIndex { avl_root: None });
            proof {
                assert(v@.drop_last() =~= pre);
            }
            i = i + 1;
        }
        v
    }

    /// An empty table that will store entries under the hash function
    /// named by `hf`.
    pub fn new(Ghost(hf): Ghost<spec_fn(K) -> u64>) -> (t: Self)
        ensures
            t.wf(),
            t@ == Map::<K, V>::empty(),
            t.count == 0,
            t.index_size == AVL_HASH_INIT_SIZE,
            t.hf@ == hf,
    {
        let index = Self::new_index_vec(AVL_HASH_INIT_SIZE);
        let t = HashTable {
            count: 0,
            index_size: AVL_HASH_INIT_SIZE,
            index_mask: AVL_HASH_INIT_SIZE - 1,
            index,
            live: Vec::new(),
            hf: Ghost(hf),
        };
        proof {
            assert forall|i: int| 0 <= i < t.index@.len() implies link_wf(
                #[trigger] t.bucket_at(i),
            ) by {
                assert(t.bucket_at(i) is None);
            }
            assert forall|i: int, p: (u64, K)|
                0 <= i < t.index@.len() && #[trigger] link_map(t.bucket_at(i)).contains_key(
                    p,
                ) implies false by {
                assert(t.bucket_at(i) is None);
                assert(link_map(t.bucket_at(i)) =~= Map::<(u64, K), V>::empty());
            }
            assert forall|k: K| !(#[trigger] t@.contains_key(k)) by {
                t.lemma_bucket_in_range(k);
                assert(!link_map(t.bucket_at(t.bucket_of(k))).contains_key(((t.hf@)(k), k)));
            }
            assert(t@ =~= Map::<K, V>::empty());
            assert(t@.dom() =~= Set::<K>::empty());
            assert(is_pow2(AVL_HASH_INIT_SIZE as nat)) by {
                reveal_with_fuel(is_pow2, 5);
            }
            assert(t.wf());
        }
        t
    }

    /// The slot for a hash under the current mask.
    fn mask_index(&self, h: u64) -> (i: usize)
        requires
            self.wf(),
        ensures
            i as int == ((h & (self.index_mask as u64)) as int),
            i < self.index@.len(),
    {
        let m: u64 = self.index_mask as u64;
        proof {
            assert(h & m <= m) by (bit_vector);
        }
        (h & m) as usize
    }

    /// The number of live entries.
    pub fn size(&self) -> (n: usize)
        requires
            self.wf(),
        ensures
            n == self@.dom().len(),
    {
        self.count
    }

    /// The number of live entries.
    pub fn count(&self) -> (n: usize)
        requires
            self.wf(),
        ensures
            n == self@.dom().len(),
    {
        self.count
    }

    /// The number of buckets: what the map reports as its capacity.
    pub fn capacity(&self) -> (n: usize)
        ensures
            n == self.index_size,
    {
        self.index_size
    }

    /// The current size of the bucket index.
    pub fn index_size(&self) -> (n: usize)
        ensures
            n == self.index_size,
    {
        self.index_size
    }

    /// Looks a key up under its table hash.
    pub fn hash_find<'a>(&'a self, h: u64, key: &K) -> (r: Option<&'a V>)
        requires
            self.wf(),
            h == (self.hf@)(*key),
        ensures
            r == (if self@.contains_key(*key) {
                Some(&self@[*key])
            } else {
                None::<&'a V>
            }),
    {
        let idx = self.mask_index(h);
        let r = HashNode::link_find(&self.index[idx].avl_root, h, key);
        proof {
            if self@.contains_key(*key) {
                assert(idx as int == self.bucket_of(*key));
                assert(link_map(self.bucket_at(idx as int)).contains_key((h, *key)));
            } else {
                if link_map(self.bucket_at(idx as int)).contains_key((h, *key)) {
                    assert(self@.contains_key(*key));
                }
            }
        }
        r
    }

    /// Looks a key up under its table hash and hands out a mutable
    /// borrow of its value; only that value can change.
    pub fn hash_find_mut<'a>(&'a mut self, h: u64, key: &K) -> (r: Option<&'a mut V>)
        requires
            old(self).wf(),
            h == (old(self).hf@)(*key),
        ensures
            final(self).wf(),
            r is Some <==> old(self)@.contains_key(*key),
            r is Some ==> *r.unwrap() == old(self)@[*key] && final(self)@ =~= old(self)@.insert(
                *key,
                *final(r.unwrap()),
            ),
            r is None ==> *final(self) == *old(self),
            final(self).count == old(self).count,
            final(self).index_size == old(self).index_size,
            final(self).hf == old(self).hf,
    {
        let idx = self.mask_index(h);
        let ghost pre = *old(self);
        let contains = {
            let b: &Link<K, V> = &self.index[idx].avl_root;
            HashNode::link_find(b, h, key).is_some()
        };
        proof {
            assert(idx as int == pre.bucket_of(*key));
            assert(contains == pre@.contains_key(*key)) by {
                if pre@.contains_key(*key) {
                    assert(link_map(pre.bucket_at(idx as int)).contains_key((h, *key)));
                } else {
                    if link_map(pre.bucket_at(idx as int)).contains_key((h, *key)) {
                        assert(pre@.contains_key(*key));
                    }
                }
            }
        }
        if !contains {
            return None;
        }
        let r = HashNode::link_find_mut(&mut self.index[idx].avl_root, h, key);
        proof {
            let sf = after_borrow(*self);
            let vf = *final(r.unwrap());
            assert(sf.index@ =~= pre.index@.update(idx as int, sf.index@[idx as int]));
            assert(link_map(sf.bucket_at(idx as int)) =~= link_map(
                pre.bucket_at(idx as int),
            ).insert((h, *key), vf));
            assert(forall|i: int|
                0 <= i < sf.index@.len() && i != idx as int ==> sf.bucket_at(i) == pre.bucket_at(
                    i,
                ));
            assert forall|k: K|
                #![trigger sf@.contains_key(k)]
                sf@.contains_key(k) == pre@.insert(*key, vf).contains_key(k) && (sf@.contains_key(
                    k,
                ) ==> sf@[k] == pre@.insert(*key, vf)[k]) by {
                pre.lemma_bucket_in_range(k);
                if k == *key {
                    assert(link_map(sf.bucket_at(idx as int)).contains_key((h, *key)));
                } else {
                    assert(((sf.hf@)(k), k) != (h, *key)) by {
                        if ((sf.hf@)(k), k) == (h, *key) {
                            assert(k == *key);
                        }
                    }
                }
            }
            assert(sf@ =~= pre@.insert(*key, vf));
            assert(sf@.dom() =~= pre@.dom());
            lemma_buckets_sum_update(pre.index@, idx as int, sf.index@[idx as int]);
            assert forall|i: int| 0 <= i < sf.index@.len() implies link_wf(
                #[trigger] sf.bucket_at(i),
            ) by {}
            assert forall|i: int, p: (u64, K)|
                0 <= i < sf.index@.len() && #[trigger] link_map(sf.bucket_at(i)).contains_key(
                    p,
                ) implies p.0 == (sf.hf@)(p.1) && (p.0 & (sf.index_mask as u64)) == i by {
                if i == idx as int {
                    if p != (h, *key) {
                        assert(link_map(pre.bucket_at(i)).contains_key(p));
                    }
                } else {
                    assert(link_map(pre.bucket_at(i)).contains_key(p));
                }
            }
            assert forall|j: int|
                0 <= j < sf.live@.len() implies (#[trigger] sf.live@[j]) < sf.index@.len()
                && sf.bucket_at(sf.live@[j] as int) is Some by {
                assert(pre.bucket_at(pre.live@[j] as int) is Some);
                if sf.live@[j] as int == idx as int {
                    assert(link_map(sf.bucket_at(idx as int)).contains_key((h, *key)));
                    if sf.bucket_at(idx as int) is None {
                        assert(link_map(sf.bucket_at(idx as int)) =~= Map::<(u64, K), V>::empty());
                    }
                }
            }
            assert forall|i: int|
                0 <= i < sf.index@.len() && #[trigger] sf.bucket_at(i) is Some implies exists|
                j: int,
            | 0 <= j < sf.live@.len() && sf.live@[j] == i by {
                if i == idx as int {
                    assert(pre.bucket_at(i) is Some) by {
                        assert(link_map(pre.bucket_at(idx as int)).contains_key((h, *key)));
                        if pre.bucket_at(idx as int) is None {
                            assert(link_map(pre.bucket_at(idx as int)) =~= Map::<
                                (u64, K),
                                V,
                            >::empty());
                        }
                    }
                } else {
                    assert(pre.bucket_at(i) is Some);
                }
                let j = choose|j: int| 0 <= j < pre.live@.len() && pre.live@[j] == i;
                assert(sf.live@[j] == i);
            }
            assert(sf.wf());
        }
        r
    }

    /// Inserts an entry under its table hash. On a collision the new
    /// key and value replace the old ones and the old pair comes back;
    /// otherwise the entry is added, and a bucket that just came alive
    /// is appended to the live list.
    pub fn hash_add(&mut self, h: u64, key: K, value: V) -> (r: Option<(K, V)>)
        requires
            old(self).wf(),
            h == (old(self).hf@)(key),
            old(self).count < usize::MAX,
        ensures
            final(self).wf(),
            final(self)@ == old(self)@.insert(key, value),
            r == (if old(self)@.contains_key(key) {
                Some((key, old(self)@[key]))
            } else {
                None::<(K, V)>
            }),
            old(self)@.contains_key(key) ==> final(self).count == old(self).count,
            !old(self)@.contains_key(key) ==> final(self).count == old(self).count + 1,
            final(self).index_size == old(self).index_size,
            final(self).hf == old(self).hf,
            ({
                let bi = (h & (old(self).index_mask as u64)) as int;
                &&& (old(self).bucket_at(bi) is Some ==> final(self).live@ == old(self).live@)
                &&& (old(self).bucket_at(bi) is None ==> final(self).live@ == old(
                    self,
                ).live@.push((h & (old(self).index_mask as u64)) as usize))
            }),
    {
        let idx = self.mask_index(h);
        proof {
            assert(idx as int == self.bucket_of(key));
            lemma_buckets_sum_bound(self.index@, idx as int);
            lemma_link_counts(self.bucket_at(idx as int));
        }
        let mut tmp = HashIndex { avl_root: None };
        mem::swap(&mut tmp, &mut self.index[idx]);
        let ghost old_bucket = tmp.avl_root;
        let was_empty = tmp.avl_root.is_none();
        let r = HashNode::link_insert(&mut tmp.avl_root, h, key, value);
        mem::swap(&mut tmp, &mut self.index[idx]);
        let ghost mid = *self;
        proof {
            assert(mid.index@ =~= old(self).index@.update(idx as int, mid.index@[idx as int]));
            assert(mid.bucket_at(idx as int) == Some(mid.index@[idx as int].avl_root.unwrap()));
        }
        if was_empty {
            self.live.push(idx);
        }
        if r.is_none() {
            self.count = self.count + 1;
        }
        proof {
            let s0 = *old(self);
            let s1 = *self;
            let gb = s1.bucket_at(idx as int);
            assert(link_map(gb) == link_map(old_bucket).insert((h, key), value));
            // The old pair result matches the model.
            assert(s0@.contains_key(key) == link_map(old_bucket).contains_key((h, key)));
            // Buckets other than idx are untouched.
            assert(forall|i: int|
                0 <= i < s1.index@.len() && i != idx as int ==> s1.bucket_at(i) == s0.bucket_at(i));
            assert forall|i: int| 0 <= i < s1.index@.len() implies link_wf(
                #[trigger] s1.bucket_at(i),
            ) by {}
            assert forall|i: int, p: (u64, K)|
                0 <= i < s1.index@.len() && #[trigger] link_map(s1.bucket_at(i)).contains_key(
                    p,
                ) implies p.0 == (s1.hf@)(p.1) && (p.0 & (s1.index_mask as u64)) == i by {
                if i == idx as int {
                    if p != (h, key) {
                        assert(link_map(old_bucket).contains_key(p));
                        assert(link_map(s0.bucket_at(i)).contains_key(p));
                    }
                } else {
                    assert(link_map(s0.bucket_at(i)).contains_key(p));
                }
            }
            // The model gains exactly the new pair.
            assert forall|k: K|
                #![trigger s1@.contains_key(k)]
                s1@.contains_key(k) == s0@.insert(key, value).contains_key(k) && (s1@.contains_key(
                    k,
                ) ==> s1@[k] == s0@.insert(key, value)[k]) by {
                s0.lemma_bucket_in_range(k);
                if k != key {
                    assert(((s0.hf@)(k), k) != (h, key)) by {
                        if ((s0.hf@)(k), k) == (h, key) {
                            assert(k == key);
                        }
                    }
                }
            }
            assert(s1@ =~= s0@.insert(key, value));
            // Bucket sums.
            lemma_buckets_sum_update(
                s0.index@,
                idx as int,
                s1.index@[idx as int],
            );
            // Live list.
            if s0@.contains_key(key) {
                assert(link_map(old_bucket).contains_key(((s0.hf@)(key), key)));
                assert(!(old_bucket is None)) by {
                    if old_bucket is None {
                        assert(link_map(old_bucket) =~= Map::<(u64, K), V>::empty());
                    }
                }
            }
            if was_empty {
                assert(forall|j: int|
                    0 <= j < s0.live@.len() ==> #[trigger] s0.live@[j] != idx);
                assert forall|i: int|
                    0 <= i < s1.index@.len() && #[trigger] s1.bucket_at(i) is Some implies exists|
                    j: int,
                | 0 <= j < s1.live@.len() && s1.live@[j] == i by {
                    if i == idx as int {
                        assert(s1.live@[s1.live@.len() - 1] == i);
                    } else {
                        assert(s0.bucket_at(i) is Some);
                        let j = choose|j: int|
                            0 <= j < s0.live@.len() && s0.live@[j] == i;
                        assert(s1.live@[j] == i);
                    }
                }
            } else {
                assert(!(old_bucket is None));
                assert(s1.bucket_at(idx as int) is Some);
            }
            assert(s1.wf());
        }
        r
    }

    /// Removes the entry for a key stored under its table hash; a
    /// bucket left empty leaves the live list.
    pub fn hash_erase(&mut self, h: u64, key: &K) -> (r: Option<(K, V)>)
        requires
            old(self).wf(),
            h == (old(self).hf@)(*key),
        ensures
            final(self).wf(),
            final(self)@ == old(self)@.remove(*key),
            r == (if old(self)@.contains_key(*key) {
                Some((*key, old(self)@[*key]))
            } else {
                None::<(K, V)>
            }),
            old(self)@.contains_key(*key) ==> final(self).count + 1 == old(self).count,
            !old(self)@.contains_key(*key) ==> final(self).count == old(self).count,
            final(self).index_size == old(self).index_size,
            final(self).hf == old(self).hf,
    {
        let idx = self.mask_index(h);
        proof {
            assert(idx as int == self.bucket_of(*key));
        }
        let mut tmp = HashIndex { avl_root: None };
        mem::swap(&mut tmp, &mut self.index[idx]);
        let ghost old_bucket = tmp.avl_root;
        let r = HashNode::link_remove(&mut tmp.avl_root, h, key);
        let now_empty = tmp.avl_root.is_none();
        mem::swap(&mut tmp, &mut self.index[idx]);
        proof {
            if r is Some {
                assert(link_map(old_bucket).contains_key((h, *key)));
                assert(old(self)@.contains_key(*key));
                assert(old(self)@.dom().remove(*key).len() + 1 == old(self)@.dom().len());
            }
        }
        if r.is_some() {
            self.count = self.count - 1;
        }
        if now_empty {
            self.live_remove(idx);
        }
        proof {
            let s0 = *old(self);
            let s1 = *self;
            assert(s1.index@ =~= s0.index@.update(idx as int, s1.index@[idx as int]));
            let gb = s1.bucket_at(idx as int);
            assert(link_map(gb) == link_map(old_bucket).remove((h, *key)));
            assert(s0@.contains_key(*key) == link_map(old_bucket).contains_key((h, *key)));
            assert(forall|i: int|
                0 <= i < s1.index@.len() && i != idx as int ==> s1.bucket_at(i) == s0.bucket_at(i));
            assert forall|i: int| 0 <= i < s1.index@.len() implies link_wf(
                #[trigger] s1.bucket_at(i),
            ) by {}
            assert forall|i: int, p: (u64, K)|
                0 <= i < s1.index@.len() && #[trigger] link_map(s1.bucket_at(i)).contains_key(
                    p,
                ) implies p.0 == (s1.hf@)(p.1) && (p.0 & (s1.index_mask as u64)) == i by {
                assert(link_map(s0.bucket_at(i)).contains_key(p));
            }
            assert forall|k: K|
                #![trigger s1@.contains_key(k)]
                s1@.contains_key(k) == s0@.remove(*key).contains_key(k) && (s1@.contains_key(k)
                    ==> s1@[k] == s0@.remove(*key)[k]) by {
                s0.lemma_bucket_in_range(k);
                if k != *key {
                    assert(((s0.hf@)(k), k) != (h, *key)) by {
                        if ((s0.hf@)(k), k) == (h, *key) {
                            assert(k == *key);
                        }
                    }
                }
            }
            assert(s1@ =~= s0@.remove(*key));
            lemma_buckets_sum_update(
                s0.index@,
                idx as int,
                s1.index@[idx as int],
            );
            // The live list still holds exactly the populated buckets.
            if now_empty {
                assert(s1.live@.to_set() == s0.live@.to_set().remove(idx));
                assert forall|j: int|
                    0 <= j < s1.live@.len() implies (#[trigger] s1.live@[j]) < s1.index@.len()
                    && s1.bucket_at(s1.live@[j] as int) is Some by {
                    let x = s1.live@[j];
                    assert(s1.live@.to_set().contains(x));
                    assert(x != idx);
                    assert(s0.live@.to_set().contains(x));
                    let j2 = choose|j2: int| 0 <= j2 < s0.live@.len() && s0.live@[j2] == x;
                    assert(s0.bucket_at(x as int) is Some);
                }
                assert forall|i: int|
                    0 <= i < s1.index@.len() && #[trigger] s1.bucket_at(i) is Some implies exists|
                    j: int,
                | 0 <= j < s1.live@.len() && s1.live@[j] == i by {
                    assert(i != idx as int);
                    assert(s0.bucket_at(i) is Some);
                    let j2 = choose|j2: int| 0 <= j2 < s0.live@.len() && s0.live@[j2] == i;
                    assert(s0.live@.to_set().contains(s0.live@[j2]));
                    assert(s1.live@.to_set().contains(i as usize));
                    let j3 = choose|j3: int| 0 <= j3 < s1.live@.len() && s1.live@[j3] == i as usize;
                    assert(s1.live@[j3] == i);
                }
            } else {
                assert(s1.live@ == s0.live@);
                assert forall|j: int|
                    0 <= j < s1.live@.len() implies (#[trigger] s1.live@[j]) < s1.index@.len()
                    && s1.bucket_at(s1.live@[j] as int) is Some by {
                    assert(s0.bucket_at(s0.live@[j] as int) is Some);
                }
                assert forall|i: int|
                    0 <= i < s1.index@.len() && #[trigger] s1.bucket_at(i) is Some implies exists|
                    j: int,
                | 0 <= j < s1.live@.len() && s1.live@[j] == i by {
                    assert(s0.bucket_at(i) is Some) by {
                        if i == idx as int {
                            if s0.bucket_at(i) is None {
                                assert(link_map(s0.bucket_at(i)) =~= Map::<(u64, K), V>::empty());
                                assert(link_map(s1.bucket_at(i)) =~= Map::<(u64, K), V>::empty());
                                assert(s1.bucket_at(i) matches Some(n) ==> link_map(
                                    s1.bucket_at(i),
                                ).contains_key((n.hash_val, n.key)));
                            }
                        }
                    }
                }
            }
            assert(s1.wf());
        }
        r
    }

    /// The entries of the first `j` live buckets, in walk order: within
    /// a bucket the `(hash, key)` order, across buckets the order in
    /// which they came alive.
    pub open spec fn live_prefix_seq(self, j: int) -> Seq<((u64, K), V)>
        decreases j,
    {
        if j <= 0 {
            Seq::empty()
        } else {
            self.live_prefix_seq(j - 1) + link_seq(self.bucket_at(self.live@[j - 1] as int))
        }
    }

    /// The table's entries in walk order.
    pub open spec fn iter_seq(self) -> Seq<((u64, K), V)> {
        self.live_prefix_seq(self.live@.len() as int)
    }

    /// The walk over the first `j` live buckets lists entries of the
    /// model, each key at most once, and misses none of those buckets'
    /// entries.
    proof fn lemma_live_prefix(self, j: int)
        requires
            self.wf(),
            0 <= j <= self.live@.len(),
        ensures
            forall|i: int|
                0 <= i < self.live_prefix_seq(j).len() ==> {
                    let e = #[trigger] self.live_prefix_seq(j)[i];
                    self@.contains_key(e.0.1) && self@[e.0.1] == e.1 && e.0.0 == (
                    self.hf@)(e.0.1)
                },
            forall|i1: int, i2: int|
                0 <= i1 < i2 < self.live_prefix_seq(j).len() ==> self.live_prefix_seq(j)[i1].0.1
                    != self.live_prefix_seq(j)[i2].0.1,
            forall|j2: int, p: (u64, K)|
                0 <= j2 < j && #[trigger] link_map(
                    self.bucket_at(self.live@[j2] as int),
                ).contains_key(p) ==> exists|i: int|
                    0 <= i < self.live_prefix_seq(j).len() && #[trigger] self.live_prefix_seq(
                        j,
                    )[i].0 == p,
            forall|i: int|
                0 <= i < self.live_prefix_seq(j).len() ==> exists|j2: int|
                    0 <= j2 < j && link_map(self.bucket_at(self.live@[j2] as int)).contains_key(
                        (#[trigger] self.live_prefix_seq(j)[i]).0,
                    ),
        decreases j,
    {
        if j > 0 {
            self.lemma_live_prefix(j - 1);
            let prev = self.live_prefix_seq(j - 1);
            let b = self.bucket_at(self.live@[j - 1] as int);
            let bs = link_seq(b);
            let s = self.live_prefix_seq(j);
            lemma_link_seq(b);
            assert(s == prev + bs);
            assert forall|i: int| 0 <= i < s.len() implies {
                let e = #[trigger] s[i];
                self@.contains_key(e.0.1) && self@[e.0.1] == e.1 && e.0.0 == (
                self.hf@)(e.0.1)
            } by {
                if i < prev.len() {
                    assert(s[i] == prev[i]);
                } else {
                    assert(s[i] == bs[i - prev.len()]);
                    assert(link_map(b).contains_key(bs[i - prev.len()].0));
                }
            }
            assert forall|i1: int, i2: int| 0 <= i1 < i2 < s.len() implies s[i1].0.1
                != s[i2].0.1 by {
                if i2 < prev.len() {
                    assert(s[i1] == prev[i1] && s[i2] == prev[i2]);
                } else if i1 >= prev.len() {
                    // Both inside the new bucket: its walk is strictly
                    // ascending, and equal keys would force equal pairs.
                    assert(s[i1] == bs[i1 - prev.len()] && s[i2] == bs[i2 - prev.len()]);
                    assert(link_map(b).contains_key(bs[i1 - prev.len()].0));
                    assert(link_map(b).contains_key(bs[i2 - prev.len()].0));
                    if s[i1].0.1 == s[i2].0.1 {
                        assert(s[i1].0.0 == (self.hf@)(s[i1].0.1));
                        assert(s[i2].0.0 == (self.hf@)(s[i2].0.1));
                        assert(s[i1].0 == s[i2].0);
                        assert(crate::avl_node::lex_lt(
                            bs[i1 - prev.len()].0.0,
                            bs[i1 - prev.len()].0.1.model(),
                            bs[i2 - prev.len()].0.0,
                            bs[i2 - prev.len()].0.1.model(),
                        ));
                    }
                } else {
                    // One from an earlier bucket, one from this one: a
                    // key sits in exactly one bucket.
                    assert(s[i1] == prev[i1] && s[i2] == bs[i2 - prev.len()]);
                    let j2 = choose|j2: int|
                        0 <= j2 < j - 1 && link_map(
                            self.bucket_at(self.live@[j2] as int),
                        ).contains_key(prev[i1].0);
                    assert(link_map(b).contains_key(bs[i2 - prev.len()].0));
                    if s[i1].0.1 == s[i2].0.1 {
                        assert(s[i1].0 == s[i2].0);
                        assert((s[i1].0.0 & (self.index_mask as u64)) == self.live@[j2] as int);
                        assert((s[i2].0.0 & (self.index_mask as u64)) == self.live@[j - 1] as int);
                        assert(self.live@[j2] != self.live@[j - 1]);
                    }
                }
            }
            assert forall|j2: int, p: (u64, K)|
                0 <= j2 < j && #[trigger] link_map(
                    self.bucket_at(self.live@[j2] as int),
                ).contains_key(p) implies exists|i: int|
                0 <= i < s.len() && #[trigger] s[i].0 == p by {
                if j2 < j - 1 {
                    let i = choose|i: int| 0 <= i < prev.len() && #[trigger] prev[i].0 == p;
                    assert(s[i].0 == p);
                } else {
                    let i = choose|i: int| 0 <= i < bs.len() && bs[i].0 == p;
                    assert(s[prev.len() + i].0 == p);
                }
            }
            assert forall|i: int| 0 <= i < s.len() implies exists|j2: int|
                0 <= j2 < j && link_map(self.bucket_at(self.live@[j2] as int)).contains_key(
                    (#[trigger] s[i]).0,
                ) by {
                if i < prev.len() {
                    assert(s[i] == prev[i]);
                    let j2 = choose|j2: int|
                        0 <= j2 < j - 1 && link_map(
                            self.bucket_at(self.live@[j2] as int),
                        ).contains_key(prev[i].0);
                    assert(link_map(self.bucket_at(self.live@[j2] as int)).contains_key(s[i].0));
                } else {
                    assert(s[i] == bs[i - prev.len()]);
                    assert(link_map(self.bucket_at(self.live@[j - 1] as int)).contains_key(
                        s[i].0,
                    ));
                }
            }
        }
    }

    /// The walk enumerates the model exactly: one element per entry,
    /// keys distinct, hashes as stored, every entry reached.
    pub proof fn lemma_iter_seq(self)
        requires
            self.wf(),
        ensures
            self.iter_seq().len() == self@.dom().len(),
            forall|i: int|
                0 <= i < self.iter_seq().len() ==> {
                    let e = #[trigger] self.iter_seq()[i];
                    self@.contains_key(e.0.1) && self@[e.0.1] == e.1 && e.0.0 == (self.hf@)(e.0.1)
                },
            forall|i1: int, i2: int|
                0 <= i1 < i2 < self.iter_seq().len() ==> self.iter_seq()[i1].0.1
                    != self.iter_seq()[i2].0.1,
            forall|k: K| #[trigger]
                self@.contains_key(k) ==> exists|i: int|
                    0 <= i < self.iter_seq().len() && (#[trigger] self.iter_seq()[i]).0 == ((
                    self.hf@)(k), k),
    {
        let n = self.live@.len() as int;
        self.lemma_live_prefix(n);
        let s = self.iter_seq();
        assert forall|k: K| #[trigger] self@.contains_key(k) implies exists|i: int|
            0 <= i < s.len() && (#[trigger] s[i]).0 == ((self.hf@)(k), k) by {
            self.lemma_bucket_in_range(k);
            let bi = self.bucket_of(k);
            let p = ((self.hf@)(k), k);
            assert(link_map(self.bucket_at(bi)).contains_key(p));
            assert(self.bucket_at(bi) is Some) by {
                if self.bucket_at(bi) is None {
                    assert(link_map(self.bucket_at(bi)) =~= Map::<(u64, K), V>::empty());
                }
            }
            let j = choose|j: int| 0 <= j < self.live@.len() && self.live@[j] == bi;
            assert(link_map(self.bucket_at(self.live@[j] as int)).contains_key(p));
        }
        // Length: the keys of the walk form, without repetition, the
        // whole domain of the model.
        let keys = Seq::new(s.len(), |i: int| s[i].0.1);
        assert(keys.no_duplicates());
        keys.unique_seq_to_set();
        assert(keys.to_set() =~= self@.dom()) by {
            assert forall|k: K| keys.to_set().contains(k) implies self@.dom().contains(k) by {
                let i = choose|i: int| 0 <= i < keys.len() && keys[i] == k;
                assert(s[i].0.1 == k);
            }
            assert forall|k: K| self@.dom().contains(k) implies keys.to_set().contains(k) by {
                let i = choose|i: int| 0 <= i < s.len() && s[i].0 == ((self.hf@)(k), k);
                assert(keys[i] == k);
            }
        }
    }

    /// Collects borrows of every entry, in walk order.
    pub fn collect_entries<'a>(&'a self) -> (v: Vec<(u64, &'a K, &'a V)>)
        requires
            self.wf(),
        ensures
            v@.len() == self.iter_seq().len(),
            forall|i: int|
                #![trigger v@[i]]
                0 <= i < v@.len() ==> v@[i] == (
                    self.iter_seq()[i].0.0,
                    &self.iter_seq()[i].0.1,
                    &self.iter_seq()[i].1,
                ),
    {
        let mut out: Vec<(u64, &'a K, &'a V)> = Vec::new();
        let n = self.live.len();
        let mut j: usize = 0;
        while j < n
            invariant
                self.wf(),
                n == self.live@.len(),
                j <= n,
                out@.len() == self.live_prefix_seq(j as int).len(),
                forall|i: int|
                    #![trigger out@[i]]
                    0 <= i < out@.len() ==> out@[i] == (
                        self.live_prefix_seq(j as int)[i].0.0,
                        &self.live_prefix_seq(j as int)[i].0.1,
                        &self.live_prefix_seq(j as int)[i].1,
                    ),
            decreases n - j,
        {
            let idx = self.live[j];
            HashNode::link_collect(&self.index[idx].avl_root, &mut out);
            j = j + 1;
            proof {
                assert(self.live_prefix_seq(j as int) == self.live_prefix_seq(j as int - 1)
                    + link_seq(self.bucket_at(self.live@[j as int - 1] as int)));
            }
        }
        out
    }

    /// Detaches the first live bucket and returns its tree; the walk of
    /// the remaining table covers every entry exactly once more.
    #[verifier::rlimit(100)]
    #[verifier::spinoff_prover]
    pub fn pop_first_index(&mut self) -> (r: Link<K, V>)
        requires
            old(self).wf(),
        ensures
            final(self).wf(),
            old(self).live@.len() == 0 ==> r is None && *final(self) == *old(self),
            old(self).live@.len() > 0 ==> ({
                &&& r == old(self).bucket_at(old(self).live@[0] as int)
                &&& link_wf(r)
                &&& final(self).live@.len() + 1 == old(self).live@.len()
                &&& (forall|p: (u64, K)| #[trigger]
                    link_map(r).contains_key(p) ==> old(self)@.contains_key(p.1) && old(self)@[p.1]
                        == link_map(r)[p] && p.0 == (old(self).hf@)(p.1))
                &&& (forall|k: K|
                    #![trigger final(self)@.contains_key(k)]
                    final(self)@.contains_key(k) == (old(self)@.contains_key(k) && !link_map(
                        r,
                    ).contains_key(((old(self).hf@)(k), k))))
                &&& (forall|k: K| #[trigger]
                    final(self)@.contains_key(k) ==> final(self)@[k] == old(self)@[k])
                &&& final(self).count + link_size(r) == old(self).count
            }),
            final(self).index_size == old(self).index_size,
            final(self).hf == old(self).hf,
    {
        if self.live.len() == 0 {
            return None;
        }
        let idx = self.live[0];
        self.live.remove(0);
        proof {
            lemma_buckets_sum_bound(self.index@, idx as int);
            lemma_link_counts(self.bucket_at(idx as int));
        }
        let mut tmp = HashIndex { avl_root: None };
        mem::swap(&mut tmp, &mut self.index[idx]);
        let r = tmp.avl_root;
        let sz = HashNode::link_node_num(&r);
        self.count = self.count - sz;
        proof {
            let s0 = *old(self);
            let s1 = *self;
            assert(s1.index@ =~= s0.index@.update(idx as int, s1.index@[idx as int]));
            assert(s1.bucket_at(idx as int) is None);
            assert(forall|i: int|
                0 <= i < s1.index@.len() && i != idx as int ==> s1.bucket_at(i) == s0.bucket_at(i));
            assert forall|i: int, p: (u64, K)|
                0 <= i < s1.index@.len() && #[trigger] link_map(s1.bucket_at(i)).contains_key(
                    p,
                ) implies p.0 == (s1.hf@)(p.1) && (p.0 & (s1.index_mask as u64)) == i by {
                assert(i != idx as int);
                assert(link_map(s0.bucket_at(i)).contains_key(p));
            }
            // A key of the model stays exactly when its bucket was not
            // the detached one.
            assert forall|k: K|
                #![trigger s1@.contains_key(k)]
                s1@.contains_key(k) == (s0@.contains_key(k) && !link_map(r).contains_key(
                    ((s0.hf@)(k), k),
                )) && (s1@.contains_key(k) ==> s1@[k] == s0@[k]) by {
                s0.lemma_bucket_in_range(k);
                if s0.bucket_of(k) == idx as int {
                    assert(s0.bucket_at(idx as int) == r);
                    assert(!s1@.contains_key(k));
                } else {
                    if link_map(r).contains_key(((s0.hf@)(k), k)) {
                        assert((((s0.hf@)(k)) & (s0.index_mask as u64)) == idx as int);
                    }
                }
            }
            // The detached keys number exactly the detached tree's size.
            lemma_link_seq(r);
            let bs = link_seq(r);
            let keys = Seq::new(bs.len(), |i: int| bs[i].0.1);
            assert(keys.no_duplicates()) by {
                assert forall|i1: int, i2: int|
                    0 <= i1 < i2 < keys.len() implies keys[i1] != keys[i2] by {
                    assert(link_map(r).contains_key(bs[i1].0));
                    assert(link_map(r).contains_key(bs[i2].0));
                    if keys[i1] == keys[i2] {
                        assert(bs[i1].0.0 == (s0.hf@)(bs[i1].0.1));
                        assert(bs[i2].0.0 == (s0.hf@)(bs[i2].0.1));
                        assert(bs[i1].0 == bs[i2].0);
                        assert(crate::avl_node::lex_lt(
                            bs[i1].0.0,
                            bs[i1].0.1.model(),
                            bs[i2].0.0,
                            bs[i2].0.1.model(),
                        ));
                    }
                }
            }
            keys.unique_seq_to_set();
            let removed = keys.to_set();
            assert forall|k: K| #[trigger] removed.contains(k) implies s0@.contains_key(k)
                && link_map(r).contains_key(((s0.hf@)(k), k)) by {
                let i = choose|i: int| 0 <= i < keys.len() && keys[i] == k;
                assert(link_map(r).contains_key(bs[i].0));
                assert(bs[i].0 == ((s0.hf@)(k), k));
            }
            assert forall|k: K|
                s0@.contains_key(k) && link_map(r).contains_key(
                    ((s0.hf@)(k), k),
                ) implies removed.contains(k) by {
                let p = ((s0.hf@)(k), k);
                let i = choose|i: int| 0 <= i < bs.len() && bs[i].0 == p;
                assert(keys[i] == k);
            }
            assert(s1@.dom() =~= s0@.dom().difference(removed));
            assert(removed.subset_of(s0@.dom()));
            assert(s0@.dom() =~= s0@.dom().difference(removed) + removed);
            vstd::set_lib::lemma_len_subset(s0@.dom().difference(removed), s0@.dom());
            assert(s1@.dom().finite());
            vstd::set_lib::lemma_set_disjoint_lens(
                s0@.dom().difference(removed),
                removed,
            );
            assert(removed.len() == link_size(r));
            assert(s0@.dom().len() == s1@.dom().len() + removed.len());
            assert(s1@.dom().len() == s0@.dom().len() - link_size(r));
            assert(s1.count == s1@.dom().len());
            lemma_buckets_sum_update(s0.index@, idx as int, s1.index@[idx as int]);
            // The live list: drop the head, everything else shifts.
            let ghost pre = s0.live@;
            assert(s1.live@ =~= pre.subrange(1, pre.len() as int));
            assert forall|j: int|
                0 <= j < s1.live@.len() implies (#[trigger] s1.live@[j]) < s1.index@.len()
                && s1.bucket_at(s1.live@[j] as int) is Some by {
                assert(s1.live@[j] == pre[j + 1]);
                assert(pre[j + 1] != pre[0]);
            }
            assert forall|i: int|
                0 <= i < s1.index@.len() && #[trigger] s1.bucket_at(i) is Some implies exists|
                j: int,
            | 0 <= j < s1.live@.len() && s1.live@[j] == i by {
                assert(i != idx as int);
                assert(s0.bucket_at(i) is Some);
                let j = choose|j: int| 0 <= j < pre.len() && pre[j] == i;
                assert(j != 0);
                assert(s1.live@[j - 1] == i);
            }
            Self::lemma_wf_parts(s1);
        }
        r
    }

    /// Empties the table, returning every entry: each key once, with
    /// its value and its stored hash.
    pub fn take_all_entries(&mut self) -> (v: Vec<(u64, K, V)>)
        requires
            old(self).wf(),
        ensures
            final(self).wf(),
            final(self)@ == Map::<K, V>::empty(),
            final(self).count == 0,
            final(self).live@.len() == 0,
            final(self).index_size == old(self).index_size,
            final(self).hf == old(self).hf,
            v@.len() == old(self)@.dom().len(),
            forall|i1: int, i2: int| 0 <= i1 < i2 < v@.len() ==> v@[i1].1 != v@[i2].1,
            forall|i: int|
                0 <= i < v@.len() ==> old(self)@.contains_key(#[trigger] v@[i].1) && old(self)@[v@[
                    i
                ].1] == v@[i].2 && v@[i].0 == (old(self).hf@)(v@[i].1),
            forall|k: K| #[trigger]
                old(self)@.contains_key(k) ==> exists|i: int| 0 <= i < v@.len() && v@[i].1 == k,
    {
        let mut v: Vec<(u64, K, V)> = Vec::new();
        loop
            invariant
                self.wf(),
                self.index_size == old(self).index_size,
                self.hf == old(self).hf,
                forall|i1: int, i2: int| 0 <= i1 < i2 < v@.len() ==> v@[i1].1 != v@[i2].1,
                forall|i: int|
                    0 <= i < v@.len() ==> old(self)@.contains_key(#[trigger] v@[i].1) && old(
                        self,
                    )@[v@[i].1] == v@[i].2 && v@[i].0 == (old(self).hf@)(v@[i].1),
                forall|k: K|
                    #![trigger old(self)@.contains_key(k)]
                    old(self)@.contains_key(k) == (self@.contains_key(k) || exists|i: int|
                        0 <= i < v@.len() && v@[i].1 == k),
                forall|k: K| #[trigger]
                    self@.contains_key(k) ==> old(self)@.contains_key(k) && self@[k] == old(
                        self,
                    )@[k] && !(exists|i: int| 0 <= i < v@.len() && v@[i].1 == k),
                v@.len() + self@.dom().len() == old(self)@.dom().len(),
            ensures
                self.live@.len() == 0,
            decreases self.live@.len(),
        {
            let ghost pre_v = v@;
            let ghost pre = *self;
            if self.live.len() == 0 {
                break ;
            }
            let r = self.pop_first_index();
            proof {
                lemma_link_seq(r);
                lemma_link_counts(r);
            }
            HashNode::link_into_entries(r, &mut v);
            proof {
                let bs = link_seq(r);
                assert forall|i1: int, i2: int|
                    0 <= i1 < i2 < v@.len() implies v@[i1].1 != v@[i2].1 by {
                    if i2 >= pre_v.len() {
                        assert(v@[i2] == (
                            bs[i2 - pre_v.len()].0.0,
                            bs[i2 - pre_v.len()].0.1,
                            bs[i2 - pre_v.len()].1,
                        ));
                        assert(link_map(r).contains_key(bs[i2 - pre_v.len()].0));
                        if i1 >= pre_v.len() {
                            assert(v@[i1] == (
                                bs[i1 - pre_v.len()].0.0,
                                bs[i1 - pre_v.len()].0.1,
                                bs[i1 - pre_v.len()].1,
                            ));
                            assert(link_map(r).contains_key(bs[i1 - pre_v.len()].0));
                            if v@[i1].1 == v@[i2].1 {
                                assert(bs[i1 - pre_v.len()].0 == bs[i2 - pre_v.len()].0);
                                assert(crate::avl_node::lex_lt(
                                    bs[i1 - pre_v.len()].0.0,
                                    bs[i1 - pre_v.len()].0.1.model(),
                                    bs[i2 - pre_v.len()].0.0,
                                    bs[i2 - pre_v.len()].0.1.model(),
                                ));
                            }
                        } else {
                            assert(v@[i1] == pre_v[i1]);
                            if v@[i1].1 == v@[i2].1 {
                                assert(pre@.contains_key(v@[i2].1));
                            }
                        }
                    }
                }
                assert forall|i: int|
                    0 <= i < v@.len() implies old(self)@.contains_key(#[trigger] v@[i].1) && old(
                    self,
                )@[v@[i].1] == v@[i].2 && v@[i].0 == (old(self).hf@)(v@[i].1) by {
                    if i >= pre_v.len() {
                        assert(v@[i] == (
                            bs[i - pre_v.len()].0.0,
                            bs[i - pre_v.len()].0.1,
                            bs[i - pre_v.len()].1,
                        ));
                        assert(link_map(r).contains_key(bs[i - pre_v.len()].0));
                        assert(pre@.contains_key(v@[i].1));
                    }
                }
                assert forall|k: K|
                    old(self)@.contains_key(k) implies (self@.contains_key(k) || exists|i: int|
                    0 <= i < v@.len() && v@[i].1 == k) by {
                    if pre@.contains_key(k) {
                        if link_map(r).contains_key(((pre.hf@)(k), k)) {
                            let j = choose|j: int| 0 <= j < bs.len() && bs[j].0 == ((pre.hf@)(k), k);
                            assert(v@[pre_v.len() + j].1 == k);
                        }
                    } else {
                        let i = choose|i: int| 0 <= i < pre_v.len() && pre_v[i].1 == k;
                        assert(v@[i].1 == k);
                    }
                }
                assert forall|k: K| #[trigger] self@.contains_key(k) implies old(
                    self,
                )@.contains_key(k) && self@[k] == old(self)@[k] && !(exists|i: int|
                    0 <= i < v@.len() && v@[i].1 == k) by {
                    assert(pre@.contains_key(k));
                    if exists|i: int| 0 <= i < v@.len() && v@[i].1 == k {
                        let i = choose|i: int| 0 <= i < v@.len() && v@[i].1 == k;
                        if i < pre_v.len() {
                            assert(pre@.contains_key(k) && !(exists|i2: int|
                                0 <= i2 < pre_v.len() && pre_v[i2].1 == k));
                            assert(pre_v[i].1 == k);
                        } else {
                            assert(link_map(r).contains_key(bs[i - pre_v.len()].0));
                            assert(link_map(r).contains_key(((pre.hf@)(k), k)));
                        }
                    }
                }
            }
        }
        proof {
            assert forall|k: K| !(#[trigger] self@.contains_key(k)) by {
                if self@.contains_key(k) {
                    self.lemma_bucket_in_range(k);
                    assert(link_map(self.bucket_at(self.bucket_of(k))).contains_key(
                        ((self.hf@)(k), k),
                    ));
                    assert(self.bucket_at(self.bucket_of(k)) is Some) by {
                        if self.bucket_at(self.bucket_of(k)) is None {
                            assert(link_map(self.bucket_at(self.bucket_of(k))) =~= Map::<
                                (u64, K),
                                V,
                            >::empty());
                        }
                    }
                }
            }
            assert(self@ =~= Map::<K, V>::empty());
            assert(self@.dom() =~= Set::<K>::empty());
        }
        v
    }

    /// Replaces the bucket index with one of `new_size` slots and
    /// redistributes every entry under the new mask. Entry pointers in
    /// the classical layout survive this; here the entries themselves
    /// move, and the model is untouched.
    pub fn hash_swap(&mut self, new_size: usize)
        requires
            old(self).wf(),
            is_pow2(new_size as nat),
            AVL_HASH_INIT_SIZE <= new_size,
        ensures
            final(self).wf(),
            final(self)@ == old(self)@,
            final(self).count == old(self).count,
            final(self).index_size == new_size,
            final(self).hf == old(self).hf,
    {
        let ghost orig = *old(self);
        let mut entries = self.take_all_entries();
        let ghost orig_entries = entries@;
        let ghost orig_len = entries@.len();
        self.index = Self::new_index_vec(new_size);
        self.index_size = new_size;
        self.index_mask = new_size - 1;
        proof {
            let s1 = *self;
            assert forall|i: int, p: (u64, K)|
                0 <= i < s1.index@.len() && #[trigger] link_map(s1.bucket_at(i)).contains_key(
                    p,
                ) implies false by {
                assert(s1.bucket_at(i) is None);
                assert(link_map(s1.bucket_at(i)) =~= Map::<(u64, K), V>::empty());
            }
            assert forall|i: int| 0 <= i < s1.index@.len() implies link_wf(
                #[trigger] s1.bucket_at(i),
            ) by {
                assert(s1.bucket_at(i) is None);
            }
            assert forall|k: K| !(#[trigger] s1@.contains_key(k)) by {
                s1.lemma_bucket_in_range(k);
                assert(s1.bucket_at(s1.bucket_of(k)) is None);
                assert(link_map(s1.bucket_at(s1.bucket_of(k))) =~= Map::<(u64, K), V>::empty());
            }
            assert(s1@ =~= Map::<K, V>::empty());
            assert(s1@.dom() =~= Set::<K>::empty());
            Self::lemma_wf_parts(s1);
        }
        while entries.len() > 0
            invariant
                self.wf(),
                self.index_size == new_size,
                self.hf@ == orig.hf@,
                entries@ =~= orig_entries.take(entries@.len() as int),
                orig_len == orig_entries.len(),
                orig_len <= usize::MAX,
                forall|i1: int, i2: int|
                    0 <= i1 < i2 < orig_len ==> orig_entries[i1].1 != orig_entries[i2].1,
                forall|i: int|
                    0 <= i < orig_len ==> orig@.contains_key(#[trigger] orig_entries[i].1)
                        && orig@[orig_entries[i].1] == orig_entries[i].2 && orig_entries[i].0 == (
                    orig.hf@)(orig_entries[i].1),
                forall|k: K| #[trigger]
                    orig@.contains_key(k) ==> exists|i: int|
                        0 <= i < orig_len && orig_entries[i].1 == k,
                forall|k: K|
                    #![trigger self@.contains_key(k)]
                    self@.contains_key(k) == exists|i: int|
                        entries@.len() <= i < orig_len && orig_entries[i].1 == k,
                forall|k: K| #[trigger] self@.contains_key(k) ==> self@[k] == orig@[k],
                self@.dom().len() + entries@.len() == orig_len,
            decreases entries@.len(),
        {
            let ghost pre = *self;
            let ghost pre_entries = entries@;
            let e = entries.pop().unwrap();
            proof {
                assert(pre_entries == orig_entries.take(pre_entries.len() as int));
                assert(e == orig_entries[pre_entries.len() - 1]);
                assert(!pre@.contains_key(e.1)) by {
                    if pre@.contains_key(e.1) {
                        let i = choose|i: int|
                            pre_entries.len() <= i < orig_len && orig_entries[i].1 == e.1;
                        assert(orig_entries[pre_entries.len() - 1].1 != orig_entries[i].1);
                    }
                }
                assert(pre@.dom().len() < orig_len);
            }
            let (h, k, val) = e;
            self.hash_add(h, k, val);
            proof {
                assert forall|k2: K|
                    self@.contains_key(k2) == exists|i: int|
                        entries@.len() <= i < orig_len && orig_entries[i].1 == k2 by {
                    if k2 == k {
                        assert(orig_entries[entries@.len() as int].1 == k2);
                    } else {
                        if pre@.contains_key(k2) {
                            let i = choose|i: int|
                                pre_entries.len() <= i < orig_len && orig_entries[i].1 == k2;
                            assert(entries@.len() <= i < orig_len && orig_entries[i].1 == k2);
                        }
                    }
                }
            }
        }
        proof {
            assert forall|k: K| self@.contains_key(k) == orig@.contains_key(k) by {
                if self@.contains_key(k) {
                    let i = choose|i: int| 0 <= i < orig_len && orig_entries[i].1 == k;
                } else {
                    if orig@.contains_key(k) {
                        let i = choose|i: int| 0 <= i < orig_len && orig_entries[i].1 == k;
                        assert(self@.contains_key(k));
                    }
                }
            }
            assert(self@ =~= orig@);
        }
    }

    /// Computes the growth target, saturating on populations beyond
    /// any real machine.
    pub fn calc_limit(count: usize) -> (r: usize)
        ensures
            count <= usize::MAX / 6 ==> r == calc_limit_spec(count as nat),
            count > usize::MAX / 6 ==> r == usize::MAX,
            r >= count,
    {
        if count <= usize::MAX / 6 {
            proof {
                assert(count * 6 / 4 >= count) by (nonlinear_arith);
                assert(count <= usize::MAX / 6 ==> count * 6 <= usize::MAX) by (nonlinear_arith);
            }
            count * 6 / 4
        } else {
            usize::MAX
        }
    }

    /// Grows the index, if needed, so that it reaches the growth
    /// target of `capacity`: a grow-only rehash, by the least doubling
    /// that reaches the target.
    pub fn rehash(&mut self, capacity: usize)
        requires
            old(self).wf(),
        ensures
            final(self).wf(),
            final(self)@ == old(self)@,
            final(self).count == old(self).count,
            final(self).index_size >= old(self).index_size,
            final(self).hf == old(self).hf,
            capacity <= usize::MAX / 6 && calc_limit_spec(capacity as nat) <= usize::MAX / 2 + 1
                ==> final(self).index_size >= calc_limit_spec(capacity as nat),
            capacity > usize::MAX / 6 ==> final(self).index_size >= usize::MAX / 2 + 1,
            capacity <= usize::MAX / 6 ==> final(self).index_size == old(self).index_size
                || final(self).index_size < 2 * calc_limit_spec(capacity as nat),
            capacity <= usize::MAX / 6 && old(self).index_size >= calc_limit_spec(capacity as nat)
                ==> *final(self) == *old(self),
    {
        let limit = Self::calc_limit(capacity);
        if self.index_size < limit {
            let mut need = self.index_size;
            while need < limit && need <= usize::MAX / 2
                invariant
                    is_pow2(need as nat),
                    8 <= need,
                    self.index_size <= need,
                    limit <= usize::MAX,
                    need == self.index_size || need < 2 * limit,
                decreases usize::MAX - need,
            {
                need = need * 2;
            }
            self.hash_swap(need);
        }
    }

    /// Consults the load rule after an insertion and grows if the
    /// index has fallen behind the population.
    pub fn default_rehash(&mut self)
        requires
            old(self).wf(),
        ensures
            final(self).wf(),
            final(self)@ == old(self)@,
            final(self).count == old(self).count,
            final(self).index_size >= old(self).index_size,
            final(self).hf == old(self).hf,
            old(self).count <= usize::MAX / 6 && calc_limit_spec(old(self).count as nat)
                <= usize::MAX / 2 + 1 ==> final(self).index_size >= calc_limit_spec(
                old(self).count as nat,
            ),
            old(self).count > usize::MAX / 6 ==> final(self).index_size >= usize::MAX / 2 + 1,
    {
        let c = self.count;
        self.rehash(c);
    }

    /// A longer walk only appends: earlier positions are unchanged.
    pub proof fn lemma_prefix_stable(self, j1: int, j2: int)
        requires
            0 <= j1 <= j2 <= self.live@.len(),
        ensures
            self.live_prefix_seq(j1).len() <= self.live_prefix_seq(j2).len(),
            forall|i: int|
                0 <= i < self.live_prefix_seq(j1).len() ==> self.live_prefix_seq(j2)[i] == (
                #[trigger] self.live_prefix_seq(j1)[i]),
        decreases j2,
    {
        if j2 > j1 {
            self.lemma_prefix_stable(j1, j2 - 1);
        }
    }

    /// The first entry of the walk, or nothing if the table is empty.
    pub fn node_first<'a>(&'a self) -> (r: Option<(u64, &'a K, &'a V)>)
        requires
            self.wf(),
        ensures
            r is Some <==> self.iter_seq().len() > 0,
            r is Some ==> r.unwrap() == (
                self.iter_seq()[0].0.0,
                &self.iter_seq()[0].0.1,
                &self.iter_seq()[0].1,
            ),
    {
        if self.live.len() == 0 {
            return None;
        }
        let idx = self.live[0];
        let r = HashNode::link_first(&self.index[idx].avl_root);
        proof {
            let b = self.bucket_at(idx as int);
            lemma_link_seq(b);
            assert(link_seq(b).len() > 0);
            assert(self.live_prefix_seq(1) == self.live_prefix_seq(0) + link_seq(b));
            assert(self.live_prefix_seq(1)[0] == link_seq(b)[0]);
            self.lemma_prefix_stable(1, self.live@.len() as int);
            assert(self.iter_seq()[0] == link_seq(b)[0]);
        }
        r
    }

    /// The last entry of the walk, or nothing if the table is empty.
    pub fn node_last<'a>(&'a self) -> (r: Option<(u64, &'a K, &'a V)>)
        requires
            self.wf(),
        ensures
            r is Some <==> self.iter_seq().len() > 0,
            r is Some ==> r.unwrap() == (
                self.iter_seq().last().0.0,
                &self.iter_seq().last().0.1,
                &self.iter_seq().last().1,
            ),
    {
        if self.live.len() == 0 {
            return None;
        }
        let n = self.live.len();
        let idx = self.live[n - 1];
        let r = HashNode::link_last(&self.index[idx].avl_root);
        proof {
            let b = self.bucket_at(idx as int);
            lemma_link_seq(b);
            assert(link_seq(b).len() > 0);
            assert(self.iter_seq() == self.live_prefix_seq(n as int - 1) + link_seq(b));
            assert(self.iter_seq().last() == link_seq(b).last());
            self.lemma_prefix_stable(0, n as int);
        }
        r
    }

    /// The position of a stored `(hash, key)` pair in the walk.
    pub open spec fn iter_index_of(self, p: (u64, K)) -> int {
        choose|i: int| 0 <= i < self.iter_seq().len() && self.iter_seq()[i].0 == p
    }

    /// The walk is bidirectional: every stored pair sits at exactly
    /// one position of the walk, so stepping forward with `node_next`
    /// from the first entry and backward with `node_prev` from the
    /// last visit the same entries, in opposite orders. With positions
    /// pinned, the contracts of `node_next` (position `i` to `i + 1`)
    /// and `node_prev` (position `i + 1` to `i`) invert each other.
    pub proof fn lemma_walk_bidirectional(self)
        requires
            self.wf(),
        ensures
            forall|i: int|
                0 <= i < self.iter_seq().len() ==> self.iter_index_of(
                    (#[trigger] self.iter_seq()[i]).0,
                ) == i,
    {
        self.lemma_iter_seq();
        let s = self.iter_seq();
        assert forall|i: int| 0 <= i < s.len() implies self.iter_index_of((#[trigger] s[i]).0)
            == i by {
            assert(exists|j: int| 0 <= j < s.len() && s[j].0 == s[i].0) by {
                assert(s[i].0 == s[i].0);
            }
            let j = self.iter_index_of(s[i].0);
            assert(0 <= j < s.len() && s[j].0 == s[i].0);
            if j != i {
                assert(s[j].0.1 == s[i].0.1);
            }
        }
    }

    /// The entry after the given one in the walk, or nothing at its
    /// end.
    pub fn node_next<'a>(&'a self, h: u64, key: &K) -> (r: Option<(u64, &'a K, &'a V)>)
        requires
            self.wf(),
            self@.contains_key(*key),
            h == (self.hf@)(*key),
        ensures
            ({
                let s = self.iter_seq();
                let i = self.iter_index_of((h, *key));
                &&& 0 <= i < s.len() && s[i].0 == (h, *key)
                &&& (i + 1 < s.len() ==> r == Some((s[i + 1].0.0, &s[i + 1].0.1, &s[i + 1].1)))
                &&& (i + 1 == s.len() ==> r is None)
            }),
    {
        proof {
            self.lemma_iter_seq();
        }
        let ghost s = self.iter_seq();
        let ghost pos = self.iter_index_of((h, *key));
        proof {
            assert(exists|i: int| 0 <= i < s.len() && s[i].0 == ((self.hf@)(*key), *key));
            assert(0 <= pos < s.len() && s[pos].0 == (h, *key));
        }
        let v = self.collect_entries();
        let n = v.len();
        let mut j: usize = 0;
        while j < n
            invariant
                self.wf(),
                s == self.iter_seq(),
                pos == self.iter_index_of((h, *key)),
                0 <= pos < s.len() && s[pos].0 == (h, *key),
                n == v@.len(),
                v@.len() == s.len(),
                forall|i: int|
                    #![trigger v@[i]]
                    0 <= i < v@.len() ==> v@[i] == (s[i].0.0, &s[i].0.1, &s[i].1),
                j <= n,
                forall|i: int| 0 <= i < j ==> (#[trigger] s[i]).0 != (h, *key),
            decreases n - j,
        {
            let e = v[j];
            if e.0 == h && e.1.key_eq(key) {
                proof {
                    self.lemma_iter_seq();
                    K::lemma_model_injective(*e.1, *key);
                    assert(s[j as int].0 == (h, *key));
                    assert(pos == j as int) by {
                        if pos != j as int {
                            assert(s[pos].0.1 == s[j as int].0.1);
                        }
                    }
                }
                if j + 1 < n {
                    return Some(v[j + 1]);
                } else {
                    return None;
                }
            }
            proof {
                if s[j as int].0 == (h, *key) {
                    assert(e.0 == h);
                    assert(*e.1 == *key);
                }
            }
            j = j + 1;
        }
        proof {
            assert(s[pos].0 != (h, *key));
            assert(false);
        }
        None
    }

    /// The entry before the given one in the walk, or nothing at its
    /// start.
    pub fn node_prev<'a>(&'a self, h: u64, key: &K) -> (r: Option<(u64, &'a K, &'a V)>)
        requires
            self.wf(),
            self@.contains_key(*key),
            h == (self.hf@)(*key),
        ensures
            ({
                let s = self.iter_seq();
                let i = self.iter_index_of((h, *key));
                &&& 0 <= i < s.len() && s[i].0 == (h, *key)
                &&& (i > 0 ==> r == Some((s[i - 1].0.0, &s[i - 1].0.1, &s[i - 1].1)))
                &&& (i == 0 ==> r is None)
            }),
    {
        proof {
            self.lemma_iter_seq();
        }
        let ghost s = self.iter_seq();
        let ghost pos = self.iter_index_of((h, *key));
        proof {
            assert(exists|i: int| 0 <= i < s.len() && s[i].0 == ((self.hf@)(*key), *key));
            assert(0 <= pos < s.len() && s[pos].0 == (h, *key));
        }
        let v = self.collect_entries();
        let n = v.len();
        let mut j: usize = 0;
        while j < n
            invariant
                self.wf(),
                s == self.iter_seq(),
                pos == self.iter_index_of((h, *key)),
                0 <= pos < s.len() && s[pos].0 == (h, *key),
                n == v@.len(),
                v@.len() == s.len(),
                forall|i: int|
                    #![trigger v@[i]]
                    0 <= i < v@.len() ==> v@[i] == (s[i].0.0, &s[i].0.1, &s[i].1),
                j <= n,
                forall|i: int| 0 <= i < j ==> (#[trigger] s[i]).0 != (h, *key),
            decreases n - j,
        {
            let e = v[j];
            if e.0 == h && e.1.key_eq(key) {
                proof {
                    self.lemma_iter_seq();
                    K::lemma_model_injective(*e.1, *key);
                    assert(s[j as int].0 == (h, *key));
                    assert(pos == j as int) by {
                        if pos != j as int {
                            assert(s[pos].0.1 == s[j as int].0.1);
                        }
                    }
                }
                if j > 0 {
                    return Some(v[j - 1]);
                } else {
                    return None;
                }
            }
            proof {
                if s[j as int].0 == (h, *key) {
                    assert(e.0 == h);
                    assert(*e.1 == *key);
                }
            }
            j = j + 1;
        }
        proof {
            assert(s[pos].0 != (h, *key));
            assert(false);
        }
        None
    }

    /// The population of the fullest live bucket: a balance diagnostic.
    pub fn get_max_node_of_single_index(&self) -> (n: usize)
        requires
            self.wf(),
        ensures
            forall|j: int|
                0 <= j < self.live@.len() ==> link_size(
                    self.bucket_at(#[trigger] self.live@[j] as int),
                ) <= n,
            n > 0 ==> exists|j: int|
                0 <= j < self.live@.len() && link_size(self.bucket_at(self.live@[j] as int)) == n,
            self.live@.len() == 0 ==> n == 0,
    {
        let mut num: usize = 0;
        let m = self.live.len();
        let mut j: usize = 0;
        while j < m
            invariant
                self.wf(),
                m == self.live@.len(),
                j <= m,
                forall|j2: int|
                    0 <= j2 < j ==> link_size(self.bucket_at(#[trigger] self.live@[j2] as int))
                        <= num,
                num > 0 ==> exists|j2: int|
                    0 <= j2 < j && link_size(self.bucket_at(self.live@[j2] as int)) == num,
            decreases m - j,
        {
            let idx = self.live[j];
            proof {
                lemma_buckets_sum_bound(self.index@, idx as int);
            }
            let sz = HashNode::link_node_num(&self.index[idx].avl_root);
            if sz > num {
                num = sz;
                proof {
                    assert(link_size(self.bucket_at(self.live@[j as int] as int)) == num);
                }
            }
            j = j + 1;
        }
        num
    }

    /// The bucket a hash is dispatched to.
    pub fn get_hash_index<'a>(&'a self, hash_val: u64) -> (r: &'a HashIndex<K, V>)
        requires
            self.wf(),
        ensures
            *r == self.index@[(hash_val & (self.index_mask as u64)) as int],
    {
        let i = self.mask_index(hash_val);
        &self.index[i]
    }

    /// The flattening of the buckets from slot `j` on lists entries of
    /// the model, each key at most once, and misses none of them.
    proof fn lemma_buckets_suffix(self, j: int)
        requires
            self.wf(),
            0 <= j <= self.index@.len(),
        ensures
            forall|i: int|
                0 <= i < buckets_seq(self.index@.skip(j)).len() ==> {
                    let e = #[trigger] buckets_seq(self.index@.skip(j))[i];
                    self@.contains_key(e.0.1) && self@[e.0.1] == e.1 && e.0.0 == (self.hf@)(e.0.1)
                        && (e.0.0 & (self.index_mask as u64)) >= j
                },
            forall|i1: int, i2: int|
                0 <= i1 < i2 < buckets_seq(self.index@.skip(j)).len() ==> buckets_seq(
                    self.index@.skip(j),
                )[i1].0.1 != buckets_seq(self.index@.skip(j))[i2].0.1,
            forall|j2: int, p: (u64, K)|
                j <= j2 < self.index@.len() && #[trigger] link_map(
                    self.bucket_at(j2),
                ).contains_key(p) ==> exists|i: int|
                    0 <= i < buckets_seq(self.index@.skip(j)).len() && (#[trigger] buckets_seq(
                        self.index@.skip(j),
                    )[i]).0 == p,
        decreases self.index@.len() - j,
    {
        if j < self.index@.len() {
            self.lemma_buckets_suffix(j + 1);
            let b = self.bucket_at(j);
            let bs = link_seq(b);
            let rest = buckets_seq(self.index@.skip(j + 1));
            let s = buckets_seq(self.index@.skip(j));
            lemma_link_seq(b);
            assert(self.index@.skip(j).drop_first() =~= self.index@.skip(j + 1));
            assert(self.index@.skip(j)[0] == self.index@[j]);
            assert(s == bs + rest);
            assert forall|i: int| 0 <= i < s.len() implies {
                let e = #[trigger] s[i];
                self@.contains_key(e.0.1) && self@[e.0.1] == e.1 && e.0.0 == (self.hf@)(e.0.1) && (
                e.0.0 & (self.index_mask as u64)) >= j
            } by {
                if i < bs.len() {
                    assert(s[i] == bs[i]);
                    assert(link_map(b).contains_key(bs[i].0));
                } else {
                    assert(s[i] == rest[i - bs.len()]);
                }
            }
            assert forall|i1: int, i2: int| 0 <= i1 < i2 < s.len() implies s[i1].0.1
                != s[i2].0.1 by {
                if i2 < bs.len() {
                    assert(s[i1] == bs[i1] && s[i2] == bs[i2]);
                    assert(link_map(b).contains_key(bs[i1].0));
                    assert(link_map(b).contains_key(bs[i2].0));
                    if s[i1].0.1 == s[i2].0.1 {
                        assert(bs[i1].0 == bs[i2].0);
                        assert(crate::avl_node::lex_lt(
                            bs[i1].0.0,
                            bs[i1].0.1.model(),
                            bs[i2].0.0,
                            bs[i2].0.1.model(),
                        ));
                    }
                } else if i1 >= bs.len() {
                    assert(s[i1] == rest[i1 - bs.len()] && s[i2] == rest[i2 - bs.len()]);
                } else {
                    assert(s[i1] == bs[i1] && s[i2] == rest[i2 - bs.len()]);
                    assert(link_map(b).contains_key(bs[i1].0));
                    if s[i1].0.1 == s[i2].0.1 {
                        assert(s[i1].0.0 == (self.hf@)(s[i1].0.1));
                        assert(s[i1].0.0 == s[i2].0.0);
                        assert((s[i1].0.0 & (self.index_mask as u64)) == j);
                        assert((s[i2].0.0 & (self.index_mask as u64)) >= j + 1);
                    }
                }
            }
            assert forall|j2: int, p: (u64, K)|
                j <= j2 < self.index@.len() && #[trigger] link_map(
                    self.bucket_at(j2),
                ).contains_key(p) implies exists|i: int|
                0 <= i < s.len() && (#[trigger] s[i]).0 == p by {
                if j2 == j {
                    let i = choose|i: int| 0 <= i < bs.len() && bs[i].0 == p;
                    assert(s[i].0 == p);
                } else {
                    let i = choose|i: int| 0 <= i < rest.len() && (#[trigger] rest[i]).0 == p;
                    assert(s[bs.len() + i].0 == p);
                }
            }
        }
    }

    /// Collects mutable borrows of every value, together with each
    /// entry's hash and key; the table keeps its shape and its model's
    /// keys, and the values follow the borrows.
    pub fn collect_entries_mut<'a>(&'a mut self) -> (v: Vec<(u64, &'a K, &'a mut V)>)
        requires
            old(self).wf(),
        ensures
            final(self).wf(),
            final(self).count == old(self).count,
            final(self).index_size == old(self).index_size,
            final(self).hf == old(self).hf,
            v@.len() == old(self)@.dom().len(),
            forall|i1: int, i2: int| 0 <= i1 < i2 < v@.len() ==> *v@[i1].1 != *v@[i2].1,
            forall|i: int|
                #![trigger v@[i]]
                0 <= i < v@.len() ==> old(self)@.contains_key(*v@[i].1) && *v@[i].2 == old(
                    self,
                )@[*v@[i].1] && v@[i].0 == (old(self).hf@)(*v@[i].1),
            forall|k: K| #[trigger]
                old(self)@.contains_key(k) ==> exists|i: int| 0 <= i < v@.len() && *v@[i].1 == k,
            final(self)@.dom() =~= old(self)@.dom(),
            forall|i: int|
                #![trigger v@[i]]
                0 <= i < v@.len() ==> final(self)@[*v@[i].1] == *final(v@[i].2),
    {
        let ghost pre = *old(self);
        proof {
            pre.lemma_buckets_suffix(0);
            assert(pre.index@.skip(0) =~= pre.index@);
            let bs = buckets_seq(pre.index@);
            let keys = Seq::new(bs.len(), |i: int| bs[i].0.1);
            assert(keys.no_duplicates());
            keys.unique_seq_to_set();
            assert(keys.to_set() =~= pre@.dom()) by {
                assert forall|k: K| keys.to_set().contains(k) implies pre@.dom().contains(k) by {
                    let i = choose|i: int| 0 <= i < keys.len() && keys[i] == k;
                    assert(bs[i].0.1 == k);
                }
                assert forall|k: K| pre@.dom().contains(k) implies keys.to_set().contains(k) by {
                    pre.lemma_bucket_in_range(k);
                    let bi = pre.bucket_of(k);
                    assert(link_map(pre.bucket_at(bi)).contains_key(((pre.hf@)(k), k)));
                    assert(exists|i: int|
                        0 <= i < bs.len() && (#[trigger] bs[i]).0 == ((pre.hf@)(k), k));
                    let i = choose|i: int|
                        0 <= i < bs.len() && (#[trigger] bs[i]).0 == ((pre.hf@)(k), k);
                    assert(keys[i] == k);
                }
            }
            assert(bs.len() == pre@.dom().len());
        }
        let mut out: Vec<(u64, &'a K, &'a mut V)> = Vec::new();
        Self::collect_slice_mut(self.index.as_mut_slice(), &mut out);
        proof {
            let sf = after_borrow(*self);
            let bs = buckets_seq(pre.index@);
            assert(sf.index@.len() == pre.index@.len());
            // The collected elements mirror the flattening.
            assert forall|i: int| 0 <= i < out@.len() implies (#[trigger] out@[i]).0 == bs[i].0.0
                && *out@[i].1 == bs[i].0.1 && *out@[i].2 == bs[i].1 by {
                assert(bs[i] == buckets_seq(pre.index@)[i]);
            }
            assert forall|i1: int, i2: int| 0 <= i1 < i2 < out@.len() implies *out@[i1].1
                != *out@[i2].1 by {
                assert(bs[i1].0.1 != bs[i2].0.1);
            }
            // Structure is untouched, so membership is untouched.
            assert forall|i: int, p: (u64, K)|
                0 <= i < sf.index@.len() && #[trigger] link_map(sf.bucket_at(i)).contains_key(
                    p,
                ) implies p.0 == (sf.hf@)(p.1) && (p.0 & (sf.index_mask as u64)) == i by {
                assert(link_map(pre.bucket_at(i)).dom() =~= link_map(sf.bucket_at(i)).dom());
                assert(link_map(pre.bucket_at(i)).contains_key(p));
            }
            assert forall|k: K|
                #![trigger sf@.contains_key(k)]
                sf@.contains_key(k) == pre@.contains_key(k) by {
                pre.lemma_bucket_in_range(k);
                let bi = pre.bucket_of(k);
                assert(link_map(pre.bucket_at(bi)).dom() =~= link_map(sf.bucket_at(bi)).dom());
            }
            assert(sf@.dom() =~= pre@.dom());
            // Each key's position in `out` is unique, so the model's
            // new values are read off the right borrows.
            assert forall|i: int| 0 <= i < out@.len() implies sf@[*out@[i].1] == *final(out@[i].2) by {
                let k = *out@[i].1;
                pre.lemma_bucket_in_range(k);
                let bi = pre.bucket_of(k);
                let p = ((pre.hf@)(k), k);
                assert(pre@.contains_key(k));
                assert(link_map(pre.bucket_at(bi)).contains_key(p));
                assert(exists|i4: int|
                    0 <= i4 < out@.len() && (#[trigger] out@[i4]).0 == p.0 && *out@[i4].1 == p.1
                        && link_map(sf.bucket_at(bi))[p] == *final(out@[i4].2));
                let i4 = choose|i4: int|
                    0 <= i4 < out@.len() && (#[trigger] out@[i4]).0 == p.0 && *out@[i4].1 == p.1
                        && link_map(sf.bucket_at(bi))[p] == *final(out@[i4].2);
                assert(i4 == i) by {
                    if i4 != i {
                        assert(*out@[i4].1 == *out@[i].1);
                    }
                }
            }
            // Well-formedness of the final table.
            assert forall|i: int| 0 <= i < sf.index@.len() implies link_wf(
                #[trigger] sf.bucket_at(i),
            ) by {
                assert(link_wf(pre.bucket_at(i)));
            }
            // Sizes are untouched bucket by bucket, so the sum stands.
            lemma_buckets_sum_pointwise(pre.index@, sf.index@);
            assert forall|j: int|
                0 <= j < sf.live@.len() implies (#[trigger] sf.live@[j]) < sf.index@.len()
                && sf.bucket_at(sf.live@[j] as int) is Some by {
                assert(pre.bucket_at(pre.live@[j] as int) is Some);
                assert(crate::avl_node::same_shape(
                    pre.bucket_at(sf.live@[j] as int),
                    sf.bucket_at(sf.live@[j] as int),
                ));
            }
            assert forall|i: int|
                0 <= i < sf.index@.len() && #[trigger] sf.bucket_at(i) is Some implies exists|
                j: int,
            | 0 <= j < sf.live@.len() && sf.live@[j] == i by {
                assert(crate::avl_node::same_shape(pre.bucket_at(i), sf.bucket_at(i)));
                assert(pre.bucket_at(i) is Some);
                let j = choose|j: int| 0 <= j < pre.live@.len() && pre.live@[j] == i;
                assert(sf.live@[j] == i);
            }
            assert(sf.wf());
        }
        out
    }

    /// Appends mutable borrows of the values in a run of buckets to
    /// `out`, in slot order; the buckets keep their shapes.
    fn collect_slice_mut<'a>(s: &'a mut [HashIndex<K, V>], out: &mut Vec<(u64, &'a K, &'a mut V)>)
        ensures
            final(s)@.len() == old(s)@.len(),
            forall|j: int|
                0 <= j < old(s)@.len() ==> crate::avl_node::same_shape(
                    (#[trigger] old(s)@[j]).avl_root,
                    final(s)@[j].avl_root,
                ),
            final(out)@.len() == old(out)@.len() + buckets_seq(old(s)@).len(),
            forall|i: int| 0 <= i < old(out)@.len() ==> final(out)@[i] == old(out)@[i],
            forall|i: int|
                #![trigger buckets_seq(old(s)@)[i]]
                0 <= i < buckets_seq(old(s)@).len() ==> ({
                    let e = final(out)@[old(out)@.len() + i];
                    e.0 == buckets_seq(old(s)@)[i].0.0 && e.1 == &buckets_seq(old(s)@)[i].0.1
                        && *e.2 == buckets_seq(old(s)@)[i].1
                }),
            buckets_seq(final(s)@).len() == buckets_seq(old(s)@).len(),
            forall|i: int|
                #![trigger buckets_seq(final(s)@)[i]]
                0 <= i < buckets_seq(old(s)@).len() ==> buckets_seq(final(s)@)[i].0 == buckets_seq(
                    old(s)@,
                )[i].0 && buckets_seq(final(s)@)[i].1 == *final(final(out)@[old(out)@.len() + i].2),
            forall|j: int|
                #![trigger final(s)@[j]]
                0 <= j < old(s)@.len() ==> (link_wf(old(s)@[j].avl_root) ==> link_wf(
                    final(s)@[j].avl_root,
                )) && link_map(final(s)@[j].avl_root).dom() =~= link_map(
                    old(s)@[j].avl_root,
                ).dom() && link_height(final(s)@[j].avl_root) == link_height(old(s)@[j].avl_root)
                    && link_size(final(s)@[j].avl_root) == link_size(old(s)@[j].avl_root),
            forall|j: int, p: (u64, K)|
                0 <= j < old(s)@.len() && #[trigger] link_map(old(s)@[j].avl_root).contains_key(
                    p,
                ) ==> exists|i: int|
                    old(out)@.len() <= i < final(out)@.len() && (#[trigger] final(out)@[i]).0
                        == p.0 && *final(out)@[i].1 == p.1 && link_map(final(s)@[j].avl_root)[p]
                        == *final(final(out)@[i].2),
        decreases old(s)@.len(),
    {
        let n = s.len();
        if n == 0 {
            return ;
        }
        let (head, tail) = s.split_at_mut(1);
        let ghost head0 = head@;
        let ghost tail0 = tail@;
        let hd = head.first_mut().unwrap();
        HashNode::link_collect_mut(&mut hd.avl_root, out);
        Self::collect_slice_mut(tail, out);
        proof {
            broadcast use lemma_unit_concat_drop_first;

            assert(old(s)@ =~= head0 + tail0);
            assert((head0 + tail0).drop_first() =~= tail0);
            assert(buckets_seq(old(s)@) == link_seq(head0[0].avl_root) + buckets_seq(tail0));
            assert(head0.len() == 1);
        }
    }

    /// Drops a slot from the live list.
    fn live_remove(&mut self, idx: usize)
        requires
            forall|j1: int, j2: int|
                #![trigger old(self).live@[j1], old(self).live@[j2]]
                0 <= j1 < j2 < old(self).live@.len() ==> old(self).live@[j1] != old(self).live@[j2],
        ensures
            final(self).live@.to_set() == old(self).live@.to_set().remove(idx),
            forall|j1: int, j2: int|
                0 <= j1 < j2 < final(self).live@.len() ==> final(self).live@[j1] != final(self).live@[j2],
            final(self).count == old(self).count,
            final(self).index == old(self).index,
            final(self).index_size == old(self).index_size,
            final(self).index_mask == old(self).index_mask,
            final(self).hf == old(self).hf,
    {
        let mut j: usize = 0;
        let n = self.live.len();
        while j < n
            invariant
                n == self.live@.len(),
                j <= n,
                *self == *old(self),
                forall|j1: int, j2: int|
                    #![trigger old(self).live@[j1], old(self).live@[j2]]
                    0 <= j1 < j2 < old(self).live@.len() ==> old(self).live@[j1] != old(
                        self,
                    ).live@[j2],
                forall|j2: int| 0 <= j2 < j ==> old(self).live@[j2] != idx,
            decreases n - j,
        {
            if self.live[j] == idx {
                let ghost pre = self.live@;
                self.live.remove(j);
                proof {
                    assert(pre[j as int] == idx);
                    assert forall|a: int, b: int|
                        0 <= a < b < pre.len() implies #[trigger] pre[a] != #[trigger] pre[b] by {
                        assert(pre.len() == old(self).live@.len());
                        assert(pre[a] == old(self).live@[a]);
                        assert(pre[b] == old(self).live@[b]);
                        assert(old(self).live@[a] != old(self).live@[b]);
                    }
                    assert forall|x: usize| final(self).live@.to_set().contains(x) implies old(
                        self,
                    ).live@.to_set().remove(idx).contains(x) by {
                        let j2 = choose|j2: int|
                            0 <= j2 < self.live@.len() && self.live@[j2] == x;
                        if j2 < j {
                            assert(pre[j2] == x);
                        } else {
                            assert(pre[j2 + 1] == x);
                        }
                        assert(x != idx);
                    }
                    assert forall|x: usize| old(self).live@.to_set().remove(idx).contains(
                        x,
                    ) implies final(self).live@.to_set().contains(x) by {
                        let j2 = choose|j2: int| 0 <= j2 < pre.len() && pre[j2] == x;
                        if j2 < j {
                            assert(self.live@[j2] == x);
                        } else {
                            assert(j2 != j as int);
                            assert(self.live@[j2 - 1] == x);
                        }
                    }
                    assert(final(self).live@.to_set() =~= old(self).live@.to_set().remove(idx));
                    assert forall|j1: int, j2: int|
                        0 <= j1 < j2 < self.live@.len() implies self.live@[j1] != self.live@[j2] by {
                        if j2 < j {
                        } else if j1 < j {
                            assert(self.live@[j1] == pre[j1]);
                            assert(self.live@[j2] == pre[j2 + 1]);
                        } else {
                            assert(self.live@[j1] == pre[j1 + 1]);
                            assert(self.live@[j2] == pre[j2 + 1]);
                        }
                    }
                }
                return ;
            }
            j = j + 1;
        }
        proof {
            assert forall|x: usize| old(self).live@.to_set().contains(x) implies x != idx by {
                let j2 = choose|j2: int|
                    0 <= j2 < old(self).live@.len() && old(self).live@[j2] == x;
            }
            assert(final(self).live@.to_set() =~= old(self).live@.to_set().remove(idx));
        }
    }
}

} // verus!
