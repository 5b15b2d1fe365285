//! Edge cases and the stated laws on concrete values: round trips,
//! overwrites, walk order, capacity movement, and the entry API.

use std::cell::RefCell;
use hash_ord::hash_map::HashMap;
use hash_ord::hash_map::Entry;
use hash_ord::key::SeedState;

/// A value that bumps a shared counter when dropped.
struct Counted<'a> {
    b: &'a RefCell<i32>,
}

impl<'a> Drop for Counted<'a> {
    fn drop(&mut self) {
        *self.b.borrow_mut() += 1;
    }
}

#[test]
fn test_empty_map() {
    let mut m: HashMap<i64, i64> = HashMap::new();
    assert_eq!(m.len(), 0);
    assert!(m.is_empty());
    assert!(m.get(&7).is_none());
    assert!(m.remove(&7).is_none());
    assert!(m.first().is_none());
    assert!(m.last().is_none());
    assert_eq!(m.capacity(), 8);
    assert_eq!(m.get_max_node_of_single_index(), 0);
    m.clear();
    assert_eq!(m.len(), 0);
}

#[test]
fn test_round_trip() {
    let mut m = HashMap::new();
    assert_eq!(m.insert(42, 7), None);
    assert_eq!(m.get(&42), Some(&7));
    assert_eq!(m.remove(&42), Some((42, 7)));
    assert_eq!(m.get(&42), None);
    assert_eq!(m.len(), 0);
}

#[test]
fn test_overwrite_returns_old_pair() {
    let mut m = HashMap::new();
    assert_eq!(m.insert(5, 50), None);
    let old = m.insert(5, 51);
    assert_eq!(old, Some((5, 50)));
    assert_eq!(m.get(&5), Some(&51));
    assert_eq!(m.len(), 1);
}

#[test]
fn test_walk_bidirectional() {
    let mut m = HashMap::new();
    for i in 0..60 {
        m.insert(i, i * i);
    }
    let mut forward = Vec::new();
    let mut cur = m.first().map(|(k, _)| *k);
    while let Some(k) = cur {
        forward.push(k);
        cur = m.next(&k).map(|(k2, _)| *k2);
    }
    let mut backward = Vec::new();
    let mut cur = m.last().map(|(k, _)| *k);
    while let Some(k) = cur {
        backward.push(k);
        cur = m.prev(&k).map(|(k2, _)| *k2);
    }
    assert_eq!(forward.len(), 60);
    backward.reverse();
    assert_eq!(forward, backward);
}

#[test]
fn test_next_prev_invert() {
    let mut m = HashMap::new();
    for i in 0..20 {
        m.insert(i, ());
    }
    let (first, _) = m.first().unwrap();
    let first = *first;
    let (second, _) = m.next(&first).unwrap();
    let second = *second;
    let (back, _) = m.prev(&second).unwrap();
    assert_eq!(*back, first);
    assert!(m.prev(&first).is_none());
}

#[test]
fn test_capacity_monotone_under_insert() {
    let mut m = HashMap::new();
    let mut last_cap = m.capacity();
    for i in 0..300 {
        m.insert(i, i);
        let cap = m.capacity();
        assert!(cap >= last_cap);
        last_cap = cap;
    }
    assert!(m.capacity() >= 300 * 6 / 4);
}

#[test]
fn test_reserve_grows_to_limit() {
    let mut m: HashMap<i32, i32> = HashMap::new();
    let before = m.capacity();
    m.reserve(100);
    assert!(m.capacity() >= 150);
    assert!(m.capacity() >= before);
    m.insert(1, 1);
    assert_eq!(m.get(&1), Some(&1));
}

#[test]
fn test_shrink_keeps_contents_and_floor() {
    let mut m = HashMap::new();
    for i in 0..100 {
        m.insert(i, -i);
    }
    for i in 3..100 {
        m.remove(&i);
    }
    m.shrink_to_fit();
    assert!(m.capacity() >= 8);
    assert_eq!(m.len(), 3);
    for i in 0..3 {
        assert_eq!(m.get(&i), Some(&-i));
    }
    m.shrink_to_fit();
    assert!(m.capacity() >= 8);
}

#[test]
fn test_iteration_covers_multiset() {
    let mut m = HashMap::new();
    for i in 0..50 {
        m.insert(i, 2 * i + 1);
    }
    let mut seen = Vec::new();
    let mut iter = m.iter();
    while let Some((k, v)) = iter.next() {
        seen.push((*k, *v));
    }
    seen.sort();
    let mut expect = Vec::new();
    for i in 0..50 {
        expect.push((i, 2 * i + 1));
    }
    assert_eq!(seen, expect);
}

#[test]
fn test_seeded_hashers_agree_on_contents() {
    let mut a = HashMap::with_hasher(SeedState::with_seed(1));
    let mut b = HashMap::with_hasher(SeedState::with_seed(99));
    for i in 0..40 {
        a.insert(i, i + 1);
        b.insert(i, i + 1);
    }
    assert!(a.eq_map(&b));
    assert!(b.eq_map(&a));
    a.insert(100, 0);
    assert!(!a.eq_map(&b));
}

#[test]
fn test_usize_and_u64_keys() {
    let mut m: HashMap<u64, u64> = HashMap::new();
    m.insert(u64::MAX, 1);
    m.insert(0, 2);
    assert_eq!(m.get(&u64::MAX), Some(&1));
    assert_eq!(m.get(&0), Some(&2));

    let mut n: HashMap<usize, usize> = HashMap::with_capacity(16);
    for i in 0..32 {
        n.insert(i, i);
    }
    assert_eq!(n.len(), 32);
    assert_eq!(n.get(&31), Some(&31));
}

#[test]
fn test_or_insert_with_and_and_modify() {
    let mut m: HashMap<i32, i32> = HashMap::new();
    assert_eq!(*m.entry(3).or_insert_with(|| 30), 30);
    assert_eq!(*m.entry(3).or_insert_with(|| 99), 30);
    let e = m.entry(3).and_modify(|v| *v += 1);
    assert_eq!(*e.key(), 3);
    match e {
        Entry::Occupied(o) => assert_eq!(*o.get(), 31),
        Entry::Vacant(_) => unreachable!(),
    }
    let e = m.entry(8).and_modify(|v| *v += 1);
    match e {
        Entry::Occupied(_) => unreachable!(),
        Entry::Vacant(v) => {
            assert_eq!(v.into_key(), 8);
        },
    }
    assert!(m.get(&8).is_none());
}

#[test]
fn test_entry_remove_entry() {
    let mut m = HashMap::new();
    m.insert(4, 44);
    match m.entry(4) {
        Entry::Occupied(o) => {
            assert_eq!(o.remove_entry(), (4, 44));
        },
        Entry::Vacant(_) => unreachable!(),
    }
    assert!(m.is_empty());
}

#[test]
fn test_entry_replace() {
    let mut m = HashMap::new();
    m.insert(9, 90);
    match m.entry(9) {
        Entry::Occupied(o) => {
            assert_eq!(o.replace_key(), 9);
        },
        Entry::Vacant(_) => unreachable!(),
    }
    assert_eq!(m.get(&9), Some(&90));
    match m.entry(9) {
        Entry::Occupied(o) => {
            assert_eq!(o.replace_entry(91), (9, 90));
        },
        Entry::Vacant(_) => unreachable!(),
    }
    assert_eq!(m.get(&9), Some(&91));
    assert_eq!(m.len(), 1);
}

#[test]
fn test_size_law_counting() {
    let mut m = HashMap::new();
    for i in 0..40 {
        assert!(m.insert(i, i).is_none());
        assert_eq!(m.len(), (i + 1) as usize);
    }
    for i in 0..15 {
        assert!(m.remove(&i).is_some());
    }
    assert_eq!(m.len(), 40 - 15);
    assert!(m.remove(&0).is_none());
    assert_eq!(m.len(), 40 - 15);
}

#[test]
fn test_into_iter_drops_rest() {
    let cnt = RefCell::new(0);
    let mut m = HashMap::new();
    for i in 0..10 {
        m.insert(i, Counted { b: &cnt });
    }
    let mut it = m.into_iter();
    let taken = it.next();
    assert!(taken.is_some());
    assert_eq!(it.size_hint(), (9, Some(9)));
    drop(taken);
    assert_eq!(*cnt.borrow(), 1);
    drop(it);
    assert_eq!(*cnt.borrow(), 10);
}

#[test]
fn test_keys_values_size_hints() {
    let mut m = HashMap::new();
    for i in 0..5 {
        m.insert(i, i);
    }
    let mut keys = m.keys();
    assert_eq!(keys.size_hint(), (5, Some(5)));
    keys.next();
    assert_eq!(keys.size_hint(), (4, Some(4)));
    let values = m.values();
    assert_eq!(values.size_hint(), (5, Some(5)));
    {
        let mut vm = m.values_mut();
        assert_eq!(vm.size_hint(), (5, Some(5)));
        vm.next();
        assert_eq!(vm.size_hint(), (4, Some(4)));
    }
    assert_eq!(m.len(), 5);
}

#[test]
fn test_default_and_balance_diagnostic() {
    let mut m: HashMap<i32, i32> = HashMap::default();
    assert!(m.is_empty());
    for i in 0..64 {
        m.insert(i, i);
    }
    let max_bucket = m.get_max_node_of_single_index();
    assert!(max_bucket >= 1);
    assert!(max_bucket <= 64);
}
