//! The map's behaviour, end to end: population, removal, iteration,
//! capacity control, the entry API, and drop accounting.

use std::cell::RefCell;
use hash_ord::hash_map::HashMap;
use hash_ord::hash_map::Entry;

/// A value that bumps a shared counter when dropped.
struct Node<'a> {
    b: &'a RefCell<i32>,
}

impl<'a> Drop for Node<'a> {
    fn drop(&mut self) {
        *self.b.borrow_mut() += 1;
    }
}

#[test]
fn test_hash_map() {
    let mut m = HashMap::new();
    for i in 100..200 {
        m.insert(i, -i);
    }
    assert!(m.contains_key(&100));
    assert_eq!(*m.get(&111).unwrap(), -111);
    assert_eq!(m.len(), 100);
    let mut cnt = 0;
    let mut cur = m.first().map(|(k, _)| *k);
    while let Some(k) = cur {
        cnt += 1;
        cur = m.next(&k).map(|(k2, _)| *k2);
    }
    assert_eq!(cnt, m.len());
    let mut cnt = 0;
    let mut cur = m.last().map(|(k, _)| *k);
    while let Some(k) = cur {
        cnt += 1;
        cur = m.prev(&k).map(|(k2, _)| *k2);
    }
    assert_eq!(cnt, m.len());
    assert_eq!(*m.get(&111).unwrap(), -111);
    {
        let v = m.get_mut(&111).unwrap();
        *v *= -1;
    }
    assert_eq!(*m.get(&111).unwrap(), 111);
    assert!(m.get(&-100).is_none());
}

#[test]
fn test_hash_map_remove() {
    let cnt = RefCell::new(0);
    let test_num = 199;
    let mut map = HashMap::new();
    for i in 0..test_num {
        map.insert(i, Node { b: &cnt });
    }
    assert_eq!(*cnt.borrow(), 0);
    for i in 0..test_num / 2 {
        map.remove(&i);
    }
    assert_eq!(*cnt.borrow(), test_num / 2);
    for i in test_num / 2..test_num {
        map.insert(i, Node { b: &cnt });
    }
    assert_eq!(*cnt.borrow(), test_num);
}

#[test]
fn test_hash_map_clear() {
    let cnt = RefCell::new(0);
    let test_num = 199;
    let mut map = HashMap::new();
    for i in 0..test_num {
        map.insert(i, Node { b: &cnt });
    }
    assert_eq!(*cnt.borrow(), 0);
    for i in 0..test_num / 2 {
        map.remove(&i);
    }
    assert_eq!(*cnt.borrow(), test_num / 2);
    map.clear();
    assert_eq!(*cnt.borrow(), test_num);
}

#[test]
fn test_hash_map_insert_duplicate() {
    let cnt = RefCell::new(0);
    let test_num = 100;
    let mut map = HashMap::new();
    for i in 0..test_num {
        map.insert(i, Node { b: &cnt });
    }
    assert_eq!(test_num as usize, map.len());
    assert_eq!(*cnt.borrow(), 0);
    for i in 0..test_num / 2 {
        map.insert(i, Node { b: &cnt });
    }
    assert_eq!(*cnt.borrow(), test_num / 2);
}

#[test]
fn test_hash_map_keys() {
    let test_num = 100;
    let mut m = HashMap::new();
    for i in 0..test_num {
        m.insert(i, -i);
    }
    let mut sum = 0;
    let mut keys = m.keys();
    while let Some(key) = keys.next() {
        sum += *key;
    }
    assert_eq!(sum, test_num * (test_num - 1) / 2);
}

#[test]
fn test_hash_map_values() {
    let test_num = 100;
    let mut m = HashMap::new();
    for i in 0..test_num {
        m.insert(i, -i);
    }
    let mut sum = 0;
    let mut values = m.values();
    while let Some(value) = values.next() {
        sum += *value;
    }
    assert_eq!(sum, -test_num * (test_num - 1) / 2);
}

#[test]
fn test_hash_map_values_mut() {
    let test_num = 100;
    let mut m = HashMap::new();
    for i in 0..test_num {
        m.insert(i, -i);
    }
    let mut sum = 0;
    {
        let mut values = m.values_mut();
        while let Some(value) = values.next() {
            *value *= 2;
        }
    }
    let mut values = m.values();
    while let Some(value) = values.next() {
        sum += *value;
    }
    assert_eq!(sum, -test_num * (test_num - 1));
}

#[test]
fn test_hash_map_iter() {
    let test_num = 100;
    let mut m = HashMap::new();
    for i in 0..test_num {
        m.insert(i, -i);
    }
    let mut sum = 0;
    let mut sum1 = 0;
    let mut iter = m.iter();
    while let Some(value) = iter.next() {
        sum += *value.0;
        sum1 += *value.1;
    }
    assert_eq!(sum, test_num * (test_num - 1) / 2);
    assert_eq!(sum1, -test_num * (test_num - 1) / 2);
}

#[test]
fn test_hash_map_iter_mut() {
    let test_num = 100;
    let mut m = HashMap::new();
    for i in 0..test_num {
        m.insert(i, -i);
    }
    {
        let mut iter = m.iter_mut();
        while let Some((_, value)) = iter.next() {
            *value *= 2;
        }
    }
    let mut sum = 0;
    let mut sum1 = 0;
    let mut iter = m.iter();
    while let Some(value) = iter.next() {
        sum += *value.0;
        sum1 += *value.1;
    }
    assert_eq!(sum, test_num * (test_num - 1) / 2);
    assert_eq!(sum1, -test_num * (test_num - 1));
}

#[test]
fn test_hash_map_into_iter() {
    let test_num = 100;
    let mut a = HashMap::new();
    let mut b = HashMap::new();
    for i in 0..test_num as i32 {
        a.insert(i, -i);
    }
    for i in 0..test_num as i32 {
        b.insert(-i, i);
    }
    assert_eq!(a.len(), test_num);
    assert_eq!(b.len(), test_num);
    a.extend(b.into_iter());
    assert_eq!(a.len(), test_num * 2 - 1);
}

#[test]
fn test_hash_map_shrink_to_fit() {
    let cnt = RefCell::new(0);
    let test_num = 200;
    let mut map = HashMap::new();
    for i in 0..test_num {
        map.insert(i, Node { b: &cnt });
    }
    for i in 10..test_num {
        map.remove(&i);
    }
    assert_eq!(*cnt.borrow(), test_num - 10);
    assert!(map.capacity() >= test_num as usize);
    map.shrink_to_fit();
    assert!(map.capacity() < test_num as usize);
    assert!(map.capacity() >= 10);
    assert_eq!(*cnt.borrow(), test_num - 10);
    drop(map);
    assert_eq!(*cnt.borrow(), test_num);
}

#[test]
fn test_hash_map_clone_equal() {
    let mut a = HashMap::new();
    for i in 0..100 {
        a.insert(i, -i);
    }
    let mut b = a.clone();
    assert_eq!(b.len(), a.len());
    let mut iter = a.iter();
    while let Some((k, v)) = iter.next() {
        assert_eq!(*b.get(k).unwrap(), *v);
    }
    assert!(a.eq_map(&b));
    b.remove(&99);
    assert!(!a.eq_map(&b));
}

#[test]
fn test_from_iter() {
    let xs = [(1, 1), (2, 2), (3, 3), (4, 4), (5, 5), (6, 6)];
    let mut map = HashMap::new();
    for &(k, v) in &xs {
        map.insert(k, v);
    }
    for &(k, v) in &xs {
        assert_eq!(map.get(&k), Some(&v));
    }
}

#[test]
fn test_size_hint() {
    let xs = [(1, 1), (2, 2), (3, 3), (4, 4), (5, 5), (6, 6)];
    let mut map = HashMap::new();
    for &(k, v) in &xs {
        map.insert(k, v);
    }
    let mut iter = map.iter();
    for _ in 0..3 {
        iter.next();
    }
    assert_eq!(iter.size_hint(), (3, Some(3)));
}

#[test]
fn test_mut_size_hint() {
    let xs = [(1, 1), (2, 2), (3, 3), (4, 4), (5, 5), (6, 6)];
    let mut map = HashMap::new();
    for &(k, v) in &xs {
        map.insert(k, v);
    }
    let mut iter = map.iter_mut();
    for _ in 0..3 {
        iter.next();
    }
    assert_eq!(iter.size_hint(), (3, Some(3)));
}

#[test]
#[should_panic]
fn test_index_nonexistent() {
    let mut map = HashMap::new();
    map.insert(1, 2);
    map.insert(2, 1);
    map.insert(3, 4);
    map.get(&4).expect("no entry found for key");
}

#[test]
fn test_empty_entry() {
    let mut m: HashMap<isize, bool> = HashMap::new();
    match m.entry(0) {
        Entry::Occupied(_) => panic!(),
        Entry::Vacant(_) => {},
    }
    assert!(*m.entry(0).or_insert(true));
    assert_eq!(m.len(), 1);
}

#[test]
fn test_entry() {
    let xs = [(1, 10), (2, 20), (3, 30), (4, 40), (5, 50), (6, 60)];

    let mut map = HashMap::new();
    for &(k, v) in &xs {
        map.insert(k, v);
    }

    match map.entry(1) {
        Entry::Vacant(_) => unreachable!(),
        Entry::Occupied(mut view) => {
            assert_eq!(view.get(), &10);
            assert_eq!(view.insert(100), 10);
        },
    }
    assert_eq!(map.get(&1).unwrap(), &100);
    assert_eq!(map.len(), 6);

    match map.entry(2) {
        Entry::Vacant(_) => unreachable!(),
        Entry::Occupied(mut view) => {
            let v = view.get_mut();
            let new_v = (*v) * 10;
            *v = new_v;
        },
    }
    assert_eq!(map.get(&2).unwrap(), &200);
    assert_eq!(map.len(), 6);

    match map.entry(3) {
        Entry::Vacant(_) => unreachable!(),
        Entry::Occupied(view) => {
            assert_eq!(view.remove(), 30);
        },
    }
    assert_eq!(map.get(&3), None);
    assert_eq!(map.len(), 5);

    match map.entry(10) {
        Entry::Occupied(_) => unreachable!(),
        Entry::Vacant(view) => {
            assert_eq!(*view.insert(1000), 1000);
        },
    }
    assert_eq!(map.get(&10).unwrap(), &1000);
    assert_eq!(map.len(), 6);
}
