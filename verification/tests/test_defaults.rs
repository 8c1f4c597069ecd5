use defaultdict::DefaultBTreeMap;
use defaultdict::DefaultHashMap;

use std::collections::hash_map::RandomState;

#[test]
fn absent_get_returns_default_btree() {
    let mut map = DefaultBTreeMap::<i8, i8>::new();
    map.insert(10, 20);

    assert_eq!(&0, map.get(&1));
    assert_eq!(&20, map.get(&10));
    assert_eq!(1, map.len());
}

#[test]
fn absent_get_returns_default_hashmap() {
    let mut map = DefaultHashMap::<i8, i8>::new();
    map.insert(10, 20);

    assert_eq!(&0, map.get(&1));
    assert_eq!(&20, map.get(&10));
    assert_eq!(1, map.len());
}

#[test]
fn remove_on_empty_keeps_empty_btree() {
    let mut map = DefaultBTreeMap::<i8, i8>::new();
    assert_eq!(0, map.remove(&1));
    assert!(map.is_empty());
}

#[test]
fn remove_on_empty_keeps_empty_hashmap() {
    let mut map = DefaultHashMap::<i8, i8>::new();
    assert_eq!(0, map.remove(&1));
    assert!(map.is_empty());
}

#[test]
fn repeated_get_is_stable_btree() {
    let map = DefaultBTreeMap::<i8, String>::new();
    let first = map.get(&7).clone();
    let second = map.get(&7).clone();
    assert_eq!(first, second);
    assert_eq!(0, map.len());
}

#[test]
fn repeated_get_is_stable_hashmap() {
    let map = DefaultHashMap::<i8, String>::new();
    let first = map.get(&7).clone();
    let second = map.get(&7).clone();
    assert_eq!(first, second);
    assert_eq!(0, map.len());
}

#[test]
fn get_mut_materializes_btree() {
    let mut map = DefaultBTreeMap::<i8, i8>::new();
    assert!(!map.contains_key(&4));

    let handle = map.get_mut(&4);
    assert_eq!(&0, &*handle);

    assert!(map.contains_key(&4));
    assert_eq!(1, map.len());

    let again = map.get_mut(&4);
    *again = 9;
    assert_eq!(1, map.len());
    assert_eq!(&9, map.get(&4));
}

#[test]
fn get_mut_materializes_hashmap() {
    let mut map = DefaultHashMap::<i8, i8>::new();
    assert!(!map.contains_key(&4));

    let handle = map.get_mut(&4);
    assert_eq!(&0, &*handle);

    assert!(map.contains_key(&4));
    assert_eq!(1, map.len());

    let again = map.get_mut(&4);
    *again = 9;
    assert_eq!(1, map.len());
    assert_eq!(&9, map.get(&4));
}

#[test]
fn remove_present_shrinks_btree() {
    let mut map = DefaultBTreeMap::<i8, i8>::new();
    map.insert(1, 11);
    map.insert(2, 22);
    assert_eq!(11, map.remove(&1));
    assert_eq!(1, map.len());
    assert!(!map.contains_key(&1));
}

#[test]
fn range_scenario_btree() {
    let mut map: DefaultBTreeMap<i8, i8> = DefaultBTreeMap::new();
    for i in 0..20 {
        map.insert(i, i);
    }

    let got: Vec<(i8, i8)> = map.range(2..10);
    let golden: Vec<(i8, i8)> =
        vec![(2, 2), (3, 3), (4, 4), (5, 5), (6, 6), (7, 7), (8, 8), (9, 9)];

    assert_eq!(golden, got);
}

#[test]
fn pop_first_takes_minimum() {
    let mut map = DefaultBTreeMap::<i8, i8>::new();
    map.insert(3, 30);
    map.insert(1, 10);
    map.insert(2, 20);

    assert_eq!(Some((1, 10)), map.pop_first());
    assert_eq!(Some((2, 20)), map.pop_first());
    assert_eq!(Some((3, 30)), map.pop_first());
    assert_eq!(None, map.pop_first());
}

#[test]
fn pop_last_takes_maximum() {
    let mut map = DefaultBTreeMap::<i8, i8>::new();
    map.insert(3, 30);
    map.insert(1, 10);

    assert_eq!(Some((3, 30)), map.pop_last());
    assert_eq!(Some((1, 10)), map.pop_last());
    assert_eq!(None, map.pop_last());
}

#[test]
fn first_and_last_key_value() {
    let mut map = DefaultBTreeMap::<i8, i8>::new();
    assert_eq!(None, map.first_key_value());
    assert_eq!(None, map.last_key_value());

    map.insert(5, 50);
    map.insert(2, 20);
    map.insert(9, 90);

    assert_eq!(Some((&2, &20)), map.first_key_value());
    assert_eq!(Some((&9, &90)), map.last_key_value());
    assert_eq!(3, map.len());
}

#[test]
fn append_prefers_other() {
    let mut map1 = DefaultBTreeMap::<i8, i8>::new();
    let mut map2 = DefaultBTreeMap::<i8, i8>::new();
    map1.insert(1, 10);
    map1.insert(2, 20);
    map2.insert(2, 120);
    map2.insert(3, 125);

    map1.append(&mut map2);

    assert!(map2.is_empty());
    assert_eq!(&10, map1.get(&1));
    assert_eq!(&120, map1.get(&2));
    assert_eq!(&125, map1.get(&3));
    assert_eq!(3, map1.len());
}

#[test]
fn split_off_empty_map() {
    let mut map = DefaultBTreeMap::<i8, i8>::new();
    let rest = map.split_off(&5);
    assert!(map.is_empty());
    assert!(rest.is_empty());
}

#[test]
fn split_off_boundary_key_moves() {
    let mut map = DefaultBTreeMap::<i8, i8>::new();
    for i in 0..4 {
        map.insert(i, i);
    }
    let rest = map.split_off(&2);
    assert_eq!(2, map.len());
    assert_eq!(2, rest.len());
    assert!(rest.contains_key(&2));
    assert!(rest.contains_key(&3));
    assert!(map.contains_key(&0));
    assert!(map.contains_key(&1));
}

#[test]
fn into_keys_is_sorted_btree() {
    let mut map = DefaultBTreeMap::<i8, i8>::new();
    map.insert(9, 1);
    map.insert(3, 2);
    map.insert(7, 3);

    let keys: Vec<i8> = map.into_keys();
    assert_eq!(vec![3, 7, 9], keys);
}

#[test]
fn into_values_is_key_sorted_btree() {
    let mut map = DefaultBTreeMap::<i8, i8>::new();
    map.insert(9, 1);
    map.insert(3, 2);
    map.insert(7, 5);

    let values: Vec<i8> = map.into_values();
    assert_eq!(vec![2, 5, 1], values);
}

#[test]
fn round_trip_btree() {
    let mut map = DefaultBTreeMap::<i8, i8>::new();
    map.insert(1, 10);
    map.insert(2, 20);

    let back = DefaultBTreeMap::from(map.clone().into_inner());
    assert_eq!(map, back);
}

#[test]
fn round_trip_hashmap() {
    let mut map = DefaultHashMap::<i8, i8>::new();
    map.insert(1, 10);
    map.insert(2, 20);

    let back = DefaultHashMap::from(map.clone().into_inner());
    assert_eq!(map, back);
}

#[test]
fn drain_leaves_map_empty() {
    let mut map = DefaultHashMap::<i8, i8>::new();
    map.insert(1, 10);
    map.insert(2, 20);

    let mut pairs = map.drain();
    pairs.sort();

    assert!(map.is_empty());
    assert_eq!(vec![(1, 10), (2, 20)], pairs);
    assert_eq!(&0, map.get(&1));
}

#[test]
fn with_hasher_starts_empty() {
    let state = RandomState::new();
    let mut map = DefaultHashMap::<i8, i8, RandomState>::with_hasher(state);
    assert!(map.is_empty());
    map.insert(1, 2);
    assert_eq!(&2, map.get(&1));
}

#[test]
fn capacity_holds_current_entries() {
    let mut map = DefaultHashMap::<i8, i8>::new();
    for i in 0..5 {
        map.insert(i, i);
    }
    assert!(map.capacity() >= map.len());
}

#[test]
fn get_key_value_absent_pairs_query_with_default() {
    let map = DefaultBTreeMap::<i8, i8>::new();
    let key = 42;
    assert_eq!((&42, &0), map.get_key_value(&key));

    let hashed = DefaultHashMap::<i8, i8>::new();
    assert_eq!((&42, &0), hashed.get_key_value(&key));
}

#[test]
fn entry_or_insert_hashmap() {
    let mut map = DefaultHashMap::<i8, i8>::new();
    map.insert(1, 10);

    *map.entry(1).or_insert(99) += 1;
    *map.entry(2).or_insert(99) += 1;

    assert_eq!(&11, map.get(&1));
    assert_eq!(&100, map.get(&2));
}

#[test]
fn into_iter_on_empty_hashmap() {
    let map = DefaultHashMap::<i8, i8>::new();
    let mut it = map.into_iter();
    assert_eq!(None, it.next());
    assert_eq!(None, it.next());
}

#[test]
fn retain_keeps_nothing_or_everything() {
    let mut all = DefaultBTreeMap::<i8, i8>::new();
    let mut none = DefaultBTreeMap::<i8, i8>::new();
    for i in 0..4 {
        all.insert(i, i);
        none.insert(i, i);
    }

    all.retain(|_, _| true);
    none.retain(|_, _| false);

    assert_eq!(4, all.len());
    assert!(none.is_empty());
    assert_eq!(&0, none.get(&1));
}
