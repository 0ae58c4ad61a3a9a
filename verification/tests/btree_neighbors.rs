use kyopro::data_structures::btree_neighbors::{MapNeighbors, Neighbors};
use std::collections::{BTreeMap, BTreeSet};

#[test]
fn test_set_impl() {
    let set = BTreeSet::from([2, 4, 6, 8, 10]);
    assert_eq!(set.find_first(&2), Some(&2));
    assert_eq!(set.find_first(&3), Some(&4));
    assert_eq!(set.find_first(&10), Some(&10));
    assert_eq!(set.find_first(&11), None);
}

#[test]
fn test_set_impl_rev() {
    let set = BTreeSet::from([2, 4, 6, 8, 10]);
    assert_eq!(set.find_last(&10), Some(&10));
    assert_eq!(set.find_last(&9), Some(&8));
    assert_eq!(set.find_last(&2), Some(&2));
    assert_eq!(set.find_last(&1), None);
}

#[test]
fn test_map_impl() {
    let mut mp = BTreeMap::new();
    mp.insert(2, 1);
    mp.insert(4, 2);
    mp.insert(8, 3);

    assert_eq!(mp.find_first(&2), Some((&2, &1)));
    assert_eq!(mp.find_first(&3), Some((&4, &2)));
    assert_eq!(mp.find_first(&8), Some((&8, &3)));
    assert_eq!(mp.find_first(&9), None);
}

#[test]
fn test_map_impl_rev() {
    let mut mp = BTreeMap::new();
    mp.insert(2, 1);
    mp.insert(4, 2);
    mp.insert(8, 3);

    assert_eq!(mp.find_last(&8), Some((&8, &3)));
    assert_eq!(mp.find_last(&7), Some((&4, &2)));
    assert_eq!(mp.find_last(&2), Some((&2, &1)));
    assert_eq!(mp.find_last(&1), None);
}

#[test]
fn test_neighbors_of_empty() {
    let set: BTreeSet<i32> = BTreeSet::new();
    assert_eq!(set.find_first(&0), None);
    assert_eq!(set.find_last(&0), None);
    let mp: BTreeMap<i32, i32> = BTreeMap::new();
    assert_eq!(mp.find_first(&0), None);
    assert_eq!(mp.find_last(&0), None);
}
