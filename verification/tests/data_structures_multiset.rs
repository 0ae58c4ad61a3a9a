use kyopro::data_structures::multiset::MultiSet;

#[test]
fn multiset_it_works() {
    let mut st = MultiSet::new();
    st.insert(1usize);
    st.insert(2);
    st.insert(2);
    assert_eq!(st.len(), 3);
    st.erase(2);
    assert_eq!(st.len(), 2);
    assert!(st.contains(&1));
    assert!(st.contains(&2));
    assert!(!st.contains(&3));
}

#[test]
fn multiset_test_get_max() {
    let mut st = MultiSet::new();
    st.insert(1);
    st.insert(2);
    assert_eq!(st.get_max(), Some(2));
    st.erase(2);
    assert_eq!(st.get_max(), Some(1));
    st.erase(1);
    assert_eq!(st.get_max(), None);
}

#[test]
fn multiset_test_get_min() {
    let mut st = MultiSet::new();
    st.insert(1);
    st.insert(2);
    assert_eq!(st.get_min(), Some(1));
    st.erase(1);
    assert_eq!(st.get_min(), Some(2));
    st.erase(2);
    assert_eq!(st.get_min(), None);
}

#[test]
fn multiset_test_to_vec() {
    let mut st = MultiSet::new();
    st.insert(1usize);
    assert_eq!(st.to_vec(), vec![1]);
    st.insert(2);
    st.insert(2);
    assert_eq!(st.to_vec(), vec![1, 2, 2]);
}

#[test]
fn test_find_first_last() {
    let mut st = MultiSet::new();
    st.insert(2usize);
    st.insert(2usize);
    st.insert(2usize);
    st.insert(4usize);
    st.insert(4usize);
    assert_eq!(st.find_first(&3), Some(4));
    assert_eq!(st.find_first(&4), Some(4));
    assert_eq!(st.find_first(&5), None);

    assert_eq!(st.find_last(&3), Some(2));
    assert_eq!(st.find_last(&2), Some(2));
    assert_eq!(st.find_last(&1), None);
}

#[test]
fn multiset_counts_occurrences() {
    let mut st = MultiSet::new();
    for v in [5, 3, 5, 5, 1, 3] {
        st.insert(v);
    }
    assert_eq!(st.len(), 6);
    assert_eq!(st.unique_len(), 3);
    assert_eq!(st.to_vec(), vec![1, 3, 3, 5, 5, 5]);
    st.erase(5);
    st.erase(7);
    assert_eq!(st.len(), 5);
    assert_eq!(st.unique_len(), 3);
    st.erase(1);
    assert_eq!(st.unique_len(), 2);
    assert!(!st.contains(&1));
    assert_eq!(st.to_vec(), vec![3, 3, 5, 5]);
    assert_eq!(st.get_min(), Some(3));
    assert_eq!(st.get_max(), Some(5));
}
