use kyopro::multiset::MultiSet;

#[test]
fn lib_it_works() {
    let mut st = MultiSet::new();
    st.insert(1usize);
    st.insert(2);
    st.insert(2);
    assert_eq!(st.len(), 3);
    st.erase(2);
    assert_eq!(st.len(), 2);
    assert!(st.contains(&1));
    assert!(st.contains(&2));
    assert!(!st.contains(&3));
}

#[test]
fn lib_test_get_max() {
    let mut st = MultiSet::new();
    st.insert(1);
    st.insert(2);
    assert_eq!(st.get_max(), Some(2));
    st.erase(2);
    assert_eq!(st.get_max(), Some(1));
    st.erase(1);
    assert_eq!(st.get_max(), None);
}

#[test]
fn lib_test_get_min() {
    let mut st = MultiSet::new();
    st.insert(1);
    st.insert(2);
    assert_eq!(st.get_min(), Some(1));
    st.erase(1);
    assert_eq!(st.get_min(), Some(2));
    st.erase(2);
    assert_eq!(st.get_min(), None);
}

#[test]
fn lib_test_to_vec() {
    let mut st = MultiSet::new();
    st.insert(1usize);
    assert_eq!(st.to_vec(), vec![1]);
    st.insert(2);
    st.insert(2);
    assert_eq!(st.to_vec(), vec![1, 2, 2]);
}
