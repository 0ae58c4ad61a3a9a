use kyopro::bounded_sorted_list::BoundedSortedList;

#[test]
fn test_bounded_sorted_list() {
    let mut lst = BoundedSortedList::new(3);
    lst.insert(3, 13);
    lst.insert(2, 12);
    lst.insert(4, 14);
    assert_eq!(lst.list(), [(2, 12), (3, 13), (4, 14)]);
    lst.insert(5, 15);
    assert_eq!(lst.list(), [(2, 12), (3, 13), (4, 14)]);
    lst.insert(1, 11);
    assert_eq!(lst.list(), [(1, 11), (2, 12), (3, 13)]);
}

#[test]
fn test_bounded_sorted_list_edges() {
    let mut lst = BoundedSortedList::new(2);
    assert_eq!(lst.len(), 0);
    assert!(lst.can_insert(9));
    lst.insert(5, "five");
    lst.insert(7, "seven");
    assert_eq!(lst.len(), 2);
    assert!(!lst.can_insert(7));
    assert!(!lst.can_insert(8));
    assert!(lst.can_insert(6));
    lst.insert(7, "again");
    assert_eq!(lst.list(), [(5, "five"), (7, "seven")]);
    lst.insert(5, "more");
    assert_eq!(lst.list(), [(5, "five"), (5, "more")]);
    assert_eq!(lst.len(), 2);
}
