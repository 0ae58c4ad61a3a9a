use kyopro::data_structures::range_space::RangeSpace;

#[test]
fn test_add_space() {
    let mut rs = RangeSpace::new(10000i32);
    let _ = rs.add_range(1, 3);
    assert!(rs.holds(1, 3));
    assert_eq!(rs.len(), 1);

    let _ = rs.add_range(3, 5);
    assert!(rs.holds(1, 5));
    assert_eq!(rs.len(), 1);

    let _ = rs.add_range(8, 10);
    assert!(rs.holds(8, 10));
    assert_eq!(rs.len(), 2);

    let _ = rs.add_range(6, 8);
    assert!(rs.holds(1, 5));
    assert!(rs.holds(6, 10));
    assert_eq!(rs.len(), 2);

    let _ = rs.add_range(5, 6);
    assert!(rs.holds(1, 10));
    assert_eq!(rs.len(), 1);
}

#[test]
fn test_add_space_err() {
    let mut rs = RangeSpace::new(10000i32);
    let _ = rs.add_range(10, 20);
    assert!(rs.add_range(10, 11).is_err());
    assert!(rs.add_range(19, 20).is_err());

    assert!(rs.add_range(9, 10).is_ok());
    assert!(rs.add_range(20, 21).is_ok());
}

#[test]
fn test_use_range() {
    let mut rs = RangeSpace::new(10000i32);
    let _ = rs.add_range(1, 10);
    assert!(rs.use_range(1, 2).is_ok());
    assert!(rs.holds(2, 10));
    assert_eq!(rs.len(), 1);

    assert!(rs.use_range(3, 5).is_ok());
    assert!(rs.holds(5, 10));
    assert!(rs.holds(2, 3));
    assert_eq!(rs.len(), 2);

    assert!(rs.use_range(9, 10).is_ok());
    assert!(rs.holds(5, 9));
    assert!(rs.holds(2, 3));
    assert_eq!(rs.len(), 2);

    assert!(rs.use_range(1, 2).is_err());
}

#[test]
fn test_first_point() {
    let mut rs = RangeSpace::new(10000i32);
    let _ = rs.add_range(3, 5);
    let _ = rs.add_range(8, 15);
    assert_eq!(rs.find_first_point(2), Some(3));
    assert_eq!(rs.find_first_point(3), Some(3));
    assert_eq!(rs.find_first_point(5), Some(8));
    assert_eq!(rs.find_first_point(10), Some(10));
    assert_eq!(rs.find_first_point(15), None);
}

#[test]
fn test_range_space_walkthrough() {
    let mut rs = RangeSpace::new(1001000100i32);
    assert_eq!(rs.add_range(10, 100), Ok(()));
    assert_eq!(rs.find_first_point(2), Some(10));
    assert_eq!(rs.find_first_point(100), None);
    assert_eq!(rs.use_range(45, 55), Ok(()));
    assert_eq!(rs.find_first_point(50), Some(55));
    assert_eq!(rs.find_first_range(50), Some((55, 100)));
    assert_eq!(rs.find_first_range(44), Some((10, 45)));
    assert_eq!(rs.find_first_range(100), None);
}

#[test]
fn test_range_space_errors() {
    let mut rs = RangeSpace::new(100i32);
    assert_eq!(rs.add_range(90, 101), Err("r が inf を超えています".to_string()));
    assert_eq!(rs.add_range(90, 100), Ok(()));
    assert_eq!(rs.add_range(80, 91), Err("区間が重複しています".to_string()));
    assert_eq!(rs.add_range(95, 97), Err("区間が重複しています".to_string()));
    assert_eq!(rs.add_range(99, 101), Err("r が inf を超えています".to_string()));
    assert_eq!(rs.use_range(80, 95), Err("not found space".to_string()));
    assert_eq!(rs.use_range(95, 101), Err("not found space".to_string()));
    assert_eq!(rs.len(), 1);
    assert!(rs.holds(90, 100));
    assert_eq!(rs.use_range(90, 100), Ok(()));
    assert_eq!(rs.len(), 0);
}
