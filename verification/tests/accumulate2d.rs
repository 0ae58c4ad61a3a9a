use kyopro::accumulate2d::Accumulate2D;

#[test]
fn test_accumurate() {
    let mut acc = Accumulate2D::new(3, 3, 0i32);
    for i in 0..3 {
        for j in 0..3 {
            acc.set(i, j, (i * 3 + j) as i32);
        }
    }
    acc.build();
    assert_eq!(acc.query(0, 1, 0, 1), 0);
    assert_eq!(acc.query(2, 3, 2, 3), 8);
    assert_eq!(acc.query(0, 3, 0, 3), 36);
    assert_eq!(acc.query(0, 1, 0, 3), 3);
    assert_eq!(acc.query(1, 3, 1, 3), 24);
}

#[test]
fn test_accumulate_add_and_empty_rectangles() {
    let mut acc = Accumulate2D::new(2, 3, 0i64);
    acc.add(0, 0, 5);
    acc.add(0, 0, 7);
    acc.add(1, 2, -4);
    acc.set(1, 1, 10);
    acc.build();
    assert_eq!(acc.query(0, 1, 0, 1), 12);
    assert_eq!(acc.query(0, 2, 0, 3), 18);
    assert_eq!(acc.query(1, 2, 1, 3), 6);
    assert_eq!(acc.query(1, 1, 0, 3), 0);
    assert_eq!(acc.query(0, 2, 2, 2), 0);
}

#[test]
fn test_accumulate_offset_cancels() {
    let mut acc = Accumulate2D::new(2, 2, 3u64);
    acc.build();
    assert_eq!(acc.query(0, 2, 0, 2), 12);
    assert_eq!(acc.query(0, 1, 1, 2), 3);
}
