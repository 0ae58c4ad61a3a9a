use kyopro::segment_tree2d::SegmentTree2D;

fn seeded() -> SegmentTree2D<usize, fn(usize, usize) -> usize> {
    fn sum(a: usize, b: usize) -> usize {
        a + b
    }
    let mut seg = SegmentTree2D::new(3, 3, sum as fn(usize, usize) -> usize, 0usize);
    for i in 0..3 {
        for j in 0..3 {
            seg.set(i, j, i * 3 + j);
        }
    }
    seg.build();
    seg
}

#[test]
fn test_query() {
    let mut seg = SegmentTree2D::new(3, 3, |a: usize, b: usize| a + b, 0usize);
    for i in 0..3 {
        for j in 0..3 {
            seg.set(i, j, i * 3 + j);
        }
    }
    seg.build();
    assert_eq!(seg.query(0, 1, 0, 1), 0);
    assert_eq!(seg.query(2, 3, 2, 3), 8);
    assert_eq!(seg.query(0, 3, 0, 3), 36);
    assert_eq!(seg.query(0, 1, 0, 3), 3);
    assert_eq!(seg.query(1, 3, 1, 3), 24);
}

#[test]
fn test_update_then_query() {
    let mut seg = seeded();
    seg.update(1, 1, 100);
    assert_eq!(seg.query(0, 3, 0, 3), 132);
    assert_eq!(seg.get(1, 1), 100);
    assert_eq!(seg.query(1, 2, 1, 2), 100);
    assert_eq!(seg.query(0, 1, 0, 3), 3);
}

#[test]
fn test_empty_range_is_identity() {
    let seg = seeded();
    assert_eq!(seg.query(2, 2, 0, 3), 0);
    assert_eq!(seg.query(3, 1, 0, 3), 0);
    assert_eq!(seg.query(0, 3, 1, 1), 0);
    assert_eq!(seg.query(0, 3, 2, 0), 0);
    let fresh = SegmentTree2D::new(2, 2, |a: i64, b: i64| a.min(b), i64::MAX);
    assert_eq!(fresh.query(1, 1, 0, 2), i64::MAX);
}

#[test]
fn test_get_returns_last_write() {
    let mut seg = SegmentTree2D::new(2, 3, |a: u32, b: u32| a.max(b), 0u32);
    seg.set(1, 2, 5);
    assert_eq!(seg.get(1, 2), 5);
    seg.set(1, 2, 6);
    assert_eq!(seg.get(1, 2), 6);
    seg.build();
    assert_eq!(seg.get(1, 2), 6);
    seg.update(1, 2, 4);
    assert_eq!(seg.get(1, 2), 4);
    seg.update(0, 0, 9);
    assert_eq!(seg.get(1, 2), 4);
    assert_eq!(seg.get(0, 0), 9);
    assert_eq!(seg.get(0, 1), 0);
}

#[test]
fn test_update_twice_is_update_once() {
    let mut once = seeded();
    let mut twice = seeded();
    once.update(2, 1, 40);
    twice.update(2, 1, 40);
    twice.update(2, 1, 40);
    for h1 in 0..4 {
        for h2 in 0..4 {
            for w1 in 0..4 {
                for w2 in 0..4 {
                    assert_eq!(once.query(h1, h2, w1, w2), twice.query(h1, h2, w1, w2));
                }
            }
        }
    }
    for h in 0..4 {
        for w in 0..4 {
            assert_eq!(once.get(h, w), twice.get(h, w));
        }
    }
}

#[test]
fn test_build_agrees_with_updates() {
    let built = seeded();
    let mut updated = SegmentTree2D::new(3, 3, |a: usize, b: usize| a + b, 0usize);
    for i in 0..3 {
        for j in 0..3 {
            updated.update(i, j, i * 3 + j);
        }
    }
    for h1 in 0..4 {
        for h2 in 0..4 {
            for w1 in 0..4 {
                for w2 in 0..4 {
                    assert_eq!(built.query(h1, h2, w1, w2), updated.query(h1, h2, w1, w2));
                }
            }
        }
    }
}

#[test]
fn test_query_matches_cell_by_cell_total() {
    let mut seg = SegmentTree2D::new(5, 7, |a: u64, b: u64| a + b, 0u64);
    let value = |i: usize, j: usize| (i * 31 + j * 17 + 3) as u64 % 23;
    for i in 0..5 {
        for j in 0..7 {
            seg.set(i, j, value(i, j));
        }
    }
    seg.build();
    for h1 in 0..=5 {
        for h2 in h1..=5 {
            for w1 in 0..=7 {
                for w2 in w1..=7 {
                    let mut expected = 0u64;
                    for i in h1..h2 {
                        for j in w1..w2 {
                            expected += value(i, j);
                        }
                    }
                    assert_eq!(seg.query(h1, h2, w1, w2), expected);
                }
            }
        }
    }
}

#[test]
fn test_sizes_are_rounded_up_to_powers_of_two() {
    let mut seg = SegmentTree2D::new(3, 5, |a: usize, b: usize| a + b, 0usize);
    seg.set(3, 7, 11);
    seg.build();
    assert_eq!(seg.get(3, 7), 11);
    assert_eq!(seg.query(0, 4, 0, 8), 11);
    assert_eq!(seg.query(0, 3, 0, 5), 0);
    let mut one = SegmentTree2D::new(0, 0, |a: usize, b: usize| a + b, 0usize);
    one.update(0, 0, 4);
    assert_eq!(one.query(0, 1, 0, 1), 4);
}
