use kyopro::data_structures::range_freq::RangeFreq;

#[test]
fn test_range_freq() {
    let data = vec![
        1, 5, 3, 6, 1, //
        10, 9, 4, 10, 2,
    ];
    let rf = RangeFreq::new(&data);
    assert_eq!(rf.query(0, 1, 1), 0);
    assert_eq!(rf.query(0, 1, 2), 1);

    assert_eq!(rf.query(0, 4, 3), 1);
    assert_eq!(rf.query(0, 4, 4), 2);
    assert_eq!(rf.query(0, 4, 7), 4);

    assert_eq!(rf.query(5, 8, 9), 1);
    assert_eq!(rf.query(5, 8, 10), 2);
    assert_eq!(rf.query(5, 8, 11), 3);

    assert_eq!(rf.query(8, 10, 2), 0);
    assert_eq!(rf.query(8, 10, 3), 1);
    assert_eq!(rf.query(8, 10, 10), 1);
    assert_eq!(rf.query(8, 10, 11), 2);
}

#[test]
fn test_range_freq_against_counting() {
    let data = vec![1, 5, 3, 6, 1];
    let rf = RangeFreq::new(&data);
    assert_eq!(rf.query(1, 5, 3), 1);
    assert_eq!(rf.query(1, 5, 5), 2);
    for a in 0..8 {
        for b in 0..8 {
            for x in 0..8 {
                let want = (a..b).filter(|&i| i < data.len() && data[i] < x).count();
                assert_eq!(rf.query(a, b, x), want);
            }
        }
    }
    let two = RangeFreq::new(&[7, 7]);
    assert_eq!(two.query(0, 2, 7), 0);
    assert_eq!(two.query(0, 2, 8), 2);
}
