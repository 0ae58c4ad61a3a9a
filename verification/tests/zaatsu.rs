use kyopro::zaatsu::Zaatsu;

#[test]
fn test1() {
    let vals = vec![3, 5, 7, 1];
    let mut ordered = vals.clone();
    ordered.sort();
    let mut za = Zaatsu::new();
    for &v in &vals {
        za.add(v);
    }
    za.init();
    for i in 0..vals.len() {
        assert_eq!(i, za.index(&ordered[i]));
        assert_eq!(ordered[i], *za.at(i));
    }
}

#[test]
fn test_has_duplicate_values() {
    let vals = vec![3, 5, 5, 2, 1, 2, 5, 4, 4];
    let mut ordered = vals.clone();
    ordered.sort();
    let mut uniq = ordered.clone();
    uniq.dedup();
    let mut za = Zaatsu::new();
    for &v in &vals {
        za.add(v);
    }
    za.init();
    for i in 0..uniq.len() {
        assert_eq!(i, za.index(&uniq[i]));
        assert_eq!(uniq[i], *za.at(i));
    }
}

#[test]
fn test_zaatsu_ranks() {
    let mut za = Zaatsu::new();
    for v in [30, 10, 20, 10] {
        za.add(v);
    }
    za.init();
    assert_eq!(za.size(), 3);
    assert_eq!(za.index(&10), 0);
    assert_eq!(za.index(&20), 1);
    assert_eq!(za.index(&25), 1);
    assert_eq!(za.index(&30), 2);
    assert_eq!(za.index(&99), 2);
    assert_eq!(za.index(&5), 0);
    let mut empty: Zaatsu<i32> = Zaatsu::new();
    empty.init();
    assert_eq!(empty.size(), 0);
    assert_eq!(empty.index(&1), 0);
}

#[test]
fn zaatsu_add_after_init_needs_another_init() {
    let mut za = Zaatsu::new();
    za.add(5);
    za.add(3);
    za.add(5);
    za.init();
    assert_eq!(za.size(), 2);
    assert_eq!(za.index(&3), 0);
    assert_eq!(za.index(&5), 1);
    za.add(4);
    assert_eq!(za.size(), 3);
    za.init();
    assert_eq!(za.size(), 3);
    assert_eq!(za.index(&3), 0);
    assert_eq!(za.index(&4), 1);
    assert_eq!(za.index(&5), 2);
    assert_eq!(za.index(&100), 2);
    assert_eq!(za.index(&0), 0);
}
