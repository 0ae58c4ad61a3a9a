use kyopro::utils::{lower_bound, pmod, upper_bound, OrdF, SetMinMax};
use std::cmp::Ordering;

#[test]
fn test_lb() {
    let a = [1, 2, 4, 8];
    assert_eq!(lower_bound(&a, &0), 0);
    assert_eq!(lower_bound(&a, &1), 0);
    assert_eq!(lower_bound(&a, &2), 1);
    assert_eq!(lower_bound(&a, &3), 2);
    assert_eq!(lower_bound(&a, &8), 3);
    assert_eq!(lower_bound(&a, &9), 4);
}

#[test]
fn test_ub() {
    let a = [1, 2, 4, 8];
    assert_eq!(upper_bound(&a, &0), 0);
    assert_eq!(upper_bound(&a, &1), 1);
    assert_eq!(upper_bound(&a, &3), 2);
    assert_eq!(upper_bound(&a, &7), 3);
    assert_eq!(upper_bound(&a, &8), 4);
}

#[test]
fn test_bounds_on_repeats_and_empty() {
    let a = [1, 3, 3, 3, 5];
    assert_eq!(lower_bound(&a, &3), 1);
    assert_eq!(upper_bound(&a, &3), 4);
    let e: [i32; 0] = [];
    assert_eq!(lower_bound(&e, &3), 0);
    assert_eq!(upper_bound(&e, &3), 0);
}

#[test]
fn test_pmod() {
    assert_eq!(pmod(7i64, 5), 2);
    assert_eq!(pmod(-7i64, 5), 3);
    assert_eq!(pmod(-5i64, 5), 0);
    assert_eq!(pmod(0i64, 5), 0);
    assert_eq!(pmod(12u32, 5), 2);
}

#[test]
fn test_setmin_setmax() {
    let mut x = 5;
    assert!(x.setmin(3));
    assert_eq!(x, 3);
    assert!(!x.setmin(3));
    assert!(!x.setmin(4));
    assert_eq!(x, 3);
    assert!(x.setmax(9));
    assert_eq!(x, 9);
    assert!(!x.setmax(9));
    assert!(!x.setmax(1));
    assert_eq!(x, 9);
    let mut f = 1.5f64;
    assert!(f.setmax(2.5));
    assert!(!f.setmin(f64::NAN));
    assert_eq!(f, 2.5);
}

#[test]
fn ord_f_compares_by_the_value_inside() {
    assert_eq!(OrdF(1).cmp(&OrdF(2)), Ordering::Less);
    assert_eq!(OrdF(2).cmp(&OrdF(2)), Ordering::Equal);
    assert_eq!(OrdF(3).cmp(&OrdF(2)), Ordering::Greater);
    assert!(OrdF(1) < OrdF(2));
    assert!(OrdF(2) == OrdF(2));
    assert!(OrdF(1.5) < OrdF(2.5));
    assert_eq!(OrdF(2.5).cmp(&OrdF(1.5)), Ordering::Greater);
    assert_eq!(OrdF(f64::NAN).partial_cmp(&OrdF(1.0)), None);
}
