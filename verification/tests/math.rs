use kyopro::math::{ext_gcd, gcd, lcm, sqrti, Integer};

#[test]
fn test_gcd_signed() {
    assert_eq!(12i8.gcd(&8), 4);
    assert_eq!(0i32.gcd(&3), 3);
    assert_eq!(3i64.gcd(&3), 3);
    assert_eq!(3isize.gcd(&-3), 3);
    assert_eq!((-4i32).gcd(&-2), 2);
    assert_eq!(0i32.gcd(&0), 0);
    assert_eq!((-7i64).gcd(&0), 7);
}

#[test]
fn test_gcd_unsigned() {
    assert_eq!(12u8.gcd(&8), 4);
    assert_eq!(0u32.gcd(&3), 3);
    assert_eq!(3u64.gcd(&3), 3);
    assert_eq!(17usize.gcd(&5), 1);
    assert_eq!(0usize.gcd(&0), 0);
}

#[test]
fn test_gcd_lcm_functions() {
    assert_eq!(gcd(2394i64, 714), 42);
    assert_eq!(gcd(714u32, 2394), 42);
    assert_eq!(lcm(4u64, 6), 12);
    assert_eq!(lcm(21i32, 6), 42);
    assert_eq!(lcm(0i32, 5), 0);
    assert_eq!(lcm(7usize, 7), 7);
}

#[test]
fn test_sqrti() {
    assert_eq!(sqrti(0), 0);
    assert_eq!(sqrti(1), 1);
    assert_eq!(sqrti(3), 1);
    assert_eq!(sqrti(4), 2);
    assert_eq!(sqrti(99), 9);
    assert_eq!(sqrti(100), 10);
    assert_eq!(sqrti(1_000_000_007), 31622);
    assert_eq!(sqrti(usize::MAX), (1usize << (usize::BITS / 2)) - 1);
    for x in 0..2000usize {
        let v = sqrti(x);
        assert!(v * v <= x && x < (v + 1) * (v + 1));
    }
}

#[test]
fn test_ext_gcd() {
    assert_eq!(ext_gcd(3, 5), (2, -1, 1));
    assert_eq!(ext_gcd(8, 12), (-1, 1, 4));
    assert_eq!(ext_gcd(2394, 714), (3, -10, 42));
    assert_eq!(ext_gcd(7, 0), (1, 0, 7));
    assert_eq!(ext_gcd(0, 7), (0, 1, 7));
    assert_eq!(ext_gcd(0, 0), (1, 0, 0));
    let (p, q, g) = ext_gcd(i64::MAX, i64::MAX - 1);
    assert_eq!(g, 1);
    assert_eq!(i64::MAX as i128 * p as i128 + (i64::MAX - 1) as i128 * q as i128, 1);
}

#[test]
fn ext_gcd_of_negative_numbers() {
    assert_eq!(ext_gcd(-3, 5), (2, 1, -1));
    assert_eq!(ext_gcd(5, -3), (1, 2, -1));
    assert_eq!(ext_gcd(-8, 12), (1, 1, 4));
    assert_eq!(ext_gcd(-7, 0), (1, 0, -7));
    for a in -20i64..=20 {
        for b in -20i64..=20 {
            let (p, q, g) = ext_gcd(a, b);
            assert_eq!(a * p + b * q, g);
            assert_eq!(g.abs(), gcd(a, b));
        }
    }
}

#[test]
fn sqrti_is_exact_near_squares() {
    for v in [1usize, 2, 3, 10, 1000, 65535, 65536, 3_037_000_499] {
        assert_eq!(sqrti(v * v), v);
        assert_eq!(sqrti(v * v - 1), v - 1);
        assert_eq!(sqrti(v * v + 1), v);
    }
    assert_eq!(sqrti(usize::MAX), 4_294_967_295);
}
