use kyopro::string::rolling_hash::{
    contains, hash, push_back, push_front, CalcMod, CalcPow, Mul, MulMod, Sub, B, MOD,
};

#[test]
fn test_rolling_hash() {
    let a = [2, 100, 5005];
    let ah = hash(&a);
    {
        let mut h = 0;
        for &v in &a {
            h = push_back(h, v);
        }
        assert_eq!(ah, h);
    }
    {
        let mut h = 0;
        for (i, &v) in a.iter().rev().enumerate() {
            h = push_front(h, i, v);
        }
        assert_eq!(ah, h);
    }
}

#[test]
fn test_rolling_hash_contains() {
    let a = [2, 100, 5005];
    let b_true1 = [1, 2, 2, 100, 5005];
    let b_true2 = [2, 100, 5005, 1, 2];
    let b_false1 = [2, 100, 5004];
    let b_false2 = [1, 100, 5005];
    let b_false3 = [2, 100];
    assert!(contains(&a, &a));
    assert!(contains(&a, &b_true1));
    assert!(contains(&a, &b_true2));
    assert!(!contains(&a, &b_false1));
    assert!(!contains(&a, &b_false2));
    assert!(!contains(&a, &b_false3));
}

#[test]
fn test_modular_arithmetic() {
    let m = MOD as u128;
    assert_eq!(MOD, (1u64 << 61) - 1);
    assert_eq!(CalcMod(0), 0);
    assert_eq!(CalcMod(MOD), 0);
    assert_eq!(CalcMod(MOD + 5), 5);
    assert_eq!(CalcMod(u64::MAX), (u64::MAX as u128 % m) as u64);
    let pairs = [(0u64, 7u64), (MOD, MOD), (MOD - 1, MOD - 1), (123456789012345678, 987654321098765432 % MOD), (B, B)];
    for (a, b) in pairs {
        let want = (a as u128 * b as u128 % m) as u64;
        assert_eq!(Mul(a, b) as u128 % m, want as u128);
        assert_eq!(MulMod(a, b), want);
    }
    assert_eq!(Sub(5, 7), MOD - 2);
    assert_eq!(Sub(7, 5), 2);
    assert_eq!(Sub(0, 0), 0);
    assert_eq!(CalcPow(3, 0), 1);
    assert_eq!(CalcPow(3, 1), 3);
    assert_eq!(CalcPow(3, 5), 243);
    assert_eq!(CalcPow(2, 61), 1);
    assert_eq!(CalcPow(2, 62), 2);
    let mut want = 1u128;
    for _ in 0..1000 {
        want = want * B as u128 % m;
    }
    assert_eq!(CalcPow(B, 1000) as u128, want);
}

#[test]
fn test_hash_is_the_polynomial() {
    let m = MOD as u128;
    let s = [7u64, 0, 3, 99];
    let mut want = 0u128;
    for &v in &s {
        want = (want * B as u128 + v as u128) % m;
    }
    assert_eq!(hash(&s) as u128, want);
    assert_eq!(hash(&[]), 0);
    assert!(!contains(&[], &[]));
    assert!(contains(&[], &[1]));
    assert!(contains(&[3, 99], &s));
    assert!(!contains(&[99, 3], &s));
}
