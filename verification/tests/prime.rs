use kyopro::math::prime::LinearSieve;

#[test]
fn test_prime() {
    let sieve = LinearSieve::new(10101);
    let mut p = vec![false; 100];
    for i in 2..100 {
        assert_eq!(sieve.is_prime(i), !p[i]);
        if i * i < 100 {
            for j in 1..100 {
                if i * j < 100 {
                    p[i * j] = true;
                }
            }
        }
    }
}

#[test]
fn test_prime_factors() {
    let sieve = LinearSieve::new(10101);
    let res360 = sieve.factors(360);
    assert_eq!(res360, vec![2, 2, 2, 3, 3, 5]);
    let res720pairs = sieve.factor_pairs(720);
    assert_ne!(res720pairs, [(2, 3), (3, 2), (5, 1)]);
}

#[test]
fn test_sieve_edges() {
    let sieve = LinearSieve::new(30);
    assert!(!sieve.is_prime(0));
    assert!(!sieve.is_prime(1));
    assert!(sieve.is_prime(2));
    assert!(sieve.is_prime(29));
    assert!(!sieve.is_prime(30));
    assert_eq!(sieve.primes(), &vec![2, 3, 5, 7, 11, 13, 17, 19, 23, 29]);
    assert_eq!(sieve.factors(0), Vec::<usize>::new());
    assert_eq!(sieve.factors(1), Vec::<usize>::new());
    assert_eq!(sieve.factors(13), vec![13]);
    assert_eq!(sieve.factors(12), vec![2, 2, 3]);
    assert_eq!(sieve.factor_pairs(12), vec![(2, 2), (3, 1)]);
    assert_eq!(sieve.factor_pairs(1), vec![]);
    assert_eq!(sieve.factor_pairs(27), vec![(3, 3)]);
    assert_eq!(LinearSieve::new(0).primes(), &Vec::<usize>::new());
    assert_eq!(LinearSieve::new(2).primes(), &vec![2]);
}
