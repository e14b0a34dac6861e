use pcgroup::util::{extract_roots, factorize, gcd, is_prime, lcm, mod_inverse};

#[test]
fn test_is_prime() {
    let primes = [2, 3, 5, 7, 11, 13, 17, 19, 23, 29, 31, 97];
    let non_primes = [0, 1, 4, 6, 8, 9, 10, 15, 21, 25, 35, 100];
    for &p in &primes {
        assert!(is_prime(p), "{p} should be prime");
    }
    for &np in &non_primes {
        assert!(!is_prime(np), "{np} should not be prime");
    }
}

#[test]
fn test_factorize() {
    let cases: &[(u32, &[u32])] = &[
        (0, &[]),
        (1, &[]),
        (2, &[2]),
        (3, &[3]),
        (4, &[2, 2]),
        (12, &[2, 2, 3]),
        (60, &[2, 2, 3, 5]),
        (97, &[97]),
        (360, &[2, 2, 2, 3, 3, 5]),
    ];
    for &(n, expected) in cases {
        assert_eq!(factorize(n), expected, "factorization mismatch for {n}");
    }
}

#[test]
fn test_mod_inverse() {
    assert_eq!(mod_inverse(3, 7), Some(5));
    assert_eq!(mod_inverse(2, 5), Some(3));
    assert_eq!(mod_inverse(1, 13), Some(1));
    assert_eq!(mod_inverse(0, 5), None);
    assert_eq!(mod_inverse(2, 4), None);
    assert_eq!(mod_inverse(5, 1), None);
}

#[test]
fn primality_of_large_values() {
    assert!(is_prime(4294967291));
    assert!(!is_prime(4294967295));
    assert!(is_prime(65521));
    assert!(!is_prime(65521 * 3));
    assert_eq!(factorize(4294967291), vec![4294967291]);
    assert_eq!(factorize(2 * 65521), vec![2, 65521]);
}

#[test]
fn gcd_and_lcm_values() {
    assert_eq!(gcd(12, 18), 6);
    assert_eq!(gcd(0, 7), 7);
    assert_eq!(gcd(7, 0), 7);
    assert_eq!(lcm(4, 6), 12);
    assert_eq!(lcm(0, 6), 0);
    assert_eq!(lcm(7, 0), 0);
    // The formula truncates to 32 bits.
    assert_eq!(lcm(65536, 65537), (65536u64 * 65537u64) as u32);
    assert_eq!(mod_inverse(10, 7), Some(5));
    assert_eq!(mod_inverse(6, 9), None);
}

#[test]
fn test_extract_roots() {
    assert_eq!(extract_roots(0, 2, 4), vec![0, 2]);
    assert_eq!(extract_roots(2, 2, 4), vec![1, 3]);
    assert_eq!(extract_roots(0, 3, 6), vec![0, 2, 4]);
    assert_eq!(extract_roots(1, 2, 4), vec![]);
}

#[test]
fn extract_roots_edge_cases() {
    assert_eq!(extract_roots(5, 3, 0), vec![]);
    // p = 0: every c solves 0 * c = 0 (mod e), and nothing solves 0 * c = 1.
    assert_eq!(extract_roots(0, 0, 3), vec![0, 1, 2]);
    assert_eq!(extract_roots(1, 0, 3), vec![]);
    // gcd(3, 7) = 1: the unique root of 3 c = 5 (mod 7) is c = 4.
    assert_eq!(extract_roots(5, 3, 7), vec![4]);
    // s is reduced modulo e first.
    assert_eq!(extract_roots(12, 3, 7), vec![4]);
}
