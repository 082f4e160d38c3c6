use lockfree::math::general::{
    extended_gcd, is_prime, isqrt, mod_inverse, mod_pow, prime_factors,
};

#[test]
fn mod_pow_values() {
    assert_eq!(mod_pow(2, 10, 1000), 24);
    assert_eq!(mod_pow(3, 0, 7), 1);
    assert_eq!(mod_pow(5, 3, 1), 0);
    assert_eq!(mod_pow(7, 1, 13), 7);
    assert_eq!(mod_pow(10, 3, 7), 6);
}

#[test]
fn mod_pow_with_a_modulus_above_two_to_the_thirty_two() {
    assert_eq!(mod_pow(2, 64, u64::MAX), 1);
    assert_eq!(mod_pow(u64::MAX - 1, 2, u64::MAX), 1);
}

#[test]
fn isqrt_values() {
    assert_eq!(isqrt(0), 0);
    assert_eq!(isqrt(1), 1);
    assert_eq!(isqrt(2), 1);
    assert_eq!(isqrt(15), 3);
    assert_eq!(isqrt(16), 4);
    assert_eq!(isqrt(17), 4);
    assert_eq!(isqrt(1_000_000), 1000);
    assert_eq!(isqrt(u64::MAX), 4_294_967_295);
}

#[test]
fn prime_factors_values() {
    assert_eq!(prime_factors(1), Vec::<u64>::new());
    assert_eq!(prime_factors(2), vec![2]);
    assert_eq!(prime_factors(360), vec![2, 2, 2, 3, 3, 5]);
    assert_eq!(prime_factors(97), vec![97]);
    assert_eq!(prime_factors(5 * 5 * 7 * 11 * 11), vec![5, 5, 7, 11, 11]);
    assert_eq!(prime_factors(3 * 1_000_000_007), vec![3, 1_000_000_007]);
    assert_eq!(prime_factors(1 << 40), vec![2; 40]);
}

#[test]
fn is_prime_values() {
    assert!(!is_prime(0));
    assert!(!is_prime(1));
    assert!(is_prime(2));
    assert!(is_prime(3));
    assert!(!is_prime(4));
    assert!(!is_prime(25));
    assert!(is_prime(97));
    assert!(!is_prime(561));
    assert!(is_prime(1_000_000_007));
    assert!(!is_prime(3_215_031_751));
    assert!(is_prime(18_446_744_073_709_551_557));
    assert!(!is_prime(u64::MAX));
}

#[test]
fn extended_gcd_values() {
    assert_eq!(extended_gcd(240, 46), (2, -9, 47));
    assert_eq!(extended_gcd(0, 5), (5, 0, 1));
    assert_eq!(extended_gcd(-12, 18), (6, 1, 1));
    assert_eq!(extended_gcd(7, -3), (1, 1, 2));
    assert_eq!(extended_gcd(35, 15), (5, 1, -2));
}

#[test]
fn mod_inverse_values() {
    assert_eq!(mod_inverse(3, 11), Some(4));
    assert_eq!(mod_inverse(10, 17), Some(12));
    assert_eq!(mod_inverse(2, 4), None);
    assert_eq!(mod_inverse(-3, 11), None);
    assert_eq!(mod_inverse(3, -11), Some(-7));
}
