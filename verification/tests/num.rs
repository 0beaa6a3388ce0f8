use partition_kit::num::PrimeFactorization;

#[test]
fn zero_and_one() {
    let z = PrimeFactorization::zero();
    assert!(z.is_zero());
    assert!(!z.is_one());
    assert!(!z.is_prime());
    assert_eq!(z.val(), 0);
    let o = PrimeFactorization::one();
    assert!(o.is_one());
    assert!(!o.is_zero());
    assert!(!o.is_prime());
    assert_eq!(o.val(), 1);
}

#[test]
fn value_is_product_of_powers() {
    let f = PrimeFactorization::from_primes(vec![(2, 3), (3, 2), (5, 1)]);
    assert_eq!(f.val(), 360);
    assert_eq!(f.prime_factors(), vec![2, 3, 5]);
    assert!(!f.is_prime());
    assert!(PrimeFactorization::from_primes(vec![(7, 2)]).is_prime());
}

#[test]
fn with_p_merges_or_appends() {
    let f = PrimeFactorization::one().with_p(3, 2);
    assert_eq!(f.val(), 9);
    let f = f.with_p(3, 1).with_p(2, 4);
    assert_eq!(f.val(), 27 * 16);
    assert_eq!(f.to_debug_string(), "[[3, 3], [2, 4]]");
}

#[test]
fn display_text() {
    assert_eq!(PrimeFactorization::zero().to_display_string(), "0");
    assert_eq!(PrimeFactorization::one().to_display_string(), "1");
    let f = PrimeFactorization::from_primes(vec![(2, 2), (11, 1)]);
    assert_eq!(f.to_display_string(), "2^2 * 11^1 = 44");
    assert_eq!(PrimeFactorization::zero().to_debug_string(), "[]");
}

#[test]
fn zero_exponent_and_zero_prime() {
    let f = PrimeFactorization::from_primes(vec![(5, 0), (0, 3)]);
    assert_eq!(f.val(), 0);
    let g = PrimeFactorization::from_primes(vec![(0, 0)]);
    assert_eq!(g.val(), 1);
}

#[test]
fn value_fits_checks_powers_and_products() {
    assert!(PrimeFactorization::from_primes(vec![(2, 31)]).value_fits_exec());
    assert!(!PrimeFactorization::from_primes(vec![(2, 32)]).value_fits_exec());
    assert!(!PrimeFactorization::from_primes(vec![(65536, 1), (65536, 1)]).value_fits_exec());
    assert!(PrimeFactorization::from_primes(vec![(65535, 1), (65537, 1)]).value_fits_exec());
    assert!(PrimeFactorization::zero().value_fits_exec());
}

#[test]
fn with_p_twice_adds_exponents() {
    let a = PrimeFactorization::from_primes(vec![(3, 1), (5, 2)]).with_p(5, 1).with_p(5, 2);
    let b = PrimeFactorization::from_primes(vec![(3, 1), (5, 2)]).with_p(5, 3);
    assert_eq!(a.to_debug_string(), b.to_debug_string());
    let c = PrimeFactorization::zero().with_p(2, 0).with_p(2, 4);
    assert_eq!(c.to_debug_string(), "[[2, 4]]");
}
