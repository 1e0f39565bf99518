use notebook::arith::{square_above, square_below};
use notebook::sieve::GenericSieve;

#[test]
fn square_below_small_values() {
    for i in 1..40usize {
        for n in 0..200usize {
            assert_eq!(square_below(i, n), i * i < n, "{} {}", i, n);
        }
    }
}

#[test]
fn square_below_at_the_edge_of_the_range() {
    assert!(square_below(1, usize::MAX));
    assert!(!square_below(usize::MAX, usize::MAX));
    let root = (usize::MAX as f64).sqrt() as usize;
    assert!(!square_below(root + 1, usize::MAX));
    assert!(square_below(root - 1, usize::MAX));
}

#[test]
fn square_above_small_values() {
    for p in 1..40u64 {
        for n in 0..200u64 {
            assert_eq!(square_above(p, n), p * p > n, "{} {}", p, n);
        }
    }
}

#[test]
fn square_above_at_the_edge_of_the_range() {
    assert!(square_above(u64::MAX, u64::MAX));
    assert!(!square_above(1, u64::MAX));
    assert!(square_above(1 << 32, u64::MAX));
    assert!(!square_above((1 << 32) - 1, u64::MAX));
    assert!(square_above(1, 0));
}

#[test]
fn sieve_of_a_million() {
    let sieve: GenericSieve<1_000_000> = GenericSieve::new();
    assert_eq!(sieve.primes.len(), 78498);
    assert_eq!(sieve.primes[78497], 999_983);
    assert_eq!(sieve.div[999_999], 3);
    assert_eq!(sieve.factorize(999_999), vec![3, 3, 3, 7, 11, 13, 37]);
    assert_eq!(sieve.factorize(999_983u64 * 999_979), vec![999_979, 999_983]);
    assert_eq!(sieve.divisors(720_720).len(), 240);
}
