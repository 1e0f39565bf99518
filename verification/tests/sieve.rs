use notebook::sieve::GenericSieve;

fn is_prime_by_trial(n: u64) -> bool {
    if n < 2 {
        return false;
    }
    let mut d: u64 = 2;
    while d * d <= n {
        if n % d == 0 {
            return false;
        }
        d += 1;
    }
    true
}

#[test]
pub fn test_sieve() {
    let sieve: GenericSieve<100> = GenericSieve::new();
    let expected_is_p = [false, false, true, true, false, true, false, true, false, false];
    let expected_primes = vec![2, 3, 5, 7, 11, 13, 17];
    let expected_div = [0, 0, 2, 3, 2, 5, 2, 7, 2, 3, 2, 11, 2, 13, 2, 3];
    assert_eq!(expected_is_p, sieve.is_p[0..expected_is_p.len()]);
    assert_eq!(expected_primes, sieve.primes[0..expected_primes.len()]);
    assert_eq!(expected_div, sieve.div[0..expected_div.len()]);
}

#[test]
fn sieve_matches_trial_division() {
    let sieve: GenericSieve<1000> = GenericSieve::new();
    assert_eq!(sieve.is_p.len(), 1000);
    assert_eq!(sieve.div.len(), 1000);
    let mut expected_primes: Vec<u64> = Vec::new();
    for i in 0..1000u64 {
        let prime = is_prime_by_trial(i);
        assert_eq!(sieve.is_p[i as usize], prime, "flag of {}", i);
        if prime {
            expected_primes.push(i);
        }
        let d = sieve.div[i as usize];
        if i < 2 {
            assert_eq!(d, 0);
        } else {
            assert!(is_prime_by_trial(d));
            assert_eq!(i % d, 0);
            for q in 2..d {
                assert_ne!(i % q, 0);
            }
        }
    }
    assert_eq!(sieve.primes, expected_primes);
}

#[test]
fn sieve_smallest_bound() {
    let sieve: GenericSieve<2> = GenericSieve::new();
    assert_eq!(sieve.is_p, vec![false, false]);
    assert_eq!(sieve.primes, Vec::<u64>::new());
    assert_eq!(sieve.div, vec![0, 0]);
    assert_eq!(sieve.factorize(1), Vec::<u64>::new());
    assert_eq!(sieve.factorize(2), vec![2]);
    assert_eq!(sieve.factorize(3), vec![3]);
}

#[test]
fn sieve_scenario_small_factors() {
    let sieve: GenericSieve<100> = GenericSieve::new();
    assert_eq!(sieve.primes[0..7], [2, 3, 5, 7, 11, 13, 17]);
    assert_eq!(sieve.primes.len(), 25);
    assert_eq!(sieve.primes[24], 97);
    assert_eq!(sieve.div[4], 2);
    assert_eq!(sieve.div[9], 3);
    assert_eq!(sieve.div[15], 3);
    assert_eq!(sieve.div[97], 97);
    assert_eq!(sieve.div[91], 7);
}

#[test]
fn factorize_120() {
    let sieve: GenericSieve<100> = GenericSieve::new();
    assert_eq!(sieve.factorize(120), vec![2, 2, 2, 3, 5]);
}

#[test]
fn factorize_boundary() {
    let sieve: GenericSieve<100> = GenericSieve::new();
    assert_eq!(sieve.factorize(1), Vec::<u64>::new());
    assert_eq!(sieve.factorize(2), vec![2]);
    assert_eq!(sieve.factorize(97), vec![97]);
    assert_eq!(sieve.factorize(101), vec![101]);
    assert_eq!(sieve.factorize(1_000_000_007), vec![1_000_000_007]);
}

#[test]
fn factorize_above_bound() {
    let sieve: GenericSieve<100> = GenericSieve::new();
    // the cofactor drops below the bound: the table takes over
    assert_eq!(sieve.factorize(1024), vec![2, 2, 2, 2, 2, 2, 2, 2, 2, 2]);
    assert_eq!(sieve.factorize(2 * 3 * 97 * 97), vec![2, 3, 97, 97]);
    // one prime factor above the bound
    assert_eq!(sieve.factorize(2 * 2 * 101), vec![2, 2, 101]);
    assert_eq!(sieve.factorize(97 * 9973), vec![97, 9973]);
    assert_eq!(sieve.factorize(100), vec![2, 2, 5, 5]);
    assert_eq!(sieve.factorize(99), vec![3, 3, 11]);
}

#[test]
fn factorize_keeps_unreached_cofactor_whole() {
    let sieve: GenericSieve<100> = GenericSieve::new();
    // 101 * 103: both prime factors lie above the table
    assert_eq!(sieve.factorize(10403), vec![10403]);
    assert_eq!(sieve.factorize(2 * 10403), vec![2, 10403]);
    assert_eq!(sieve.divisors(10403), vec![1, 10403]);
}

#[test]
fn factorize_product_sorted_prime() {
    let sieve: GenericSieve<50> = GenericSieve::new();
    for n in 1..2500u64 {
        let pf = sieve.factorize(n);
        let mut product: u64 = 1;
        for (i, p) in pf.iter().enumerate() {
            product *= *p;
            assert!(is_prime_by_trial(*p), "{} in factors of {}", p, n);
            if i > 0 {
                assert!(pf[i - 1] <= *p);
            }
        }
        assert_eq!(product, n);
    }
}

#[test]
fn divisors_120() {
    let sieve: GenericSieve<100> = GenericSieve::new();
    let mut d = sieve.divisors(120);
    assert_eq!(d.len(), 16);
    assert_eq!(d, vec![1, 5, 3, 15, 2, 10, 6, 30, 4, 20, 12, 60, 8, 40, 24, 120]);
    d.sort();
    assert_eq!(d, vec![1, 2, 3, 4, 5, 6, 8, 10, 12, 15, 20, 24, 30, 40, 60, 120]);
}

#[test]
fn divisors_boundary() {
    let sieve: GenericSieve<100> = GenericSieve::new();
    assert_eq!(sieve.divisors(1), vec![1]);
    assert_eq!(sieve.divisors(2), vec![1, 2]);
    assert_eq!(sieve.divisors(101), vec![1, 101]);
    assert_eq!(sieve.divisors(49), vec![1, 7, 49]);
    assert_eq!(sieve.divisors(202), vec![1, 101, 2, 202]);
}

#[test]
fn divisors_complete_and_counted() {
    let sieve: GenericSieve<64> = GenericSieve::new();
    for n in 1..4096u64 {
        let mut got = sieve.divisors(n);
        got.sort();
        let expected: Vec<u64> = (1..=n).filter(|d| n % d == 0).collect();
        assert_eq!(got, expected, "divisors of {}", n);
        let pf = sieve.factorize(n);
        let mut count: usize = 1;
        let mut i = 0;
        while i < pf.len() {
            let mut j = i;
            while j < pf.len() && pf[j] == pf[i] {
                j += 1;
            }
            count *= j - i + 1;
            i = j;
        }
        assert_eq!(got.len(), count);
    }
}

#[test]
fn divisors_of_largest_values() {
    let sieve: GenericSieve<100> = GenericSieve::new();
    // 2^63 has 64 divisors, the largest of them 2^63 itself
    let d = sieve.divisors(1u64 << 63);
    assert_eq!(d.len(), 64);
    assert_eq!(d[63], 1u64 << 63);
    // u64::MAX = 3 * 5 * 17 * 257 * 641 * 65537 * 6700417
    let pf = sieve.factorize(u64::MAX);
    assert_eq!(pf[0..3], [3, 5, 17]);
    assert_eq!(pf.iter().product::<u64>(), u64::MAX);
}
