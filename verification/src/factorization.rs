//! What the factors of a number are, as a function of the number and of the
//! bound of the table of primes, and what holds of them.

use crate::arith::{
    all_prime, divides, is_prime, least_factor, lemma_divides_product, lemma_divides_split,
    lemma_divides_trans, lemma_element_divides_product, lemma_least_factor, lemma_least_factor_is,
    lemma_prime_by_square, lemma_prime_divides_product, lemma_prime_divides_seq,
    lemma_prime_least_factor, lemma_product_concat, lemma_product_positive, lemma_product_single,
    lemma_product_split, no_factor_below, product, sorted,
};
use vstd::prelude::*;

verus! {

/// The factors of `n` as found with a table of primes below `bound`: least
/// prime factors are split off, in ascending order, for as long as they lie
/// below `bound`; a cofactor above 1 that has none below `bound` is kept
/// whole as the last element. 0 and 1 have no factors.
pub open spec fn factorization(n: nat, bound: nat) -> Seq<nat>
    decreases n,
    via factorization_decreases
{
    if n < 2 {
        Seq::empty()
    } else if least_factor(n) < bound {
        seq![least_factor(n)] + factorization(n / least_factor(n), bound)
    } else {
        seq![n]
    }
}

#[via_fn]
proof fn factorization_decreases(n: nat, bound: nat) {
    if n >= 2 {
        lemma_least_factor(n);
        lemma_divides_split(least_factor(n), n);
        let p = least_factor(n);
        let q = n / p;
        assert(q < n) by (nonlinear_arith)
            requires
                n == p * q,
                p >= 2,
                q >= 1,
        ;
    }
}

/// Every divisor of `n` above 1 that has no divisor of its own in
/// `[2, bound)` is prime: `n` has at most one prime factor, counted with
/// multiplicity, that a table of primes below `bound` does not hold.
pub open spec fn cofactor_prime(n: nat, bound: nat) -> bool {
    forall|c: nat| 2 <= c && #[trigger] divides(c, n) && no_factor_below(c, bound) ==> is_prime(c)
}

/// The quotient of `n` by its least factor, with what is needed to reason
/// about one step of `factorization`.
pub proof fn lemma_factorization_step(n: nat, bound: nat)
    requires
        n >= 2,
    ensures
        2 <= least_factor(n) <= n,
        is_prime(least_factor(n)),
        n == least_factor(n) * (n / least_factor(n)),
        1 <= n / least_factor(n) < n,
        least_factor(n) < bound ==> factorization(n, bound) == seq![least_factor(n)]
            + factorization(n / least_factor(n), bound),
        least_factor(n) >= bound ==> factorization(n, bound) == seq![n],
{
    lemma_least_factor(n);
    lemma_divides_split(least_factor(n), n);
    let p = least_factor(n);
    let q = n / p;
    assert(q < n) by (nonlinear_arith)
        requires
            n == p * q,
            p >= 2,
            q >= 1,
    ;
}

/// The product of the factors is the number.
pub proof fn lemma_factorization_product(n: nat, bound: nat)
    requires
        n >= 1,
    ensures
        product(factorization(n, bound)) == n,
    decreases n,
{
    if n >= 2 {
        lemma_factorization_step(n, bound);
        let p = least_factor(n);
        lemma_product_single(n);
        lemma_product_single(p);
        if p < bound {
            lemma_factorization_product(n / p, bound);
            lemma_product_concat(seq![p], factorization(n / p, bound));
        }
    }
}

/// Every factor is at least the least factor of the number, and so the
/// factors are in ascending order.
pub proof fn lemma_factorization_sorted(n: nat, bound: nat)
    ensures
        sorted(factorization(n, bound)),
        forall|i: int|
            0 <= i < factorization(n, bound).len() ==> least_factor(n) <= #[trigger] factorization(
                n,
                bound,
            )[i],
        n >= 2 ==> factorization(n, bound).len() >= 1,
    decreases n,
{
    if n >= 2 {
        lemma_factorization_step(n, bound);
        let p = least_factor(n);
        if p < bound {
            let m = n / p;
            lemma_factorization_sorted(m, bound);
            if m >= 2 {
                lemma_least_factor(m);
                lemma_least_factor(n);
                let q = least_factor(m);
                lemma_divides_product(m, p);
                lemma_divides_trans(q, m, n);
            }
        }
    }
}

/// All factors but the last lie below the bound and are prime; the last is
/// prime, or else has no divisor in `[2, bound)`.
pub proof fn lemma_factorization_elements(n: nat, bound: nat)
    ensures
        forall|i: int|
            0 <= i < factorization(n, bound).len() - 1 ==> is_prime(
                #[trigger] factorization(n, bound)[i],
            ) && factorization(n, bound)[i] < bound,
        factorization(n, bound).len() > 0 ==> 2 <= factorization(n, bound).last()
            && divides(factorization(n, bound).last(), n) && (is_prime(
            factorization(n, bound).last(),
        ) || no_factor_below(factorization(n, bound).last(), bound)),
    decreases n,
{
    if n >= 2 {
        lemma_factorization_step(n, bound);
        lemma_factorization_sorted(n, bound);
        lemma_least_factor(n);
        let p = least_factor(n);
        if p < bound {
            let m = n / p;
            let rest = factorization(m, bound);
            lemma_factorization_elements(m, bound);
            lemma_factorization_sorted(m, bound);
            if m >= 2 {
                lemma_divides_product(m, p);
                lemma_divides_trans(rest.last(), m, n);
            }
        } else {
            lemma_divides_product(n, 1);
        }
    }
}

/// The factors are all prime exactly when `n` has at most one prime factor
/// that the table does not reach.
pub proof fn lemma_factorization_prime(n: nat, bound: nat)
    requires
        n >= 1,
    ensures
        all_prime(factorization(n, bound)) <==> cofactor_prime(n, bound),
    decreases n,
{
    if n < 2 {
        assert forall|c: nat| 2 <= c && #[trigger] divides(c, n) implies false by {
            lemma_divides_split(c, n);
        }
    } else {
        lemma_factorization_step(n, bound);
        lemma_least_factor(n);
        let p = least_factor(n);
        let s = factorization(n, bound);
        if p < bound {
            let m = n / p;
            let rest = factorization(m, bound);
            lemma_factorization_prime(m, bound);
            assert forall|i: int| 0 <= i < rest.len() implies rest[i] == s[i + 1] by {}
            if all_prime(s) {
                assert forall|c: nat|
                    2 <= c && #[trigger] divides(c, n) && no_factor_below(c, bound) implies is_prime(
                    c,
                ) by {
                    if c <= p {
                        // nothing in [2, c) divides c, as c <= p < bound
                    } else {
                        lemma_divides_split(c, n);
                        let k = n / c;
                        lemma_divides_product(p, m);
                        lemma_prime_divides_product(p, c, k);
                        lemma_divides_split(p, k);
                        let k2 = k / p;
                        assert(m == c * k2) by (nonlinear_arith)
                            requires
                                c * k == p * m,
                                k == p * k2,
                                p > 0,
                        ;
                        lemma_divides_product(c, k2);
                    }
                }
            }
            if cofactor_prime(n, bound) {
                assert forall|c: nat|
                    2 <= c && #[trigger] divides(c, m) && no_factor_below(c, bound) implies is_prime(
                    c,
                ) by {
                    lemma_divides_product(m, p);
                    lemma_divides_trans(c, m, n);
                }
            }
        } else {
            assert(s[0] == n);
            lemma_divides_product(n, 1);
            if is_prime(n) {
                assert forall|c: nat|
                    2 <= c && #[trigger] divides(c, n) && no_factor_below(c, bound) implies is_prime(
                    c,
                ) by {
                    lemma_divides_split(c, n);
                }
            }
        }
    }
}

/// Below the square of the bound every number has at most one prime factor
/// that the table does not reach.
pub proof fn lemma_cofactor_prime_below_square(n: nat, bound: nat)
    requires
        1 <= n < bound * bound,
    ensures
        cofactor_prime(n, bound),
{
    assert forall|c: nat|
        2 <= c && #[trigger] divides(c, n) && no_factor_below(c, bound) implies is_prime(c) by {
        lemma_divides_split(c, n);
        lemma_prime_by_square(c, bound);
    }
}

/// A prime is its own factorization, whatever the bound.
pub proof fn lemma_factorization_of_prime(p: nat, bound: nat)
    requires
        is_prime(p),
    ensures
        factorization(p, bound) == seq![p],
{
    lemma_factorization_step(p, bound);
    lemma_prime_least_factor(p);
    assert(p / p == 1) by {
        lemma_divides_product(p, 1);
    }
}

/// The least factor of the product of a sorted list of primes is the first
/// of them, and the quotient is the product of the others.
pub proof fn lemma_first_prime_is_least(s: Seq<nat>)
    requires
        sorted(s),
        all_prime(s),
        s.len() > 0,
    ensures
        product(s) >= 2,
        least_factor(product(s)) == s[0],
        product(s) / s[0] == product(s.skip(1)),
{
    let n = product(s);
    let rest = s.skip(1);
    lemma_product_split(s, 1);
    assert(s.take(1) =~= seq![s[0]]);
    lemma_product_single(s[0]);
    lemma_product_positive(rest);
    lemma_divides_product(s[0], product(rest));
    assert(n >= s[0]) by (nonlinear_arith)
        requires
            n == s[0] * product(rest),
            product(rest) >= 1,
    ;
    assert forall|d: nat| 2 <= d < s[0] && d < n implies !#[trigger] divides(d, n) by {
        if divides(d, n) {
            lemma_least_factor(d);
            let q = least_factor(d);
            lemma_divides_trans(q, d, n);
            lemma_prime_divides_seq(q, s);
        }
    }
    lemma_least_factor_is(n, s[0]);
}

/// A number has one factorization into primes in ascending order: a
/// sorted list of primes below the bound is the factorization of its
/// product.
pub proof fn lemma_factorization_unique(s: Seq<nat>, bound: nat)
    requires
        sorted(s),
        all_prime(s),
        forall|i: int| 0 <= i < s.len() ==> #[trigger] s[i] < bound,
    ensures
        factorization(product(s), bound) == s,
    decreases s.len(),
{
    if s.len() > 0 {
        let rest = s.skip(1);
        lemma_first_prime_is_least(s);
        lemma_factorization_step(product(s), bound);
        lemma_factorization_unique(rest, bound);
    }
}

/// The factorization of `n` into primes, in ascending order.
pub open spec fn prime_factorization(n: nat) -> Seq<nat> {
    factorization(n, n + 1)
}

/// The prime factorization is one: primes in ascending order whose product
/// is the number.
pub proof fn lemma_prime_factorization(n: nat)
    requires
        n >= 1,
    ensures
        all_prime(prime_factorization(n)),
        sorted(prime_factorization(n)),
        product(prime_factorization(n)) == n,
{
    lemma_factorization_product(n, n + 1);
    lemma_factorization_sorted(n, n + 1);
    lemma_factorization_prime(n, n + 1);
    assert(n < (n + 1) * (n + 1)) by (nonlinear_arith);
    lemma_cofactor_prime_below_square(n, n + 1);
}

/// Where `n` has at most one prime factor that the table does not reach,
/// its factors as found with the table are its prime factorization.
pub proof fn lemma_factorization_is_prime_factorization(n: nat, bound: nat)
    requires
        n >= 1,
        cofactor_prime(n, bound),
    ensures
        factorization(n, bound) == prime_factorization(n),
{
    let s = factorization(n, bound);
    lemma_factorization_product(n, bound);
    lemma_factorization_sorted(n, bound);
    lemma_factorization_prime(n, bound);
    assert forall|i: int| 0 <= i < s.len() implies #[trigger] s[i] < n + 1 by {
        lemma_element_divides_product(s, i);
    }
    lemma_factorization_unique(s, n + 1);
}

} // verus!
