//! Divisibility, primes, least factors, products and powers of natural
//! numbers, with the lemmas that the rest of the library builds on.

use vstd::arithmetic::div_mod::{lemma_fundamental_div_mod, lemma_fundamental_div_mod_converse};
use vstd::prelude::*;

verus! {

/// `d` divides `n`: `d` is positive and leaves no remainder in `n`.
pub open spec fn divides(d: nat, n: nat) -> bool {
    d > 0 && n % d == 0
}

/// No `d` with `2 <= d < bound` and `d < k` divides `k`.
pub open spec fn no_factor_below(k: nat, bound: nat) -> bool {
    forall|d: nat| 2 <= d < bound && d < k ==> !#[trigger] divides(d, k)
}

/// Primality by trial division: `n >= 2` and nothing in `[2, n)` divides it.
pub open spec fn is_prime(n: nat) -> bool {
    n >= 2 && no_factor_below(n, n)
}

/// The least divisor of `n` that is at least `d`, searching upward; `n`
/// itself when the search reaches it.
pub open spec fn least_factor_from(n: nat, d: nat) -> nat
    decreases n - d,
{
    if d >= n {
        n
    } else if d > 0 && n % d == 0 {
        d
    } else {
        least_factor_from(n, d + 1)
    }
}

/// The least divisor of `n` that is at least 2 (for `n >= 2`).
pub open spec fn least_factor(n: nat) -> nat {
    least_factor_from(n, 2)
}

/// What a smallest-factor table holds at index `i`: 0 below 2, else the
/// least prime that divides `i`.
pub open spec fn smallest_factor(i: nat) -> nat {
    if i < 2 {
        0
    } else {
        least_factor(i)
    }
}

/// The primes below `n`, ascending.
pub open spec fn primes_below(n: nat) -> Seq<nat>
    decreases n,
{
    if n == 0 {
        Seq::empty()
    } else if is_prime((n - 1) as nat) {
        primes_below((n - 1) as nat).push((n - 1) as nat)
    } else {
        primes_below((n - 1) as nat)
    }
}

/// The product of the elements of `s`; 1 for the empty sequence.
pub open spec fn product(s: Seq<nat>) -> nat
    decreases s.len(),
{
    if s.len() == 0 {
        1
    } else {
        product(s.drop_last()) * s.last()
    }
}

/// `s` is in ascending order (equal neighbours allowed).
pub open spec fn sorted(s: Seq<nat>) -> bool {
    forall|i: int, j: int| 0 <= i <= j < s.len() ==> s[i] <= s[j]
}

/// Every element of `s` is prime.
pub open spec fn all_prime(s: Seq<nat>) -> bool {
    forall|i: int| 0 <= i < s.len() ==> is_prime(#[trigger] s[i])
}

/// The values of a vector of machine integers as natural numbers.
pub open spec fn nats(s: Seq<u64>) -> Seq<nat> {
    s.map_values(|x: u64| x as nat)
}

/// If `n == d * q` with `d > 0`, then `d` divides `n` and `n / d == q`.
pub proof fn lemma_divides_product(d: nat, q: nat)
    requires
        d > 0,
    ensures
        divides(d, d * q),
        (d * q) / d == q,
        divides(d, q * d),
        (q * d) / d == q,
{
    assert(d * q == q * d) by (nonlinear_arith);
    lemma_fundamental_div_mod_converse((d * q) as int, d as int, q as int, 0);
}

/// A divisor splits its multiple: `n == d * (n / d)`.
pub proof fn lemma_divides_split(d: nat, n: nat)
    requires
        divides(d, n),
    ensures
        n == d * (n / d),
        n == (n / d) * d,
        n > 0 ==> 1 <= n / d <= n,
        n > 0 ==> d <= n,
{
    lemma_fundamental_div_mod(n as int, d as int);
    let q = n / d;
    if n > 0 {
        assert(q >= 1) by (nonlinear_arith)
            requires
                n == d * q,
                n > 0,
                d > 0,
        ;
        assert(q <= n && d <= n) by (nonlinear_arith)
            requires
                n == d * q,
                q >= 1,
                d >= 1,
        ;
    }
}

/// Divisibility is transitive.
pub proof fn lemma_divides_trans(a: nat, b: nat, c: nat)
    requires
        divides(a, b),
        divides(b, c),
    ensures
        divides(a, c),
{
    lemma_divides_split(a, b);
    lemma_divides_split(b, c);
    let q1 = b / a;
    let q2 = c / b;
    assert(c == a * (q1 * q2)) by (nonlinear_arith)
        requires
            b == a * q1,
            c == b * q2,
    ;
    lemma_divides_product(a, q1 * q2);
}

/// The search for the least factor finds a divisor, and passes over none.
pub proof fn lemma_least_factor_from(n: nat, d: nat)
    requires
        2 <= d <= n,
    ensures
        d <= least_factor_from(n, d) <= n,
        divides(least_factor_from(n, d), n),
        forall|e: nat| d <= e < least_factor_from(n, d) ==> !#[trigger] divides(e, n),
    decreases n - d,
{
    if d >= n {
        lemma_divides_product(n, 1);
    } else if n % d != 0 {
        lemma_least_factor_from(n, d + 1);
    }
}

/// The least factor of `n >= 2` divides `n`, is prime, and nothing in
/// `[2, least_factor(n))` divides `n`.
pub proof fn lemma_least_factor(n: nat)
    requires
        n >= 2,
    ensures
        2 <= least_factor(n) <= n,
        divides(least_factor(n), n),
        no_factor_below(n, least_factor(n)),
        is_prime(least_factor(n)),
{
    lemma_least_factor_from(n, 2);
    let p = least_factor(n);
    assert forall|d: nat| 2 <= d < p implies !#[trigger] divides(d, p) by {
        if divides(d, p) {
            lemma_divides_trans(d, p, n);
        }
    }
}

/// A number at least 2 whose smaller candidates all fail is its own least
/// factor; one with a divisor `p` below which nothing divides has `p`.
pub proof fn lemma_least_factor_is(n: nat, p: nat)
    requires
        2 <= p <= n,
        divides(p, n),
        no_factor_below(n, p),
    ensures
        least_factor(n) == p,
{
    lemma_least_factor(n);
}

/// A prime is its own least factor, and only a prime is.
pub proof fn lemma_prime_least_factor(n: nat)
    requires
        n >= 2,
    ensures
        is_prime(n) <==> least_factor(n) == n,
{
    lemma_least_factor(n);
}

/// A composite number has a factor whose square does not exceed it: when
/// nothing below `b` divides `k` and `b * b > k`, then `k` is prime.
pub proof fn lemma_prime_by_square(k: nat, b: nat)
    requires
        k >= 2,
        no_factor_below(k, b),
        b * b > k,
    ensures
        is_prime(k),
{
    assert forall|d: nat| 2 <= d < k implies !#[trigger] divides(d, k) by {
        if divides(d, k) {
            lemma_divides_split(d, k);
            let q = k / d;
            lemma_divides_product(q, d);
            assert(q >= 2) by (nonlinear_arith)
                requires
                    k == d * q,
                    d < k,
                    q >= 1,
            ;
            if d >= b && q >= b {
                assert(d * q >= b * b) by (nonlinear_arith)
                    requires
                        d >= b,
                        q >= b,
                ;
            }
        }
    }
}

/// `primes_below(n)` holds the primes below `n`, all of them, in strictly
/// ascending order.
pub proof fn lemma_primes_below(n: nat)
    ensures
        forall|i: int| 0 <= i < primes_below(n).len() ==> is_prime(#[trigger] primes_below(n)[i])
            && primes_below(n)[i] < n,
        forall|i: int, j: int|
            0 <= i < j < primes_below(n).len() ==> primes_below(n)[i] < primes_below(n)[j],
        forall|p: nat| p < n && is_prime(p) ==> primes_below(n).contains(p),
    decreases n,
{
    if n > 0 {
        let m = (n - 1) as nat;
        lemma_primes_below(m);
        let s = primes_below(m);
        let t = primes_below(n);
        assert forall|p: nat| p < n && is_prime(p) implies t.contains(p) by {
            if p < m {
                let i = choose|i: int| 0 <= i < s.len() && s[i] == p;
                assert(t[i] == p);
            } else {
                assert(t[t.len() - 1] == p);
            }
        }
    }
}

/// The product of a sequence with one more element at its end.
pub proof fn lemma_product_push(s: Seq<nat>, x: nat)
    ensures
        product(s.push(x)) == product(s) * x,
{
    assert(s.push(x).drop_last() =~= s);
}

/// The product of a single element is that element.
pub proof fn lemma_product_single(x: nat)
    ensures
        product(seq![x]) == x,
{
    lemma_product_push(Seq::empty(), x);
    assert(1 * x == x);
}

/// The product of a concatenation is the product of the products.
pub proof fn lemma_product_concat(a: Seq<nat>, b: Seq<nat>)
    ensures
        product(a + b) == product(a) * product(b),
    decreases b.len(),
{
    if b.len() == 0 {
        assert(product(b) == 1);
    } else {
        assert((a + b).drop_last() =~= a + b.drop_last());
        lemma_product_concat(a, b.drop_last());
        let pa = product(a);
        let pb = product(b.drop_last());
        let x = b.last();
        assert((pa * pb) * x == pa * (pb * x)) by (nonlinear_arith);
    }
}

/// A divisor of a factor divides the product.
pub proof fn lemma_divides_multiple(d: nat, a: nat, b: nat)
    requires
        divides(d, a),
    ensures
        divides(d, a * b),
        divides(d, b * a),
{
    lemma_divides_split(d, a);
    let q = a / d;
    assert(a * b == d * (q * b)) by (nonlinear_arith)
        requires
            a == d * q,
    ;
    lemma_divides_product(d, q * b);
}

/// What divides two numbers divides their difference.
pub proof fn lemma_divides_difference(d: nat, a: nat, b: nat)
    requires
        divides(d, a),
        divides(d, b),
        a >= b,
    ensures
        divides(d, (a - b) as nat),
{
    lemma_divides_split(d, a);
    lemma_divides_split(d, b);
    let qa = a / d;
    let qb = b / d;
    assert(qa >= qb) by (nonlinear_arith)
        requires
            d * qa >= d * qb,
            d > 0,
    ;
    assert(a - b == d * ((qa - qb) as nat)) by (nonlinear_arith)
        requires
            a == d * qa,
            b == d * qb,
            qa >= qb,
    ;
    lemma_divides_product(d, (qa - qb) as nat);
}

/// Euclid's lemma: a prime that divides a product divides one of its
/// factors.
pub proof fn lemma_prime_divides_product(p: nat, a: nat, b: nat)
    requires
        is_prime(p),
        divides(p, a * b),
    ensures
        divides(p, a) || divides(p, b),
    decreases a,
{
    if a == 1 {
        assert(1 * b == b);
    } else if a >= p {
        let r = a % p;
        let q = a / p;
        lemma_fundamental_div_mod(a as int, p as int);
        assert(a * b == p * (q * b) + r * b) by (nonlinear_arith)
            requires
                a == p * q + r,
        ;
        lemma_divides_product(p, q * b);
        lemma_divides_difference(p, a * b, p * (q * b));
        lemma_prime_divides_product(p, r, b);
        if divides(p, r) {
            assert(r == 0) by {
                if r > 0 {
                    lemma_divides_split(p, r);
                }
            }
        }
    } else if a >= 2 {
        let s = p % a;
        let q = p / a;
        lemma_fundamental_div_mod(p as int, a as int);
        if s == 0 {
            assert(divides(a, p));
        } else {
            assert(p * b == q * (a * b) + s * b) by (nonlinear_arith)
                requires
                    p == a * q + s,
            ;
            lemma_divides_multiple(p, a * b, q);
            lemma_divides_product(p, b);
            lemma_divides_difference(p, p * b, q * (a * b));
            lemma_prime_divides_product(p, s, b);
            if divides(p, s) {
                lemma_divides_split(p, s);
            }
        }
    }
}

/// `p` to the power `e`.
pub open spec fn power(p: nat, e: nat) -> nat
    decreases e,
{
    if e == 0 {
        1
    } else {
        p * power(p, (e - 1) as nat)
    }
}

/// Every element of `s` is at least 1.
pub open spec fn all_positive(s: Seq<nat>) -> bool {
    forall|i: int| 0 <= i < s.len() ==> #[trigger] s[i] >= 1
}

/// A power of a positive number is positive.
pub proof fn lemma_power_positive(p: nat, e: nat)
    requires
        p >= 1,
    ensures
        power(p, e) >= 1,
    decreases e,
{
    if e > 0 {
        lemma_power_positive(p, (e - 1) as nat);
        let q = power(p, (e - 1) as nat);
        assert(p * q >= 1) by (nonlinear_arith)
            requires
                p >= 1,
                q >= 1,
        ;
    }
}

/// Exponents add when powers are multiplied.
pub proof fn lemma_power_add(p: nat, a: nat, b: nat)
    ensures
        power(p, a + b) == power(p, a) * power(p, b),
    decreases a,
{
    if a == 0 {
        assert(1 * power(p, b) == power(p, b));
    } else {
        lemma_power_add(p, (a - 1) as nat, b);
        let x = power(p, (a - 1) as nat);
        let y = power(p, b);
        assert(p * (x * y) == (p * x) * y) by (nonlinear_arith);
    }
}

/// A product of positive numbers is positive.
pub proof fn lemma_product_positive(s: Seq<nat>)
    requires
        all_positive(s),
    ensures
        product(s) >= 1,
    decreases s.len(),
{
    if s.len() > 0 {
        lemma_product_positive(s.drop_last());
        let a = product(s.drop_last());
        let b = s.last();
        assert(a * b >= 1) by (nonlinear_arith)
            requires
                a >= 1,
                b >= 1,
        ;
    }
}

/// A sequence splits at any position into two whose products multiply to
/// its own.
pub proof fn lemma_product_split(s: Seq<nat>, k: int)
    requires
        0 <= k <= s.len(),
    ensures
        product(s) == product(s.take(k)) * product(s.skip(k)),
{
    assert(s =~= s.take(k) + s.skip(k));
    lemma_product_concat(s.take(k), s.skip(k));
}

/// The product of `e` copies of `p` is `p` to the power `e`.
pub proof fn lemma_product_constant(s: Seq<nat>, p: nat)
    requires
        forall|i: int| 0 <= i < s.len() ==> #[trigger] s[i] == p,
    ensures
        product(s) == power(p, s.len()),
    decreases s.len(),
{
    if s.len() > 0 {
        lemma_product_constant(s.drop_last(), p);
        let q = power(p, (s.len() - 1) as nat);
        assert(q * p == p * q) by (nonlinear_arith);
    }
}

/// A prime that divides a product of several numbers divides one of them.
pub proof fn lemma_prime_divides_seq(p: nat, s: Seq<nat>) -> (i: int)
    requires
        is_prime(p),
        divides(p, product(s)),
    ensures
        0 <= i < s.len(),
        divides(p, s[i]),
    decreases s.len(),
{
    if s.len() == 0 {
        lemma_divides_split(p, 1);
        0
    } else {
        lemma_prime_divides_product(p, product(s.drop_last()), s.last());
        if divides(p, s.last()) {
            s.len() - 1
        } else {
            lemma_prime_divides_seq(p, s.drop_last())
        }
    }
}

/// Each element of a sequence of positive numbers divides the product of
/// the sequence.
pub proof fn lemma_element_divides_product(s: Seq<nat>, i: int)
    requires
        0 <= i < s.len(),
        all_positive(s),
    ensures
        divides(s[i], product(s)),
        s[i] <= product(s),
    decreases s.len(),
{
    lemma_product_positive(s);
    if i == s.len() - 1 {
        lemma_divides_product(s.last(), product(s.drop_last()));
    } else {
        lemma_element_divides_product(s.drop_last(), i);
        lemma_divides_multiple(s[i], product(s.drop_last()), s.last());
    }
    lemma_divides_split(s[i], product(s));
}

/// Whether `i * i < n`, computed without leaving the machine range.
pub fn square_below(i: usize, n: usize) -> (r: bool)
    requires
        i >= 1,
    ensures
        r == (i * i < n),
{
    if n == 0 {
        return false;
    }
    let q: usize = (n - 1) / i;
    proof {
        lemma_fundamental_div_mod((n - 1) as int, i as int);
        assert(i <= q ==> i * i <= i * q) by (nonlinear_arith);
        assert(i > q ==> i * i >= i * (q + 1)) by (nonlinear_arith);
        assert(i * (q + 1) == i * q + i) by (nonlinear_arith);
    }
    i <= q
}

/// Whether `p * p > n`, computed without leaving the machine range.
pub fn square_above(p: u64, n: u64) -> (r: bool)
    requires
        p >= 1,
    ensures
        r == (p * p > n),
{
    let q: u64 = n / p;
    proof {
        lemma_fundamental_div_mod(n as int, p as int);
        assert(p <= q ==> p * p <= p * q) by (nonlinear_arith);
        assert(p > q ==> p * p >= p * (q + 1)) by (nonlinear_arith);
        assert(p * (q + 1) == p * q + p) by (nonlinear_arith);
    }
    p > q
}

} // verus!
