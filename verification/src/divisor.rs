//! The divisors that a sorted list of factors generates, group by group, and
//! what holds of them.

use crate::arith::{
    all_positive, all_prime, divides, is_prime, least_factor, lemma_divides_product,
    lemma_divides_split, lemma_divides_trans, lemma_least_factor, lemma_power_add,
    lemma_power_positive, lemma_prime_divides_product, lemma_prime_divides_seq,
    lemma_prime_least_factor, lemma_product_constant, lemma_product_positive, lemma_product_split,
    no_factor_below, power, product, sorted,
};
use crate::factorization::{
    cofactor_prime, factorization, lemma_factorization_elements, lemma_factorization_prime,
};
use vstd::arithmetic::div_mod::lemma_fundamental_div_mod;
use vstd::prelude::*;

verus! {

/// The set of the divisors of `n`: every `d` with `1 <= d <= n` that leaves
/// no remainder in `n`.
pub open spec fn divisors_of(n: nat) -> Set<nat> {
    Set::new(|d: nat| 1 <= d <= n && n % d == 0)
}

/// The length of the run of elements equal to the first one at the start
/// of `s`: the exponent of the first prime-power group of a sorted
/// factorization.
pub open spec fn run_len(s: Seq<nat>) -> nat
    decreases s.len(),
{
    if s.len() == 0 {
        0
    } else if s.len() >= 2 && s[1] == s[0] {
        1 + run_len(s.skip(1))
    } else {
        1
    }
}

/// Every element of `s` multiplied by `c`.
pub open spec fn scale(s: Seq<nat>, c: nat) -> Seq<nat> {
    Seq::new(s.len(), |i: int| s[i] * c)
}

/// `base` multiplied by each of the powers `p^0, p^1, ..., p^e` in turn,
/// one block after the other.
pub open spec fn power_blocks(base: Seq<nat>, p: nat, e: nat) -> Seq<nat>
    decreases e,
{
    if e == 0 {
        base
    } else {
        power_blocks(base, p, (e - 1) as nat) + scale(base, power(p, e))
    }
}

/// The divisors that a sorted factor list generates, in the order of
/// generation: for the first prime-power group `(p, e)`, the divisors from
/// the remaining groups multiplied by `p^0`, then by `p^1`, and so on up to
/// `p^e`.
pub open spec fn divisor_list(pf: Seq<nat>) -> Seq<nat>
    decreases pf.len(),
    via divisor_list_decreases
{
    if pf.len() == 0 {
        seq![1nat]
    } else {
        power_blocks(divisor_list(pf.skip(run_len(pf) as int)), pf[0], run_len(pf))
    }
}

#[via_fn]
proof fn divisor_list_decreases(pf: Seq<nat>) {
    if pf.len() > 0 {
        lemma_run_len(pf);
    }
}

/// The product of `e + 1` over the prime-power groups `(p, e)` of a sorted
/// factor list.
pub open spec fn divisor_count(pf: Seq<nat>) -> nat
    decreases pf.len(),
    via divisor_count_decreases
{
    if pf.len() == 0 {
        1
    } else {
        (run_len(pf) + 1) * divisor_count(pf.skip(run_len(pf) as int))
    }
}

#[via_fn]
proof fn divisor_count_decreases(pf: Seq<nat>) {
    if pf.len() > 0 {
        lemma_run_len(pf);
    }
}

/// What a factorization with a table of primes below `bound` looks like: in
/// ascending order, every element but the last a prime below `bound`, the
/// last one prime or without a divisor in `[2, bound)`.
pub open spec fn factor_list(pf: Seq<nat>, bound: nat) -> bool {
    &&& sorted(pf)
    &&& forall|i: int| 0 <= i < pf.len() - 1 ==> is_prime(#[trigger] pf[i]) && pf[i] < bound
    &&& pf.len() > 0 ==> pf.last() >= 2 && (is_prime(pf.last()) || no_factor_below(
        pf.last(),
        bound,
    ))
}

/// The first run of a non-empty sequence: its length, its elements, and
/// where it ends.
pub proof fn lemma_run_len(s: Seq<nat>)
    requires
        s.len() > 0,
    ensures
        1 <= run_len(s) <= s.len(),
        forall|k: int| 0 <= k < run_len(s) ==> #[trigger] s[k] == s[0],
        run_len(s) == s.len() || s[run_len(s) as int] != s[0],
    decreases s.len(),
{
    if s.len() >= 2 && s[1] == s[0] {
        let t = s.skip(1);
        lemma_run_len(t);
        assert forall|k: int| 0 <= k < run_len(s) implies #[trigger] s[k] == s[0] by {
            if k > 0 {
                assert(t[k - 1] == s[k]);
            }
        }
    }
}

/// A run of `e` equal elements that ends at `e` is the first run.
pub proof fn lemma_run_len_is(s: Seq<nat>, e: nat)
    requires
        1 <= e <= s.len(),
        forall|k: int| 0 <= k < e ==> #[trigger] s[k] == s[0],
        e == s.len() || s[e as int] != s[0],
    ensures
        run_len(s) == e,
{
    lemma_run_len(s);
}

/// A sorted sequence is the first prime to the power of its run, times the
/// rest; the rest is sorted and lies above the first element.
pub proof fn lemma_run_split(pf: Seq<nat>)
    requires
        pf.len() > 0,
    ensures
        product(pf) == power(pf[0], run_len(pf)) * product(pf.skip(run_len(pf) as int)),
        sorted(pf) ==> sorted(pf.skip(run_len(pf) as int)),
        sorted(pf) ==> forall|k: int|
            0 <= k < pf.skip(run_len(pf) as int).len() ==> pf[0] < #[trigger] pf.skip(
                run_len(pf) as int,
            )[k],
        all_positive(pf) ==> all_positive(pf.skip(run_len(pf) as int)),
        all_prime(pf) ==> all_prime(pf.skip(run_len(pf) as int)),
{
    lemma_run_len(pf);
    let e = run_len(pf);
    lemma_product_split(pf, e as int);
    lemma_product_constant(pf.take(e as int), pf[0]);
}

/// The blocks for the powers up to `p^e` hold `e + 1` times as many
/// elements as `base`.
pub proof fn lemma_power_blocks_len(base: Seq<nat>, p: nat, e: nat)
    ensures
        power_blocks(base, p, e).len() == (e + 1) * base.len(),
    decreases e,
{
    if e > 0 {
        lemma_power_blocks_len(base, p, (e - 1) as nat);
        assert((e + 1) * base.len() == e * base.len() + base.len()) by (nonlinear_arith);
    } else {
        assert(1 * base.len() == base.len());
    }
}

/// The element at position `t` of block `k` is `base[t]` times `p^k`.
pub proof fn lemma_power_blocks_at(base: Seq<nat>, p: nat, e: nat, k: nat, t: int)
    requires
        k <= e,
        0 <= t < base.len(),
    ensures
        0 <= k * base.len() + t < power_blocks(base, p, e).len(),
        power_blocks(base, p, e)[k * base.len() + t] == base[t] * power(p, k),
    decreases e,
{
    let len = base.len();
    lemma_power_blocks_len(base, p, e);
    if e == 0 {
        assert(base[t] * 1 == base[t]);
    } else if k == e {
        lemma_power_blocks_len(base, p, (e - 1) as nat);
        assert(((e - 1) + 1) * len == e * len);
    } else {
        lemma_power_blocks_at(base, p, (e - 1) as nat, k, t);
    }
}

/// Every position of the blocks lies in some block `k <= e` at some
/// position `t` of `base`.
pub proof fn lemma_power_blocks_position(base: Seq<nat>, p: nat, e: nat, i: int) -> (r: (nat, int))
    requires
        0 <= i < power_blocks(base, p, e).len(),
    ensures
        r.0 <= e,
        0 <= r.1 < base.len(),
        i == r.0 * base.len() + r.1,
        power_blocks(base, p, e)[i] == base[r.1] * power(p, r.0),
{
    let len = base.len() as int;
    lemma_power_blocks_len(base, p, e);
    let k = i / len;
    let t = i % len;
    lemma_fundamental_div_mod(i, len);
    assert(0 <= k <= e) by (nonlinear_arith)
        requires
            i == len * k + t,
            0 <= t < len,
            0 <= i < (e + 1) * len,
    ;
    lemma_power_blocks_at(base, p, e, k as nat, t);
    (k as nat, t)
}

/// The number of generated divisors is the product of `e + 1` over the
/// prime-power groups.
pub proof fn lemma_divisor_list_len(pf: Seq<nat>)
    ensures
        divisor_list(pf).len() == divisor_count(pf),
    decreases pf.len(),
{
    if pf.len() > 0 {
        lemma_run_len(pf);
        let rest = pf.skip(run_len(pf) as int);
        lemma_divisor_list_len(rest);
        lemma_power_blocks_len(divisor_list(rest), pf[0], run_len(pf));
    }
}

/// Every generated divisor divides the product of the factors.
pub proof fn lemma_divisor_list_divides(pf: Seq<nat>, i: int)
    requires
        all_positive(pf),
        0 <= i < divisor_list(pf).len(),
    ensures
        divides(divisor_list(pf)[i], product(pf)),
    decreases pf.len(),
{
    if pf.len() > 0 {
        lemma_run_len(pf);
        lemma_run_split(pf);
        let p = pf[0];
        let e = run_len(pf);
        let rest = pf.skip(e as int);
        let base = divisor_list(rest);
        let (k, t) = lemma_power_blocks_position(base, p, e, i);
        lemma_divisor_list_divides(rest, t);
        let z = base[t];
        let m = product(rest);
        lemma_divides_split(z, m);
        let c = m / z;
        lemma_power_add(p, k, (e - k) as nat);
        let pk = power(p, k);
        let pr = power(p, (e - k) as nat);
        lemma_power_positive(p, k);
        assert((pk * pr) * m == (z * pk) * (pr * c)) by (nonlinear_arith)
            requires
                m == z * c,
        ;
        assert(z * pk >= 1) by (nonlinear_arith)
            requires
                z >= 1,
                pk >= 1,
        ;
        lemma_divides_product(z * pk, pr * c);
    }
}

/// A divisor of `p^e * m`, for a prime `p`, is a power `p^k` with
/// `k <= e` times a divisor of `m`.
pub proof fn lemma_split_power(p: nat, e: nat, m: nat, y: nat) -> (r: (nat, nat))
    requires
        is_prime(p),
        m >= 1,
        divides(y, power(p, e) * m),
    ensures
        r.0 <= e,
        y == r.1 * power(p, r.0),
        divides(r.1, m),
    decreases e,
{
    if e == 0 {
        assert(power(p, 0) * m == m) by (nonlinear_arith)
            requires
                power(p, 0) == 1,
        ;
        (0, y)
    } else {
        let w = power(p, (e - 1) as nat) * m;
        let n = power(p, e) * m;
        assert(n == p * w) by (nonlinear_arith)
            requires
                n == (p * power(p, (e - 1) as nat)) * m,
                w == power(p, (e - 1) as nat) * m,
        ;
        lemma_power_positive(p, e);
        lemma_divides_split(y, n);
        let c = n / y;
        if divides(p, y) {
            lemma_divides_split(p, y);
            let y1 = y / p;
            assert(y1 * c == w) by (nonlinear_arith)
                requires
                    y == p * y1,
                    y * c == p * w,
                    p >= 2,
            ;
            lemma_divides_product(y1, c);
            let (k, z) = lemma_split_power(p, (e - 1) as nat, m, y1);
            assert(y == z * power(p, k + 1)) by (nonlinear_arith)
                requires
                    y == p * y1,
                    y1 == z * power(p, k),
                    power(p, k + 1) == p * power(p, k),
            ;
            (k + 1, z)
        } else {
            lemma_divides_product(p, w);
            lemma_prime_divides_product(p, y, c);
            lemma_divides_split(p, c);
            let c1 = c / p;
            assert(y * c1 == w) by (nonlinear_arith)
                requires
                    c == p * c1,
                    y * c == p * w,
                    p >= 2,
            ;
            lemma_divides_product(y, c1);
            lemma_split_power(p, (e - 1) as nat, m, y)
        }
    }
}

/// Every divisor of the product of a sorted list of primes is generated.
pub proof fn lemma_divisor_list_complete(pf: Seq<nat>, y: nat) -> (i: int)
    requires
        sorted(pf),
        all_prime(pf),
        divides(y, product(pf)),
    ensures
        0 <= i < divisor_list(pf).len(),
        divisor_list(pf)[i] == y,
    decreases pf.len(),
{
    if pf.len() == 0 {
        lemma_divides_split(y, 1);
        0
    } else {
        lemma_run_len(pf);
        lemma_run_split(pf);
        let p = pf[0];
        let e = run_len(pf);
        let rest = pf.skip(e as int);
        let base = divisor_list(rest);
        lemma_product_positive(rest);
        let (k, z) = lemma_split_power(p, e, product(rest), y);
        let t = lemma_divisor_list_complete(rest, z);
        lemma_power_blocks_at(base, p, e, k, t);
        k * base.len() + t
    }
}

/// The first element of a factor list does not divide the product of what
/// follows its run.
pub proof fn lemma_first_not_in_rest(pf: Seq<nat>, bound: nat)
    requires
        factor_list(pf, bound),
        pf.len() > 0,
    ensures
        pf[0] >= 2,
        !divides(pf[0], product(pf.skip(run_len(pf) as int))),
        factor_list(pf.skip(run_len(pf) as int), bound),
{
    lemma_run_len(pf);
    lemma_run_split(pf);
    let p = pf[0];
    let e = run_len(pf);
    let rest = pf.skip(e as int);
    if rest.len() == 0 {
        if divides(p, 1) {
            lemma_divides_split(p, 1);
        }
    } else {
        if divides(p, product(rest)) {
            lemma_prime_divides_seq(p, rest);
        }
    }
}

/// The divisors generated from a factor list are pairwise distinct.
pub proof fn lemma_divisor_list_distinct(pf: Seq<nat>, bound: nat, i: int, j: int)
    requires
        factor_list(pf, bound),
        0 <= i < j < divisor_list(pf).len(),
    ensures
        divisor_list(pf)[i] != divisor_list(pf)[j],
    decreases pf.len(),
{
    if pf.len() > 0 {
        lemma_run_len(pf);
        lemma_run_split(pf);
        lemma_first_not_in_rest(pf, bound);
        let p = pf[0];
        let e = run_len(pf);
        let rest = pf.skip(e as int);
        let base = divisor_list(rest);
        let m = product(rest);
        let (k1, t1) = lemma_power_blocks_position(base, p, e, i);
        let (k2, t2) = lemma_power_blocks_position(base, p, e, j);
        let z1 = base[t1];
        let z2 = base[t2];
        lemma_divisor_list_divides(rest, t1);
        lemma_divisor_list_divides(rest, t2);
        lemma_power_positive(p, k1);
        lemma_power_positive(p, k2);
        if z1 * power(p, k1) == z2 * power(p, k2) {
            if k1 == k2 {
                let c = power(p, k1);
                assert(z1 == z2) by (nonlinear_arith)
                    requires
                        z1 * c == z2 * c,
                        c >= 1,
                ;
                if t1 < t2 {
                    lemma_divisor_list_distinct(rest, bound, t1, t2);
                } else {
                    lemma_divisor_list_distinct(rest, bound, t2, t1);
                }
            } else if k1 < k2 {
                lemma_power_cancel(p, k1, k2, z1, z2);
                lemma_divides_trans(p, z1, m);
            } else {
                lemma_power_cancel(p, k2, k1, z2, z1);
                lemma_divides_trans(p, z2, m);
            }
        }
    }
}

/// Every generated divisor either divides the product of all factors but
/// the last, or is at least as large as the last factor.
pub proof fn lemma_divisor_list_last(pf: Seq<nat>, i: int)
    requires
        pf.len() > 0,
        all_positive(pf),
        0 <= i < divisor_list(pf).len(),
    ensures
        divides(divisor_list(pf)[i], product(pf.drop_last())) || divisor_list(pf)[i] >= pf.last(),
    decreases pf.len(),
{
    lemma_run_len(pf);
    lemma_run_split(pf);
    let p = pf[0];
    let e = run_len(pf);
    let rest = pf.skip(e as int);
    let base = divisor_list(rest);
    let (k, t) = lemma_power_blocks_position(base, p, e, i);
    let z = base[t];
    let y = divisor_list(pf)[i];
    lemma_power_positive(p, k);
    lemma_divisor_list_divides(rest, t);
    if rest.len() == 0 {
        assert(y == power(p, k)) by (nonlinear_arith)
            requires
                y == z * power(p, k),
                z == 1,
        ;
        if k == e {
            let q = power(p, (k - 1) as nat);
            lemma_power_positive(p, (k - 1) as nat);
            assert(p * q >= p) by (nonlinear_arith)
                requires
                    q >= 1,
            ;
        } else {
            let init = pf.drop_last();
            lemma_product_constant(init, p);
            lemma_power_add(p, k, (e - 1 - k) as nat);
            lemma_divides_product(power(p, k), power(p, (e - 1 - k) as nat));
        }
    } else {
        lemma_divisor_list_last(rest, t);
        if z >= rest.last() {
            assert(z * power(p, k) >= z) by (nonlinear_arith)
                requires
                    power(p, k) >= 1,
            ;
        } else {
            let init = pf.drop_last();
            assert(init.skip(e as int) =~= rest.drop_last());
            lemma_product_split(init, e as int);
            lemma_product_constant(init.take(e as int), p);
            let m = product(rest.drop_last());
            lemma_divides_split(z, m);
            let c = m / z;
            lemma_power_add(p, k, (e - k) as nat);
            let pk = power(p, k);
            let pr = power(p, (e - k) as nat);
            assert((pk * pr) * m == (z * pk) * (pr * c)) by (nonlinear_arith)
                requires
                    m == z * c,
            ;
            assert(z * pk >= 1) by (nonlinear_arith)
                requires
                    z >= 1,
                    pk >= 1,
            ;
            lemma_divides_product(z * pk, pr * c);
        }
    }
}

/// Where `n` has two or more prime factors that a table of primes below
/// `bound` does not reach, the factors found with the table do not generate
/// all its divisors: the least prime factor of the last of them is missing.
pub proof fn lemma_divisor_list_incomplete(n: nat, bound: nat) -> (d: nat)
    requires
        n >= 1,
        !cofactor_prime(n, bound),
    ensures
        divides(d, n),
        !divisor_list(factorization(n, bound)).contains(d),
{
    let fs = factorization(n, bound);
    lemma_factorization_prime(n, bound);
    lemma_factorization_elements(n, bound);
    let last = fs.last();
    lemma_least_factor(last);
    lemma_prime_least_factor(last);
    let q = least_factor(last);
    lemma_divides_trans(q, last, n);
    let ds = divisor_list(fs);
    if ds.contains(q) {
        let i = choose|i: int| 0 <= i < ds.len() && ds[i] == q;
        lemma_divisor_list_last(fs, i);
        let init = fs.drop_last();
        let j = lemma_prime_divides_seq(q, init);
        lemma_divides_split(q, fs[j]);
    }
    q
}

/// If `a * p^k == b * p^l` with `k < l`, then `p` divides `a`.
proof fn lemma_power_cancel(p: nat, k: nat, l: nat, a: nat, b: nat)
    requires
        p >= 1,
        k < l,
        a * power(p, k) == b * power(p, l),
    ensures
        divides(p, a),
{
    lemma_power_add(p, k, (l - k) as nat);
    lemma_power_positive(p, k);
    let c = power(p, k);
    let r = power(p, (l - k - 1) as nat);
    assert(a == p * (b * r)) by (nonlinear_arith)
        requires
            a * c == b * (c * (p * r)),
            c >= 1,
    ;
    lemma_divides_product(p, b * r);
}

} // verus!
