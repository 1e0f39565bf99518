//! The sieve: tables of primes and smallest prime factors below a bound, and
//! on top of them the factors and the divisors of a number.

use crate::arith::{
    all_positive, all_prime, divides, is_prime, least_factor, lemma_divides_product,
    lemma_divides_split, lemma_divides_trans, lemma_least_factor, lemma_least_factor_is,
    lemma_power_add, lemma_power_positive, lemma_prime_by_square, lemma_prime_least_factor,
    lemma_primes_below, lemma_product_positive, nats, no_factor_below, power, primes_below, product,
    smallest_factor, sorted, square_above, square_below,
};
use crate::divisor::{
    divisor_count, divisor_list, divisors_of, factor_list, lemma_divisor_list_complete,
    lemma_divisor_list_distinct, lemma_divisor_list_divides, lemma_divisor_list_incomplete,
    lemma_divisor_list_len, lemma_run_len_is, lemma_run_split, power_blocks, scale,
};
use crate::factorization::{
    cofactor_prime, factorization, lemma_cofactor_prime_below_square, lemma_factorization_elements,
    lemma_factorization_is_prime_factorization, lemma_factorization_of_prime,
    lemma_factorization_prime, lemma_factorization_product, lemma_factorization_sorted,
    lemma_factorization_step, prime_factorization,
};
use vstd::arithmetic::div_mod::lemma_fundamental_div_mod_converse;
use vstd::prelude::*;

verus! {

/// Primality flags, the primes, and smallest prime factors for the integers
/// below the bound `N`.
pub struct GenericSieve<const N: usize> {
    pub is_p: Vec<bool>,
    pub primes: Vec<u64>,
    pub div: Vec<u64>,
}

impl<const N: usize> GenericSieve<N> {
    /// The tables are what a sieve over `[0, N)` holds: the flags agree with
    /// trial division, the primes are those below `N` in ascending order, and
    /// each entry of `div` is the least prime factor of its index (0 below 2).
    pub open spec fn wf(&self) -> bool {
        &&& N >= 2
        &&& self.is_p@.len() == N
        &&& self.div@.len() == N
        &&& forall|i: int| 0 <= i < N ==> #[trigger] self.is_p@[i] == is_prime(i as nat)
        &&& forall|i: int| 0 <= i < N ==> #[trigger] self.div@[i] as nat == smallest_factor(i as nat)
        &&& nats(self.primes@) == primes_below(N as nat)
    }

    /// What the tables hold, said of the numbers themselves: a flag is set
    /// exactly at the primes; `primes` lists the flagged indices in strictly
    /// ascending order; `div` holds 0 at 0 and 1, and at every other index
    /// the least of its prime factors, which for a prime is the prime itself.
    pub proof fn lemma_tables(&self)
        requires
            self.wf(),
        ensures
            forall|i: int| 0 <= i < N ==> (#[trigger] self.is_p@[i] <==> is_prime(i as nat)),
            forall|a: int, b: int|
                0 <= a < b < self.primes@.len() ==> self.primes@[a] < self.primes@[b],
            forall|a: int|
                0 <= a < self.primes@.len() ==> (#[trigger] self.primes@[a]) < N
                    && self.is_p@[self.primes@[a] as int],
            forall|i: int|
                0 <= i < N && #[trigger] self.is_p@[i] ==> self.primes@.contains(i as u64),
            self.div@[0] == 0 && self.div@[1] == 0,
            forall|i: int|
                2 <= i < N ==> divides((#[trigger] self.div@[i]) as nat, i as nat) && is_prime(
                    self.div@[i] as nat,
                ),
            forall|i: int, q: nat|
                2 <= i < N && is_prime(q) && #[trigger] divides(q, i as nat) ==> (
                #[trigger] self.div@[i]) <= q,
            forall|i: int| 2 <= i < N && #[trigger] self.is_p@[i] ==> self.div@[i] == i,
    {
        let ps = primes_below(N as nat);
        lemma_primes_below(N as nat);
        assert(self.div@[1] as nat == smallest_factor(1));
        assert forall|a: int, b: int| 0 <= a < b < self.primes@.len() implies self.primes@[a]
            < self.primes@[b] by {
            assert(ps[a] < ps[b]);
        }
        assert forall|a: int| 0 <= a < self.primes@.len() implies (#[trigger] self.primes@[a]) < N
            && self.is_p@[self.primes@[a] as int] by {
            assert(is_prime(ps[a]) && ps[a] < N);
        }
        assert forall|i: int| 2 <= i < N implies divides(
            (#[trigger] self.div@[i]) as nat,
            i as nat,
        ) && is_prime(self.div@[i] as nat) by {
            lemma_least_factor(i as nat);
        }
        assert forall|i: int, q: nat|
            2 <= i < N && is_prime(q) && #[trigger] divides(q, i as nat) implies (
        #[trigger] self.div@[i]) <= q by {
            lemma_least_factor(i as nat);
            lemma_divides_split(q, i as nat);
        }
        assert forall|i: int| 2 <= i < N && #[trigger] self.is_p@[i] implies self.div@[i] == i by {
            lemma_prime_least_factor(i as nat);
        }
    }

    /// Builds the tables for the integers below `N`.
    pub fn new() -> (r: Self)
        requires
            N >= 2,
        ensures
            r.wf(),
    {
        let mut is_p: Vec<bool> = vec![true; N];
        let mut primes: Vec<u64> = Vec::new();
        let mut div: Vec<u64> = vec![0u64; N];
        is_p[0] = false;
        is_p[1] = false;
        let mut i: usize = 2;
        while square_below(i, N)
            invariant
                2 <= i <= N,
                marking(is_p@, div@, N as nat, i as nat, 0),
            decreases N - i,
        {
            assert(i * i >= i + i) by (nonlinear_arith)
                requires
                    i >= 2,
            ;
            if is_p[i] {
                let mut j: usize = i * i;
                proof {
                    lemma_divides_product(i as nat, i as nat);
                }
                loop
                    invariant_except_break
                        marking(is_p@, div@, N as nat, i as nat, j as nat),
                    invariant
                        2 <= i < j,
                        i * i <= j < N,
                        divides(i as nat, j as nat),
                        no_factor_below(i as nat, i as nat),
                    ensures
                        marking(is_p@, div@, N as nat, i as nat, N as nat),
                    decreases N - j,
                {
                    let ghost is_p0 = is_p@;
                    let ghost div0 = div@;
                    is_p[j] = false;
                    if div[j] == 0 {
                        div[j] = i as u64;
                    }
                    proof {
                        lemma_marking_strike(
                            is_p0,
                            div0,
                            is_p@,
                            div@,
                            N as nat,
                            i as nat,
                            j as nat,
                        );
                    }
                    if N - j <= i {
                        proof {
                            lemma_marking_past_end(
                                is_p@,
                                div@,
                                N as nat,
                                i as nat,
                                (j + i) as nat,
                                N as nat,
                            );
                        }
                        break ;
                    }
                    proof {
                        lemma_divides_split(i as nat, j as nat);
                        let q = (j as nat) / (i as nat);
                        assert((q + 1) * i == j + i) by (nonlinear_arith)
                            requires
                                j == q * i,
                        ;
                        lemma_divides_product(i as nat, q + 1);
                    }
                    j = j + i;
                }
            }
            proof {
                lemma_marking_next(is_p@, div@, N as nat, i as nat);
            }
            i += 1;
        }
        proof {
            lemma_marking_done(is_p@, div@, N as nat, i as nat);
        }
        let mut idx: usize = 0;
        while idx < N
            invariant
                idx <= N,
                is_p@.len() == N,
                div@.len() == N,
                forall|k: int| 0 <= k < N ==> #[trigger] is_p@[k] == is_prime(k as nat),
                forall|k: int|
                    0 <= k < idx ==> #[trigger] div@[k] as nat == smallest_factor(k as nat),
                forall|k: int|
                    idx <= k < N ==> #[trigger] div@[k] as nat == if is_prime(k as nat) {
                        0
                    } else {
                        smallest_factor(k as nat)
                    },
                nats(primes@) == primes_below(idx as nat),
            decreases N - idx,
        {
            if is_p[idx] {
                proof {
                    lemma_prime_least_factor(idx as nat);
                }
                primes.push(idx as u64);
                div[idx] = idx as u64;
            }
            idx += 1;
        }
        GenericSieve { is_p, primes, div }
    }

    /// Factorizes `n` below the bound by table lookups alone, appending the
    /// factors to `pf`.
    fn factorize_small_n(&self, n: u64, pf: Vec<u64>) -> (r: Vec<u64>)
        requires
            self.wf(),
            n < N,
        ensures
            nats(r@) == nats(pf@) + factorization(n as nat, N as nat),
    {
        let mut n = n;
        let mut pf = pf;
        let ghost n0 = n;
        let ghost pf0 = pf@;
        while n > 1
            invariant
                self.wf(),
                n < N,
                nats(pf@) + factorization(n as nat, N as nat) == nats(pf0) + factorization(
                    n0 as nat,
                    N as nat,
                ),
            decreases n,
        {
            let d: u64 = self.div[n as usize];
            proof {
                assert(self.div@[n as int] as nat == smallest_factor(n as nat));
                lemma_factorization_step(n as nat, N as nat);
            }
            pf.push(d);
            n = n / d;
        }
        pf
    }

    /// The prime factors of `n`, with multiplicity, in ascending order.
    ///
    /// Factors below `N` are split off one by one. What is left when the
    /// primes of the table are used up is the last element; it is prime
    /// unless `n` has two or more prime factors, counted with multiplicity,
    /// that are not below `N`.
    pub fn factorize(&self, n: u64) -> (r: Vec<u64>)
        requires
            self.wf(),
            n >= 1,
        ensures
            nats(r@) == factorization(n as nat, N as nat),
            product(nats(r@)) == n,
            sorted(nats(r@)),
            all_prime(nats(r@)) <==> cofactor_prime(n as nat, N as nat),
            cofactor_prime(n as nat, N as nat) ==> nats(r@) == prime_factorization(n as nat),
            n < N * N ==> all_prime(nats(r@)),
            n == 1 ==> r@ == Seq::<u64>::empty(),
            is_prime(n as nat) ==> r@ == seq![n],
    {
        let mut m: u64 = n;
        let mut pf: Vec<u64> = Vec::new();
        if m < N as u64 {
            let r = self.factorize_small_n(m, pf);
            proof {
                lemma_factorize_laws(n as nat, N as nat, r@);
            }
            return r;
        }
        let mut idx: usize = 0;
        proof {
            lemma_no_factor_below_next(m as nat, N as nat, 0);
            if idx == self.primes.len() {
                lemma_factorization_whole(m as nat, N as nat);
            }
        }
        while idx < self.primes.len()
            invariant
                self.wf(),
                idx <= self.primes.len(),
                m >= N,
                no_factor_below(m as nat, prime_or_bound(N as nat, idx as int)),
                idx == self.primes.len() ==> factorization(m as nat, N as nat) == seq![m as nat],
                nats(pf@) + factorization(m as nat, N as nat) == factorization(n as nat, N as nat),
            ensures
                m >= N,
                nats(pf@) + seq![m as nat] == factorization(n as nat, N as nat),
            decreases self.primes.len() - idx,
        {
            let p: u64 = self.primes[idx];
            proof {
                lemma_primes_below(N as nat);
                assert(is_prime(p as nat));
            }
            if square_above(p, m) {
                proof {
                    lemma_prime_by_square(m as nat, p as nat);
                    lemma_prime_least_factor(m as nat);
                    lemma_factorization_step(m as nat, N as nat);
                }
                break ;
            }
            while m % p == 0
                invariant
                    self.wf(),
                    N <= m,
                    2 <= p < N,
                    is_prime(p as nat),
                    no_factor_below(m as nat, p as nat),
                    nats(pf@) + factorization(m as nat, N as nat) == factorization(
                        n as nat,
                        N as nat,
                    ),
                decreases m,
            {
                proof {
                    lemma_least_factor_is(m as nat, p as nat);
                    lemma_factorization_step(m as nat, N as nat);
                    lemma_no_factor_quotient(m as nat, p as nat, p as nat);
                    assert(nats(pf@.push(p)) + factorization((m / p) as nat, N as nat) =~= nats(
                        pf@,
                    ) + (seq![p as nat] + factorization((m / p) as nat, N as nat)));
                }
                pf.push(p);
                m = m / p;
                if m < N as u64 {
                    let r = self.factorize_small_n(m, pf);
                    proof {
                        lemma_factorize_laws(n as nat, N as nat, r@);
                    }
                    return r;
                }
            }
            proof {
                assert(no_factor_below(m as nat, (p + 1) as nat));
                lemma_no_factor_below_next(m as nat, N as nat, idx + 1);
                if idx + 1 == self.primes.len() {
                    lemma_factorization_whole(m as nat, N as nat);
                }
            }
            idx += 1;
        }
        if m > 1 {
            proof {
                assert(nats(pf@.push(m)) =~= nats(pf@) + seq![m as nat]);
            }
            pf.push(m);
        }
        proof {
            lemma_factorize_laws(n as nat, N as nat, pf@);
        }
        pf
    }

    /// Appends to `d` the divisors that the factors from position `i` on
    /// generate, each multiplied by `x`.
    fn divisor_rec(&self, i: usize, x: u64, pf: &Vec<u64>, d: &mut Vec<u64>)
        requires
            i <= pf.len(),
            all_positive(nats(pf@)),
            x * product(nats(pf@).skip(i as int)) <= u64::MAX,
        ensures
            nats(final(d)@) == nats(old(d)@) + scale(
                divisor_list(nats(pf@).skip(i as int)),
                x as nat,
            ),
        decreases pf.len() - i,
    {
        let ghost tail = nats(pf@).skip(i as int);
        if i >= pf.len() {
            proof {
                assert(1 * (x as nat) == x);
            }
            d.push(x);
            return ;
        }
        let mut j: usize = i + 1;
        while j < pf.len() && pf[i] == pf[j]
            invariant
                i < j <= pf.len(),
                tail == nats(pf@).skip(i as int),
                forall|k: int| 0 <= k < j - i ==> #[trigger] tail[k] == tail[0],
            decreases pf.len() - j,
        {
            j += 1;
        }
        let ghost e = (j - i) as nat;
        let ghost p = pf[i as int] as nat;
        let ghost rest = nats(pf@).skip(j as int);
        let ghost base = divisor_list(rest);
        let ghost d0 = nats(d@);
        proof {
            lemma_run_len_is(tail, e);
            lemma_run_split(tail);
            assert(tail.skip(e as int) =~= rest);
            lemma_product_positive(rest);
            lemma_power_bound(p, e, 0, product(rest), x as nat);
            assert(power(p, 0) == 1);
            assert((x as nat) * 1 == x);
        }
        let mut x = x;
        let ghost x0 = x as nat;
        self.divisor_rec(j, x, pf, d);
        let mut k: usize = 0;
        while k < j - i
            invariant
                k <= j - i,
                i < j <= pf.len(),
                e == j - i,
                p == pf[i as int],
                p >= 1,
                rest == nats(pf@).skip(j as int),
                base == divisor_list(rest),
                all_positive(nats(pf@)),
                product(rest) >= 1,
                x0 * (power(p, e) * product(rest)) <= u64::MAX,
                x == x0 * power(p, k as nat),
                nats(d@) == d0 + scale(power_blocks(base, p, k as nat), x0),
            decreases j - i - k,
        {
            proof {
                lemma_power_bound(p, e, (k + 1) as nat, product(rest), x0);
                assert(x0 * power(p, (k + 1) as nat) == (x0 * power(p, k as nat)) * p)
                    by (nonlinear_arith)
                    requires
                        power(p, (k + 1) as nat) == p * power(p, k as nat),
                ;
            }
            x = x * pf[i];
            self.divisor_rec(j, x, pf, d);
            k += 1;
            proof {
                lemma_scale_blocks(base, p, k as nat, x0);
            }
        }
    }

    /// The divisors of `n` that its factors generate, each once, in the
    /// order of generation (not ascending). They are all the divisors of
    /// `n` unless `n` has two or more prime factors, counted with
    /// multiplicity, that are not below `N`.
    pub fn divisors(&self, n: u64) -> (r: Vec<u64>)
        requires
            self.wf(),
            n >= 1,
        ensures
            nats(r@) == divisor_list(factorization(n as nat, N as nat)),
            r@.len() == divisor_count(factorization(n as nat, N as nat)),
            nats(r@).no_duplicates(),
            forall|i: int| 0 <= i < r@.len() ==> divides(#[trigger] nats(r@)[i], n as nat),
            cofactor_prime(n as nat, N as nat) ==> forall|d: nat|
                #![trigger nats(r@).contains(d)]
                #![trigger divides(d, n as nat)]
                nats(r@).contains(d) <==> divides(d, n as nat),
            cofactor_prime(n as nat, N as nat) ==> nats(r@).to_set() == divisors_of(n as nat),
            cofactor_prime(n as nat, N as nat) ==> r@.len() == divisors_of(n as nat).len(),
            cofactor_prime(n as nat, N as nat) ==> r@.len() == divisor_count(
                prime_factorization(n as nat),
            ),
            !cofactor_prime(n as nat, N as nat) ==> exists|d: nat|
                divides(d, n as nat) && !#[trigger] nats(r@).contains(d),
    {
        let pf = self.factorize(n);
        let mut divs: Vec<u64> = Vec::new();
        proof {
            lemma_factor_list(n as nat, N as nat);
            assert(nats(pf@).skip(0) =~= nats(pf@));
        }
        self.divisor_rec(0, 1, &pf, &mut divs);
        proof {
            let fs = factorization(n as nat, N as nat);
            let ds = divisor_list(fs);
            assert(nats(divs@) =~= ds);
            lemma_divisor_list_len(fs);
            assert forall|i: int, j: int| 0 <= i < j < ds.len() implies ds[i] != ds[j] by {
                lemma_divisor_list_distinct(fs, N as nat, i, j);
            }
            assert forall|i: int| 0 <= i < ds.len() implies divides(#[trigger] ds[i], n as nat) by {
                lemma_divisor_list_divides(fs, i);
            }
            if cofactor_prime(n as nat, N as nat) {
                assert forall|d: nat| ds.contains(d) <==> divides(d, n as nat) by {
                    if divides(d, n as nat) {
                        lemma_divisor_list_complete(fs, d);
                    }
                }
                lemma_factorization_is_prime_factorization(n as nat, N as nat);
                assert forall|d: nat| ds.to_set().contains(d) <==> divisors_of(n as nat).contains(
                    d,
                ) by {
                    if divides(d, n as nat) {
                        lemma_divides_split(d, n as nat);
                    }
                }
                assert(ds.to_set() =~= divisors_of(n as nat));
                ds.unique_seq_to_set();
            } else {
                lemma_divisor_list_incomplete(n as nat, N as nat);
            }
        }
        divs
    }
}

/// During the marking pass: `k` has been struck out once every prime below
/// `i` has been handled in full and the multiples of `i` from `i * i` up to,
/// but not including, `j`.
spec fn struck(k: int, i: nat, j: nat) -> bool {
    k >= 2 && (!no_factor_below(k as nat, i) || (divides(i, k as nat) && i * i <= k && k < j))
}

/// The state of the two tables during the marking pass.
spec fn marking(is_p: Seq<bool>, div: Seq<u64>, n: nat, i: nat, j: nat) -> bool {
    &&& is_p.len() == n
    &&& div.len() == n
    &&& forall|k: int| 0 <= k < n ==> #[trigger] is_p[k] == (k >= 2 && !struck(k, i, j))
    &&& forall|k: int|
        0 <= k < n ==> #[trigger] div[k] as nat == if struck(k, i, j) {
            least_factor(k as nat)
        } else {
            0
        }
}

/// Between two multiples of `i` lies no multiple of `i`.
proof fn lemma_between_multiples(i: nat, j: nat, k: nat)
    requires
        divides(i, j),
        j < k < j + i,
    ensures
        !divides(i, k),
{
    lemma_divides_split(i, j);
    lemma_fundamental_div_mod_converse(k as int, i as int, (j / i) as int, (k - j) as int);
}

/// Striking the multiples of a prime `i` from `i * i` on completes the step
/// from `i` to `i + 1`; for a composite `i` there is nothing to strike.
proof fn lemma_struck_step(k: nat, i: nat, j: nat)
    requires
        i >= 2,
        j > k,
    ensures
        is_prime(i) ==> (struck(k as int, i, j) <==> struck(k as int, i + 1, 0)),
        !is_prime(i) ==> (struck(k as int, i, 0) <==> struck(k as int, i + 1, 0)),
{
    if k >= 2 {
        if no_factor_below(k, i) {
            if divides(i, k) && i < k {
                lemma_divides_split(i, k);
                let q = k / i;
                lemma_divides_product(q, i);
                assert(q >= 2 && q < k) by (nonlinear_arith)
                    requires
                        k == i * q,
                        i < k,
                        i >= 2,
                        q >= 1,
                ;
                assert(i * i <= k) by (nonlinear_arith)
                    requires
                        k == i * q,
                        q >= i,
                ;
                if !is_prime(i) {
                    let d = choose|d: nat| 2 <= d < i && d < i && #[trigger] divides(d, i);
                    lemma_divides_trans(d, i, k);
                }
            } else {
                assert(i * i >= i + i) by (nonlinear_arith)
                    requires
                        i >= 2,
                ;
            }
        }
    }
}

/// Once `j` has passed the end of the tables, its exact value no longer
/// matters.
proof fn lemma_marking_past_end(is_p: Seq<bool>, div: Seq<u64>, n: nat, i: nat, j1: nat, j2: nat)
    requires
        marking(is_p, div, n, i, j1),
        j1 >= n,
        j2 >= n,
    ensures
        marking(is_p, div, n, i, j2),
{
}

/// Striking the multiple `j` of the prime `i` moves the pass on to `j + i`.
proof fn lemma_marking_strike(
    is_p0: Seq<bool>,
    div0: Seq<u64>,
    is_p1: Seq<bool>,
    div1: Seq<u64>,
    n: nat,
    i: nat,
    j: nat,
)
    requires
        marking(is_p0, div0, n, i, j),
        2 <= i < j < n,
        i < 0x1_0000_0000_0000_0000,
        divides(i, j),
        i * i <= j,
        is_p1 == is_p0.update(j as int, false),
        div1 == if div0[j as int] == 0 {
            div0.update(j as int, i as u64)
        } else {
            div0
        },
    ensures
        marking(is_p1, div1, n, i, j + i),
{
    lemma_least_factor(j);
    if no_factor_below(j, i) {
        lemma_least_factor_is(j, i);
    }
    assert forall|k: int| 0 <= k < n && k != j implies (struck(k, i, j + i) <==> struck(k,
        i,
        j,
    )) by {
        if j < k < j + i {
            lemma_between_multiples(i, j, k as nat);
        }
    }
    assert forall|k: int| 0 <= k < n implies #[trigger] div1[k] as nat == if struck(k,
        i,
        j + i,
    ) {
        least_factor(k as nat)
    } else {
        0
    } by {}
}

/// When the multiples of a prime `i` have been struck, or `i` is composite,
/// the pass stands where it begins for `i + 1`.
proof fn lemma_marking_next(is_p: Seq<bool>, div: Seq<u64>, n: nat, i: nat)
    requires
        2 <= i,
        marking(is_p, div, n, i, if is_prime(i) { n } else { 0 }),
    ensures
        marking(is_p, div, n, i + 1, 0),
{
    let j: nat = if is_prime(i) { n } else { 0 };
    assert forall|k: int| 0 <= k < n implies (#[trigger] struck(k, i, j) <==> struck(k, i + 1, 0)) by {
        lemma_struck_step(k as nat, i, n);
    }
}

/// When the pass has gone beyond the square root of the bound, the flags
/// are primality and the factor table lacks only the primes themselves.
proof fn lemma_marking_done(is_p: Seq<bool>, div: Seq<u64>, n: nat, i: nat)
    requires
        marking(is_p, div, n, i, 0),
        i * i >= n,
    ensures
        forall|k: int| 0 <= k < n ==> #[trigger] is_p[k] == is_prime(k as nat),
        forall|k: int|
            0 <= k < n ==> #[trigger] div[k] as nat == if is_prime(k as nat) {
                0
            } else {
                smallest_factor(k as nat)
            },
{
    assert forall|k: int| 0 <= k < n implies (struck(k, i, 0) <==> k >= 2 && !is_prime(
        k as nat,
    )) by {
        if k >= 2 && no_factor_below(k as nat, i) {
            lemma_prime_by_square(k as nat, i);
        }
    }
}

/// The prime at position `idx` of the table of primes below `bound`, or
/// `bound` itself past the end of the table.
spec fn prime_or_bound(bound: nat, idx: int) -> nat {
    if 0 <= idx < primes_below(bound).len() {
        primes_below(bound)[idx]
    } else {
        bound
    }
}

/// When no prime of the table before position `idx` divides `n`, nothing
/// below the prime at `idx` does.
proof fn lemma_no_factor_below_next(n: nat, bound: nat, idx: int)
    requires
        0 <= idx <= primes_below(bound).len(),
        idx > 0 ==> no_factor_below(n, primes_below(bound)[idx - 1] + 1),
    ensures
        no_factor_below(n, prime_or_bound(bound, idx)),
{
    let ps = primes_below(bound);
    let b = prime_or_bound(bound, idx);
    lemma_primes_below(bound);
    assert forall|d: nat| 2 <= d < b && d < n implies !#[trigger] divides(d, n) by {
        if divides(d, n) {
            lemma_least_factor(d);
            let q = least_factor(d);
            lemma_divides_trans(q, d, n);
        }
    }
}

/// A number that nothing below the bound divides is kept whole.
proof fn lemma_factorization_whole(n: nat, bound: nat)
    requires
        n >= bound >= 2,
        no_factor_below(n, bound),
    ensures
        factorization(n, bound) == seq![n],
{
    lemma_factorization_step(n, bound);
    lemma_least_factor(n);
}

/// A quotient of `n` by one of its divisors has no divisors that `n` lacks.
proof fn lemma_no_factor_quotient(n: nat, p: nat, b: nat)
    requires
        divides(p, n),
        n >= 1,
        no_factor_below(n, b),
        p >= 2,
    ensures
        no_factor_below(n / p, b),
{
    lemma_divides_split(p, n);
    let m = n / p;
    lemma_divides_product(m, p);
    assert forall|d: nat| 2 <= d < b && d < m implies !#[trigger] divides(d, m) by {
        if divides(d, m) {
            lemma_divides_trans(d, m, n);
        }
    }
}

/// What holds of the factors of `n`, as machine integers.
proof fn lemma_factorize_laws(n: nat, bound: nat, r: Seq<u64>)
    requires
        n >= 1,
        nats(r) == factorization(n, bound),
    ensures
        product(nats(r)) == n,
        sorted(nats(r)),
        all_prime(nats(r)) <==> cofactor_prime(n, bound),
        cofactor_prime(n, bound) ==> nats(r) == prime_factorization(n),
        n < bound * bound ==> all_prime(nats(r)),
        n == 1 ==> r == Seq::<u64>::empty(),
        is_prime(n) ==> n <= u64::MAX ==> r == seq![n as u64],
{
    lemma_factorization_product(n, bound);
    lemma_factorization_sorted(n, bound);
    lemma_factorization_prime(n, bound);
    if n < bound * bound {
        lemma_cofactor_prime_below_square(n, bound);
    }
    if cofactor_prime(n, bound) {
        lemma_factorization_is_prime_factorization(n, bound);
    }
    if is_prime(n) && n <= u64::MAX {
        lemma_factorization_of_prime(n, bound);
    }
}

/// What `factorize` returns is a factor list of positive numbers.
proof fn lemma_factor_list(n: nat, bound: nat)
    ensures
        factor_list(factorization(n, bound), bound),
        all_positive(factorization(n, bound)),
{
    lemma_factorization_sorted(n, bound);
    lemma_factorization_elements(n, bound);
}

/// While `x * p^e * m` fits, so does `x * p^k` for every `k <= e`.
proof fn lemma_power_bound(p: nat, e: nat, k: nat, m: nat, x: nat)
    requires
        k <= e,
        p >= 1,
        m >= 1,
    ensures
        x * power(p, k) <= (x * power(p, k)) * m <= x * (power(p, e) * m),
{
    lemma_power_add(p, k, (e - k) as nat);
    lemma_power_positive(p, (e - k) as nat);
    lemma_power_positive(p, k);
    let a = power(p, k);
    let b = power(p, (e - k) as nat);
    assert(x * a <= (x * a) * m <= x * ((a * b) * m)) by (nonlinear_arith)
        requires
            b >= 1,
            m >= 1,
    ;
}

/// One more block: the blocks up to `p^k`, all multiplied by `x`, are the
/// blocks up to `p^(k-1)` multiplied by `x`, followed by `base` multiplied
/// by `x * p^k`.
proof fn lemma_scale_blocks(base: Seq<nat>, p: nat, k: nat, x: nat)
    requires
        k >= 1,
    ensures
        scale(power_blocks(base, p, k), x) == scale(power_blocks(base, p, (k - 1) as nat), x)
            + scale(base, x * power(p, k)),
{
    let lhs = scale(power_blocks(base, p, k), x);
    let rhs = scale(power_blocks(base, p, (k - 1) as nat), x) + scale(base, x * power(p, k));
    let first = power_blocks(base, p, (k - 1) as nat);
    assert forall|i: int| 0 <= i < lhs.len() implies lhs[i] == rhs[i] by {
        if i >= first.len() {
            let t = i - first.len();
            let c = power(p, k);
            assert((base[t] * c) * x == base[t] * (x * c)) by (nonlinear_arith);
        }
    }
}

} // verus!
