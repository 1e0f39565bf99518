//! Euclid's extended algorithm, and the integers modulo a constant.

use crate::arith::{
    divides, lemma_divides_difference, lemma_divides_multiple, lemma_divides_product,
    lemma_divides_split,
};
use vstd::arithmetic::div_mod::{
    lemma_fundamental_div_mod, lemma_mod_multiples_vanish, lemma_mul_mod_noop_general,
    lemma_small_mod,
};
use vstd::prelude::*;
use vstd::std_specs::convert::IntoSpec;

verus! {

/// The greatest common divisor of `a` and `b`, by Euclid's algorithm;
/// `gcd(a, 0) == a`.
pub open spec fn gcd(a: nat, b: nat) -> nat
    decreases b,
{
    if b == 0 {
        a
    } else {
        gcd(b, a % b)
    }
}

/// The coefficients `(x, y)` that Euclid's algorithm yields for `a` and
/// `b`: `(1, 0)` when `b == 0`, and otherwise, with `(y', x')` the
/// coefficients for `b` and `a % b`, the pair `(x', y' - (a / b) * x')`.
pub open spec fn bezout(a: nat, b: nat) -> (int, int)
    decreases b,
{
    if b == 0 {
        (1, 0)
    } else {
        let (y, x) = bezout(b, a % b);
        (x, y - (a / b) * x)
    }
}

/// The absolute value of `x`.
pub open spec fn abs(x: int) -> int {
    if x < 0 {
        -x
    } else {
        x
    }
}

/// The coefficients combine `a` and `b` into their greatest common divisor.
pub proof fn lemma_bezout(a: nat, b: nat)
    ensures
        a * bezout(a, b).0 + b * bezout(a, b).1 == gcd(a, b),
    decreases b,
{
    if b > 0 {
        lemma_bezout(b, a % b);
        let (y, x) = bezout(b, a % b);
        let q = a / b;
        let r = a % b;
        lemma_fundamental_div_mod(a as int, b as int);
        assert(a * x + b * (y - q * x) == b * y + r * x) by (nonlinear_arith)
            requires
                a == b * q + r,
        ;
    } else {
        assert(a * 1 + b * 0 == a) by (nonlinear_arith);
    }
}

/// The coefficients are no larger than the numbers themselves.
pub proof fn lemma_bezout_bounds(a: nat, b: nat)
    ensures
        abs(bezout(a, b).0) <= if b >= 1 { b } else { 1 },
        abs(bezout(a, b).1) <= if a >= 1 { a } else { 1 },
        b > 0 ==> abs((a / b) * bezout(b, a % b).1) <= a,
    decreases b,
{
    if b > 0 {
        let q = a / b;
        let r = a % b;
        lemma_bezout_bounds(b, r);
        let (y, x) = bezout(b, r);
        lemma_fundamental_div_mod(a as int, b as int);
        if r == 0 {
            assert(q * x == 0) by (nonlinear_arith)
                requires
                    x == 0,
            ;
        } else {
            assert(abs(q * x) <= q * b) by (nonlinear_arith)
                requires
                    abs(x) <= b,
                    q >= 0,
            ;
        }
    }
}

/// `gcd(a, b)` divides both numbers, and whatever divides both divides it.
pub proof fn lemma_gcd(a: nat, b: nat)
    requires
        a > 0 || b > 0,
    ensures
        gcd(a, b) > 0,
        divides(gcd(a, b), a),
        divides(gcd(a, b), b),
        forall|c: nat| #[trigger] divides(c, a) && divides(c, b) ==> divides(c, gcd(a, b)),
    decreases b,
{
    if b == 0 {
        lemma_divides_product(a, 1);
    } else {
        let q = a / b;
        let r = a % b;
        lemma_fundamental_div_mod(a as int, b as int);
        lemma_gcd(b, r);
        let d = gcd(b, r);
        lemma_divides_multiple(d, b, q as nat);
        lemma_divides_split(d, b * (q as nat));
        lemma_divides_split(d, r);
        let k1 = (b * (q as nat)) / d;
        let k2 = r / d;
        assert(a == d * (k1 + k2)) by (nonlinear_arith)
            requires
                a == b * q + r,
                b * q == d * k1,
                r == d * k2,
        ;
        lemma_divides_product(d, k1 + k2);
        assert forall|c: nat| #[trigger] divides(c, a) && divides(c, b) implies divides(c, d) by {
            lemma_divides_multiple(c, b, q as nat);
            lemma_divides_difference(c, a, b * (q as nat));
        }
    }
}

/// Returns `(d, x, y)` with `d` the greatest common divisor of `a` and
/// `b` and `a * x + b * y == d`.
pub fn extended_gcd(a: i64, b: i64) -> (r: (i64, i64, i64))
    requires
        a >= 0,
        b >= 0,
    ensures
        r.0 == gcd(a as nat, b as nat),
        (r.1 as int, r.2 as int) == bezout(a as nat, b as nat),
        a * r.1 + b * r.2 == r.0,
        a > 0 || b > 0 ==> r.0 > 0 && divides(r.0 as nat, a as nat) && divides(
            r.0 as nat,
            b as nat,
        ),
        forall|c: nat|
            (a > 0 || b > 0) && #[trigger] divides(c, a as nat) && divides(c, b as nat) ==> divides(
                c,
                r.0 as nat,
            ),
    decreases b,
{
    proof {
        lemma_bezout(a as nat, b as nat);
        lemma_bezout_bounds(a as nat, b as nat);
        if a > 0 || b > 0 {
            lemma_gcd(a as nat, b as nat);
        }
    }
    if b == 0 {
        return (a, 1, 0);
    }
    let (d, y, x) = extended_gcd(b, a % b);
    proof {
        lemma_bezout_bounds(b as nat, (a % b) as nat);
    }
    (d, x, y - (a / b) * x)
}

/// An integer modulo `M`, held as its residue in `[0, M)`.
#[derive(Copy, Clone, Debug)]
pub struct Zn<const M: u32>(pub u32);

/// The residue of `x` modulo `m`, in `[0, m)`.
pub open spec fn residue(x: int, m: int) -> int {
    x % m
}

/// The residue of the inverse of `v` modulo `m`, for `v` coprime to `m`.
pub open spec fn inverse_residue(v: nat, m: nat) -> int {
    residue(bezout(v, m).0, m as int)
}

/// The inverse residue is the inverse: times `v` it leaves 1 modulo `m`.
pub proof fn lemma_inverse_residue(v: nat, m: nat)
    requires
        m > 0,
        gcd(v, m) == 1,
    ensures
        0 <= inverse_residue(v, m) < m,
        (v * inverse_residue(v, m)) % (m as int) == 1int % (m as int),
{
    lemma_bezout(v, m);
    let (x, y) = bezout(v, m);
    let mi = m as int;
    lemma_mul_mod_noop_general(v as int, x, mi);
    assert(v * x == 1 + (-y) * mi) by (nonlinear_arith)
        requires
            v * x + m * y == 1,
            mi == m,
    ;
    lemma_mod_multiples_vanish(-y, 1, mi);
}

impl<const M: u32> Zn<M> {
    /// The residue lies below the modulus.
    pub open spec fn wf(self) -> bool {
        self.0 < M
    }

    /// The residue class of `x`.
    fn from_i64(x: i64) -> (r: Zn<M>)
        requires
            M > 0,
        ensures
            r.wf(),
            r.0 == residue(x as int, M as int),
    {
        let m: i64 = M as i64;
        let t: i64 = x % m;
        proof {
            lemma_fundamental_div_mod(x as int, m as int);
            if x < 0 {
                lemma_fundamental_div_mod(-(x as int), m as int);
                let q = (-(x as int)) / (m as int);
                if t == 0 {
                    assert(x as int == m * (-q) + 0) by (nonlinear_arith)
                        requires
                            -(x as int) == m * q,
                    ;
                    vstd::arithmetic::div_mod::lemma_fundamental_div_mod_converse(
                        x as int,
                        m as int,
                        -q,
                        0,
                    );
                } else {
                    assert(x as int == m * (-q - 1) + (t + m)) by (nonlinear_arith)
                        requires
                            -(x as int) == m * q + (-t),
                    ;
                    vstd::arithmetic::div_mod::lemma_fundamental_div_mod_converse(
                        x as int,
                        m as int,
                        -q - 1,
                        t + m,
                    );
                }
            }
            if t + m >= m {
                lemma_small_mod(t as nat, m as nat);
                lemma_mod_multiples_vanish(1, t as int, m as int);
            } else {
                lemma_small_mod((t + m) as nat, m as nat);
            }
        }
        Zn(((t + m) % m) as u32)
    }

    /// The residue class of `x`.
    pub fn new<T: Into<i64>>(x: T) -> (r: Zn<M>)
        requires
            M > 0,
        ensures
            r.wf(),
            T::obeys_into_spec() ==> r.0 == residue(x.into_spec() as int, M as int),
    {
        let x: i64 = x.into();
        Self::from_i64(x)
    }

    /// The multiplicative inverse, for a residue coprime to the modulus.
    pub fn inverse(self) -> (r: Zn<M>)
        requires
            M > 0,
            gcd(self.0 as nat, M as nat) == 1,
        ensures
            r.wf(),
            r.0 == inverse_residue(self.0 as nat, M as nat),
            (self.0 * r.0) % (M as int) == 1int % (M as int),
    {
        proof {
            lemma_inverse_residue(self.0 as nat, M as nat);
        }
        let (d, x, _) = extended_gcd(self.0 as i64, M as i64);
        Self::from_i64(x)
    }
}

impl<const M: u32> vstd::std_specs::ops::AddSpecImpl<Zn<M>> for Zn<M> {
    open spec fn obeys_add_spec() -> bool {
        true
    }

    open spec fn add_req(self, rhs: Zn<M>) -> bool {
        M > 0 && self.0 + rhs.0 <= u32::MAX
    }

    open spec fn add_spec(self, rhs: Zn<M>) -> Zn<M> {
        Zn(((self.0 + rhs.0) % (M as int)) as u32)
    }
}

impl<const M: u32> std::ops::Add<Zn<M>> for Zn<M> {
    type Output = Zn<M>;

    /// The sum of two residues.
    fn add(self, other: Zn<M>) -> Zn<M> {
        Zn((self.0 + other.0) % M)
    }
}

impl<const M: u32> vstd::std_specs::ops::SubSpecImpl<Zn<M>> for Zn<M> {
    open spec fn obeys_sub_spec() -> bool {
        true
    }

    open spec fn sub_req(self, rhs: Zn<M>) -> bool {
        M > 0 && self.0 + M <= u32::MAX && rhs.0 <= self.0 + M
    }

    open spec fn sub_spec(self, rhs: Zn<M>) -> Zn<M> {
        Zn(((self.0 + M - rhs.0) % (M as int)) as u32)
    }
}

impl<const M: u32> std::ops::Sub<Zn<M>> for Zn<M> {
    type Output = Zn<M>;

    /// The difference of two residues.
    fn sub(self, other: Zn<M>) -> Zn<M> {
        Zn((self.0 + M - other.0) % M)
    }
}

impl<const M: u32> vstd::std_specs::ops::MulSpecImpl<Zn<M>> for Zn<M> {
    open spec fn obeys_mul_spec() -> bool {
        true
    }

    open spec fn mul_req(self, rhs: Zn<M>) -> bool {
        M > 0
    }

    open spec fn mul_spec(self, rhs: Zn<M>) -> Zn<M> {
        Zn(((self.0 * rhs.0) % (M as int)) as u32)
    }
}

impl<const M: u32> std::ops::Mul<Zn<M>> for Zn<M> {
    type Output = Zn<M>;

    /// The product of two residues.
    fn mul(self, other: Zn<M>) -> Zn<M> {
        proof {
            assert(self.0 * other.0 <= 0xffff_ffff * 0xffff_ffff) by (nonlinear_arith)
                requires
                    self.0 <= 0xffff_ffff,
                    other.0 <= 0xffff_ffff,
            ;
        }
        Zn(((self.0 as u64) * (other.0 as u64) % (M as u64)) as u32)
    }
}

impl<const M: u32> vstd::std_specs::ops::DivSpecImpl<Zn<M>> for Zn<M> {
    open spec fn obeys_div_spec() -> bool {
        true
    }

    open spec fn div_req(self, rhs: Zn<M>) -> bool {
        M > 0 && gcd(rhs.0 as nat, M as nat) == 1
    }

    open spec fn div_spec(self, rhs: Zn<M>) -> Zn<M> {
        Zn(((self.0 * inverse_residue(rhs.0 as nat, M as nat)) % (M as int)) as u32)
    }
}

impl<const M: u32> std::ops::Div<Zn<M>> for Zn<M> {
    type Output = Zn<M>;

    /// The quotient of two residues, the divisor coprime to the modulus.
    fn div(self, other: Zn<M>) -> Zn<M> {
        self * other.inverse()
    }
}

} // verus!
