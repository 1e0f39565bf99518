//! A segment tree over a range of positions: range sums and point updates.

use vstd::prelude::*;

verus! {

/// The sum of `s[a], ..., s[b - 1]`; 0 when the range is empty.
pub open spec fn range_sum(s: Seq<int>, a: int, b: int) -> int
    decreases b - a,
{
    if a >= b {
        0
    } else {
        range_sum(s, a, b - 1) + s[b - 1]
    }
}

/// Every sum over a range of `s` is a value of `i64`.
pub open spec fn sums_fit(s: Seq<int>) -> bool {
    forall|a: int, b: int|
        0 <= a <= b <= s.len() ==> i64::MIN <= #[trigger] range_sum(s, a, b) <= i64::MAX
}

/// A range sum splits at any point of the range.
pub proof fn lemma_range_sum_split(s: Seq<int>, a: int, b: int, c: int)
    requires
        a <= b <= c,
    ensures
        range_sum(s, a, c) == range_sum(s, a, b) + range_sum(s, b, c),
    decreases c - b,
{
    if b < c {
        lemma_range_sum_split(s, a, b, c - 1);
    }
}

/// A range sum looks only at the elements of its range.
pub proof fn lemma_range_sum_same(s: Seq<int>, t: Seq<int>, a: int, b: int, shift: int)
    requires
        forall|k: int| a <= k < b ==> s[k] == t[k + shift],
    ensures
        range_sum(s, a, b) == range_sum(t, a + shift, b + shift),
    decreases b - a,
{
    if a < b {
        lemma_range_sum_same(s, t, a, b - 1, shift);
    }
}

/// The range sums of a constant sequence.
pub proof fn lemma_range_sum_constant(s: Seq<int>, v: int, a: int, b: int)
    requires
        0 <= a <= b <= s.len(),
        forall|k: int| 0 <= k < s.len() ==> s[k] == v,
    ensures
        range_sum(s, a, b) == (b - a) * v,
    decreases b - a,
{
    if a < b {
        lemma_range_sum_constant(s, v, a, b - 1);
        assert((b - a) * v == (b - 1 - a) * v + v) by (nonlinear_arith);
    } else {
        assert((b - a) * v == 0) by (nonlinear_arith)
            requires
                b - a == 0,
        ;
    }
}

/// The parts of a sequence whose sums fit have sums that fit.
pub proof fn lemma_sums_fit_parts(l: Seq<int>, r: Seq<int>)
    requires
        sums_fit(l + r),
    ensures
        sums_fit(l),
        sums_fit(r),
{
    let s = l + r;
    assert forall|a: int, b: int| 0 <= a <= b <= l.len() implies i64::MIN <= #[trigger] range_sum(
        l,
        a,
        b,
    ) <= i64::MAX by {
        lemma_range_sum_same(l, s, a, b, 0);
    }
    assert forall|a: int, b: int| 0 <= a <= b <= r.len() implies i64::MIN <= #[trigger] range_sum(
        r,
        a,
        b,
    ) <= i64::MAX by {
        lemma_range_sum_same(r, s, a, b, l.len() as int);
    }
}

/// A tree over the positions `lo() ..= hi()` of a sequence of integers that
/// answers range sums and takes point updates.
pub struct SegTree {
    fr: usize,
    to: usize,
    value: i64,
    left: Option<Box<SegTree>>,
    right: Option<Box<SegTree>>,
}

impl SegTree {
    /// The first position that the tree covers.
    pub closed spec fn lo(&self) -> int {
        self.fr as int
    }

    /// The last position that the tree covers.
    pub closed spec fn hi(&self) -> int {
        self.to as int
    }

    /// The values at the positions `lo() ..= hi()`, in order.
    pub closed spec fn view(&self) -> Seq<int>
        decreases self,
    {
        if self.left is Some && self.right is Some {
            self.left->0.view() + self.right->0.view()
        } else {
            seq![self.value as int]
        }
    }

    /// The tree halves its range at each node down to single positions,
    /// and each node holds the sum of its range.
    pub closed spec fn shaped(&self) -> bool
        decreases self,
    {
        &&& self.fr <= self.to
        &&& if self.fr == self.to {
            self.left is None && self.right is None
        } else {
            &&& self.left is Some
            &&& self.right is Some
            &&& self.left->0.shaped()
            &&& self.right->0.shaped()
            &&& self.left->0.fr == self.fr
            &&& self.left->0.to == self.fr + (self.to - self.fr) / 2
            &&& self.right->0.fr == self.left->0.to + 1
            &&& self.right->0.to == self.to
            &&& self.value == self.left->0.value + self.right->0.value
        }
    }

    /// The tree is well formed, and every range sum of its values is a
    /// value of `i64`.
    pub open spec fn wf(&self) -> bool {
        &&& self.shaped()
        &&& self.lo() <= self.hi()
        &&& self@.len() == self.hi() - self.lo() + 1
        &&& sums_fit(self@)
    }

    /// A node holds the sum of its range, which has one value for each
    /// position.
    proof fn lemma_shaped(&self)
        requires
            self.shaped(),
        ensures
            self@.len() == self.to - self.fr + 1,
            self.value == range_sum(self@, 0, self@.len() as int),
        decreases self,
    {
        if self.fr == self.to {
            assert(range_sum(self@, 0, 0) == 0);
        } else {
            let l = self.left->0;
            let r = self.right->0;
            l.lemma_shaped();
            r.lemma_shaped();
            let s = self@;
            lemma_range_sum_split(s, 0, l@.len() as int, s.len() as int);
            lemma_range_sum_same(l@, s, 0, l@.len() as int, 0);
            lemma_range_sum_same(r@, s, 0, r@.len() as int, l@.len() as int);
        }
    }

    /// A tree over the positions `fr ..= to`, each holding `initial_value`.
    pub fn new(fr: usize, to: usize, initial_value: i64) -> (t: SegTree)
        requires
            fr <= to,
            i64::MIN <= (to - fr + 1) * initial_value <= i64::MAX,
        ensures
            t.wf(),
            t.lo() == fr,
            t.hi() == to,
            t@ == Seq::new((to - fr + 1) as nat, |k: int| initial_value as int),
        decreases to - fr,
    {
        let ghost all = Seq::new((to - fr + 1) as nat, |k: int| initial_value as int);
        proof {
            assert forall|a: int, b: int| 0 <= a <= b <= all.len() implies i64::MIN
                <= #[trigger] range_sum(all, a, b) <= i64::MAX by {
                lemma_range_sum_constant(all, initial_value as int, a, b);
                lemma_multiple_between(b - a, to - fr + 1, initial_value as int);
            }
        }
        if fr == to {
            let t = SegTree { fr, to, value: initial_value, left: None, right: None };
            assert(t@ =~= all);
            return t;
        }
        let mid = fr + (to - fr) / 2;
        proof {
            lemma_multiple_between(mid - fr + 1, to - fr + 1, initial_value as int);
            lemma_multiple_between(to - mid, to - fr + 1, initial_value as int);
        }
        let left = SegTree::new(fr, mid, initial_value);
        let right = SegTree::new(mid + 1, to, initial_value);
        proof {
            left.lemma_shaped();
            right.lemma_shaped();
            lemma_range_sum_constant(left@, initial_value as int, 0, left@.len() as int);
            lemma_range_sum_constant(right@, initial_value as int, 0, right@.len() as int);
            assert((mid - fr + 1) * initial_value + (to - mid) * initial_value == (to - fr + 1)
                * initial_value) by (nonlinear_arith);
        }
        let value = left.value + right.value;
        let left = Some(Box::new(left));
        let right = Some(Box::new(right));
        let t = SegTree { fr, to, value, left, right };
        assert(t@ =~= all);
        t
    }

    /// The sum of the values at the positions `a ..= b`.
    pub fn query(&self, a: usize, b: usize) -> (sum: i64)
        requires
            self.wf(),
            self.lo() <= a <= b <= self.hi(),
        ensures
            sum == range_sum(self@, a - self.lo(), b - self.lo() + 1),
        decreases self,
    {
        proof {
            self.lemma_shaped();
        }
        if a == self.fr && b == self.to {
            return self.value;
        }
        let left = self.left.as_ref().unwrap();
        let right = self.right.as_ref().unwrap();
        let ghost s = self@;
        let ghost n = left@.len() as int;
        proof {
            left.lemma_shaped();
            right.lemma_shaped();
            lemma_sums_fit_parts(left@, right@);
        }
        let mut ans: i64 = 0;
        if left.to >= a {
            let end = if b < left.to {
                b
            } else {
                left.to
            };
            let part = left.query(a, end);
            proof {
                lemma_range_sum_same(left@, s, a - self.fr, end - self.fr + 1, 0);
            }
            ans = ans + part;
        }
        if right.fr <= b {
            let start = if a > right.fr {
                a
            } else {
                right.fr
            };
            let part = right.query(start, b);
            proof {
                lemma_range_sum_same(right@, s, start - right.fr, b - right.fr + 1, n);
                if left.to >= a {
                    lemma_range_sum_split(s, a - self.fr, n, b - self.fr + 1);
                }
            }
            ans = ans + part;
        }
        ans
    }

    /// Sets the value at position `i` to `v`.
    pub fn update(&mut self, i: usize, v: i64)
        requires
            old(self).wf(),
            old(self).lo() <= i <= old(self).hi(),
            sums_fit(old(self)@.update(i - old(self).lo(), v as int)),
        ensures
            final(self).wf(),
            final(self).lo() == old(self).lo(),
            final(self).hi() == old(self).hi(),
            final(self)@ == old(self)@.update(i - old(self).lo(), v as int),
        decreases old(self).hi() - old(self).lo(),
    {
        proof {
            self.lemma_shaped();
        }
        if self.fr == self.to {
            self.value = v;
            assert(self@ =~= old(self)@.update(i - old(self).lo(), v as int));
            return ;
        }
        let ghost l0 = self.left->0@;
        let ghost r0 = self.right->0@;
        let ghost target = old(self)@.update(i - old(self).lo(), v as int);
        proof {
            self.left->0.lemma_shaped();
            self.right->0.lemma_shaped();
            if self.left->0.to >= i {
                assert(target =~= l0.update(i - self.fr, v as int) + r0);
            } else {
                assert(target =~= l0 + r0.update(i - self.fr - l0.len(), v as int));
            }
            lemma_sums_fit_parts(l0, r0);
            if self.left->0.to >= i {
                lemma_sums_fit_parts(l0.update(i - self.fr, v as int), r0);
            } else {
                lemma_sums_fit_parts(l0, r0.update(i - self.fr - l0.len(), v as int));
            }
        }
        let left = self.left.as_mut().unwrap();
        let right = self.right.as_mut().unwrap();
        if left.to >= i {
            left.update(i, v);
        } else {
            right.update(i, v);
        }
        proof {
            left.lemma_shaped();
            right.lemma_shaped();
            let s = left@ + right@;
            lemma_range_sum_split(s, 0, left@.len() as int, s.len() as int);
            lemma_range_sum_same(left@, s, 0, left@.len() as int, 0);
            lemma_range_sum_same(right@, s, 0, right@.len() as int, left@.len() as int);
        }
        self.value = left.value + right.value;
    }
}

/// A multiple of `v` by a count between 0 and `n` lies between 0 and
/// `n * v`.
proof fn lemma_multiple_between(k: int, n: int, v: int)
    requires
        0 <= k <= n,
        i64::MIN <= n * v <= i64::MAX,
    ensures
        i64::MIN <= k * v <= i64::MAX,
{
    if v >= 0 {
        assert(0 <= k * v <= n * v) by (nonlinear_arith)
            requires
                0 <= k <= n,
                v >= 0,
        ;
    } else {
        assert(n * v <= k * v <= 0) by (nonlinear_arith)
            requires
                0 <= k <= n,
                v < 0,
        ;
    }
}

} // verus!
