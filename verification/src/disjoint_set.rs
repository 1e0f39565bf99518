//! Disjoint sets: union by rank with path compression.

use vstd::prelude::*;

verus! {

/// A partition of `0..n` into disjoint sets, as a forest of parent links
/// with ranks.
pub struct DSet {
    pub p: Vec<usize>,
    pub r: Vec<usize>,
}

/// Every rank below a rank that occurs in `r` occurs in `r` too.
pub open spec fn ranks_closed(r: Seq<usize>) -> bool {
    forall|i: int|
        0 <= i < r.len() && #[trigger] r[i] > 0 ==> exists|j: int|
            0 <= j < r.len() && #[trigger] r[j] == r[i] - 1
}

/// Some element of `r` has rank `k`.
pub open spec fn has_rank(r: Seq<usize>, k: int) -> bool {
    exists|j: int| 0 <= j < r.len() && #[trigger] r[j] == k
}

/// With the ranks closed downward, every rank from 0 up to one that occurs
/// does occur.
proof fn lemma_ranks_below(r: Seq<usize>, k: int, l: int)
    requires
        ranks_closed(r),
        has_rank(r, k),
        0 <= l <= k,
    ensures
        has_rank(r, l),
    decreases k - l,
{
    if l < k {
        lemma_ranks_below(r, k, l + 1);
    }
}

/// A sequence in which every value from 0 to `k` occurs has more than `k`
/// elements.
proof fn lemma_distinct_values(r: Seq<usize>, k: int)
    requires
        k >= 0,
        forall|l: int| 0 <= l <= k ==> has_rank(r, l),
    ensures
        r.len() > k,
    decreases k,
{
    assert(has_rank(r, k));
    let j = choose|j: int| 0 <= j < r.len() && #[trigger] r[j] == k;
    if k > 0 {
        let s = r.remove(j);
        assert forall|l: int| 0 <= l <= k - 1 implies has_rank(s, l) by {
            assert(has_rank(r, l));
            let i = choose|i: int| 0 <= i < r.len() && #[trigger] r[i] == l;
            if i < j {
                assert(s[i] == l);
            } else {
                assert(s[i - 1] == l);
            }
        }
        lemma_distinct_values(s, k - 1);
    }
}

/// With the ranks closed downward, every rank is below the number of
/// elements.
proof fn lemma_rank_bound(r: Seq<usize>, i: int)
    requires
        ranks_closed(r),
        0 <= i < r.len(),
    ensures
        r[i] < r.len(),
{
    let k = r[i] as int;
    assert forall|l: int| 0 <= l <= k implies has_rank(r, l) by {
        lemma_ranks_below(r, k, l);
    }
    lemma_distinct_values(r, k);
}

/// Raising the rank of `b` by 1 above the equal rank of `a` keeps the
/// ranks closed downward.
proof fn lemma_ranks_raise(r1: Seq<usize>, r2: Seq<usize>, a: int, b: int)
    requires
        ranks_closed(r1),
        0 <= a < r1.len(),
        0 <= b < r1.len(),
        a != b,
        r1[a] == r1[b],
        r1[b] < usize::MAX,
        r2 == r1.update(b, (r1[b] + 1) as usize),
    ensures
        ranks_closed(r2),
{
    assert forall|i: int| 0 <= i < r2.len() && #[trigger] r2[i] > 0 implies exists|j: int|
        0 <= j < r2.len() && #[trigger] r2[j] == r2[i] - 1 by {
        if i == b {
            assert(r2[a] == r2[i] - 1);
        } else {
            let j = choose|j: int| 0 <= j < r1.len() && #[trigger] r1[j] == r1[i] - 1;
            if j == b {
                assert(r2[a] == r2[i] - 1);
            } else {
                assert(r2[j] == r2[i] - 1);
            }
        }
    }
}

/// The parent links `p` stay inside the structure and lead to strictly
/// higher ranks `r`, and the ranks are closed downward.
pub open spec fn forest(p: Seq<usize>, r: Seq<usize>) -> bool {
    &&& p.len() == r.len()
    &&& forall|i: int| 0 <= i < p.len() ==> #[trigger] p[i] < p.len()
    &&& forall|i: int| 0 <= i < p.len() && #[trigger] p[i] != i ==> r[i] < r[p[i] as int]
    &&& ranks_closed(r)
}

/// The end of the chain of parent links from `i`.
pub open spec fn root_in(p: Seq<usize>, r: Seq<usize>, i: int) -> int
    decreases usize::MAX - r[i],
    when forest(p, r) && 0 <= i < p.len()
{
    if p[i] == i {
        i
    } else {
        root_in(p, r, p[i] as int)
    }
}

/// `j` lies on the chain of parent links from `i`, both ends included.
pub open spec fn on_path(p: Seq<usize>, r: Seq<usize>, i: int, j: int) -> bool
    decreases usize::MAX - r[i],
    when forest(p, r) && 0 <= i < p.len()
{
    j == i || (p[i] != i && on_path(p, r, p[i] as int, j))
}

/// The parent links after the chain from `i` has been shortened: every
/// element on it is linked to its end.
pub open spec fn compressed(p: Seq<usize>, r: Seq<usize>, i: int) -> Seq<usize> {
    Seq::new(
        p.len(),
        |j: int|
            if on_path(p, r, i, j) {
                root_in(p, r, i) as usize
            } else {
                p[j]
            },
    )
}

/// The end of a chain is an element, its own parent, and of a rank no
/// lower than that of any element of the chain.
pub proof fn lemma_root_in(p: Seq<usize>, r: Seq<usize>, i: int)
    requires
        forest(p, r),
        0 <= i < p.len(),
    ensures
        0 <= root_in(p, r, i) < p.len(),
        p[root_in(p, r, i)] == root_in(p, r, i),
        root_in(p, r, root_in(p, r, i)) == root_in(p, r, i),
        r[i] <= r[root_in(p, r, i)],
        root_in(p, r, i) != i ==> r[i] < r[root_in(p, r, i)],
    decreases usize::MAX - r[i],
{
    if p[i] != i {
        lemma_root_in(p, r, p[i] as int);
    }
}

/// Every element of a chain is an element of the structure and has the end
/// of the chain for its representative.
pub proof fn lemma_on_path(p: Seq<usize>, r: Seq<usize>, i: int, j: int)
    requires
        forest(p, r),
        0 <= i < p.len(),
        on_path(p, r, i, j),
    ensures
        0 <= j < p.len(),
        root_in(p, r, j) == root_in(p, r, i),
        r[i] <= r[j],
    decreases usize::MAX - r[i],
{
    if j != i {
        lemma_on_path(p, r, p[i] as int, j);
    }
}

/// Shortening a chain leaves a forest in which every element has the
/// representative that it had.
pub proof fn lemma_compressed(p: Seq<usize>, r: Seq<usize>, i: int)
    requires
        forest(p, r),
        0 <= i < p.len(),
    ensures
        forest(compressed(p, r, i), r),
        forall|j: int|
            0 <= j < p.len() ==> root_in(compressed(p, r, i), r, j) == #[trigger] root_in(p, r, j),
{
    let q = compressed(p, r, i);
    let t = root_in(p, r, i);
    lemma_root_in(p, r, i);
    assert forall|j: int| 0 <= j < q.len() implies #[trigger] q[j] < q.len() && (q[j] != j
        ==> r[j] < r[q[j] as int]) by {
        if on_path(p, r, i, j) {
            lemma_on_path(p, r, i, j);
            lemma_root_in(p, r, j);
        }
    }
    assert(forest(q, r));
    assert forall|j: int| 0 <= j < p.len() implies root_in(q, r, j) == #[trigger] root_in(
        p,
        r,
        j,
    ) by {
        lemma_compressed_root(p, r, i, j);
    }
}

/// In the forest with the chain from `i` shortened, `j` has the
/// representative that it had.
proof fn lemma_compressed_root(p: Seq<usize>, r: Seq<usize>, i: int, j: int)
    requires
        forest(p, r),
        forest(compressed(p, r, i), r),
        0 <= i < p.len(),
        0 <= j < p.len(),
    ensures
        root_in(compressed(p, r, i), r, j) == root_in(p, r, j),
    decreases usize::MAX - r[j],
{
    let q = compressed(p, r, i);
    let t = root_in(p, r, i);
    lemma_root_in(p, r, i);
    lemma_root_in(p, r, j);
    if on_path(p, r, i, j) {
        lemma_on_path(p, r, i, j);
        assert(q[j] == t);
        if t != j {
            assert(on_path(p, r, i, t)) by {
                lemma_root_on_path(p, r, i);
            }
            assert(q[t] == t);
            assert(root_in(q, r, t) == t);
        }
    } else if p[j] != j {
        assert(q[j] == p[j]);
        lemma_compressed_root(p, r, i, p[j] as int);
    }
}

/// The end of a chain lies on the chain.
proof fn lemma_root_on_path(p: Seq<usize>, r: Seq<usize>, i: int)
    requires
        forest(p, r),
        0 <= i < p.len(),
    ensures
        on_path(p, r, i, root_in(p, r, i)),
    decreases usize::MAX - r[i],
{
    if p[i] != i {
        lemma_root_on_path(p, r, p[i] as int);
    }
}

/// Making the representative `b` the parent of the representative `a`
/// moves the set of `a` under `b` and no other element. The rank of `b`
/// may have grown.
proof fn lemma_link(
    p1: Seq<usize>,
    r1: Seq<usize>,
    p2: Seq<usize>,
    r2: Seq<usize>,
    a: int,
    b: int,
    j: int,
)
    requires
        forest(p1, r1),
        forest(p2, r2),
        0 <= a < p1.len(),
        0 <= b < p1.len(),
        0 <= j < p1.len(),
        a != b,
        p1[a] == a,
        p1[b] == b,
        p2 == p1.update(a, b as usize),
        r2.len() == r1.len(),
        forall|k: int| 0 <= k < r1.len() && k != b ==> r2[k] == r1[k],
    ensures
        root_in(p2, r2, j) == if root_in(p1, r1, j) == a {
            b
        } else {
            root_in(p1, r1, j)
        },
    decreases usize::MAX - r1[j],
{
    lemma_root_in(p1, r1, j);
    if j == a {
        assert(p2[b] == b);
        assert(root_in(p2, r2, b) == b);
    } else if p1[j] != j {
        lemma_link(p1, r1, p2, r2, a, b, p1[j] as int);
    }
}

impl DSet {
    /// The number of elements.
    pub open spec fn len(&self) -> nat {
        self.p@.len()
    }

    /// The parent links and the ranks make a forest.
    pub open spec fn wf(&self) -> bool {
        forest(self.p@, self.r@)
    }

    /// The representative of the set that holds `i`.
    pub open spec fn root_of(&self, i: int) -> int {
        root_in(self.p@, self.r@, i)
    }

    /// `i` and `j` are in the same set.
    pub open spec fn same_set(&self, i: int, j: int) -> bool {
        self.root_of(i) == self.root_of(j)
    }

    /// The representative of `j` after the sets of `a` and `b` are united:
    /// of the two representatives the one of higher rank, and the one of
    /// `b` when the ranks are equal.
    pub open spec fn merged_root(&self, a: int, b: int, j: int) -> int {
        let ra = self.root_of(a);
        let rb = self.root_of(b);
        let top = if self.r@[ra] > self.r@[rb] {
            ra
        } else {
            rb
        };
        if self.root_of(j) == ra || self.root_of(j) == rb {
            top
        } else {
            self.root_of(j)
        }
    }

    /// The ranks after the sets of `a` and `b` are united: where the two
    /// representatives differ and have the same rank, that of the
    /// representative of `b` grows by 1.
    pub open spec fn merged_ranks(&self, a: int, b: int) -> Seq<usize> {
        let ra = self.root_of(a);
        let rb = self.root_of(b);
        if ra != rb && self.r@[ra] == self.r@[rb] {
            self.r@.update(rb, (self.r@[rb] + 1) as usize)
        } else {
            self.r@
        }
    }

    /// The parent links after the sets of `a` and `b` are united: the
    /// chains from `a` and then from `b` are shortened, and where the two
    /// representatives differ, the one of lower rank, or that of `a` when
    /// the ranks are equal, is linked to the other.
    pub open spec fn merged_links(&self, a: int, b: int) -> Seq<usize> {
        let ra = self.root_of(a);
        let rb = self.root_of(b);
        let short = compressed(compressed(self.p@, self.r@, a), self.r@, b);
        if ra == rb {
            short
        } else if self.r@[ra] > self.r@[rb] {
            short.update(rb, ra as usize)
        } else {
            short.update(ra, rb as usize)
        }
    }

    /// `n` singleton sets.
    pub fn new(n: usize) -> (s: DSet)
        ensures
            s.wf(),
            s.len() == n,
            forall|i: int| 0 <= i < n ==> s.p@[i] == i,
            forall|i: int| 0 <= i < n ==> s.r@[i] == 0,
            forall|i: int| 0 <= i < n ==> s.root_of(i) == i,
    {
        let mut p: Vec<usize> = Vec::new();
        let mut i: usize = 0;
        while i < n
            invariant
                i <= n,
                p@.len() == i,
                forall|k: int| 0 <= k < i ==> p@[k] == k,
            decreases n - i,
        {
            p.push(i);
            i += 1;
        }
        let s = DSet { p, r: vec![0; n] };
        s
    }

    /// The representative of the set of `i`. Links every element of the
    /// chain from `i` to it; the sets and the ranks stay as they are.
    pub fn root(&mut self, i: usize) -> (t: usize)
        requires
            old(self).wf(),
            i < old(self).len(),
        ensures
            t == old(self).root_of(i as int),
            final(self).p@ == compressed(old(self).p@, old(self).r@, i as int),
            final(self).r@ == old(self).r@,
            final(self).wf(),
            final(self).len() == old(self).len(),
            forall|j: int| 0 <= j < old(self).len() ==> final(self).root_of(j) == old(self).root_of(j),
        decreases usize::MAX - old(self).r@[i as int],
    {
        let ghost p0 = self.p@;
        let ghost r0 = self.r@;
        proof {
            lemma_root_in(p0, r0, i as int);
            lemma_compressed(p0, r0, i as int);
        }
        if self.p[i] != i {
            let up = self.p[i];
            let t = self.root(up);
            self.p[i] = t;
            proof {
                assert forall|j: int| 0 <= j < p0.len() implies self.p@[j] == compressed(
                    p0,
                    r0,
                    i as int,
                )[j] by {
                    assert(on_path(p0, r0, i as int, j) == (j == i || on_path(
                        p0,
                        r0,
                        up as int,
                        j,
                    )));
                }
                assert(self.p@ =~= compressed(p0, r0, i as int));
            }
        } else {
            proof {
                assert forall|j: int| 0 <= j < p0.len() implies p0[j] == compressed(
                    p0,
                    r0,
                    i as int,
                )[j] by {
                    assert(on_path(p0, r0, i as int, j) == (j == i));
                }
                assert(self.p@ =~= compressed(p0, r0, i as int));
            }
        }
        self.p[i]
    }

    /// Unites the sets of `a` and `b`. Returns whether they were two sets.
    /// The representative of the united set is the one of higher rank, and
    /// the one of `b` when the ranks are equal, whose rank then grows by 1.
    pub fn merge(&mut self, a: usize, b: usize) -> (united: bool)
        requires
            old(self).wf(),
            a < old(self).len(),
            b < old(self).len(),
        ensures
            united == !old(self).same_set(a as int, b as int),
            final(self).p@ == old(self).merged_links(a as int, b as int),
            final(self).r@ == old(self).merged_ranks(a as int, b as int),
            final(self).wf(),
            final(self).len() == old(self).len(),
            !united ==> forall|j: int|
                0 <= j < old(self).len() ==> final(self).root_of(j) == old(self).root_of(j),
            united ==> forall|j: int|
                0 <= j < old(self).len() ==> final(self).root_of(j) == old(self).merged_root(
                    a as int,
                    b as int,
                    j,
                ),
    {
        let ghost s0 = *self;
        let ra = self.root(a);
        let rb = self.root(b);
        let ghost s1 = *self;
        proof {
            lemma_root_in(s0.p@, s0.r@, a as int);
            lemma_root_in(s0.p@, s0.r@, b as int);
            lemma_root_in(s1.p@, s1.r@, a as int);
            lemma_root_in(s1.p@, s1.r@, b as int);
            assert(ra == s1.root_of(a as int));
            assert(rb == s1.root_of(b as int));
        }
        if ra == rb {
            return false;
        }
        if self.r[ra] > self.r[rb] {
            self.p[rb] = ra;
            proof {
                assert forall|j: int| 0 <= j < s0.len() implies self.root_of(j) == s0.merged_root(
                    a as int,
                    b as int,
                    j,
                ) by {
                    lemma_link(s1.p@, s1.r@, self.p@, self.r@, rb as int, ra as int, j);
                }
            }
        } else {
            self.p[ra] = rb;
            if self.r[ra] == self.r[rb] {
                let n = self.r.len();
                proof {
                    lemma_rank_bound(self.r@, rb as int);
                    assert(self.r@[rb as int] < n);
                }
                self.r[rb] += 1;
                proof {
                    lemma_ranks_raise(s1.r@, self.r@, ra as int, rb as int);
                }
            }
            proof {
                assert forall|j: int| 0 <= j < s0.len() implies self.root_of(j) == s0.merged_root(
                    a as int,
                    b as int,
                    j,
                ) by {
                    lemma_link(s1.p@, s1.r@, self.p@, self.r@, ra as int, rb as int, j);
                }
            }
        }
        true
    }
}

} // verus!
