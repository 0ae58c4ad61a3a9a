//! Counting, in a range of a sequence, the elements that are less than a
//! value: a tree over the sequence in which every node holds its part of the
//! sequence in sorted order.

use vstd::prelude::*;
use crate::order::{is_total_order, le, less, lt};
use crate::segment_tree2d::layout::{
    doubled_up_to, is_pow2, lemma_doubled_grows, lemma_padded_is_least, lemma_shift_doubles, padded,
};
use crate::std_ext::ascending;
use crate::utils::lower_bound;

verus! {

pub struct RangeFreq<T> {
    n: usize,
    dat: Vec<Vec<T>>,
    seq: Ghost<Seq<T>>,
}

/// The number of elements of `s` that are less than `x`.
pub open spec fn count_less<T: Ord>(s: Seq<T>, x: T) -> nat
    decreases s.len(),
{
    if s.len() == 0 {
        0
    } else {
        count_less(s.drop_last(), x) + if lt(s.last(), x) {
            1nat
        } else {
            0nat
        }
    }
}

/// The part of `s` at the positions `[l, r)`, as far as `s` reaches.
pub open spec fn part<T>(s: Seq<T>, l: int, r: int) -> Seq<T> {
    let lo = if l < 0 {
        0
    } else if l > s.len() {
        s.len() as int
    } else {
        l
    };
    let hi = if r < lo {
        lo
    } else if r > s.len() {
        s.len() as int
    } else {
        r
    };
    s.subrange(lo, hi)
}

/// The elements less than `x` in a sequence made of two are those in the
/// one and those in the other.
pub proof fn lemma_count_less_add<T: Ord>(a: Seq<T>, b: Seq<T>, x: T)
    ensures
        count_less(a + b, x) == count_less(a, x) + count_less(b, x),
    decreases b.len(),
{
    if b.len() == 0 {
        assert(a + b =~= a);
    } else {
        lemma_count_less_add(a, b.drop_last(), x);
        assert((a + b).drop_last() =~= a + b.drop_last());
    }
}

/// In an ascending sequence, the elements less than `x` are those before
/// the first that is not.
pub proof fn lemma_count_less_ascending<T: Ord>(s: Seq<T>, x: T, r: int)
    requires
        is_total_order::<T>(),
        0 <= r <= s.len(),
        forall|i: int| 0 <= i < r ==> lt(#[trigger] s[i], x),
        forall|i: int| r <= i < s.len() ==> !lt(#[trigger] s[i], x),
    ensures
        count_less(s, x) == r,
    decreases s.len(),
{
    if s.len() > 0 {
        let t = s.drop_last();
        if r == s.len() {
            lemma_count_less_ascending(t, x, r - 1);
        } else {
            lemma_count_less_ascending(t, x, r);
        }
    }
}

/// The parts of a sequence on both sides of a position make the part over
/// both.
pub proof fn lemma_part_split<T>(s: Seq<T>, l: int, m: int, r: int)
    requires
        l <= m <= r,
    ensures
        part(s, l, r) == part(s, l, m) + part(s, m, r),
{
    assert(part(s, l, r) =~= part(s, l, m) + part(s, m, r));
}

/// The node `k`, which stands for the positions `[l, r)`, and all nodes
/// below it hold their parts of `s` in ascending order, as far as counting
/// the elements less than a value can tell.
pub open spec fn tree_ok<T: Ord>(dat: Seq<Vec<T>>, s: Seq<T>, k: int, l: int, r: int) -> bool
    decreases r - l,
{
    &&& 0 <= k < dat.len()
    &&& 0 <= l < r
    &&& ascending(dat[k]@)
    &&& forall|x: T| #[trigger] count_less(dat[k]@, x) == count_less(part(s, l, r), x)
    &&& r - l > 1 ==> tree_ok(dat, s, 2 * k + 1, l, (l + r) / 2) && tree_ok(
        dat,
        s,
        2 * k + 2,
        (l + r) / 2,
        r,
    )
}

/// A leaf holds its element, an inner node holds what its two children
/// hold, in ascending order.
pub open spec fn node_ok<T: Ord>(dat: Seq<Vec<T>>, s: Seq<T>, n: int, k: int) -> bool {
    if k >= n - 1 {
        dat[k]@ == part(s, k - (n - 1), k - (n - 1) + 1)
    } else {
        &&& ascending(dat[k]@)
        &&& forall|x: T| #[trigger]
            count_less(dat[k]@, x) == count_less(dat[2 * k + 1]@, x) + count_less(
                dat[2 * k + 2]@,
                x,
            )
    }
}

/// A tree whose nodes are all in order is in order as a whole.
proof fn lemma_tree_ok<T: Ord>(dat: Seq<Vec<T>>, s: Seq<T>, n: int, k: int, l: int, r: int)
    requires
        is_total_order::<T>(),
        dat.len() == 2 * n - 1,
        forall|j: int| 0 <= j < 2 * n - 1 ==> #[trigger] node_ok(dat, s, n, j),
        is_pow2(r - l),
        0 <= l < r <= n,
        (k + 1) * (r - l) == n + l,
        0 <= k,
    ensures
        tree_ok(dat, s, k, l, r),
    decreases r - l,
{
    let size = r - l;
    if size == 1 {
        assert((k + 1) * 1 == k + 1);
        assert(node_ok(dat, s, n, k));
        let leaf = part(s, l, r);
        assert(leaf.len() <= 1);
        assert forall|x: T| #[trigger] count_less(dat[k]@, x) == count_less(part(s, l, r), x) by {
        }
    } else {
        let m = (l + r) / 2;
        let half = size / 2;
        assert(m == l + half);
        assert((2 * k + 2) * half == n + l && (2 * k + 3) * half == n + m && k + 1 < n) by (nonlinear_arith)
            requires
                (k + 1) * size == n + l,
                size == 2 * half,
                m == l + half,
                half >= 1,
                l + size <= n,
                k >= 0,
        ;
        lemma_tree_ok(dat, s, n, 2 * k + 1, l, m);
        lemma_tree_ok(dat, s, n, 2 * k + 2, m, r);
        assert(node_ok(dat, s, n, k));
        lemma_part_split(s, l, m, r);
        assert forall|x: T| #[trigger] count_less(dat[k]@, x) == count_less(part(s, l, r), x) by {
            lemma_count_less_add(part(s, l, m), part(s, m, r), x);
            assert(count_less(dat[2 * k + 1]@, x) == count_less(part(s, l, m), x));
            assert(count_less(dat[2 * k + 2]@, x) == count_less(part(s, m, r), x));
        }
    }
}

impl<T: Copy + Ord> View for RangeFreq<T> {
    type V = Seq<T>;

    /// The sequence that the tree was made of.
    closed spec fn view(&self) -> Seq<T> {
        self.seq@
    }
}

impl<T: Copy + Ord> RangeFreq<T> {
    /// The tree holds the parts of the sequence in order.
    pub closed spec fn wf(&self) -> bool {
        &&& self.n >= 2
        &&& 2 * self.n - 1 <= usize::MAX
        &&& self.seq@.len() <= self.n
        &&& tree_ok(self.dat@, self.seq@, 0, 0, self.n as int)
    }

    /// A tree over the sequence `vec`, which has at least two elements.
    pub fn new(vec: &[T]) -> (tree: Self)
        requires
            is_total_order::<T>(),
            vec@.len() >= 2,
            2 * padded(vec@.len()) <= usize::MAX,
        ensures
            tree.wf(),
            tree@ == vec@,
    {
        let mut n: usize = 1;
        proof {
            lemma_padded_is_least(vec@.len());
        }
        while n < vec.len()
            invariant
                n >= 1,
                is_pow2(n as int),
                doubled_up_to(n as nat, vec@.len()) == padded(vec@.len()),
                2 * padded(vec@.len()) <= usize::MAX,
            decreases
                (if n < vec@.len() {
                    vec@.len() - n
                } else {
                    0
                }),
        {
            proof {
                lemma_doubled_grows((2 * n) as nat, vec@.len());
                lemma_shift_doubles(n);
            }
            n <<= 1usize;
        }
        let mut dat: Vec<Vec<T>> = Vec::new();
        let mut k: usize = 0;
        while k < 2 * n - 1
            invariant
                n >= 1,
                2 * n <= usize::MAX,
                k <= 2 * n - 1,
                dat@.len() == k,
                forall|j: int| 0 <= j < k ==> (#[trigger] dat@[j])@ == Seq::<T>::empty(),
            decreases 2 * n - 1 - k,
        {
            dat.push(Vec::new());
            k += 1;
        }
        let mut i: usize = 0;
        while i < vec.len()
            invariant
                n >= vec@.len(),
                vec@.len() >= 2,
                2 * n <= usize::MAX,
                i <= vec@.len(),
                dat@.len() == 2 * n - 1,
                forall|j: int| 0 <= j < n - 1 ==> (#[trigger] dat@[j])@ == Seq::<T>::empty(),
                forall|j: int| n - 1 + i <= j < 2 * n - 1 ==> (#[trigger] dat@[j])@ == Seq::<T>::empty(),
                forall|j: int| 0 <= j < i ==> (#[trigger] dat@[j + n - 1])@ == seq![vec@[j]],
            decreases vec@.len() - i,
        {
            let v = vec[i];
            let ghost before = dat@;
            dat[i + n - 1].push(v);
            proof {
                assert(dat@[i + n - 1]@ =~= seq![vec@[i as int]]);
                assert forall|j: int| 0 <= j < i implies (#[trigger] dat@[j + n - 1])@ == seq![
                    vec@[j],
                ] by {
                    assert(dat@[j + n - 1] == before[j + n - 1]);
                }
            }
            i += 1;
        }
        proof {
            assert forall|j: int| n - 1 <= j < 2 * n - 1 implies #[trigger] node_ok(
                dat@,
                vec@,
                n as int,
                j,
            ) by {
                let p = j - (n - 1);
                if p < vec@.len() {
                    assert(dat@[p + n - 1]@ == seq![vec@[p]]);
                    assert(part(vec@, p, p + 1) =~= seq![vec@[p]]);
                } else {
                    assert(part(vec@, p, p + 1) =~= Seq::<T>::empty());
                }
            }
            assert forall|j: int| n - 1 <= j < 2 * n - 1 implies ascending(#[trigger] dat@[j]@) by {
                let p = j - (n - 1);
                if p < vec@.len() {
                    assert(dat@[p + n - 1]@ == seq![vec@[p]]);
                }
            }
        }
        let mut i: usize = n - 1;
        while i > 0
            invariant
                is_total_order::<T>(),
                n >= 2,
                2 * n <= usize::MAX,
                i <= n - 1,
                dat@.len() == 2 * n - 1,
                forall|j: int| i <= j < 2 * n - 1 ==> #[trigger] node_ok(dat@, vec@, n as int, j),
                forall|j: int| i <= j < 2 * n - 1 ==> ascending(#[trigger] dat@[j]@),
            decreases i,
        {
            i -= 1;
            let ghost before = dat@;
            let merged = Self::merge(dat[i * 2 + 1].as_slice(), dat[i * 2 + 2].as_slice());
            dat[i] = merged;
            proof {
                assert forall|j: int| i <= j < 2 * n - 1 implies #[trigger] node_ok(
                    dat@,
                    vec@,
                    n as int,
                    j,
                ) by {
                    if j > i {
                        assert(node_ok(before, vec@, n as int, j));
                        assert(dat@[j] == before[j]);
                        if j < n - 1 {
                            assert(dat@[2 * j + 1] == before[2 * j + 1]);
                            assert(dat@[2 * j + 2] == before[2 * j + 2]);
                        }
                    } else {
                        assert(dat@[2 * j + 1] == before[2 * j + 1]);
                        assert(dat@[2 * j + 2] == before[2 * j + 2]);
                    }
                }
                assert forall|j: int| i <= j < 2 * n - 1 implies ascending(#[trigger] dat@[j]@) by {
                    if j > i {
                        assert(dat@[j] == before[j]);
                    }
                }
            }
        }
        proof {
            assert(is_pow2(n as int));
            lemma_tree_ok(dat@, vec@, n as int, 0, 0, n as int);
        }
        Self { n, dat, seq: Ghost(vec@) }
    }

    /// The elements of two ascending slices in one ascending vector.
    fn merge(l: &[T], r: &[T]) -> (vec: Vec<T>)
        requires
            is_total_order::<T>(),
            ascending(l@),
            ascending(r@),
        ensures
            ascending(vec@),
            vec@.len() == l@.len() + r@.len(),
            forall|x: T| #[trigger] count_less(vec@, x) == count_less(l@, x) + count_less(r@, x),
    {
        let mut vec: Vec<T> = Vec::new();
        let mut li: usize = 0;
        let mut ri: usize = 0;
        proof {
            assert(l@.subrange(0, 0) =~= Seq::<T>::empty());
            assert(r@.subrange(0, 0) =~= Seq::<T>::empty());
        }
        while li < l.len() || ri < r.len()
            invariant
                is_total_order::<T>(),
                ascending(l@),
                ascending(r@),
                li <= l@.len(),
                ri <= r@.len(),
                vec@.len() == li + ri,
                ascending(vec@),
                forall|p: int, q: int|
                    0 <= p < vec@.len() && li <= q < l@.len() ==> le(#[trigger] vec@[p], #[trigger] l@[q]),
                forall|p: int, q: int|
                    0 <= p < vec@.len() && ri <= q < r@.len() ==> le(#[trigger] vec@[p], #[trigger] r@[q]),
                forall|x: T| #[trigger]
                    count_less(vec@, x) == count_less(l@.subrange(0, li as int), x) + count_less(
                        r@.subrange(0, ri as int),
                        x,
                    ),
            decreases l@.len() - li + r@.len() - ri,
        {
            let ghost before = vec@;
            if li >= l.len() || (ri < r.len() && less(&r[ri], &l[li])) {
                vec.push(r[ri]);
                proof {
                    assert(vec@.drop_last() =~= before);
                    assert(r@.subrange(0, ri + 1).drop_last() =~= r@.subrange(0, ri as int));
                    assert forall|x: T| #[trigger]
                        count_less(vec@, x) == count_less(l@.subrange(0, li as int), x)
                            + count_less(r@.subrange(0, ri + 1), x) by {
                        assert(count_less(before, x) == count_less(l@.subrange(0, li as int), x)
                            + count_less(r@.subrange(0, ri as int), x));
                    }
                    assert forall|p: int, q: int|
                        0 <= p < vec@.len() && li <= q < l@.len() implies le(
                        #[trigger] vec@[p],
                        #[trigger] l@[q],
                    ) by {
                        if p == before.len() {
                            assert(le(l@[li as int], l@[q]));
                        } else {
                            assert(le(before[p], l@[q]));
                        }
                    }
                    assert forall|p: int, q: int|
                        0 <= p < vec@.len() && ri + 1 <= q < r@.len() implies le(
                        #[trigger] vec@[p],
                        #[trigger] r@[q],
                    ) by {
                        if p == before.len() {
                            assert(le(r@[ri as int], r@[q]));
                        } else {
                            assert(le(before[p], r@[q]));
                        }
                    }
                    assert forall|p: int, q: int| 0 <= p < q < vec@.len() implies le(
                        #[trigger] vec@[p],
                        #[trigger] vec@[q],
                    ) by {
                        if q == before.len() {
                            assert(le(before[p], r@[ri as int]));
                        } else {
                            assert(le(before[p], before[q]));
                        }
                    }
                }
                ri += 1;
            } else {
                vec.push(l[li]);
                proof {
                    assert(vec@.drop_last() =~= before);
                    assert(l@.subrange(0, li + 1).drop_last() =~= l@.subrange(0, li as int));
                    assert forall|x: T| #[trigger]
                        count_less(vec@, x) == count_less(l@.subrange(0, li + 1), x) + count_less(
                            r@.subrange(0, ri as int),
                            x,
                        ) by {
                        assert(count_less(before, x) == count_less(l@.subrange(0, li as int), x)
                            + count_less(r@.subrange(0, ri as int), x));
                    }
                    assert forall|p: int, q: int|
                        0 <= p < vec@.len() && li + 1 <= q < l@.len() implies le(
                        #[trigger] vec@[p],
                        #[trigger] l@[q],
                    ) by {
                        if p == before.len() {
                            assert(le(l@[li as int], l@[q]));
                        } else {
                            assert(le(before[p], l@[q]));
                        }
                    }
                    assert forall|p: int, q: int|
                        0 <= p < vec@.len() && ri <= q < r@.len() implies le(
                        #[trigger] vec@[p],
                        #[trigger] r@[q],
                    ) by {
                        if p == before.len() {
                            assert(le(r@[ri as int], r@[q]));
                        } else {
                            assert(le(before[p], r@[q]));
                        }
                    }
                    assert forall|p: int, q: int| 0 <= p < q < vec@.len() implies le(
                        #[trigger] vec@[p],
                        #[trigger] vec@[q],
                    ) by {
                        if q == before.len() {
                            assert(le(before[p], l@[li as int]));
                        } else {
                            assert(le(before[p], before[q]));
                        }
                    }
                }
                li += 1;
            }
        }
        proof {
            assert(l@.subrange(0, li as int) =~= l@);
            assert(r@.subrange(0, ri as int) =~= r@);
        }
        vec
    }

    /// The number of elements less than `x` at the positions `[a, b)`, below
    /// the node `k`, which stands for the positions `[l, r)`.
    fn _query(&self, a: usize, b: usize, x: T, k: usize, l: usize, r: usize) -> (res: usize)
        requires
            is_total_order::<T>(),
            tree_ok(self.dat@, self.seq@, k as int, l as int, r as int),
            self.seq@.len() <= usize::MAX,
            r <= self.n,
            2 * self.n - 1 <= usize::MAX,
        ensures
            res == count_less(part(part(self.seq@, l as int, r as int), a - l, b - l), x),
        decreases r - l,
    {
        let ghost here = part(self.seq@, l as int, r as int);
        if b <= l || r <= a {
            proof {
                assert(part(here, a - l, b - l) =~= Seq::<T>::empty());
            }
            return 0;
        }
        if a <= l && r <= b {
            proof {
                assert(part(here, a - l, b - l) =~= here);
            }
            let found = lower_bound(self.dat[k].as_slice(), &x);
            proof {
                lemma_count_less_ascending(self.dat@[k as int]@, x, found as int);
            }
            return found;
        }
        let nodes = self.dat.len();
        proof {
            assert(r - l > 1);
            assert(tree_ok(self.dat@, self.seq@, 2 * k + 2, (l + r) / 2, r as int));
            assert(2 * k + 2 < nodes);
        }
        let m = (l + r) / 2;
        let left = self._query(a, b, x, k * 2 + 1, l, m);
        let right = self._query(a, b, x, k * 2 + 2, m, r);
        proof {
            let first = part(self.seq@, l as int, m as int);
            let second = part(self.seq@, m as int, r as int);
            lemma_part_split(self.seq@, l as int, m as int, r as int);
            assert(part(here, a - l, b - l) =~= part(first, a - l, b - l) + part(
                second,
                a - m,
                b - m,
            ));
            lemma_count_less_add(part(first, a - l, b - l), part(second, a - m, b - m), x);
            lemma_count_bound(part(here, a - l, b - l), x);
        }
        return left + right;
    }

    /// The number of elements less than `x` at the positions `[a, b)` of the
    /// sequence.
    pub fn query(&self, a: usize, b: usize, x: T) -> (res: usize)
        requires
            is_total_order::<T>(),
            self.wf(),
        ensures
            res == count_less(part(self@, a as int, b as int), x),
    {
        proof {
            assert(part(self@, 0, self.n as int) =~= self@);
        }
        return self._query(a, b, x, 0, 0, self.n);
    }
}

/// No more elements are less than `x` than there are elements.
pub proof fn lemma_count_bound<T: Ord>(s: Seq<T>, x: T)
    ensures
        count_less(s, x) <= s.len(),
    decreases s.len(),
{
    if s.len() > 0 {
        lemma_count_bound(s.drop_last(), x);
    }
}

} // verus!
