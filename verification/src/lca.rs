//! Lowest common ancestors in a tree, from a tour of the tree and a table of
//! the least depths over the stretches of the tour.
//!
//! The tour starts at vertex 0 and writes down every vertex when it enters it
//! and again whenever it comes back to it from a child. Between the places of
//! two vertices on the tour, the vertex of least depth is their lowest common
//! ancestor: every step of the tour leads to a child or to the parent, so
//! the vertex of least depth on a stretch is above all of the stretch, and
//! the tour stays below a vertex from where it enters it to where it leaves
//! it.

use vstd::prelude::*;
use vstd::arithmetic::power2::{lemma2_to64, lemma2_to64_rest, lemma_pow2_strictly_increases, lemma_pow2_unfold, pow2};
use crate::segment_tree2d::layout::lemma_low_bit;

verus! {

pub struct LCA {
    g: Vec<Vec<usize>>,
    depth: Vec<usize>,
    tour_v: Vec<usize>,
    v_to_i: Vec<usize>,
    tour_depth: Vec<usize>,
    sparse_table: Vec<Vec<usize>>,
    up: Ghost<Seq<int>>,
    out: Ghost<Seq<int>>,
}

/// The number of bits that it takes to write `v`.
pub open spec fn bits(v: nat) -> nat
    decreases v,
{
    if v == 0 {
        0
    } else {
        1 + bits(v / 2)
    }
}

/// A positive number lies between the two powers of two that its number of
/// bits gives.
pub proof fn lemma_bits(v: nat)
    requires
        v > 0,
    ensures
        bits(v) >= 1,
        pow2((bits(v) - 1) as nat) <= v < pow2(bits(v)),
    decreases v,
{
    lemma2_to64();
    if v == 1 {
        assert(bits(0) == 0);
        assert(bits(1) == 1);
    } else {
        lemma_bits(v / 2);
        lemma_pow2_unfold(bits(v));
        lemma_pow2_unfold((bits(v) - 1) as nat);
    }
}

/// A number has at least the bits of a smaller one.
pub proof fn lemma_bits_grow(a: nat, b: nat)
    requires
        a <= b,
    ensures
        bits(a) <= bits(b),
    decreases b,
{
    if a > 0 {
        lemma_bits_grow(a / 2, b / 2);
    }
}

/// A power of two that fits a machine word has an exponent below the width
/// of the word, and is what shifting 1 by the exponent gives.
proof fn lemma_shift_is_pow2(e: usize)
    requires
        pow2(e as nat) <= usize::MAX,
    ensures
        e < usize::BITS,
        1usize << e == pow2(e as nat),
{
    lemma2_to64();
    lemma2_to64_rest();
    if e >= usize::BITS {
        if e > usize::BITS {
            lemma_pow2_strictly_increases(usize::BITS as nat, e as nat);
        }
    }
    vstd::bits::lemma_usize_shl_is_mul(1, e);
}

/// The graph is a tree when it is walked from vertex 0: every edge leads to a
/// vertex of the graph, which is either the parent of the vertex that the
/// edge leaves or a child of it, and a child is lower than its parent by the
/// measure `height`. The depth of the tree, as `height` bounds it, can be
/// doubled in a machine word.
pub open spec fn is_tree(g: Seq<Vec<usize>>, parent: Seq<int>, height: Seq<nat>) -> bool {
    &&& g.len() >= 1
    &&& parent.len() == g.len()
    &&& height.len() == g.len()
    &&& parent[0] == usize::MAX
    &&& 2 * height[0] <= usize::MAX
    &&& forall|u: int, k: int|
        0 <= u < g.len() && 0 <= k < g[u]@.len() ==> {
            let v = #[trigger] g[u]@[k];
            v < g.len() && (v == parent[u] || (parent[v as int] == u && height[v as int]
                < height[u]))
        }
}

/// There is an edge from `a` to `b`.
pub open spec fn has_edge(g: Seq<Vec<usize>>, a: int, b: int) -> bool {
    0 <= a < g.len() && g[a]@.contains(b as usize)
}

/// `n` steps from a vertex to its parent lead from `x` to `a`.
pub open spec fn climbs(parent: Seq<int>, x: int, a: int, n: int) -> bool
    decreases n,
{
    if n <= 0 {
        n == 0 && x == a
    } else {
        0 <= x < parent.len() && 0 <= parent[x] < parent.len() && climbs(
            parent,
            parent[x],
            a,
            n - 1,
        )
    }
}

/// `a` is `x` or above `x` in the tree.
pub open spec fn is_ancestor(parent: Seq<int>, a: int, x: int) -> bool {
    exists|n: int| #[trigger] climbs(parent, x, a, n)
}

/// `r` is the lowest common ancestor of `u` and `v`: it is above both, and
/// below every vertex that is above both.
pub open spec fn is_lca(parent: Seq<int>, r: int, u: int, v: int) -> bool {
    &&& is_ancestor(parent, r, u)
    &&& is_ancestor(parent, r, v)
    &&& forall|a: int|
        is_ancestor(parent, a, u) && is_ancestor(parent, a, v) ==> #[trigger] is_ancestor(
            parent,
            a,
            r,
        )
}

/// The paths from `u` and from `v` to their lowest common ancestor `p` have
/// `n1` and `n2` steps.
pub open spec fn meet_at(parent: Seq<int>, u: int, v: int, p: int, n1: int, n2: int) -> bool {
    is_lca(parent, p, u, v) && climbs(parent, u, p, n1) && climbs(parent, v, p, n2)
}

/// The path between `u` and `v` in the tree, over their lowest common
/// ancestor, has `r` edges.
pub open spec fn is_distance(parent: Seq<int>, u: int, v: int, r: int) -> bool {
    exists|p: int, n1: int, n2: int| #[trigger] meet_at(parent, u, v, p, n1, n2) && r == n1 + n2
}

/// The lesser of two numbers.
pub open spec fn lesser(a: int, b: int) -> int {
    if a <= b {
        a
    } else {
        b
    }
}

/// The greater of two numbers.
pub open spec fn greater(a: int, b: int) -> int {
    if a <= b {
        b
    } else {
        a
    }
}

/// The place `m` holds the least depth among the places `[lo, hi)` of the
/// tour.
pub open spec fn is_lowest(depths: Seq<usize>, lo: int, hi: int, m: int) -> bool {
    &&& lo <= m < hi
    &&& forall|j: int| lo <= j < hi ==> depths[m] <= #[trigger] depths[j]
}

/// Row `i` of the table holds, for every place `j` of the tour, a place of
/// least depth among the `2^i` places from `j` on.
pub open spec fn level_ok(depths: Seq<usize>, row: Seq<usize>, i: nat) -> bool {
    &&& row.len() == depths.len() - pow2(i) + 1
    &&& forall|j: int| 0 <= j < row.len() ==> is_lowest(depths, j, j + pow2(i), #[trigger] row[j] as int)
}

/// The lower of two places that are lowest in two stretches is lowest in
/// the stretch that the two make.
proof fn lemma_lowest_of_two(depths: Seq<usize>, a: int, b: int, c: int, d: int, m1: int, m2: int)
    requires
        is_lowest(depths, a, b, m1),
        is_lowest(depths, c, d, m2),
        a <= c <= b <= d,
    ensures
        is_lowest(
            depths,
            a,
            d,
            if depths[m1] < depths[m2] {
                m1
            } else {
                m2
            },
        ),
{
    let m = if depths[m1] < depths[m2] {
        m1
    } else {
        m2
    };
    assert forall|j: int| a <= j < d implies depths[m] <= #[trigger] depths[j] by {
        if j < b {
            assert(depths[m1] <= depths[j]);
        } else {
            assert(depths[m2] <= depths[j]);
        }
    }
}

/// The number of bits that it takes to write `v`.
fn bitsize(v: usize) -> (res: usize)
    ensures
        res == bits(v as nat),
        res <= usize::BITS,
{
    let mut v = v;
    let ghost start = v;
    let mut res: usize = 0;
    proof {
        lemma2_to64();
    }
    while v > 0
        invariant
            res + bits(v as nat) == bits(start as nat),
            v as nat * pow2(res as nat) <= start,
            res <= usize::BITS,
        decreases v,
    {
        proof {
            lemma_low_bit(v);
            lemma_pow2_unfold((res + 1) as nat);
            assert((v / 2) * (2 * pow2(res as nat)) <= v * pow2(res as nat)) by (nonlinear_arith)
                requires
                    v >= 0,
                    pow2(res as nat) >= 0,
            ;
            assert(v * pow2(res as nat) >= pow2(res as nat)) by (nonlinear_arith)
                requires
                    v >= 1,
                    pow2(res as nat) >= 0,
            ;
            if res >= usize::BITS {
                lemma2_to64();
                lemma2_to64_rest();
                if res > usize::BITS {
                    lemma_pow2_strictly_increases(usize::BITS as nat, res as nat);
                }
                assert(false);
            }
        }
        res += 1;
        v >>= 1;
    }
    res
}


impl LCA {
    /// The edges: for each vertex the vertices that its edges lead to.
    pub closed spec fn edges(&self) -> Seq<Vec<usize>> {
        self.g@
    }

    /// The vertices in the order of the tour.
    pub closed spec fn tour(&self) -> Seq<usize> {
        self.tour_v@
    }

    /// The depth that the tour found for each vertex.
    pub closed spec fn depths(&self) -> Seq<usize> {
        self.depth@
    }

    /// The place on the tour that is recorded for each vertex.
    pub closed spec fn places(&self) -> Seq<usize> {
        self.v_to_i@
    }

    /// The parent of each vertex in the tree that the tour went through; the
    /// root has `usize::MAX`.
    pub closed spec fn parents(&self) -> Seq<int> {
        self.up@
    }

    /// The tour has come to the vertex `u`: the place recorded for it holds
    /// it.
    pub open spec fn reached(&self, u: int) -> bool {
        &&& 0 <= u < self.places().len()
        &&& self.places()[u] < self.tour().len()
        &&& self.tour()[self.places()[u] as int] == u
    }

    /// The tour has come to every vertex that an edge leads to from a vertex
    /// that it has come to.
    pub open spec fn closed_under_edges(&self) -> bool {
        forall|w: int, k: int|
            #[trigger] self.reached(w) && 0 <= k < self.edges()[w]@.len() ==> self.reached(
                #[trigger] self.edges()[w]@[k] as int,
            )
    }

    /// Nothing has been built yet.
    pub closed spec fn fresh(&self) -> bool {
        self.tour_v@.len() == 0 && self.sparse_table@.len() == 0
    }

    /// The depth of the vertex at each place of the tour.
    pub open spec fn tour_depths(&self) -> Seq<usize> {
        Seq::new(self.tour().len(), |i: int| self.depths()[self.tour()[i] as int])
    }

    /// What the tour has written down is in order: every vertex on it is a
    /// vertex of the graph with its depth, which can be doubled in a machine
    /// word.
    spec fn toured(&self) -> bool {
        &&& self.depth@.len() == self.g@.len()
        &&& self.v_to_i@.len() == self.g@.len()
        &&& forall|i: int| 0 <= i < self.tour_v@.len() ==> #[trigger] self.tour_v@[i] < self.g@.len()
        &&& forall|i: int|
            0 <= i < self.tour_v@.len() ==> 2 * self.depth@[#[trigger] self.tour_v@[i] as int]
                <= usize::MAX
    }

    /// The tour has left the vertex `w` after it last entered it.
    spec fn complete(&self, w: int) -> bool {
        self.reached(w) && self.out@[w] >= self.v_to_i@[w]
    }

    /// The tour has entered the vertex `w` since `start`.
    spec fn entered(&self, start: &Self, w: int) -> bool {
        self.reached(w) && self.v_to_i@[w] >= start.tour_v@.len()
    }

    /// The step of the tour from place `i` to the next leads to a child or to
    /// the parent.
    spec fn step_ok(&self, i: int) -> bool {
        let a = self.tour_v@[i] as int;
        let b = self.tour_v@[i + 1] as int;
        (self.up@[b] == a && self.depth@[b] == self.depth@[a] + 1) || (self.up@[a] == b
            && self.depth@[a] == self.depth@[b] + 1)
    }

    /// The vertex `w` is the root at depth 0, or its parent is reached and
    /// `w` is one deeper.
    spec fn rooted(&self, w: int) -> bool {
        if w == 0 {
            self.depth@[0] == 0 && self.up@[0] == usize::MAX
        } else {
            0 <= self.up@[w] < self.g@.len() && self.reached(self.up@[w]) && self.depth@[w]
                == self.depth@[self.up@[w]] + 1
        }
    }

    /// From where the tour last entered `w` to where it left it, it stayed
    /// at the depth of `w` or below, and it entered and left every child of
    /// `w` there.
    spec fn nested(&self, w: int) -> bool {
        &&& self.tour_v@[self.out@[w]] == w
        &&& forall|i: int|
            self.v_to_i@[w] <= i <= self.out@[w] ==> self.depth@[#[trigger] self.tour_v@[i] as int]
                >= self.depth@[w]
        &&& forall|y: int|
            #[trigger] self.reached(y) && self.up@[y] == w ==> self.complete(y) && self.v_to_i@[w]
                < self.v_to_i@[y] && self.out@[y] < self.out@[w]
    }

    /// What holds of the tour as far as it has come.
    spec fn charted(&self) -> bool {
        &&& self.toured()
        &&& self.up@.len() == self.g@.len()
        &&& self.out@.len() == self.g@.len()
        &&& forall|w: int| 0 <= w < self.g@.len() ==> -1 <= #[trigger] self.out@[w] < self.tour_v@.len()
        &&& forall|i: int| 0 <= i < self.tour_v@.len() - 1 ==> #[trigger] self.step_ok(i)
        &&& forall|i: int| 0 <= i < self.tour_v@.len() ==> self.reached(#[trigger] self.tour_v@[i] as int)
        &&& forall|w: int| self.reached(w) ==> #[trigger] self.rooted(w)
        &&& forall|w: int| #[trigger] self.complete(w) ==> self.nested(w)
    }

    /// An edge leads to every vertex that is reached from its parent.
    spec fn linked(&self) -> bool {
        forall|w: int| #[trigger] self.reached(w) && w != 0 ==> has_edge(self.g@, self.up@[w], w)
    }

    /// The tour has left every vertex that it came to.
    spec fn all_complete(&self) -> bool {
        forall|w: int| #[trigger] self.reached(w) ==> self.complete(w)
    }

    /// How the tour has gone on since `start`, from where it entered `u` at
    /// the depth `d`, coming from `p`: what it wrote before stands, it has
    /// stayed at the depth `d` or below, and it has left every vertex that
    /// it entered since, but `u` where `with_u` does not say so.
    spec fn walking(&self, start: &Self, u: int, p: int, d: int, with_u: bool) -> bool {
        let from = start.tour_v@.len() as int;
        &&& self.g@ == start.g@
        &&& self.up@ == start.up@
        &&& self.sparse_table@ == start.sparse_table@
        &&& self.tour_v@.len() > from
        &&& forall|i: int| 0 <= i < from ==> #[trigger] self.tour_v@[i] == start.tour_v@[i]
        &&& self.tour_v@[from] == u
        &&& self.tour_v@.last() == u
        &&& self.v_to_i@[u] == from
        &&& self.depth@[u] == d
        &&& forall|w: int|
            0 <= w < self.g@.len() ==> (#[trigger] self.v_to_i@[w] == start.v_to_i@[w] && self.out@[w]
                == start.out@[w]) || self.entered(start, w)
        &&& forall|w: int| #[trigger]
            start.reached(w) ==> self.reached(w) && self.depth@[w] == start.depth@[w]
        &&& forall|i: int|
            from <= i < self.tour_v@.len() ==> self.depth@[#[trigger] self.tour_v@[i] as int] >= d
        &&& forall|w: int|
            #[trigger] self.entered(start, w) && w != u ==> self.complete(w) && self.depth@[w] > d
                && self.out@[w] < self.tour_v@.len() - 1
        &&& (if with_u {
            self.out@[u] == self.tour_v@.len() - 1
        } else {
            !self.complete(u)
        })
        &&& (0 <= p < self.g@.len() ==> !self.complete(p))
    }

    /// The table has been built over the tour.
    pub closed spec fn initialized(&self) -> bool {
        &&& self.toured()
        &&& self.tour_v@.len() >= 1
        &&& self.tour_depth@ == self.tour_depths()
        &&& self.sparse_table@.len() == bits(self.tour_v@.len())
        &&& forall|i: int|
            0 <= i < self.sparse_table@.len() ==> level_ok(
                self.tour_depth@,
                (#[trigger] self.sparse_table@[i])@,
                i as nat,
            )
        &&& self.charted()
        &&& self.all_complete()
    }

    /// `r` is a vertex of least depth on the tour between the places of `u`
    /// and `v`.
    pub open spec fn is_lowest_between(&self, r: int, u: int, v: int) -> bool {
        let a = self.places()[u] as int;
        let b = self.places()[v] as int;
        exists|m: int|
            #[trigger] is_lowest(self.tour_depths(), lesser(a, b), greater(a, b) + 1, m)
                && self.tour()[m] == r
    }

    /// A graph of `n` vertices without edges.
    pub fn new(n: usize) -> (tree: Self)
        ensures
            tree.fresh(),
            tree.edges().len() == n,
            forall|u: int| 0 <= u < n ==> (#[trigger] tree.edges()[u])@.len() == 0,
    {
        let mut g: Vec<Vec<usize>> = Vec::new();
        let mut i: usize = 0;
        while i < n
            invariant
                i <= n,
                g@.len() == i,
                forall|u: int| 0 <= u < i ==> (#[trigger] g@[u])@.len() == 0,
            decreases n - i,
        {
            g.push(Vec::new());
            i += 1;
        }
        Self {
            g,
            depth: vec![],
            tour_v: vec![],
            v_to_i: vec![],
            tour_depth: vec![],
            sparse_table: vec![],
            up: Ghost(Seq::empty()),
            out: Ghost(Seq::empty()),
        }
    }

    /// Adds an edge from `u` to `v`.
    pub fn add_edge(&mut self, u: usize, v: usize)
        requires
            u < old(self).edges().len(),
        ensures
            final(self).edges().len() == old(self).edges().len(),
            final(self).edges()[u as int]@ == old(self).edges()[u as int]@.push(v),
            forall|w: int|
                0 <= w < old(self).edges().len() && w != u ==> #[trigger] final(self).edges()[w]
                    == old(self).edges()[w],
            final(self).fresh() == old(self).fresh(),
            final(self).initialized() == old(self).initialized(),
            final(self).tour() == old(self).tour(),
            final(self).depths() == old(self).depths(),
            final(self).places() == old(self).places(),
            final(self).parents() == old(self).parents(),
    {
        let ghost before = *self;
        self.g[u].push(v);
        proof {
            assert(self.g@.len() == old(self).g@.len());
            before.lemma_same_chart(self);
            self.lemma_same_chart(&before);
        }
    }

    /// What holds of the tour holds of every tree with the same tour, as far
    /// as it does not speak of the edges.
    proof fn lemma_same_chart(&self, other: &Self)
        requires
            self.g@.len() == other.g@.len(),
            self.depth@ == other.depth@,
            self.tour_v@ == other.tour_v@,
            self.v_to_i@ == other.v_to_i@,
            self.up@ == other.up@,
            self.out@ == other.out@,
        ensures
            self.toured() ==> other.toured(),
            self.charted() ==> other.charted(),
            self.all_complete() ==> other.all_complete(),
            self.reached(0) ==> other.reached(0),
    {
        assert forall|w: int| self.reached(w) == other.reached(w) by {
        }
        assert forall|w: int| self.complete(w) == other.complete(w) by {
        }
        assert forall|w: int| self.rooted(w) == other.rooted(w) by {
            assert(self.reached(self.up@[w]) == other.reached(self.up@[w]));
        }
        assert forall|i: int| self.step_ok(i) == other.step_ok(i) by {
        }
        if self.charted() {
            assert(other.toured());
            assert forall|w: int| #[trigger] other.complete(w) implies other.nested(w) by {
                assert(self.complete(w));
                assert(self.nested(w));
                assert forall|y: int| #[trigger] other.reached(y) && other.up@[y] == w implies other.complete(
                    y,
                ) && other.v_to_i@[w] < other.v_to_i@[y] && other.out@[y] < other.out@[w] by {
                    assert(self.reached(y));
                    assert(self.complete(y));
                }
            }
            assert forall|i: int| 0 <= i < other.tour_v@.len() - 1 implies #[trigger] other.step_ok(
                i,
            ) by {
                assert(self.step_ok(i));
            }
            assert forall|w: int| other.reached(w) implies #[trigger] other.rooted(w) by {
                assert(self.reached(w));
                assert(self.rooted(w));
            }
            assert forall|i: int| 0 <= i < other.tour_v@.len() implies other.reached(
                #[trigger] other.tour_v@[i] as int,
            ) by {
                assert(self.reached(self.tour_v@[i] as int));
            }
        }
        if self.all_complete() {
            assert forall|w: int| #[trigger] other.reached(w) implies other.complete(w) by {
                assert(self.reached(w));
                assert(self.complete(w));
            }
        }
    }

    /// The tour goes on where it enters the vertex `u` from `p` at the depth
    /// `d`.
    proof fn lemma_enter_tour(&self, prev: &Self, u: int, p: int, d: int)
        requires
            prev.charted(),
            prev.linked(),
            0 <= u < prev.g@.len(),
            prev.up@[u] == p,
            prev.up@[0] == usize::MAX,
            prev.g@.len() <= usize::MAX,
            0 <= d,
            2 * d <= usize::MAX,
            p == usize::MAX ==> u == 0 && d == 0 && prev.tour_v@.len() == 0,
            p != usize::MAX ==> 0 <= p < prev.g@.len() && p != u && prev.reached(p)
                && !prev.complete(p) && prev.depth@[p] + 1 == d && has_edge(prev.g@, p, u)
                && prev.tour_v@.last() == p,
            self.g@ == prev.g@,
            self.up@ == prev.up@,
            self.out@ == prev.out@,
            self.sparse_table@ == prev.sparse_table@,
            self.v_to_i@ == prev.v_to_i@.update(u, prev.tour_v@.len() as usize),
            self.depth@ == prev.depth@.update(u, d as usize),
            self.tour_v@ == prev.tour_v@.push(u as usize),
            prev.tour_v@.len() <= usize::MAX,
        ensures
            self.charted(),
            self.linked(),
            self.walking(prev, u, p, d, false),
            forall|w: int| prev.reached(w) ==> #[trigger] self.reached(w),
            forall|w: int| #[trigger] self.reached(w) && w != u ==> prev.reached(w),
    {
        let n = self.g@.len() as int;
        let from = prev.tour_v@.len() as int;
        assert(u != 0 ==> p != usize::MAX);
        assert forall|w: int| prev.reached(w) implies #[trigger] self.reached(w) by {
            if w != u {
                assert(self.tour_v@[self.v_to_i@[w] as int] == prev.tour_v@[prev.v_to_i@[w] as int]);
            }
        }
        assert forall|w: int| #[trigger] self.reached(w) && w != u implies prev.reached(w) by {
            if self.v_to_i@[w] == from {
                assert(self.tour_v@[from] == u);
            }
        }
        assert forall|w: int| prev.reached(w) implies self.depth@[w] == prev.depth@[w] by {
            if w == u {
                assert(prev.rooted(u));
            }
        }
        assert forall|i: int| 0 <= i < self.tour_v@.len() implies self.reached(
            #[trigger] self.tour_v@[i] as int,
        ) by {
            if i < from {
                assert(prev.reached(prev.tour_v@[i] as int));
            }
        }
        assert forall|i: int| 0 <= i < self.tour_v@.len() implies 2 * self.depth@[#[trigger] self.tour_v@[i] as int]
            <= usize::MAX by {
            if i < from {
                assert(prev.reached(prev.tour_v@[i] as int));
                assert(2 * prev.depth@[prev.tour_v@[i] as int] <= usize::MAX);
            }
        }
        assert forall|i: int| 0 <= i < self.tour_v@.len() - 1 implies #[trigger] self.step_ok(i) by {
            if i < from - 1 {
                assert(prev.step_ok(i));
                assert(prev.reached(prev.tour_v@[i] as int));
                assert(prev.reached(prev.tour_v@[i + 1] as int));
            } else {
                assert(self.tour_v@[i] == p);
                assert(prev.reached(p));
            }
        }
        assert forall|w: int| self.reached(w) implies #[trigger] self.rooted(w) by {
            if w != u {
                assert(prev.rooted(w));
                if w != 0 {
                    assert(prev.reached(prev.up@[w]));
                }
            }
        }
        assert(!self.complete(u)) by {
            assert(prev.out@[u] < from);
        }
        assert forall|w: int| #[trigger] self.complete(w) implies self.nested(w) by {
            assert(w != u);
            assert(prev.complete(w));
            assert(prev.nested(w));
            assert forall|i: int| self.v_to_i@[w] <= i <= self.out@[w] implies self.depth@[#[trigger] self.tour_v@[i] as int]
                >= self.depth@[w] by {
                assert(prev.reached(prev.tour_v@[i] as int));
                assert(prev.depth@[prev.tour_v@[i] as int] >= prev.depth@[w]);
            }
            assert forall|y: int| #[trigger] self.reached(y) && self.up@[y] == w implies self.complete(
                y,
            ) && self.v_to_i@[w] < self.v_to_i@[y] && self.out@[y] < self.out@[w] by {
                if y == u {
                    assert(w == p);
                } else {
                    assert(prev.reached(y));
                }
            }
        }
        assert forall|w: int| #[trigger] self.reached(w) && w != 0 implies has_edge(
            self.g@,
            self.up@[w],
            w,
        ) by {
            if w != u {
                assert(prev.reached(w));
            }
        }
        assert forall|w: int| #[trigger] self.entered(prev, w) && w != u implies false by {
            assert(prev.reached(w));
        }
        assert(self.charted());
        assert(self.walking(prev, u, p, d, false));
    }

    /// The tour goes on where it comes back to `u` from its child `v`.
    proof fn lemma_come_back(
        &self,
        start: &Self,
        before: &Self,
        mid: &Self,
        u: int,
        p: int,
        d: int,
        v: int,
    )
        requires
            0 <= u < start.g@.len(),
            0 <= v < start.g@.len(),
            start.g@.len() <= usize::MAX,
            before.charted(),
            before.walking(start, u, p, d, false),
            mid.charted(),
            mid.linked(),
            mid.walking(before, v, u, d + 1, true),
            mid.up@[v] == u,
            v != p,
            0 <= p < start.g@.len() ==> mid.up@[u] == p,
            self.g@ == mid.g@,
            self.up@ == mid.up@,
            self.out@ == mid.out@,
            self.sparse_table@ == mid.sparse_table@,
            self.v_to_i@ == mid.v_to_i@,
            self.depth@ == mid.depth@,
            self.tour_v@ == mid.tour_v@.push(u as usize),
        ensures
            self.charted(),
            self.linked(),
            self.walking(start, u, p, d, false),
            self.entered(start, v),
            forall|w: int| before.entered(start, w) ==> #[trigger] self.entered(start, w),
            forall|w: int| mid.reached(w) ==> #[trigger] self.reached(w),
            forall|w: int| #[trigger] self.reached(w) ==> mid.reached(w),
    {
        let n = self.g@.len() as int;
        let from = start.tour_v@.len() as int;
        let at = before.tour_v@.len() as int;
        let end = mid.tour_v@.len() as int;
        assert(before.reached(u));
        assert(mid.reached(u));
        assert(mid.depth@[u] == d);
        assert(mid.rooted(v));
        assert(!mid.entered(before, u)) by {
            if mid.entered(before, u) {
                if u != v {
                    assert(mid.depth@[u] > d + 1);
                }
            }
        }
        assert(mid.v_to_i@[u] == from && mid.out@[u] == before.out@[u]);
        assert forall|w: int| mid.reached(w) implies #[trigger] self.reached(w) by {
            assert(self.tour_v@[self.v_to_i@[w] as int] == mid.tour_v@[mid.v_to_i@[w] as int]);
        }
        assert forall|w: int| #[trigger] self.reached(w) implies mid.reached(w) by {
            if self.v_to_i@[w] == end {
                assert(self.tour_v@[end] == u);
            }
        }
        assert forall|w: int| self.complete(w) == mid.complete(w) by {
            if self.reached(w) {
                assert(mid.reached(w));
            }
            if mid.reached(w) {
                assert(self.reached(w));
            }
        }
        assert forall|i: int| 0 <= i < self.tour_v@.len() implies self.reached(
            #[trigger] self.tour_v@[i] as int,
        ) by {
            if i < end {
                assert(mid.reached(mid.tour_v@[i] as int));
            }
        }
        assert forall|i: int| 0 <= i < self.tour_v@.len() implies 2 * self.depth@[#[trigger] self.tour_v@[i] as int]
            <= usize::MAX && self.tour_v@[i] < self.g@.len() by {
            if i < end {
                assert(2 * mid.depth@[mid.tour_v@[i] as int] <= usize::MAX);
            } else {
                assert(mid.tour_v@[from] == u);
                assert(2 * mid.depth@[mid.tour_v@[from] as int] <= usize::MAX);
            }
        }
        assert forall|i: int| 0 <= i < self.tour_v@.len() - 1 implies #[trigger] self.step_ok(i) by {
            if i < end - 1 {
                assert(mid.step_ok(i));
            } else {
                assert(self.tour_v@[i] == v);
            }
        }
        assert forall|w: int| self.reached(w) implies #[trigger] self.rooted(w) by {
            assert(mid.rooted(w));
            if w != 0 {
                assert(mid.reached(mid.up@[w]));
            }
        }
        assert forall|w: int| #[trigger] self.complete(w) implies self.nested(w) by {
            assert(mid.complete(w));
            assert(mid.nested(w));
            assert forall|i: int| self.v_to_i@[w] <= i <= self.out@[w] implies self.depth@[#[trigger] self.tour_v@[i] as int]
                >= self.depth@[w] by {
                assert(mid.depth@[mid.tour_v@[i] as int] >= mid.depth@[w]);
            }
            assert forall|y: int| #[trigger] self.reached(y) && self.up@[y] == w implies self.complete(
                y,
            ) && self.v_to_i@[w] < self.v_to_i@[y] && self.out@[y] < self.out@[w] by {
                assert(mid.reached(y));
            }
        }
        assert forall|w: int| #[trigger] self.reached(w) && w != 0 implies has_edge(
            self.g@,
            self.up@[w],
            w,
        ) by {
            assert(mid.reached(w));
        }
        assert(self.charted());
        assert forall|i: int| 0 <= i < from implies #[trigger] self.tour_v@[i] == start.tour_v@[i] by {
            assert(mid.tour_v@[i] == before.tour_v@[i]);
            assert(before.tour_v@[i] == start.tour_v@[i]);
        }
        assert(self.tour_v@[from] == u) by {
            assert(mid.tour_v@[from] == before.tour_v@[from]);
        }
        assert forall|w: int| before.entered(start, w) implies #[trigger] self.entered(start, w) by {
            assert(before.reached(w));
            assert(mid.reached(w));
            assert(mid.v_to_i@[w] == before.v_to_i@[w] || mid.entered(before, w));
        }
        assert(mid.entered(before, v));
        assert forall|w: int| 0 <= w < self.g@.len() implies (#[trigger] self.v_to_i@[w]
            == start.v_to_i@[w] && self.out@[w] == start.out@[w]) || self.entered(start, w) by {
            if mid.entered(before, w) {
                assert(self.reached(w));
            } else {
                assert(mid.v_to_i@[w] == before.v_to_i@[w] && mid.out@[w] == before.out@[w]);
                if before.entered(start, w) {
                    assert(self.entered(start, w));
                } else {
                    assert(before.v_to_i@[w] == start.v_to_i@[w]);
                }
            }
        }
        assert forall|w: int| #[trigger] start.reached(w) implies self.reached(w) && self.depth@[w]
            == start.depth@[w] by {
            assert(before.reached(w));
            assert(mid.reached(w));
        }
        assert forall|i: int| from <= i < self.tour_v@.len() implies self.depth@[#[trigger] self.tour_v@[i] as int]
            >= d by {
            if i < at {
                assert(mid.tour_v@[i] == before.tour_v@[i]);
                assert(before.reached(before.tour_v@[i] as int));
                assert(before.depth@[before.tour_v@[i] as int] >= d);
            } else if i < end {
                assert(mid.depth@[mid.tour_v@[i] as int] >= d + 1);
            }
        }
        assert forall|w: int| #[trigger] self.entered(start, w) && w != u implies self.complete(w)
            && self.depth@[w] > d && self.out@[w] < self.tour_v@.len() - 1 by {
            assert(mid.reached(w));
            if mid.entered(before, w) {
                if w != v {
                    assert(mid.complete(w));
                } else {
                    assert(mid.complete(v));
                }
            } else {
                assert(mid.v_to_i@[w] == before.v_to_i@[w] && mid.out@[w] == before.out@[w]);
                assert(before.reached(w)) by {
                    assert(mid.tour_v@[mid.v_to_i@[w] as int] == w);
                    if mid.v_to_i@[w] < at {
                        assert(mid.tour_v@[mid.v_to_i@[w] as int] == before.tour_v@[mid.v_to_i@[w] as int]);
                    }
                }
                assert(before.entered(start, w));
                assert(before.complete(w));
            }
        }
        assert(!self.complete(u));
        if 0 <= p < self.g@.len() {
            assert(!before.complete(p));
            assert(mid.rooted(u));
            assert(mid.depth@[u] == mid.depth@[p] + 1);
            if mid.entered(before, p) {
                assert(mid.depth@[p] > d + 1);
            }
            assert(!mid.entered(before, p));
            assert(!self.complete(p)) by {
                if self.complete(p) {
                    assert(mid.reached(p));
                    assert(mid.v_to_i@[p] == before.v_to_i@[p] && mid.out@[p] == before.out@[p]);
                    assert(mid.tour_v@[mid.v_to_i@[p] as int] == p);
                    assert(before.out@[p] < at);
                    assert(mid.tour_v@[mid.v_to_i@[p] as int] == before.tour_v@[mid.v_to_i@[p] as int]);
                    assert(before.reached(p));
                }
            }
        }
        assert(self.walking(start, u, p, d, false));
    }

    /// The tour goes on where it leaves the vertex `u`, having gone through
    /// all its edges.
    proof fn lemma_exit_tour(&self, prev: &Self, start: &Self, u: int, p: int, d: int)
        requires
            0 <= u < prev.g@.len(),
            prev.g@.len() <= usize::MAX,
            p == prev.up@[u],
            p == usize::MAX || (0 <= p < prev.g@.len() && p != u),
            prev.charted(),
            prev.linked(),
            prev.walking(start, u, p, d, false),
            forall|k: int|
                0 <= k < prev.g@[u]@.len() && prev.g@[u]@[k] != p ==> prev.entered(
                    start,
                    #[trigger] prev.g@[u]@[k] as int,
                ),
            self.g@ == prev.g@,
            self.up@ == prev.up@,
            self.sparse_table@ == prev.sparse_table@,
            self.v_to_i@ == prev.v_to_i@,
            self.depth@ == prev.depth@,
            self.tour_v@ == prev.tour_v@,
            self.out@ == prev.out@.update(u, prev.tour_v@.len() - 1),
        ensures
            self.charted(),
            self.linked(),
            self.walking(start, u, p, d, true),
    {
        let from = start.tour_v@.len() as int;
        assert(prev.reached(u));
        assert(prev.rooted(u));
        assert forall|w: int| self.reached(w) == prev.reached(w) by {
        }
        assert forall|w: int| w != u implies self.complete(w) == prev.complete(w) by {
        }
        assert(self.complete(u));
        assert forall|i: int| self.step_ok(i) == prev.step_ok(i) by {
        }
        assert forall|w: int| self.reached(w) implies #[trigger] self.rooted(w) by {
            assert(prev.rooted(w));
        }
        assert forall|w: int| #[trigger] self.complete(w) implies self.nested(w) by {
            if w == u {
                assert forall|y: int| #[trigger] self.reached(y) && self.up@[y] == u implies self.complete(
                    y,
                ) && self.v_to_i@[u] < self.v_to_i@[y] && self.out@[y] < self.out@[u] by {
                    assert(prev.reached(y));
                    assert(prev.rooted(y));
                    assert(y != 0);
                    assert(y != u);
                    assert(has_edge(prev.g@, u, y));
                    let k = choose|k: int| 0 <= k < prev.g@[u]@.len() && prev.g@[u]@[k] == y as usize;
                    if y == p {
                        assert(prev.rooted(u));
                        assert(prev.rooted(p));
                    }
                    assert(prev.entered(start, prev.g@[u]@[k] as int));
                    assert(prev.tour_v@[prev.v_to_i@[y] as int] == y);
                    assert(prev.tour_v@[prev.v_to_i@[u] as int] == u);
                }
                assert forall|i: int| self.v_to_i@[u] <= i <= self.out@[u] implies self.depth@[#[trigger] self.tour_v@[i] as int]
                    >= self.depth@[u] by {
                }
            } else {
                assert(prev.complete(w));
                assert(prev.nested(w));
                assert forall|y: int| #[trigger] self.reached(y) && self.up@[y] == w implies self.complete(
                    y,
                ) && self.v_to_i@[w] < self.v_to_i@[y] && self.out@[y] < self.out@[w] by {
                    assert(prev.reached(y));
                    if y == u {
                        assert(w == p);
                        assert(!prev.complete(p));
                    }
                }
            }
        }
        assert forall|w: int| #[trigger] self.reached(w) && w != 0 implies has_edge(
            self.g@,
            self.up@[w],
            w,
        ) by {
            assert(prev.reached(w));
        }
        assert forall|i: int| 0 <= i < self.tour_v@.len() implies self.reached(
            #[trigger] self.tour_v@[i] as int,
        ) by {
            assert(prev.reached(prev.tour_v@[i] as int));
        }
        assert(self.charted());
        assert forall|w: int| self.entered(start, w) == prev.entered(start, w) by {
        }
        assert forall|w: int| 0 <= w < self.g@.len() implies (#[trigger] self.v_to_i@[w]
            == start.v_to_i@[w] && self.out@[w] == start.out@[w]) || self.entered(start, w) by {
            if w == u {
                assert(self.entered(start, u));
            } else {
                assert((prev.v_to_i@[w] == start.v_to_i@[w] && prev.out@[w] == start.out@[w])
                    || prev.entered(start, w));
            }
        }
        assert forall|w: int| #[trigger] self.entered(start, w) && w != u implies self.complete(w)
            && self.depth@[w] > d && self.out@[w] < self.tour_v@.len() - 1 by {
            assert(prev.entered(start, w));
        }
        assert forall|w: int| #[trigger] start.reached(w) implies self.reached(w) && self.depth@[w]
            == start.depth@[w] by {
            assert(prev.reached(w));
        }
        if 0 <= p < self.g@.len() {
            assert(!prev.complete(p));
            assert(!self.complete(p));
        }
        assert(self.walking(start, u, p, d, true));
    }

    /// Walks the tree below `u`, which the tour enters from `p` at the depth
    /// `d`.
    fn dfs(&mut self, u: usize, p: usize, d: usize, Ghost(height): Ghost<Seq<nat>>)
        requires
            is_tree(old(self).g@, old(self).up@, height),
            old(self).charted(),
            old(self).linked(),
            u < old(self).g@.len(),
            p == old(self).up@[u as int],
            p == usize::MAX ==> u == 0 && d == 0 && old(self).tour_v@.len() == 0,
            p != usize::MAX ==> p < old(self).g@.len() && p != u && old(self).reached(p as int)
                && !old(self).complete(p as int) && old(self).depth@[p as int] + 1 == d
                && has_edge(old(self).g@, p as int, u as int) && old(self).tour_v@.last() == p,
            2 * (d + height[u as int]) <= usize::MAX,
        ensures
            final(self).charted(),
            final(self).linked(),
            final(self).walking(old(self), u as int, p as int, d as int, true),
            final(self).reached(u as int),
            forall|w: int| old(self).reached(w) ==> #[trigger] final(self).reached(w),
            forall|w: int, k: int|
                #[trigger] final(self).reached(w) && !old(self).reached(w) && 0 <= k
                    < final(self).g@[w]@.len() ==> final(self).reached(
                    #[trigger] final(self).g@[w]@[k] as int,
                ),
        decreases height[u as int],
    {
        let n = self.g.len();
        let ghost start = *self;
        let at = self.tour_v.len();
        self.v_to_i[u] = at;
        self.depth[u] = d;
        self.tour_v.push(u);
        proof {
            self.lemma_enter_tour(&start, u as int, p as int, d as int);
        }
        let mut idx: usize = 0;
        while idx < self.g[u].len()
            invariant
                start == *old(self),
                is_tree(self.g@, self.up@, height),
                self.g@.len() == n,
                u < n,
                p == self.up@[u as int],
                p == usize::MAX || (p < n && p != u),
                2 * (d + height[u as int]) <= usize::MAX,
                self.charted(),
                self.linked(),
                self.walking(&start, u as int, p as int, d as int, false),
                idx <= self.g@[u as int]@.len(),
                self.reached(u as int),
                forall|k: int|
                    0 <= k < idx && self.g@[u as int]@[k] != p ==> self.entered(
                        &start,
                        #[trigger] self.g@[u as int]@[k] as int,
                    ),
                forall|w: int| start.reached(w) ==> #[trigger] self.reached(w),
                forall|k: int| 0 <= k < idx ==> self.reached(#[trigger] self.g@[u as int]@[k] as int),
                forall|w: int, k: int|
                    #[trigger] self.reached(w) && !start.reached(w) && w != u && 0 <= k
                        < self.g@[w]@.len() ==> self.reached(#[trigger] self.g@[w]@[k] as int),
            decreases self.g@[u as int]@.len() - idx,
        {
            let v = self.g[u][idx];
            proof {
                assert(self.g@[u as int]@[idx as int] == v);
            }
            idx += 1;
            if v == p {
                proof {
                    assert(self.rooted(u as int));
                    assert forall|k: int| 0 <= k < idx implies self.reached(
                        #[trigger] self.g@[u as int]@[k] as int,
                    ) by {
                        if k == idx - 1 {
                            assert(self.g@[u as int]@[k] == v);
                        }
                    }
                }
                continue ;
            }
            let ghost before = *self;
            proof {
                assert(has_edge(self.g@, u as int, v as int));
                assert(self.up@[v as int] == u && height[v as int] < height[u as int]);
            }
            self.dfs(v, u, d + 1, Ghost(height));
            let ghost mid = *self;
            self.tour_v.push(u);
            proof {
                self.lemma_come_back(&start, &before, &mid, u as int, p as int, d as int, v as int);
                assert forall|k: int|
                    0 <= k < idx && self.g@[u as int]@[k] != p implies self.entered(
                    &start,
                    #[trigger] self.g@[u as int]@[k] as int,
                ) by {
                    if k < idx - 1 {
                        assert(before.entered(&start, before.g@[u as int]@[k] as int));
                    }
                }
                assert forall|w: int| start.reached(w) implies #[trigger] self.reached(w) by {
                    assert(before.reached(w));
                    assert(mid.reached(w));
                }
                assert forall|k: int| 0 <= k < idx implies self.reached(
                    #[trigger] self.g@[u as int]@[k] as int,
                ) by {
                    if k < idx - 1 {
                        assert(before.reached(before.g@[u as int]@[k] as int));
                        assert(mid.reached(before.g@[u as int]@[k] as int));
                    } else {
                        assert(mid.reached(v as int));
                    }
                }
                assert forall|w: int, k: int|
                    #[trigger] self.reached(w) && !start.reached(w) && w != u && 0 <= k
                        < self.g@[w]@.len() implies self.reached(
                    #[trigger] self.g@[w]@[k] as int,
                ) by {
                    assert(mid.reached(w));
                    if before.reached(w) {
                        assert(before.reached(before.g@[w]@[k] as int));
                        assert(mid.reached(before.g@[w]@[k] as int));
                    } else {
                        assert(mid.reached(mid.g@[w]@[k] as int));
                    }
                }
            }
        }
        let ghost prev = *self;
        self.out = Ghost(self.out@.update(u as int, self.tour_v@.len() - 1));
        proof {
            self.lemma_exit_tour(&prev, &start, u as int, p as int, d as int);
            assert forall|w: int| prev.reached(w) == self.reached(w) by {
            }
        }
    }

    /// The depth of a vertex that the tour came to is the number of steps
    /// from it up to vertex 0.
    pub proof fn lemma_depth_is_distance(&self, w: int)
        requires
            self.initialized(),
            self.reached(w),
        ensures
            climbs(self.parents(), w, 0, self.depths()[w] as int),
        decreases self.depths()[w],
    {
        assert(self.rooted(w));
        if w != 0 {
            self.lemma_depth_is_distance(self.parents()[w]);
        }
    }

    /// The vertex at the place `m` of the tour is above the vertex at the
    /// later place `i`, where the tour does not leave its depth in between.
    proof fn lemma_below_after(&self, m: int, i: int)
        requires
            self.charted(),
            0 <= m <= i < self.tour_v@.len(),
            forall|j: int|
                m <= j <= i ==> self.depth@[#[trigger] self.tour_v@[j] as int]
                    >= self.depth@[self.tour_v@[m] as int],
        ensures
            climbs(
                self.up@,
                self.tour_v@[i] as int,
                self.tour_v@[m] as int,
                self.depth@[self.tour_v@[i] as int] - self.depth@[self.tour_v@[m] as int],
            ),
        decreases i - m,
    {
        if i > m {
            self.lemma_below_after(m, i - 1);
            assert(self.step_ok(i - 1));
            let r = self.tour_v@[m] as int;
            let a = self.tour_v@[i - 1] as int;
            let b = self.tour_v@[i] as int;
            assert(self.depth@[b] >= self.depth@[r]);
            assert(self.depth@[a] >= self.depth@[r]);
            assert(a < self.g@.len() && b < self.g@.len());
        }
    }

    /// The vertex at the place `m` of the tour is above the vertex at the
    /// earlier place `i`, where the tour does not leave its depth in
    /// between.
    proof fn lemma_below_before(&self, m: int, i: int)
        requires
            self.charted(),
            0 <= i <= m < self.tour_v@.len(),
            forall|j: int|
                i <= j <= m ==> self.depth@[#[trigger] self.tour_v@[j] as int]
                    >= self.depth@[self.tour_v@[m] as int],
        ensures
            climbs(
                self.up@,
                self.tour_v@[i] as int,
                self.tour_v@[m] as int,
                self.depth@[self.tour_v@[i] as int] - self.depth@[self.tour_v@[m] as int],
            ),
        decreases m - i,
    {
        if i < m {
            self.lemma_below_before(m, i + 1);
            assert(self.step_ok(i));
            let r = self.tour_v@[m] as int;
            let a = self.tour_v@[i] as int;
            let b = self.tour_v@[i + 1] as int;
            assert(self.depth@[b] >= self.depth@[r]);
            assert(self.depth@[a] >= self.depth@[r]);
            assert(a < self.g@.len() && b < self.g@.len());
        }
    }

    /// The tour enters a vertex after the vertices above it, and leaves it
    /// before them.
    proof fn lemma_nested_chain(&self, y: int, a: int, n: int)
        requires
            self.charted(),
            self.all_complete(),
            self.g@.len() <= usize::MAX,
            self.reached(y),
            climbs(self.up@, y, a, n),
        ensures
            self.reached(a),
            self.v_to_i@[a] <= self.v_to_i@[y],
            self.out@[y] <= self.out@[a],
            self.depth@[y] == self.depth@[a] + n,
            n >= 0,
        decreases n,
    {
        if n > 0 {
            let x = self.up@[y];
            assert(self.rooted(y));
            assert(self.reached(x));
            assert(self.complete(x));
            assert(self.nested(x));
            self.lemma_nested_chain(x, a, n - 1);
        }
    }

    /// The vertex of least depth on the tour between the places of two
    /// vertices is their lowest common ancestor.
    proof fn lemma_lowest_is_lca(&self, u: int, v: int, m: int)
        requires
            self.charted(),
            self.all_complete(),
            self.g@.len() <= usize::MAX,
            self.reached(u),
            self.reached(v),
            lesser(self.v_to_i@[u] as int, self.v_to_i@[v] as int) <= m <= greater(
                self.v_to_i@[u] as int,
                self.v_to_i@[v] as int,
            ),
            forall|j: int|
                lesser(self.v_to_i@[u] as int, self.v_to_i@[v] as int) <= j <= greater(
                    self.v_to_i@[u] as int,
                    self.v_to_i@[v] as int,
                ) ==> self.depth@[#[trigger] self.tour_v@[j] as int]
                    >= self.depth@[self.tour_v@[m] as int],
        ensures
            is_lca(self.up@, self.tour_v@[m] as int, u, v),
            climbs(
                self.up@,
                u,
                self.tour_v@[m] as int,
                self.depth@[u] - self.depth@[self.tour_v@[m] as int],
            ),
            climbs(
                self.up@,
                v,
                self.tour_v@[m] as int,
                self.depth@[v] - self.depth@[self.tour_v@[m] as int],
            ),
    {
        let pu = self.v_to_i@[u] as int;
        let pv = self.v_to_i@[v] as int;
        let r = self.tour_v@[m] as int;
        if pu <= m {
            self.lemma_below_before(m, pu);
        } else {
            self.lemma_below_after(m, pu);
        }
        if pv <= m {
            self.lemma_below_before(m, pv);
        } else {
            self.lemma_below_after(m, pv);
        }
        assert(self.tour_v@[pu] == u);
        assert(self.tour_v@[pv] == v);
        assert(is_ancestor(self.up@, r, u));
        assert(is_ancestor(self.up@, r, v));
        assert(self.complete(u) && self.complete(v));
        assert forall|a: int|
            is_ancestor(self.up@, a, u) && is_ancestor(self.up@, a, v) implies #[trigger] is_ancestor(
            self.up@,
            a,
            r,
        ) by {
            let n1 = choose|n: int| #[trigger] climbs(self.up@, u, a, n);
            let n2 = choose|n: int| #[trigger] climbs(self.up@, v, a, n);
            self.lemma_nested_chain(u, a, n1);
            self.lemma_nested_chain(v, a, n2);
            assert(self.complete(a));
            assert(self.nested(a));
            let pa = self.v_to_i@[a] as int;
            assert(self.tour_v@[pa] == a);
            assert forall|j: int| pa <= j <= m implies self.depth@[#[trigger] self.tour_v@[j] as int]
                >= self.depth@[self.tour_v@[pa] as int] by {
            }
            self.lemma_below_after(pa, m);
        }
    }

    /// Builds the tour from vertex 0 and the table over it.
    pub fn init(&mut self)
        requires
            old(self).fresh(),
            exists|parent: Seq<int>, height: Seq<nat>| #[trigger]
                is_tree(old(self).edges(), parent, height),
        ensures
            final(self).initialized(),
            final(self).edges() == old(self).edges(),
            final(self).reached(0),
            final(self).closed_under_edges(),
            exists|height: Seq<nat>| #[trigger]
                is_tree(final(self).edges(), final(self).parents(), height),
    {
        let ghost witness = choose|parent: Seq<int>, height: Seq<nat>| #[trigger]
            is_tree(self.g@, parent, height);
        let ghost parent = witness.0;
        let ghost height = witness.1;
        let n = self.g.len();
        let mut v_to_i: Vec<usize> = Vec::new();
        let mut depth: Vec<usize> = Vec::new();
        let mut z: usize = 0;
        while z < n
            invariant
                z <= n,
                v_to_i@.len() == z,
                depth@.len() == z,
            decreases n - z,
        {
            v_to_i.push(usize::MAX);
            depth.push(usize::MAX);
            z += 1;
        }
        self.v_to_i = v_to_i;
        self.depth = depth;
        self.up = Ghost(parent);
        self.out = Ghost(Seq::new(n as nat, |i: int| -1int));
        let ghost start = *self;
        proof {
            assert forall|w: int| !start.reached(w) by {
            }
            assert(self.charted());
            assert(self.linked());
        }
        self.dfs(0, usize::MAX, 0, Ghost(height));
        proof {
            assert(self.closed_under_edges());
            assert forall|w: int| #[trigger] self.reached(w) implies self.complete(w) by {
                if w != 0 {
                    assert(self.entered(&start, w));
                }
            }
        }
        let mut tour_depth: Vec<usize> = Vec::new();
        let mut t: usize = 0;
        while t < self.tour_v.len()
            invariant
                self.toured(),
                t <= self.tour_v@.len(),
                tour_depth@.len() == t,
                forall|i: int| 0 <= i < t ==> tour_depth@[i] == self.depth@[self.tour_v@[i] as int],
            decreases self.tour_v@.len() - t,
        {
            tour_depth.push(self.depth[self.tour_v[t]]);
            t += 1;
        }
        let ghost walked = *self;
        self.tour_depth = tour_depth;
        proof {
            assert(self.tour_depth@ =~= self.tour_depths());
            walked.lemma_same_tour(self);
            walked.lemma_same_chart(self);
        }
        let count = self.tour_v.len();
        let top = bitsize(count);
        proof {
            lemma_bits(count as nat);
            lemma2_to64();
        }
        let mut first: Vec<usize> = Vec::new();
        let mut i: usize = 0;
        while i < count
            invariant
                i <= count,
                first@.len() == i,
                forall|j: int| 0 <= j < i ==> first@[j] == j,
            decreases count - i,
        {
            first.push(i);
            i += 1;
        }
        let mut sp: Vec<Vec<usize>> = Vec::new();
        sp.push(first);
        let ghost depths = self.tour_depth@;
        proof {
            assert(level_ok(depths, sp@[0]@, 0)) by {
                assert forall|j: int| 0 <= j < sp@[0]@.len() implies is_lowest(
                    depths,
                    j,
                    j + pow2(0),
                    #[trigger] sp@[0]@[j] as int,
                ) by {
                }
            }
        }
        let mut i: usize = 1;
        while i < top
            invariant
                depths == self.tour_depth@,
                1 <= i,
                i <= top,
                top == bits(count as nat),
                top >= 1,
                count == depths.len(),
                count >= 1,
                pow2((top - 1) as nat) <= count,
                sp@.len() == i,
                forall|r: int| 0 <= r < i ==> level_ok(depths, (#[trigger] sp@[r])@, r as nat),
            decreases top - i,
        {
            proof {
                lemma_pow2_unfold(i as nat);
                if i < top - 1 {
                    lemma_pow2_strictly_increases(i as nat, (top - 1) as nat);
                }
                lemma_shift_is_pow2((i - 1) as usize);
                assert(level_ok(depths, sp@[i - 1]@, (i - 1) as nat));
            }
            let width: usize = 1usize << (i - 1);
            let next_size = sp[i - 1].len() - width;
            let mut tmp: Vec<usize> = Vec::new();
            let mut j: usize = 0;
            while j < next_size
                invariant
                    1 <= i < top,
                    sp@.len() == i,
                    count == depths.len(),
                    width == pow2((i - 1) as nat),
                    pow2(i as nat) == 2 * pow2((i - 1) as nat),
                    pow2(i as nat) <= count,
                    level_ok(depths, sp@[i - 1]@, (i - 1) as nat),
                    next_size == count - pow2(i as nat) + 1,
                    j <= next_size,
                    tmp@.len() == j,
                    forall|a: int|
                        0 <= a < j ==> is_lowest(depths, a, a + pow2(i as nat), #[trigger] tmp@[a] as int),
                    depths == self.tour_depth@,
                decreases next_size - j,
            {
                let n1 = sp[i - 1][j];
                let n2 = sp[i - 1][j + width];
                proof {
                    let row = sp@[i - 1]@;
                    assert(is_lowest(depths, j as int, j + pow2((i - 1) as nat), row[j as int] as int));
                    assert(is_lowest(
                        depths,
                        j + width,
                        j + width + pow2((i - 1) as nat),
                        row[j + width] as int,
                    ));
                    lemma_lowest_of_two(
                        depths,
                        j as int,
                        j + width,
                        j + width,
                        j + pow2(i as nat),
                        n1 as int,
                        n2 as int,
                    );
                }
                let n1d = self.tour_depth[n1];
                let n2d = self.tour_depth[n2];
                tmp.push(
                    if n1d < n2d {
                        n1
                    } else {
                        n2
                    },
                );
                j += 1;
            }
            sp.push(tmp);
            i += 1;
        }
        let ghost tabled = *self;
        self.sparse_table = sp;
        proof {
            tabled.lemma_same_tour(self);
            tabled.lemma_same_chart(self);
            assert(is_tree(self.edges(), self.parents(), height));
        }
    }

    /// What the tour has come to depends on the edges, the tour and the places
    /// alone.
    proof fn lemma_same_tour(&self, other: &Self)
        requires
            self.closed_under_edges(),
            self.reached(0),
            self.edges() == other.edges(),
            self.tour() == other.tour(),
            self.places() == other.places(),
        ensures
            other.closed_under_edges(),
            other.reached(0),
    {
        assert forall|w: int, k: int|
            #[trigger] other.reached(w) && 0 <= k < other.edges()[w]@.len() implies other.reached(
            #[trigger] other.edges()[w]@[k] as int,
        ) by {
            assert(self.reached(w));
            assert(self.reached(self.edges()[w]@[k] as int));
        }
    }

    /// The lowest common ancestor of `u` and `v`, found as a vertex of least
    /// depth on the tour between the two.
    pub fn lca(&self, u: usize, v: usize) -> (r: usize)
        requires
            self.initialized(),
            u != v ==> self.reached(u as int) && self.reached(v as int),
        ensures
            is_lca(self.parents(), r as int, u as int, v as int),
            u == v ==> r == u,
            u != v ==> self.is_lowest_between(r as int, u as int, v as int),
            u != v ==> r < self.depths().len() && self.depths()[r as int] <= self.depths()[u as int]
                && self.depths()[r as int] <= self.depths()[v as int] && 2 * self.depths()[u as int]
                <= usize::MAX && 2 * self.depths()[v as int] <= usize::MAX,
            u != v ==> climbs(
                self.parents(),
                u as int,
                r as int,
                self.depths()[u as int] - self.depths()[r as int],
            ) && climbs(
                self.parents(),
                v as int,
                r as int,
                self.depths()[v as int] - self.depths()[r as int],
            ),
    {
        if u == v {
            proof {
                assert(climbs(self.up@, u as int, u as int, 0));
            }
            return u;
        }
        let n = self.g.len();
        let mut ix = self.v_to_i[u];
        let mut iy = self.v_to_i[v];
        if ix > iy {
            let t = ix;
            ix = iy;
            iy = t;
        }
        let count = self.tour_v.len();
        let items = iy - ix + 1;
        let level = bitsize(items) - 1;
        proof {
            lemma_bits(items as nat);
            lemma_bits(count as nat);
            lemma_bits_grow(items as nat, count as nat);
            lemma_shift_is_pow2(level);
            lemma_pow2_unfold((level + 1) as nat);
            assert(level_ok(self.tour_depth@, self.sparse_table@[level as int]@, level as nat));
        }
        let left = self.sparse_table[level][ix];
        let right = self.sparse_table[level][1 + iy - (1usize << level)];
        proof {
            let depths = self.tour_depth@;
            let row = self.sparse_table@[level as int]@;
            let second = 1 + iy - pow2(level as nat);
            assert(is_lowest(depths, ix as int, ix + pow2(level as nat), row[ix as int] as int));
            assert(is_lowest(depths, second, second + pow2(level as nat), row[second] as int));
            lemma_lowest_of_two(
                depths,
                ix as int,
                ix + pow2(level as nat),
                second,
                iy + 1,
                left as int,
                right as int,
            );
        }
        let idx = if self.tour_depth[left] < self.tour_depth[right] {
            left
        } else {
            right
        };
        proof {
            let depths = self.tour_depths();
            assert(is_lowest(depths, ix as int, iy + 1, idx as int));
            assert(depths[idx as int] <= depths[self.v_to_i@[u as int] as int]);
            assert(depths[idx as int] <= depths[self.v_to_i@[v as int] as int]);
            assert(self.tour_v@[self.v_to_i@[u as int] as int] == u);
            let a = self.places()[u as int] as int;
            let b = self.places()[v as int] as int;
            assert(ix == lesser(a, b));
            assert(iy == greater(a, b));
            assert(is_lowest(self.tour_depths(), lesser(a, b), greater(a, b) + 1, idx as int));
            assert(self.tour()[idx as int] == self.tour_v@[idx as int]);
            assert(self.is_lowest_between(self.tour_v@[idx as int] as int, u as int, v as int));
            assert forall|j: int| lesser(a, b) <= j <= greater(a, b) implies self.depth@[#[trigger] self.tour_v@[j] as int]
                >= self.depth@[self.tour_v@[idx as int] as int] by {
                assert(depths[idx as int] <= depths[j]);
            }
            self.lemma_lowest_is_lca(u as int, v as int, idx as int);
        }
        self.tour_v[idx]
    }

    /// The number of edges between `u` and `v`: their depths below their
    /// lowest common ancestor, added.
    pub fn dist(&self, u: usize, v: usize) -> (r: usize)
        requires
            self.initialized(),
            u != v ==> self.reached(u as int) && self.reached(v as int),
        ensures
            is_distance(self.parents(), u as int, v as int, r as int),
            u == v ==> r == 0,
    {
        if u == v {
            proof {
                assert(climbs(self.up@, u as int, u as int, 0));
                assert(is_lca(self.up@, u as int, u as int, u as int));
                assert(meet_at(self.up@, u as int, v as int, u as int, 0, 0));
            }
            return 0;
        }
        let p = self.lca(u, v);
        proof {
            assert(meet_at(
                self.up@,
                u as int,
                v as int,
                p as int,
                self.depth@[u as int] - self.depth@[p as int],
                self.depth@[v as int] - self.depth@[p as int],
            ));
        }
        self.depth[u] + self.depth[v] - self.depth[p] * 2
    }
}

} // verus!
