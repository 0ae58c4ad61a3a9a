//! A depth-first search that numbers the vertices of a graph in the order in
//! which it reaches them and records, for each vertex, the least number that
//! can be reached from below it: the search behind the detection of
//! articulation points and bridges.
//!
//! The search leaves a forest: every vertex that it reaches from another has
//! that vertex for its parent. What it records is stated against that forest.

use vstd::prelude::*;
use crate::order::{lemma_integers_ordered, lemma_pairs_ordered};
use crate::std_ext::{ascending, sort};

verus! {

pub struct LowLink {
    n: usize,
    g: Vec<Vec<usize>>,
    pub ord: Vec<u32>,
    pub low: Vec<u32>,
    pub aps: Vec<usize>,
    pub bridges: Vec<(usize, usize)>,
    up: Ghost<Seq<int>>,
    done: Ghost<Set<int>>,
    judged: Ghost<Set<int>>,
}

/// The number of vertices among the first `n` that have a number.
pub open spec fn reached_count(ord: Seq<u32>, n: int) -> int
    decreases n,
{
    if n <= 0 {
        0
    } else {
        reached_count(ord, n - 1) + if ord[n - 1] != u32::MAX {
            1int
        } else {
            0int
        }
    }
}

/// The vertices that are reached carry the numbers `1..=k`, each once.
pub open spec fn numbered(ord: Seq<u32>, k: int) -> bool {
    &&& reached_count(ord, ord.len() as int) == k
    &&& forall|i: int| 0 <= i < ord.len() && #[trigger] ord[i] != u32::MAX ==> 1 <= ord[i] <= k
    &&& forall|i: int, j: int|
        0 <= i < ord.len() && 0 <= j < ord.len() && i != j && #[trigger] ord[i] != u32::MAX
            && #[trigger] ord[j] != u32::MAX ==> ord[i] != ord[j]
}

/// Every vertex that is reached has a low number between 1 and its own
/// number.
pub open spec fn lows_below(ord: Seq<u32>, low: Seq<u32>) -> bool {
    &&& low.len() == ord.len()
    &&& forall|i: int| 0 <= i < ord.len() && #[trigger] ord[i] != u32::MAX ==> 1 <= low[i] <= ord[i]
}

/// There is an edge from `a` to `b`.
pub open spec fn has_edge(g: Seq<Vec<usize>>, a: int, b: int) -> bool {
    0 <= a < g.len() && g[a]@.contains(b as usize)
}

/// Every pair is an edge of the graph, in one direction or the other, with
/// the lesser vertex first.
pub open spec fn pairs_are_edges(g: Seq<Vec<usize>>, pairs: Seq<(usize, usize)>) -> bool {
    forall|k: int|
        0 <= k < pairs.len() ==> {
            let e = #[trigger] pairs[k];
            e.0 < e.1 < g.len() && (has_edge(g, e.0 as int, e.1 as int) || has_edge(
                g,
                e.1 as int,
                e.0 as int,
            ))
        }
}

/// Every vertex of the list is a vertex of a graph with `n` vertices.
pub open spec fn all_below(list: Seq<usize>, n: int) -> bool {
    forall|k: int| 0 <= k < list.len() ==> #[trigger] list[k] < n
}

/// `up` is a forest that a search of `g` leaves: it gives every vertex its
/// parent, or -1. A vertex that is not reached has none; a vertex with a
/// parent was reached after its parent, along an edge from it.
pub open spec fn is_forest(g: Seq<Vec<usize>>, ord: Seq<u32>, up: Seq<int>) -> bool {
    &&& up.len() == g.len()
    &&& ord.len() == g.len()
    &&& forall|c: int| 0 <= c < up.len() ==> -1 <= #[trigger] up[c] < up.len()
    &&& forall|c: int| 0 <= c < up.len() && ord[c] == u32::MAX ==> #[trigger] up[c] == -1
    &&& forall|c: int|
        0 <= c < up.len() && #[trigger] up[c] >= 0 ==> ord[c] != u32::MAX && ord[up[c]] < ord[c]
            && has_edge(g, up[c], c)
}

/// What the edge from `j` to `v` lets `j` reach: the low number of `v`
/// where `v` is a child of `j`, and the number of `v` otherwise.
pub open spec fn reach_of(ord: Seq<u32>, low: Seq<u32>, up: Seq<int>, j: int, v: int) -> int {
    if up[v] == j {
        low[v] as int
    } else {
        ord[v] as int
    }
}

/// The edge at place `t` of the vertex `j` does not lead to the parent of
/// `j`.
pub open spec fn leads_on(g: Seq<Vec<usize>>, up: Seq<int>, j: int, t: int) -> bool {
    0 <= t < g[j]@.len() && g[j]@[t] != up[j]
}

/// The low number of `j` is the least among its own number and what its
/// edges let it reach, the edges to its parent left out.
pub open spec fn low_exact(
    g: Seq<Vec<usize>>,
    ord: Seq<u32>,
    low: Seq<u32>,
    up: Seq<int>,
    j: int,
) -> bool {
    &&& low[j] <= ord[j]
    &&& forall|t: int| #[trigger]
        leads_on(g, up, j, t) ==> low[j] <= reach_of(ord, low, up, j, g[j]@[t] as int)
    &&& (low[j] == ord[j] || exists|t: int| #[trigger]
        leads_on(g, up, j, t) && low[j] == reach_of(ord, low, up, j, g[j]@[t] as int))
}

/// The number of vertices among the first `n` whose parent is `j`.
pub open spec fn count_children(up: Seq<int>, j: int, n: int) -> int
    decreases n,
{
    if n <= 0 {
        0
    } else {
        count_children(up, j, n - 1) + if up[n - 1] == j {
            1int
        } else {
            0int
        }
    }
}

/// `c` is a child of `j` from below which nothing above `j` is reached.
pub open spec fn held_by(ord: Seq<u32>, low: Seq<u32>, up: Seq<int>, j: int, c: int) -> bool {
    0 <= c < up.len() && up[c] == j && ord[j] <= low[c]
}

/// The vertex `j` parts the forest: it is a root with two children or more,
/// or it has a parent and a child from below which nothing above `j` is
/// reached.
pub open spec fn cut(ord: Seq<u32>, low: Seq<u32>, up: Seq<int>, j: int) -> bool {
    if up[j] < 0 {
        count_children(up, j, up.len() as int) >= 2
    } else {
        exists|c: int| #[trigger] held_by(ord, low, up, j, c)
    }
}

/// The two vertices as a pair, the lesser first.
pub open spec fn pair_of(a: int, b: int) -> (usize, usize) {
    if a < b {
        (a as usize, b as usize)
    } else {
        (b as usize, a as usize)
    }
}

/// `c` has a parent.
pub open spec fn has_parent(up: Seq<int>, c: int) -> bool {
    0 <= c < up.len() && up[c] >= 0
}

/// The edge from the parent of `c` to `c` is a crossing: from below `c`
/// nothing is reached but what comes after its parent.
pub open spec fn crosses(ord: Seq<u32>, low: Seq<u32>, up: Seq<int>, c: int) -> bool {
    has_parent(up, c) && ord[up[c]] < low[c]
}

/// The pair holds a vertex and its parent.
pub open spec fn is_tree_pair(up: Seq<int>, e: (usize, usize)) -> bool {
    exists|c: int| #[trigger] has_parent(up, c) && e == pair_of(up[c], c)
}

/// The parent that a search gives to a vertex that it reaches from `p`, and
/// -1 where `p` stands for none.
pub open spec fn parent_of(p: usize) -> int {
    if p == usize::MAX {
        -1
    } else {
        p as int
    }
}

/// What a search records, stated against the forest `up` that it leaves:
/// the low numbers are exact, the points are the vertices that part the
/// forest, each once, and the pairs are the crossings, each once.
pub open spec fn recorded(
    g: Seq<Vec<usize>>,
    ord: Seq<u32>,
    low: Seq<u32>,
    up: Seq<int>,
    points: Seq<usize>,
    pairs: Seq<(usize, usize)>,
) -> bool {
    &&& is_forest(g, ord, up)
    &&& low.len() == g.len()
    &&& forall|j: int| 0 <= j < g.len() ==> #[trigger] low_exact(g, ord, low, up, j)
    &&& forall|j: int| 0 <= j < g.len() ==> (points.contains(j as usize) <==> #[trigger] cut(ord, low, up, j))
    &&& points.no_duplicates()
    &&& forall|c: int| #[trigger]
        has_parent(up, c) ==> (pairs.contains(pair_of(up[c], c)) <==> crosses(ord, low, up, c))
    &&& forall|i: int| 0 <= i < pairs.len() ==> is_tree_pair(up, #[trigger] pairs[i])
    &&& pairs.no_duplicates()
}

/// Giving a number to a vertex that had none makes one more vertex reached.
proof fn lemma_reach_one(ord: Seq<u32>, id: int, k: u32, n: int)
    requires
        0 <= id < ord.len(),
        0 <= n <= ord.len(),
        ord[id] == u32::MAX,
        k != u32::MAX,
    ensures
        reached_count(ord.update(id, k), n) == reached_count(ord, n) + if id < n {
            1int
        } else {
            0int
        },
        0 <= reached_count(ord, n) <= n,
        id < n ==> reached_count(ord, n) < n,
    decreases n,
{
    if n > 0 {
        lemma_reach_one(ord, id, k, n - 1);
    }
}

/// Where no vertex is reached, the count is 0; where the count is the number
/// of vertices, every vertex is reached.
proof fn lemma_reach_bounds(ord: Seq<u32>, n: int)
    requires
        0 <= n <= ord.len(),
    ensures
        0 <= reached_count(ord, n) <= n,
        (forall|i: int| 0 <= i < n ==> ord[i] == u32::MAX) ==> reached_count(ord, n) == 0,
        reached_count(ord, n) == n ==> forall|i: int| 0 <= i < n ==> ord[i] != u32::MAX,
    decreases n,
{
    if n > 0 {
        lemma_reach_bounds(ord, n - 1);
    }
}

/// The count of children does not depend on the parents of the vertices
/// that are no children.
proof fn lemma_same_children(a: Seq<int>, b: Seq<int>, j: int, n: int)
    requires
        0 <= n <= a.len(),
        n <= b.len(),
        forall|c: int| 0 <= c < n ==> (#[trigger] a[c] == j) == (b[c] == j),
    ensures
        count_children(a, j, n) == count_children(b, j, n),
    decreases n,
{
    if n > 0 {
        lemma_same_children(a, b, j, n - 1);
        assert((a[n - 1] == j) == (b[n - 1] == j));
    }
}

/// One more vertex with the parent `j` makes one more child.
proof fn lemma_one_more_child(a: Seq<int>, b: Seq<int>, j: int, v: int, n: int)
    requires
        0 <= n <= a.len(),
        n <= b.len(),
        0 <= v < a.len(),
        a[v] != j,
        b[v] == j,
        forall|c: int| 0 <= c < n && c != v ==> (#[trigger] a[c] == j) == (b[c] == j),
    ensures
        count_children(b, j, n) == count_children(a, j, n) + if v < n {
            1int
        } else {
            0int
        },
        0 <= count_children(a, j, n) <= n,
    decreases n,
{
    if n > 0 {
        lemma_one_more_child(a, b, j, v, n - 1);
        if n - 1 != v {
            assert((a[n - 1] == j) == (b[n - 1] == j));
        }
    }
}

/// A vertex that is nobody's parent has no children.
proof fn lemma_no_children(a: Seq<int>, j: int, n: int)
    requires
        0 <= n <= a.len(),
        forall|c: int| 0 <= c < n ==> #[trigger] a[c] != j,
    ensures
        count_children(a, j, n) == 0,
    decreases n,
{
    if n > 0 {
        lemma_no_children(a, j, n - 1);
        assert(a[n - 1] != j);
    }
}

/// Two pairs of different vertices are the same pair only where they hold
/// the same two vertices.
proof fn lemma_pair_of(a: int, b: int, c: int, d: int)
    requires
        0 <= a <= usize::MAX,
        0 <= b <= usize::MAX,
        0 <= c <= usize::MAX,
        0 <= d <= usize::MAX,
        pair_of(a, b) == pair_of(c, d),
    ensures
        (a == c && b == d) || (a == d && b == c),
{
}

/// A list that was sorted holds what it held before, and nothing twice
/// where it held nothing twice.
proof fn lemma_sorted_same<T>(before: Seq<T>, after: Seq<T>)
    requires
        after.to_multiset() == before.to_multiset(),
        before.no_duplicates(),
    ensures
        after.no_duplicates(),
        forall|x: T| #[trigger] after.contains(x) == before.contains(x),
{
    assert forall|x: T| #[trigger] after.contains(x) == before.contains(x) by {
        vstd::seq_lib::to_multiset_contains(after, x);
        vstd::seq_lib::to_multiset_contains(before, x);
    }
    before.lemma_multiset_has_no_duplicates();
    after.lemma_multiset_has_no_duplicates_conv();
}

impl LowLink {
    /// The number of vertices.
    pub closed spec fn size(&self) -> nat {
        self.n as nat
    }

    /// The edges: for each vertex the vertices that its edges lead to.
    pub closed spec fn edges(&self) -> Seq<Vec<usize>> {
        self.g@
    }

    /// The number that the search gave to each vertex, `u32::MAX` for none.
    pub closed spec fn order(&self) -> Seq<u32> {
        self.ord@
    }

    /// The low number of each vertex.
    pub closed spec fn lowest(&self) -> Seq<u32> {
        self.low@
    }

    /// The vertices that the search put down as articulation points.
    pub closed spec fn points(&self) -> Seq<usize> {
        self.aps@
    }

    /// The edges that the search put down as bridges.
    pub closed spec fn crossings(&self) -> Seq<(usize, usize)> {
        self.bridges@
    }

    /// The parent of each vertex in the forest that the last search left,
    /// and -1 for none.
    pub closed spec fn parents(&self) -> Seq<int> {
        self.up@
    }

    /// Every edge leads to a vertex of the graph, and the vertices can be
    /// numbered in 32 bits.
    pub closed spec fn wf(&self) -> bool {
        &&& self.g@.len() == self.n
        &&& self.n < u32::MAX
        &&& forall|u: int, k: int|
            0 <= u < self.n && 0 <= k < self.g@[u]@.len() ==> #[trigger] self.g@[u]@[k] < self.n
    }

    /// A graph of `n` vertices without edges.
    pub fn new(n: usize) -> (graph: Self)
        requires
            n < u32::MAX,
        ensures
            graph.wf(),
            graph.size() == n,
            forall|u: int| 0 <= u < n ==> (#[trigger] graph.edges()[u])@.len() == 0,
    {
        let mut g: Vec<Vec<usize>> = Vec::new();
        let mut i: usize = 0;
        while i < n
            invariant
                i <= n,
                g@.len() == i,
                forall|u: int| 0 <= u < i ==> (#[trigger] g@[u])@.len() == 0,
            decreases n - i,
        {
            g.push(Vec::new());
            i += 1;
        }
        Self {
            n,
            g,
            ord: vec![],
            low: vec![],
            aps: vec![],
            bridges: vec![],
            up: Ghost(Seq::empty()),
            done: Ghost(Set::empty()),
            judged: Ghost(Set::empty()),
        }
    }

    /// The numbers that the search gave to the vertices.
    pub fn ord(&self) -> (list: &Vec<u32>)
        ensures
            list@ == self.order(),
    {
        &self.ord
    }

    /// The low numbers of the vertices.
    pub fn low(&self) -> (list: &Vec<u32>)
        ensures
            list@ == self.lowest(),
    {
        &self.low
    }

    /// The articulation points that the search put down.
    pub fn aps(&self) -> (list: &Vec<usize>)
        ensures
            list@ == self.points(),
    {
        &self.aps
    }

    /// The bridges that the search put down.
    pub fn bridges(&self) -> (list: &Vec<(usize, usize)>)
        ensures
            list@ == self.crossings(),
    {
        &self.bridges
    }

    /// Adds an edge from `u` to `v`.
    pub fn add_edge(&mut self, u: usize, v: usize)
        requires
            old(self).wf(),
            u < old(self).size(),
            v < old(self).size(),
        ensures
            final(self).wf(),
            final(self).size() == old(self).size(),
            final(self).edges().len() == old(self).edges().len(),
            final(self).edges()[u as int]@ == old(self).edges()[u as int]@.push(v),
            forall|w: int|
                0 <= w < old(self).size() && w != u ==> #[trigger] final(self).edges()[w] == old(
                    self,
                ).edges()[w],
            final(self).order() == old(self).order(),
            final(self).lowest() == old(self).lowest(),
            final(self).points() == old(self).points(),
            final(self).crossings() == old(self).crossings(),
            final(self).parents() == old(self).parents(),
    {
        self.g[u].push(v);
        proof {
            assert forall|a: int, k: int|
                0 <= a < self.n && 0 <= k < self.g@[a]@.len() implies #[trigger] self.g@[a]@[k]
                < self.n by {
                if a != u {
                    assert(self.g@[a] == old(self).g@[a]);
                } else if k < old(self).g@[a]@.len() {
                    assert(self.g@[a]@[k] == old(self).g@[a]@[k]);
                }
            }
        }
    }

    /// Adds the two edges between `u` and `v`.
    pub fn add_edge2(&mut self, u: usize, v: usize)
        requires
            old(self).wf(),
            u < old(self).size(),
            v < old(self).size(),
        ensures
            final(self).wf(),
            final(self).size() == old(self).size(),
            final(self).edges().len() == old(self).edges().len(),
            u != v ==> final(self).edges()[u as int]@ == old(self).edges()[u as int]@.push(v)
                && final(self).edges()[v as int]@ == old(self).edges()[v as int]@.push(u),
            u == v ==> final(self).edges()[u as int]@ == old(self).edges()[u as int]@.push(v).push(
                u,
            ),
            forall|w: int|
                0 <= w < old(self).size() && w != u && w != v ==> #[trigger] final(self).edges()[w]
                    == old(self).edges()[w],
            final(self).order() == old(self).order(),
            final(self).lowest() == old(self).lowest(),
            final(self).points() == old(self).points(),
            final(self).crossings() == old(self).crossings(),
            final(self).parents() == old(self).parents(),
    {
        self.add_edge(u, v);
        self.add_edge(v, u);
    }

    /// The search has left the vertex `j`: its edges lead to vertices that
    /// are reached, its children are left and judged, its low number is
    /// exact, and it is among the points where it parts the forest.
    spec fn finished(&self, j: int) -> bool {
        &&& 0 <= j < self.n
        &&& self.ord@[j] != u32::MAX
        &&& forall|t: int|
            0 <= t < self.g@[j]@.len() ==> self.ord@[#[trigger] self.g@[j]@[t] as int] != u32::MAX
        &&& forall|c: int|
            0 <= c < self.n && #[trigger] self.up@[c] == j ==> self.done@.contains(c)
                && self.judged@.contains(c)
        &&& low_exact(self.g@, self.ord@, self.low@, self.up@, j)
        &&& (self.aps@.contains(j as usize) <==> cut(self.ord@, self.low@, self.up@, j))
    }

    /// The edge from its parent to the vertex `c` is judged: it is among the
    /// pairs where it is a crossing.
    spec fn settled(&self, c: int) -> bool {
        &&& 0 <= c < self.n
        &&& self.done@.contains(c)
        &&& self.up@[c] >= 0
        &&& (self.bridges@.contains(pair_of(self.up@[c], c)) <==> self.ord@[self.up@[c]]
            < self.low@[c])
    }

    /// The pair holds a judged vertex and its parent.
    spec fn from_judged(&self, e: (usize, usize)) -> bool {
        exists|c: int| #[trigger] self.judged@.contains(c) && e == pair_of(self.up@[c], c)
    }

    /// What holds of the search while it runs, `k` vertices being reached.
    spec fn searching(&self, k: int) -> bool {
        &&& self.wf()
        &&& self.ord@.len() == self.n
        &&& numbered(self.ord@, k)
        &&& lows_below(self.ord@, self.low@)
        &&& is_forest(self.g@, self.ord@, self.up@)
        &&& forall|j: int| #[trigger] self.done@.contains(j) ==> self.finished(j)
        &&& forall|c: int| #[trigger] self.judged@.contains(c) ==> self.settled(c)
        &&& forall|i: int|
            0 <= i < self.aps@.len() ==> self.done@.contains(#[trigger] self.aps@[i] as int)
        &&& self.aps@.no_duplicates()
        &&& forall|i: int| 0 <= i < self.bridges@.len() ==> self.from_judged(#[trigger] self.bridges@[i])
        &&& self.bridges@.no_duplicates()
    }

    /// The vertex `x` was reached since `old`.
    spec fn fresh(&self, old: &Self, x: int) -> bool {
        0 <= x < self.n && old.ord@[x] == u32::MAX && self.ord@[x] != u32::MAX
    }

    /// How the search has gone on since `old`, from where it reached `id`:
    /// what was written for a vertex that was reached then stands; every
    /// other vertex reached since has a parent reached since; and the
    /// vertices left since are those reached since, with `id` where
    /// `with_id` says so.
    spec fn grown(&self, old: &Self, id: int, with_id: bool) -> bool {
        &&& self.n == old.n
        &&& self.g@ == old.g@
        &&& self.ord@[id] != u32::MAX
        &&& forall|i: int|
            0 <= i < self.n && old.ord@[i] != u32::MAX ==> #[trigger] self.ord@[i] == old.ord@[i]
                && self.low@[i] == old.low@[i] && self.up@[i] == old.up@[i]
        &&& forall|i: int| #[trigger]
            self.fresh(old, i) && i != id ==> self.up@[i] >= 0 && old.ord@[self.up@[i]] == u32::MAX
        &&& forall|x: int| #[trigger]
            self.done@.contains(x) <==> old.done@.contains(x) || (self.fresh(old, x) && (with_id
                || x != id))
        &&& forall|x: int| #[trigger]
            self.judged@.contains(x) ==> old.judged@.contains(x) || (self.fresh(old, x) && x != id)
        &&& forall|x: int| old.judged@.contains(x) ==> #[trigger] self.judged@.contains(x)
    }

    /// What holds of the vertex `id` while the search goes through its
    /// edges, the first `vi` of them being done.
    spec fn visiting(&self, id: int, parent: int, vi: int, ch_cnt: int, is_aps: bool) -> bool {
        &&& self.up@[id] == parent
        &&& !self.done@.contains(id)
        &&& !self.judged@.contains(id)
        &&& forall|t: int| 0 <= t < vi ==> self.ord@[#[trigger] self.g@[id]@[t] as int] != u32::MAX
        &&& self.low@[id] <= self.ord@[id]
        &&& forall|t: int|
            t < vi && #[trigger] leads_on(self.g@, self.up@, id, t) ==> self.low@[id] <= reach_of(
                self.ord@,
                self.low@,
                self.up@,
                id,
                self.g@[id]@[t] as int,
            )
        &&& (self.low@[id] == self.ord@[id] || exists|t: int|
            t < vi && #[trigger] leads_on(self.g@, self.up@, id, t) && self.low@[id] == reach_of(
                self.ord@,
                self.low@,
                self.up@,
                id,
                self.g@[id]@[t] as int,
            ))
        &&& forall|c: int|
            0 <= c < self.n && #[trigger] self.up@[c] == id ==> self.done@.contains(c)
                && self.judged@.contains(c) && self.low@[id] <= self.low@[c]
        &&& ch_cnt == count_children(self.up@, id, self.n as int)
        &&& (is_aps <==> (parent >= 0 && exists|c: int| #[trigger]
            held_by(self.ord@, self.low@, self.up@, id, c)))
    }

    /// A vertex that the search has left stays as it is while the search
    /// goes on elsewhere.
    proof fn lemma_keeps_finished(&self, prev: &Self, j: int)
        requires
            prev.finished(j),
            prev.done@.contains(j),
            prev.wf(),
            is_forest(prev.g@, prev.ord@, prev.up@),
            prev.low@.len() == prev.n,
            self.n == prev.n,
            self.g@ == prev.g@,
            self.ord@.len() == self.n,
            self.low@.len() == self.n,
            self.up@.len() == self.n,
            forall|i: int|
                0 <= i < self.n && prev.ord@[i] != u32::MAX ==> #[trigger] self.ord@[i] == prev.ord@[i]
                    && self.up@[i] == prev.up@[i],
            forall|i: int| #[trigger]
                prev.done@.contains(i) ==> self.low@[i] == prev.low@[i] && self.done@.contains(i),
            forall|i: int| #[trigger] prev.judged@.contains(i) ==> self.judged@.contains(i),
            forall|i: int| 0 <= i < self.n && prev.ord@[i] == u32::MAX ==> #[trigger] self.up@[i] != j,
            self.aps@.contains(j as usize) == prev.aps@.contains(j as usize),
        ensures
            self.finished(j),
    {
        let n = self.n as int;
        assert forall|c: int| 0 <= c < n implies (#[trigger] prev.up@[c] == j) == (self.up@[c]
            == j) by {
            if prev.ord@[c] == u32::MAX {
                assert(prev.up@[c] == -1);
                assert(self.up@[c] != j);
            } else {
                assert(self.ord@[c] == prev.ord@[c]);
            }
        }
        lemma_same_children(prev.up@, self.up@, j, n);
        assert(self.ord@[j] == prev.ord@[j]);
        assert(self.up@[j] == prev.up@[j]);
        assert forall|c: int| 0 <= c < n && prev.up@[c] == j implies self.low@[c] == prev.low@[c]
            && prev.ord@[c] != u32::MAX by {
            assert(prev.done@.contains(c));
        }
        assert forall|c: int|
            held_by(self.ord@, self.low@, self.up@, j, c) == held_by(
                prev.ord@,
                prev.low@,
                prev.up@,
                j,
                c,
            ) by {
            if 0 <= c < n {
                assert((prev.up@[c] == j) == (self.up@[c] == j));
            }
        }
        if prev.up@[j] >= 0 {
            if cut(prev.ord@, prev.low@, prev.up@, j) {
                let c = choose|c: int| #[trigger] held_by(prev.ord@, prev.low@, prev.up@, j, c);
                assert(held_by(self.ord@, self.low@, self.up@, j, c));
            }
            if cut(self.ord@, self.low@, self.up@, j) {
                let c = choose|c: int| #[trigger] held_by(self.ord@, self.low@, self.up@, j, c);
                assert(held_by(prev.ord@, prev.low@, prev.up@, j, c));
            }
        }
        assert(cut(self.ord@, self.low@, self.up@, j) == cut(prev.ord@, prev.low@, prev.up@, j));
        assert forall|t: int| 0 <= t < self.g@[j]@.len() implies {
            let v = #[trigger] self.g@[j]@[t] as int;
            &&& self.ord@[v] != u32::MAX
            &&& reach_of(self.ord@, self.low@, self.up@, j, v) == reach_of(
                prev.ord@,
                prev.low@,
                prev.up@,
                j,
                v,
            )
        } by {
            let v = self.g@[j]@[t] as int;
            assert(prev.ord@[prev.g@[j]@[t] as int] != u32::MAX);
            assert(self.ord@[v] == prev.ord@[v]);
            if prev.up@[v] == j {
                assert(prev.done@.contains(v));
            }
        }
        assert forall|t: int| #[trigger] leads_on(self.g@, self.up@, j, t) implies self.low@[j]
            <= reach_of(self.ord@, self.low@, self.up@, j, self.g@[j]@[t] as int) by {
            assert(leads_on(prev.g@, prev.up@, j, t));
            let v = self.g@[j]@[t] as int;
        }
        if prev.low@[j] != prev.ord@[j] {
            let t = choose|t: int| #[trigger]
                leads_on(prev.g@, prev.up@, j, t) && prev.low@[j] == reach_of(
                    prev.ord@,
                    prev.low@,
                    prev.up@,
                    j,
                    prev.g@[j]@[t] as int,
                );
            assert(leads_on(self.g@, self.up@, j, t));
            let v = self.g@[j]@[t] as int;
            assert(self.low@[j] == reach_of(self.ord@, self.low@, self.up@, j, v));
        }
        assert(low_exact(self.g@, self.ord@, self.low@, self.up@, j));
        assert forall|c: int| 0 <= c < self.n && #[trigger] self.up@[c] == j implies self.done@.contains(
            c,
        ) && self.judged@.contains(c) by {
            assert((prev.up@[c] == j) == (self.up@[c] == j));
            assert(prev.done@.contains(c) && prev.judged@.contains(c));
        }
        assert forall|t: int| 0 <= t < self.g@[j]@.len() implies self.ord@[#[trigger] self.g@[j]@[t] as int]
            != u32::MAX by {
        }
    }

    /// Searching goes on where the vertex `id` is reached.
    proof fn lemma_enter(&self, prev: &Self, id: int, k: int, parent: int)
        requires
            prev.searching(k),
            0 <= id < prev.n,
            prev.ord@[id] == u32::MAX,
            0 <= k,
            k + 1 < u32::MAX,
            parent == -1 || (0 <= parent < prev.n && prev.ord@[parent] != u32::MAX
                && !prev.done@.contains(parent) && has_edge(prev.g@, parent, id)),
            self.n == prev.n,
            self.g@ == prev.g@,
            self.ord@ == prev.ord@.update(id, (k + 1) as u32),
            self.low@ == prev.low@.update(id, (k + 1) as u32),
            self.up@ == prev.up@.update(id, parent),
            self.aps@ == prev.aps@,
            self.bridges@ == prev.bridges@,
            self.done@ == prev.done@,
            self.judged@ == prev.judged@,
            numbered(self.ord@, k + 1),
        ensures
            self.searching(k + 1),
            self.visiting(id, parent, 0, 0, false),
            self.grown(prev, id, false),
    {
        let n = self.n as int;
        assert(prev.up@[id] == -1);
        assert forall|c: int| 0 <= c < n implies #[trigger] self.up@[c] != id by {
            if c != id {
                if prev.up@[c] == id {
                    assert(prev.ord@[prev.up@[c]] < prev.ord@[c]);
                }
            }
        }
        lemma_no_children(self.up@, id, n);
        assert(!prev.done@.contains(id)) by {
            if prev.done@.contains(id) {
                assert(prev.finished(id));
            }
        }
        assert(!prev.judged@.contains(id)) by {
            if prev.judged@.contains(id) {
                assert(prev.settled(id));
            }
        }
        assert(is_forest(self.g@, self.ord@, self.up@)) by {
            assert forall|c: int| 0 <= c < n && #[trigger] self.up@[c] >= 0 implies self.ord@[c]
                != u32::MAX && self.ord@[self.up@[c]] < self.ord@[c] && has_edge(
                self.g@,
                self.up@[c],
                c,
            ) by {
                if c == id {
                    assert(prev.ord@[parent] <= k);
                } else {
                    assert(prev.up@[c] >= 0);
                    assert(prev.up@[c] != id);
                }
            }
        }
        assert forall|j: int| #[trigger] self.done@.contains(j) implies self.finished(j) by {
            assert(prev.finished(j));
            assert forall|i: int| 0 <= i < n && prev.ord@[i] == u32::MAX implies #[trigger] self.up@[i]
                != j by {
                if i != id {
                    assert(prev.up@[i] == -1);
                }
            }
            assert forall|i: int| #[trigger] prev.done@.contains(i) implies self.low@[i]
                == prev.low@[i] && self.done@.contains(i) by {
                assert(prev.finished(i));
            }
            self.lemma_keeps_finished(prev, j);
        }
        assert forall|c: int| #[trigger] self.judged@.contains(c) implies self.settled(c) by {
            assert(prev.settled(c));
            assert(prev.finished(c));
            assert(prev.up@[c] >= 0);
            assert(prev.ord@[prev.up@[c]] < prev.ord@[c]);
        }
        assert forall|i: int| 0 <= i < self.bridges@.len() implies self.from_judged(
            #[trigger] self.bridges@[i],
        ) by {
            assert(prev.from_judged(prev.bridges@[i]));
            let c = choose|c: int| #[trigger]
                prev.judged@.contains(c) && prev.bridges@[i] == pair_of(prev.up@[c], c);
            assert(prev.settled(c));
            assert(prev.finished(c));
            assert(self.judged@.contains(c));
        }
        assert forall|x: int| #[trigger]
            self.done@.contains(x) <==> prev.done@.contains(x) || (self.fresh(prev, x) && x
                != id) by {
        }
        assert(!exists|c: int| #[trigger] held_by(self.ord@, self.low@, self.up@, id, c)) by {
            if exists|c: int| #[trigger] held_by(self.ord@, self.low@, self.up@, id, c) {
                let c = choose|c: int| #[trigger] held_by(self.ord@, self.low@, self.up@, id, c);
                assert(self.up@[c] != id);
            }
        }
        assert forall|i: int| #[trigger] self.fresh(prev, i) && i != id implies self.up@[i] >= 0
            && prev.ord@[self.up@[i]] == u32::MAX by {
        }
        assert forall|x: int| #[trigger] self.judged@.contains(x) implies prev.judged@.contains(x)
            || (self.fresh(prev, x) && x != id) by {
        }
        assert forall|i: int| 0 <= i < self.n && prev.ord@[i] != u32::MAX implies #[trigger] self.ord@[i]
            == prev.ord@[i] && self.low@[i] == prev.low@[i] && self.up@[i] == prev.up@[i] by {
        }
        assert(self.ord@[id] != u32::MAX);
        assert forall|x: int| prev.judged@.contains(x) implies #[trigger] self.judged@.contains(
            x,
        ) by {
        }
        assert forall|x: int| #[trigger]
            self.done@.contains(x) <==> prev.done@.contains(x) || (self.fresh(prev, x) && (false
                || x != id)) by {
            if self.fresh(prev, x) && x != id {
                assert(self.ord@[x] == prev.ord@[x]);
            }
        }
    }

    /// Searching goes on where an edge of `id` leads to a vertex that was
    /// reached before.
    proof fn lemma_back_edge(
        &self,
        prev: &Self,
        id: int,
        parent: int,
        vi: int,
        ch_cnt: int,
        is_aps: bool,
        k: int,
        v: int,
    )
        requires
            prev.searching(k),
            prev.visiting(id, parent, vi, ch_cnt, is_aps),
            0 <= id < prev.n,
            prev.ord@[id] != u32::MAX,
            0 <= vi < prev.g@[id]@.len(),
            v == prev.g@[id]@[vi],
            v != parent,
            prev.ord@[v] != u32::MAX,
            self.n == prev.n,
            self.g@ == prev.g@,
            self.ord@ == prev.ord@,
            self.up@ == prev.up@,
            self.low@ == prev.low@.update(
                id,
                if prev.ord@[v] < prev.low@[id] {
                    prev.ord@[v]
                } else {
                    prev.low@[id]
                },
            ),
            self.aps@ == prev.aps@,
            self.bridges@ == prev.bridges@,
            self.done@ == prev.done@,
            self.judged@ == prev.judged@,
        ensures
            self.searching(k),
            self.visiting(id, parent, vi + 1, ch_cnt, is_aps),
    {
        let n = self.n as int;
        self.lemma_low_changed(prev, id, k);
        assert forall|c: int|
            held_by(self.ord@, self.low@, self.up@, id, c) == held_by(
                prev.ord@,
                prev.low@,
                prev.up@,
                id,
                c,
            ) by {
            if 0 <= c < n && prev.up@[c] == id {
                assert(prev.ord@[prev.up@[c]] < prev.ord@[c]);
            }
        }
        if is_aps {
            let c = choose|c: int| #[trigger] held_by(prev.ord@, prev.low@, prev.up@, id, c);
            assert(held_by(self.ord@, self.low@, self.up@, id, c));
        }
        if exists|c: int| #[trigger] held_by(self.ord@, self.low@, self.up@, id, c) {
            let c = choose|c: int| #[trigger] held_by(self.ord@, self.low@, self.up@, id, c);
            assert(held_by(prev.ord@, prev.low@, prev.up@, id, c));
        }
        assert forall|t: int| 0 <= t < self.g@[id]@.len() implies {
            let w = #[trigger] self.g@[id]@[t] as int;
            reach_of(self.ord@, self.low@, self.up@, id, w) == reach_of(
                prev.ord@,
                prev.low@,
                prev.up@,
                id,
                w,
            )
        } by {
            let w = self.g@[id]@[t] as int;
            assert(prev.up@[id] != id);
        }
        assert forall|t: int|
            t < vi + 1 && #[trigger] leads_on(self.g@, self.up@, id, t) implies self.low@[id]
            <= reach_of(self.ord@, self.low@, self.up@, id, self.g@[id]@[t] as int) by {
            let w = self.g@[id]@[t] as int;
            assert(leads_on(prev.g@, prev.up@, id, t));
            if t == vi {
                if prev.up@[v] == id {
                    assert(prev.low@[id] <= prev.low@[v]);
                }
            }
        }
        if self.low@[id] != self.ord@[id] {
            if prev.ord@[v] < prev.low@[id] {
                assert(prev.up@[v] != id) by {
                    if prev.up@[v] == id {
                        assert(prev.low@[id] <= prev.low@[v]);
                    }
                }
                assert(leads_on(self.g@, self.up@, id, vi));
                assert(self.low@[id] == reach_of(
                    self.ord@,
                    self.low@,
                    self.up@,
                    id,
                    self.g@[id]@[vi] as int,
                ));
            } else {
                let t = choose|t: int|
                    t < vi && #[trigger] leads_on(prev.g@, prev.up@, id, t) && prev.low@[id]
                        == reach_of(prev.ord@, prev.low@, prev.up@, id, prev.g@[id]@[t] as int);
                assert(leads_on(self.g@, self.up@, id, t));
                let w = self.g@[id]@[t] as int;
            }
        }
        assert forall|t: int| 0 <= t < vi + 1 implies self.ord@[#[trigger] self.g@[id]@[t] as int]
            != u32::MAX by {
        }
    }

    /// Searching goes on where the low number of a vertex that the search
    /// has not left is made less, but not less than 1.
    proof fn lemma_low_changed(&self, prev: &Self, id: int, k: int)
        requires
            prev.searching(k),
            0 <= id < prev.n,
            prev.ord@[id] != u32::MAX,
            !prev.done@.contains(id),
            self.n == prev.n,
            self.g@ == prev.g@,
            self.ord@ == prev.ord@,
            self.up@ == prev.up@,
            self.low@.len() == prev.low@.len(),
            forall|i: int| 0 <= i < prev.n && i != id ==> #[trigger] self.low@[i] == prev.low@[i],
            1 <= self.low@[id] <= prev.low@[id],
            self.aps@ == prev.aps@,
            self.done@ == prev.done@,
            forall|x: int| prev.judged@.contains(x) ==> #[trigger] self.judged@.contains(x),
            forall|x: int| #[trigger] self.judged@.contains(x) ==> prev.judged@.contains(x),
            self.bridges@ == prev.bridges@,
        ensures
            self.searching(k),
    {
        let n = self.n as int;
        assert forall|j: int| #[trigger] self.done@.contains(j) implies self.finished(j) by {
            assert(prev.finished(j));
            assert forall|i: int| 0 <= i < n && prev.ord@[i] == u32::MAX implies #[trigger] self.up@[i]
                != j by {
                assert(prev.up@[i] == -1);
            }
            assert forall|i: int| #[trigger] prev.done@.contains(i) implies self.low@[i]
                == prev.low@[i] && self.done@.contains(i) by {
                assert(prev.finished(i));
            }
            self.lemma_keeps_finished(prev, j);
        }
        assert forall|c: int| #[trigger] self.judged@.contains(c) implies self.settled(c) by {
            assert(prev.judged@.contains(c));
            assert(prev.settled(c));
            assert(prev.finished(c));
        }
        assert forall|i: int| 0 <= i < self.bridges@.len() implies self.from_judged(
            #[trigger] self.bridges@[i],
        ) by {
            assert(prev.from_judged(prev.bridges@[i]));
            let c = choose|c: int| #[trigger]
                prev.judged@.contains(c) && prev.bridges@[i] == pair_of(prev.up@[c], c);
            assert(self.judged@.contains(c));
        }
        assert forall|i: int| 0 <= i < self.ord@.len() && #[trigger] self.ord@[i] != u32::MAX implies 1
            <= self.low@[i] <= self.ord@[i] by {
            if i != id {
                assert(self.low@[i] == prev.low@[i]);
            }
        }
    }

    /// Searching goes on where the search comes back from the child `v` of
    /// `id`, takes its low number into that of `id`, and judges the edge
    /// between the two.
    proof fn lemma_child_done(
        &self,
        before: &Self,
        after: &Self,
        id: int,
        parent: int,
        vi: int,
        ch_cnt: int,
        is_aps: bool,
        k1: int,
        k2: int,
        v: int,
    )
        requires
            before.searching(k1),
            before.visiting(id, parent, vi, ch_cnt, is_aps),
            0 <= id < before.n,
            before.ord@[id] != u32::MAX,
            0 <= vi < before.g@[id]@.len(),
            v == before.g@[id]@[vi],
            v != parent,
            before.ord@[v] == u32::MAX,
            after.searching(k2),
            after.grown(before, v, true),
            after.up@[v] == id,
            self.n == after.n,
            self.g@ == after.g@,
            self.ord@ == after.ord@,
            self.up@ == after.up@,
            self.low@ == after.low@.update(
                id,
                if after.low@[v] < after.low@[id] {
                    after.low@[v]
                } else {
                    after.low@[id]
                },
            ),
            self.aps@ == after.aps@,
            self.done@ == after.done@,
            self.judged@ == after.judged@.insert(v),
            self.bridges@ == (if after.ord@[id] < after.low@[v] {
                after.bridges@.push(pair_of(id, v))
            } else {
                after.bridges@
            }),
        ensures
            self.searching(k2),
            self.visiting(
                id,
                parent,
                vi + 1,
                ch_cnt + 1,
                is_aps || (parent >= 0 && after.ord@[id] <= after.low@[v]),
            ),
    {
        let n = self.n as int;
        assert(0 <= v < n);
        assert(after.fresh(before, v));
        assert(after.done@.contains(v));
        assert(after.finished(v));
        assert(!after.judged@.contains(v)) by {
            if after.judged@.contains(v) {
                if before.judged@.contains(v) {
                    assert(before.settled(v));
                    assert(before.finished(v));
                }
            }
        }
        assert(!after.done@.contains(id) && !after.judged@.contains(id)) by {
            assert(!after.fresh(before, id));
        }
        assert(after.ord@[id] == before.ord@[id] && after.low@[id] == before.low@[id]
            && after.up@[id] == before.up@[id]);
        assert(1 <= after.low@[v] <= after.ord@[v]);
        assert(1 <= after.low@[id] <= after.ord@[id]);
        assert forall|j: int| #[trigger] self.done@.contains(j) implies self.finished(j) by {
            assert(after.finished(j));
            assert forall|i: int| 0 <= i < n && after.ord@[i] == u32::MAX implies #[trigger] self.up@[i]
                != j by {
                assert(after.up@[i] == -1);
            }
            assert forall|i: int| #[trigger] after.done@.contains(i) implies self.low@[i]
                == after.low@[i] && self.done@.contains(i) by {
            }
            self.lemma_keeps_finished(after, j);
        }
        let e = pair_of(id, v);
        assert forall|c: int| #[trigger] after.judged@.contains(c) implies pair_of(after.up@[c], c)
            != e by {
            assert(after.settled(c));
            if pair_of(after.up@[c], c) == e {
                lemma_pair_of(after.up@[c], c, id, v);
            }
        }
        assert(!after.bridges@.contains(e)) by {
            if after.bridges@.contains(e) {
                let i = choose|i: int| 0 <= i < after.bridges@.len() && after.bridges@[i] == e;
                assert(after.from_judged(after.bridges@[i]));
            }
        }
        assert forall|c: int| #[trigger] self.judged@.contains(c) implies self.settled(c) by {
            if c == v {
                if after.ord@[id] < after.low@[v] {
                    assert(self.bridges@[after.bridges@.len() as int] == e);
                }
            } else {
                assert(after.settled(c));
                assert(pair_of(after.up@[c], c) != e);
                let f = pair_of(after.up@[c], c);
                if after.ord@[id] < after.low@[v] {
                    if after.bridges@.contains(f) {
                        let i = choose|i: int| 0 <= i < after.bridges@.len() && after.bridges@[i] == f;
                        assert(self.bridges@[i] == f);
                    }
                    if self.bridges@.contains(f) {
                        let i = choose|i: int| 0 <= i < self.bridges@.len() && self.bridges@[i] == f;
                        assert(after.bridges@[i] == f);
                    }
                }
            }
        }
        assert forall|i: int| 0 <= i < self.bridges@.len() implies self.from_judged(
            #[trigger] self.bridges@[i],
        ) by {
            if i < after.bridges@.len() {
                assert(after.from_judged(after.bridges@[i]));
                let c = choose|c: int| #[trigger]
                    after.judged@.contains(c) && after.bridges@[i] == pair_of(after.up@[c], c);
                assert(self.judged@.contains(c));
            } else {
                assert(self.judged@.contains(v));
            }
        }
        assert(self.bridges@.no_duplicates()) by {
            if after.ord@[id] < after.low@[v] {
                assert forall|a: int, b: int|
                    0 <= a < self.bridges@.len() && 0 <= b < self.bridges@.len() && a
                        != b implies self.bridges@[a] != self.bridges@[b] by {
                    if a < after.bridges@.len() && b < after.bridges@.len() {
                    } else if a < after.bridges@.len() {
                        assert(after.bridges@.contains(after.bridges@[a]));
                    } else {
                        assert(after.bridges@.contains(after.bridges@[b]));
                    }
                }
            }
        }
        assert forall|i: int| 0 <= i < self.ord@.len() && #[trigger] self.ord@[i] != u32::MAX implies 1
            <= self.low@[i] <= self.ord@[i] by {
            if i != id {
                assert(self.low@[i] == after.low@[i]);
            }
        }
        assert(self.searching(k2));
        assert forall|c: int| 0 <= c < n && c != v implies (#[trigger] before.up@[c] == id) == (
        after.up@[c] == id) by {
            if before.ord@[c] != u32::MAX {
                assert(after.ord@[c] == before.ord@[c]);
            } else {
                assert(before.up@[c] == -1);
                if after.ord@[c] != u32::MAX {
                    assert(after.fresh(before, c));
                    assert(before.ord@[after.up@[c]] == u32::MAX);
                } else {
                    assert(after.up@[c] == -1);
                }
            }
        }
        assert(before.up@[v] == -1);
        lemma_one_more_child(before.up@, after.up@, id, v, n);
        assert forall|c: int|
            0 <= c < self.n && #[trigger] self.up@[c] == id implies self.done@.contains(c)
            && self.judged@.contains(c) && self.low@[id] <= self.low@[c] by {
            if c != v {
                assert(before.up@[c] == id);
                assert(before.done@.contains(c));
                assert(before.finished(c));
                assert(after.ord@[c] == before.ord@[c]);
                assert(after.low@[c] == before.low@[c]);
            }
        }
        assert forall|c: int| c != v implies held_by(self.ord@, self.low@, self.up@, id, c)
            == held_by(before.ord@, before.low@, before.up@, id, c) by {
            if 0 <= c < n {
                assert((before.up@[c] == id) == (after.up@[c] == id));
                if before.up@[c] == id {
                    assert(before.done@.contains(c));
                    assert(before.finished(c));
                    assert(after.ord@[c] == before.ord@[c]);
                }
            }
        }
        let now = is_aps || (parent >= 0 && after.ord@[id] <= after.low@[v]);
        if now && parent >= 0 {
            if is_aps {
                let c = choose|c: int| #[trigger] held_by(before.ord@, before.low@, before.up@, id, c);
                assert(c != v);
                assert(held_by(self.ord@, self.low@, self.up@, id, c));
            } else {
                assert(held_by(self.ord@, self.low@, self.up@, id, v));
            }
        }
        if exists|c: int| #[trigger] held_by(self.ord@, self.low@, self.up@, id, c) {
            let c = choose|c: int| #[trigger] held_by(self.ord@, self.low@, self.up@, id, c);
            if c != v {
                assert(held_by(before.ord@, before.low@, before.up@, id, c));
            }
        }
        assert forall|t: int| 0 <= t < vi implies {
            let w = #[trigger] self.g@[id]@[t] as int;
            &&& self.ord@[w] != u32::MAX
            &&& reach_of(self.ord@, self.low@, self.up@, id, w) == reach_of(
                before.ord@,
                before.low@,
                before.up@,
                id,
                w,
            )
        } by {
            let w = self.g@[id]@[t] as int;
            assert(before.ord@[before.g@[id]@[t] as int] != u32::MAX);
            assert(after.ord@[w] == before.ord@[w]);
        }
        assert forall|t: int|
            t < vi + 1 && #[trigger] leads_on(self.g@, self.up@, id, t) implies self.low@[id]
            <= reach_of(self.ord@, self.low@, self.up@, id, self.g@[id]@[t] as int) by {
            let w = self.g@[id]@[t] as int;
            if t < vi {
                assert(leads_on(before.g@, before.up@, id, t));
            }
        }
        if self.low@[id] != self.ord@[id] {
            if after.low@[v] < after.low@[id] {
                assert(leads_on(self.g@, self.up@, id, vi));
                assert(self.low@[id] == reach_of(
                    self.ord@,
                    self.low@,
                    self.up@,
                    id,
                    self.g@[id]@[vi] as int,
                ));
            } else {
                let t = choose|t: int|
                    t < vi && #[trigger] leads_on(before.g@, before.up@, id, t) && before.low@[id]
                        == reach_of(
                        before.ord@,
                        before.low@,
                        before.up@,
                        id,
                        before.g@[id]@[t] as int,
                    );
                assert(leads_on(self.g@, self.up@, id, t));
                let w = self.g@[id]@[t] as int;
            }
        }
        assert forall|t: int| 0 <= t < vi + 1 implies self.ord@[#[trigger] self.g@[id]@[t] as int]
            != u32::MAX by {
        }
    }

    /// The search has gone on from where it reached `id`, where it went on
    /// to the child `v` of `id` and came back.
    proof fn lemma_grown_on(&self, start: &Self, before: &Self, after: &Self, id: int, v: int)
        requires
            0 <= id < start.n,
            0 <= v < start.n,
            v != id,
            before.grown(start, id, false),
            after.grown(before, v, true),
            is_forest(after.g@, after.ord@, after.up@),
            before.ord@[v] == u32::MAX,
            start.ord@.len() == start.n,
            before.ord@.len() == start.n,
            after.ord@.len() == start.n,
            forall|i: int|
                0 <= i < start.n && #[trigger] start.ord@[i] != u32::MAX ==> before.ord@[i]
                    != u32::MAX,
            after.up@[v] == id,
            start.ord@[id] == u32::MAX,
            self.n == after.n,
            self.g@ == after.g@,
            self.ord@ == after.ord@,
            self.up@ == after.up@,
            self.low@.len() == after.low@.len(),
            forall|i: int| 0 <= i < after.n && i != id ==> #[trigger] self.low@[i] == after.low@[i],
            self.done@ == after.done@,
            self.judged@ == after.judged@.insert(v),
        ensures
            self.grown(start, id, false),
    {
        assert forall|i: int| 0 <= i < self.n && start.ord@[i] != u32::MAX implies #[trigger] self.ord@[i]
            == start.ord@[i] && self.low@[i] == start.low@[i] && self.up@[i] == start.up@[i] by {
            assert(before.ord@[i] == start.ord@[i]);
            assert(after.ord@[i] == before.ord@[i]);
        }
        assert forall|i: int| #[trigger] self.fresh(start, i) && i != id implies self.up@[i] >= 0
            && start.ord@[self.up@[i]] == u32::MAX by {
            if before.ord@[i] != u32::MAX {
                assert(before.fresh(start, i));
                assert(after.ord@[i] == before.ord@[i]);
            } else {
                assert(after.fresh(before, i));
                if i != v {
                    let u = after.up@[i];
                    if start.ord@[u] != u32::MAX {
                        assert(before.ord@[u] == start.ord@[u]);
                    }
                }
            }
        }
        assert forall|x: int| #[trigger]
            self.done@.contains(x) <==> start.done@.contains(x) || (self.fresh(start, x) && x
                != id) by {
            if self.done@.contains(x) {
                assert(after.done@.contains(x));
                if !before.done@.contains(x) {
                    assert(after.fresh(before, x));
                } else if !start.done@.contains(x) {
                    assert(before.fresh(start, x));
                    assert(after.ord@[x] == before.ord@[x]);
                }
            }
            if start.done@.contains(x) {
                assert(before.done@.contains(x));
                assert(after.done@.contains(x));
            }
            if self.fresh(start, x) && x != id {
                if before.ord@[x] != u32::MAX {
                    assert(before.fresh(start, x));
                    assert(before.done@.contains(x));
                    assert(after.done@.contains(x));
                } else {
                    assert(after.fresh(before, x));
                    assert(after.done@.contains(x));
                }
            }
        }
        assert forall|x: int| #[trigger] self.judged@.contains(x) implies start.judged@.contains(x)
            || (self.fresh(start, x) && x != id) by {
            if x == v {
                assert(after.fresh(before, v));
            } else {
                assert(after.judged@.contains(x));
                if !before.judged@.contains(x) {
                    assert(after.fresh(before, x));
                } else if !start.judged@.contains(x) {
                    assert(before.fresh(start, x));
                    assert(after.ord@[x] == before.ord@[x]);
                }
            }
        }
        assert forall|x: int| start.judged@.contains(x) implies #[trigger] self.judged@.contains(
            x,
        ) by {
            assert(before.judged@.contains(x));
            assert(after.judged@.contains(x));
        }
    }

    /// Searching goes on where the search leaves the vertex `id`.
    proof fn lemma_leave(
        &self,
        prev: &Self,
        id: int,
        parent: int,
        ch_cnt: int,
        is_aps: bool,
        k: int,
    )
        requires
            prev.searching(k),
            prev.visiting(id, parent, prev.g@[id]@.len() as int, ch_cnt, is_aps),
            0 <= id < prev.n,
            prev.ord@[id] != u32::MAX,
            parent >= -1,
            self.n == prev.n,
            self.g@ == prev.g@,
            self.ord@ == prev.ord@,
            self.up@ == prev.up@,
            self.low@ == prev.low@,
            self.bridges@ == prev.bridges@,
            self.judged@ == prev.judged@,
            self.done@ == prev.done@.insert(id),
            self.aps@ == (if is_aps || (parent < 0 && ch_cnt >= 2) {
                prev.aps@.push(id as usize)
            } else {
                prev.aps@
            }),
        ensures
            self.searching(k),
    {
        let n = self.n as int;
        let pushed = is_aps || (parent < 0 && ch_cnt >= 2);
        assert(!prev.aps@.contains(id as usize)) by {
            if prev.aps@.contains(id as usize) {
                let i = choose|i: int| 0 <= i < prev.aps@.len() && prev.aps@[i] == id as usize;
                assert(prev.done@.contains(prev.aps@[i] as int));
            }
        }
        assert forall|x: usize| x != id as usize implies self.aps@.contains(x) == prev.aps@.contains(
            x,
        ) by {
            if pushed {
                if prev.aps@.contains(x) {
                    let i = choose|i: int| 0 <= i < prev.aps@.len() && prev.aps@[i] == x;
                    assert(self.aps@[i] == x);
                }
                if self.aps@.contains(x) {
                    let i = choose|i: int| 0 <= i < self.aps@.len() && self.aps@[i] == x;
                    assert(prev.aps@[i] == x);
                }
            }
        }
        assert forall|j: int| #[trigger] self.done@.contains(j) implies self.finished(j) by {
            if j != id {
                assert(prev.finished(j));
                assert forall|i: int| 0 <= i < n && prev.ord@[i] == u32::MAX implies #[trigger] self.up@[i]
                    != j by {
                    assert(prev.up@[i] == -1);
                }
                assert(j as usize != id as usize);
                self.lemma_keeps_finished(prev, j);
            } else {
                if pushed {
                    assert(self.aps@[prev.aps@.len() as int] == id as usize);
                } else {
                    assert(self.aps@ == prev.aps@);
                }
                assert(cut(self.ord@, self.low@, self.up@, id) == pushed);
                assert forall|t: int| #[trigger] leads_on(self.g@, self.up@, id, t) implies self.low@[id]
                    <= reach_of(self.ord@, self.low@, self.up@, id, self.g@[id]@[t] as int) by {
                }
                assert(low_exact(self.g@, self.ord@, self.low@, self.up@, id));
            }
        }
        assert forall|c: int| #[trigger] self.judged@.contains(c) implies self.settled(c) by {
            assert(prev.settled(c));
        }
        assert forall|i: int| 0 <= i < self.aps@.len() implies self.done@.contains(
            #[trigger] self.aps@[i] as int,
        ) by {
            if i < prev.aps@.len() {
                assert(prev.done@.contains(prev.aps@[i] as int));
            }
        }
        assert(self.aps@.no_duplicates()) by {
            if pushed {
                assert forall|a: int, b: int|
                    0 <= a < self.aps@.len() && 0 <= b < self.aps@.len() && a != b implies self.aps@[a]
                    != self.aps@[b] by {
                    if a < prev.aps@.len() && b < prev.aps@.len() {
                    } else if a < prev.aps@.len() {
                        assert(prev.aps@.contains(prev.aps@[a]));
                    } else {
                        assert(prev.aps@.contains(prev.aps@[b]));
                    }
                }
            }
        }
        assert forall|i: int| 0 <= i < self.bridges@.len() implies self.from_judged(
            #[trigger] self.bridges@[i],
        ) by {
            assert(prev.from_judged(prev.bridges@[i]));
            let c = choose|c: int| #[trigger]
                prev.judged@.contains(c) && prev.bridges@[i] == pair_of(prev.up@[c], c);
            assert(self.judged@.contains(c));
        }
    }

    /// The search has gone on from where it reached `id`, where since then
    /// only the low number of `id` has changed.
    proof fn lemma_grown_low(&self, start: &Self, prev: &Self, id: int)
        requires
            prev.grown(start, id, false),
            0 <= id < start.n,
            start.ord@[id] == u32::MAX,
            self.n == prev.n,
            self.g@ == prev.g@,
            self.ord@ == prev.ord@,
            self.up@ == prev.up@,
            self.low@.len() == prev.low@.len(),
            forall|i: int| 0 <= i < prev.n && i != id ==> #[trigger] self.low@[i] == prev.low@[i],
            self.done@ == prev.done@,
            self.judged@ == prev.judged@,
        ensures
            self.grown(start, id, false),
    {
        assert forall|i: int| 0 <= i < self.n && start.ord@[i] != u32::MAX implies #[trigger] self.ord@[i]
            == start.ord@[i] && self.low@[i] == start.low@[i] && self.up@[i] == start.up@[i] by {
            assert(prev.ord@[i] == start.ord@[i]);
        }
        assert forall|i: int| #[trigger] self.fresh(start, i) && i != id implies self.up@[i] >= 0
            && start.ord@[self.up@[i]] == u32::MAX by {
            assert(prev.fresh(start, i));
        }
        assert forall|x: int| #[trigger]
            self.done@.contains(x) <==> start.done@.contains(x) || (self.fresh(start, x) && x
                != id) by {
            assert(prev.done@.contains(x) <==> start.done@.contains(x) || (prev.fresh(start, x)
                && x != id));
        }
        assert forall|x: int| #[trigger] self.judged@.contains(x) implies start.judged@.contains(x)
            || (self.fresh(start, x) && x != id) by {
            assert(prev.judged@.contains(x));
            if !start.judged@.contains(x) {
                assert(prev.fresh(start, x));
            }
        }
        assert forall|x: int| start.judged@.contains(x) implies #[trigger] self.judged@.contains(
            x,
        ) by {
            assert(prev.judged@.contains(x));
        }
    }

    /// The search has gone on from where it reached `id` to where it left
    /// `id`.
    proof fn lemma_grown_leave(&self, start: &Self, prev: &Self, id: int)
        requires
            prev.grown(start, id, false),
            0 <= id < start.n,
            start.ord@[id] == u32::MAX,
            self.n == prev.n,
            self.g@ == prev.g@,
            self.ord@ == prev.ord@,
            self.up@ == prev.up@,
            self.low@ == prev.low@,
            self.done@ == prev.done@.insert(id),
            self.judged@ == prev.judged@,
        ensures
            self.grown(start, id, true),
    {
        assert forall|i: int| 0 <= i < self.n && start.ord@[i] != u32::MAX implies #[trigger] self.ord@[i]
            == start.ord@[i] && self.low@[i] == start.low@[i] && self.up@[i] == start.up@[i] by {
            assert(prev.ord@[i] == start.ord@[i]);
        }
        assert forall|i: int| #[trigger] self.fresh(start, i) && i != id implies self.up@[i] >= 0
            && start.ord@[self.up@[i]] == u32::MAX by {
            assert(prev.fresh(start, i));
        }
        assert forall|x: int| #[trigger]
            self.done@.contains(x) <==> start.done@.contains(x) || self.fresh(start, x) by {
            assert(prev.done@.contains(x) <==> start.done@.contains(x) || (prev.fresh(start, x)
                && x != id));
            if x == id {
                assert(self.fresh(start, id));
            }
        }
        assert forall|x: int| #[trigger] self.judged@.contains(x) implies start.judged@.contains(x)
            || (self.fresh(start, x) && x != id) by {
            assert(prev.judged@.contains(x));
            if !start.judged@.contains(x) {
                assert(prev.fresh(start, x));
            }
        }
        assert forall|x: int| start.judged@.contains(x) implies #[trigger] self.judged@.contains(
            x,
        ) by {
            assert(prev.judged@.contains(x));
        }
    }

    /// Searches from the vertex `id`, which has no number yet, where `k`
    /// vertices are reached and the search came from `p`. Returns the number
    /// of vertices that are reached then.
    fn dfs(&mut self, id: usize, k: u32, p: usize) -> (res: u32)
        requires
            old(self).searching(k as int),
            id < old(self).n,
            old(self).ord@[id as int] == u32::MAX,
            p != usize::MAX ==> p < old(self).n && old(self).ord@[p as int] != u32::MAX && !old(
                self,
            ).done@.contains(p as int) && has_edge(old(self).g@, p as int, id as int),
        ensures
            final(self).searching(res as int),
            res > k,
            final(self).grown(old(self), id as int, true),
            final(self).up@[id as int] == parent_of(p),
        decreases old(self).n - k,
    {
        let ghost parent = parent_of(p);
        let ghost start = *self;
        let mut cur = k;
        proof {
            lemma_reach_one(self.ord@, id as int, 1u32, self.n as int);
            lemma_reach_one(self.ord@, id as int, (cur + 1) as u32, self.n as int);
        }
        cur += 1;
        self.ord[id] = cur;
        self.low[id] = cur;
        self.up = Ghost(self.up@.update(id as int, parent));
        proof {
            assert(numbered(self.ord@, cur as int));
            self.lemma_enter(&start, id as int, k as int, parent);
        }
        let mut is_aps = false;
        let mut ch_cnt: usize = 0;
        let mut vi: usize = 0;
        while vi < self.g[id].len()
            invariant
                self.searching(cur as int),
                self.grown(&start, id as int, false),
                self.visiting(id as int, parent, vi as int, ch_cnt as int, is_aps),
                start.n == self.n,
                self.n == old(self).n,
                start.ord@.len() == self.n,
                start.ord@[id as int] == u32::MAX,
                parent == parent_of(p),
                p != usize::MAX ==> p < self.n,
                id < self.n,
                cur > k,
                vi <= self.g@[id as int]@.len(),
                ch_cnt <= vi,
            decreases self.g@[id as int]@.len() - vi,
        {
            let v = self.g[id][vi];
            let ghost at = vi as int;
            let ghost was_aps = is_aps;
            proof {
                assert(self.g@[id as int]@[at] == v);
                assert(self.ord@[id as int] != u32::MAX);
            }
            vi += 1;
            if v == p {
                proof {
                    assert(!leads_on(self.g@, self.up@, id as int, at));
                    assert(self.up@[id as int] >= 0);
                    assert(self.ord@[self.up@[id as int]] < self.ord@[id as int]);
                    assert forall|t: int| 0 <= t < vi implies self.ord@[#[trigger] self.g@[id as int]@[t] as int]
                        != u32::MAX by {
                    }
                }
                continue ;
            }
            if self.ord[v] == u32::MAX {
                ch_cnt += 1;
                let ghost before = *self;
                let ghost k1 = cur as int;
                proof {
                    lemma_reach_one(self.ord@, v as int, 1u32, self.n as int);
                    assert(has_edge(self.g@, id as int, v as int));
                }
                cur = self.dfs(v, cur, id);
                let ghost after = *self;
                proof {
                    assert(after.ord@[id as int] == before.ord@[id as int]);
                    assert(after.low@[id as int] == before.low@[id as int]);
                    assert(after.fresh(&before, v as int));
                    assert(1 <= after.low@[v as int] <= after.ord@[v as int]);
                }
                let lv = self.low[v];
                if lv < self.low[id] {
                    self.low[id] = lv;
                }
                if p != usize::MAX && self.ord[id] <= self.low[v] {
                    is_aps = true;
                }
                if self.ord[id] < self.low[v] {
                    let pair = if id < v {
                        (id, v)
                    } else {
                        (v, id)
                    };
                    self.bridges.push(pair);
                }
                self.judged = Ghost(self.judged@.insert(v as int));
                proof {
                    assert(self.low@ =~= after.low@.update(
                        id as int,
                        if after.low@[v as int] < after.low@[id as int] {
                            after.low@[v as int]
                        } else {
                            after.low@[id as int]
                        },
                    ));
                    self.lemma_child_done(
                        &before,
                        &after,
                        id as int,
                        parent,
                        at,
                        ch_cnt - 1,
                        was_aps,
                        k1,
                        cur as int,
                        v as int,
                    );
                    assert forall|i: int|
                        0 <= i < start.n && #[trigger] start.ord@[i] != u32::MAX implies before.ord@[i]
                        != u32::MAX by {
                        assert(before.ord@[i] == start.ord@[i]);
                    }
                    self.lemma_grown_on(&start, &before, &after, id as int, v as int);
                }
            } else {
                let ghost prev = *self;
                let ov = self.ord[v];
                if ov < self.low[id] {
                    self.low[id] = ov;
                }
                proof {
                    assert(1 <= prev.ord@[v as int]);
                    assert(self.low@ =~= prev.low@.update(
                        id as int,
                        if prev.ord@[v as int] < prev.low@[id as int] {
                            prev.ord@[v as int]
                        } else {
                            prev.low@[id as int]
                        },
                    ));
                    self.lemma_back_edge(
                        &prev,
                        id as int,
                        parent,
                        at,
                        ch_cnt as int,
                        is_aps,
                        cur as int,
                        v as int,
                    );
                    self.lemma_grown_low(&start, &prev, id as int);
                }
            }
        }
        let ghost loop_aps = is_aps;
        if p == usize::MAX && ch_cnt >= 2 {
            is_aps = true;
        }
        let ghost prev = *self;
        if is_aps {
            self.aps.push(id);
        }
        self.done = Ghost(self.done@.insert(id as int));
        proof {
            self.lemma_leave(&prev, id as int, parent, ch_cnt as int, loop_aps, cur as int);
            self.lemma_grown_leave(&start, &prev, id as int);
        }
        cur
    }

    /// Runs the search over the whole graph. Afterwards every vertex has its
    /// number, from 1 on in the order of the search, and its low number; the
    /// articulation points and the bridges stand in ascending order, and
    /// they are what the forest of the search makes them.
    pub fn run(&mut self)
        requires
            old(self).wf(),
        ensures
            final(self).wf(),
            final(self).size() == old(self).size(),
            final(self).edges() == old(self).edges(),
            final(self).order().len() == final(self).size(),
            numbered(final(self).order(), final(self).size() as int),
            forall|i: int| 0 <= i < final(self).size() ==> #[trigger] final(self).order()[i] != u32::MAX,
            lows_below(final(self).order(), final(self).lowest()),
            all_below(final(self).points(), final(self).size() as int),
            ascending(final(self).points()),
            pairs_are_edges(final(self).edges(), final(self).crossings()),
            ascending(final(self).crossings()),
            recorded(
                final(self).edges(),
                final(self).order(),
                final(self).lowest(),
                final(self).parents(),
                final(self).points(),
                final(self).crossings(),
            ),
    {
        self.aps = vec![];
        self.bridges = vec![];
        let mut ord: Vec<u32> = Vec::new();
        let mut low: Vec<u32> = Vec::new();
        let mut z: usize = 0;
        while z < self.n
            invariant
                z <= self.n,
                ord@.len() == z,
                low@.len() == z,
                forall|i: int| 0 <= i < z ==> ord@[i] == u32::MAX,
            decreases self.n - z,
        {
            ord.push(u32::MAX);
            low.push(u32::MAX);
            z += 1;
        }
        self.ord = ord;
        self.low = low;
        self.up = Ghost(Seq::new(self.n as nat, |i: int| -1int));
        self.done = Ghost(Set::empty());
        self.judged = Ghost(Set::empty());
        proof {
            lemma_reach_bounds(self.ord@, self.n as int);
        }
        let mut k: u32 = 0;
        let mut i: usize = 0;
        while i < self.n
            invariant
                self.searching(k as int),
                self.n == old(self).n,
                self.g@ == old(self).g@,
                i <= self.n,
                forall|j: int| 0 <= j < i ==> #[trigger] self.ord@[j] != u32::MAX,
                forall|j: int|
                    0 <= j < self.n && #[trigger] self.ord@[j] != u32::MAX ==> self.done@.contains(j),
            decreases self.n - i,
        {
            if self.ord[i] == u32::MAX {
                let ghost before = *self;
                k = self.dfs(i, k, usize::MAX);
                proof {
                    assert forall|j: int| 0 <= j < i + 1 implies #[trigger] self.ord@[j]
                        != u32::MAX by {
                        if j < i {
                            assert(before.ord@[j] != u32::MAX);
                        }
                    }
                    assert forall|j: int|
                        0 <= j < self.n && #[trigger] self.ord@[j] != u32::MAX implies self.done@.contains(
                        j,
                    ) by {
                        if before.ord@[j] != u32::MAX {
                            assert(before.done@.contains(j));
                        } else {
                            assert(self.fresh(&before, j));
                        }
                    }
                }
            }
            i += 1;
        }
        proof {
            lemma_integers_ordered();
            lemma_pairs_ordered::<usize>();
            lemma_reach_all(self.ord@, self.n as int);
        }
        let ghost searched = *self;
        sort(&mut self.aps);
        sort(&mut self.bridges);
        proof {
            lemma_sorted_same(searched.aps@, self.aps@);
            lemma_sorted_same(searched.bridges@, self.bridges@);
            let n = self.n as int;
            assert forall|j: int| 0 <= j < n implies searched.finished(j) by {
                assert(searched.ord@[j] != u32::MAX);
                assert(searched.done@.contains(j));
            }
            assert forall|c: int| #[trigger] has_parent(self.up@, c) implies searched.settled(c) by {
                let j = self.up@[c];
                assert(searched.finished(j));
                assert(searched.judged@.contains(c));
            }
            assert forall|j: int| 0 <= j < self.aps@.len() implies #[trigger] self.aps@[j]
                < self.n by {
                assert(self.aps@.contains(self.aps@[j]));
                assert(searched.aps@.contains(self.aps@[j]));
                let from = choose|from: int|
                    0 <= from < searched.aps@.len() && searched.aps@[from] == self.aps@[j];
                assert(searched.done@.contains(searched.aps@[from] as int));
                assert(searched.finished(searched.aps@[from] as int));
            }
            assert forall|i: int| 0 <= i < self.bridges@.len() implies is_tree_pair(
                self.up@,
                #[trigger] self.bridges@[i],
            ) by {
                let e = self.bridges@[i];
                assert(self.bridges@.contains(e));
                assert(searched.bridges@.contains(e));
                let from = choose|from: int|
                    0 <= from < searched.bridges@.len() && searched.bridges@[from] == e;
                assert(searched.from_judged(searched.bridges@[from]));
                let c = choose|c: int| #[trigger]
                    searched.judged@.contains(c) && e == pair_of(searched.up@[c], c);
                assert(searched.settled(c));
                assert(has_parent(self.up@, c));
            }
            assert forall|j: int| 0 <= j < self.bridges@.len() implies {
                let e = #[trigger] self.bridges@[j];
                e.0 < e.1 < self.g@.len() && (has_edge(self.g@, e.0 as int, e.1 as int) || has_edge(
                    self.g@,
                    e.1 as int,
                    e.0 as int,
                ))
            } by {
                let e = self.bridges@[j];
                assert(is_tree_pair(self.up@, e));
                let c = choose|c: int| #[trigger] has_parent(self.up@, c) && e == pair_of(self.up@[c], c);
                assert(self.up@[c] >= 0);
                assert(self.ord@[self.up@[c]] < self.ord@[c]);
            }
            assert forall|j: int| 0 <= j < n implies (self.aps@.contains(j as usize) <==> #[trigger] cut(
                self.ord@,
                self.low@,
                self.up@,
                j,
            )) by {
                assert(searched.finished(j));
            }
            assert forall|j: int| 0 <= j < n implies #[trigger] low_exact(
                self.g@,
                self.ord@,
                self.low@,
                self.up@,
                j,
            ) by {
                assert(searched.finished(j));
            }
            assert forall|c: int| #[trigger] has_parent(self.up@, c) implies (self.bridges@.contains(
                pair_of(self.up@[c], c),
            ) <==> crosses(self.ord@, self.low@, self.up@, c)) by {
                assert(searched.settled(c));
            }
        }
    }
}

/// Where every vertex is reached, the count is the number of vertices.
proof fn lemma_reach_all(ord: Seq<u32>, n: int)
    requires
        0 <= n <= ord.len(),
        forall|i: int| 0 <= i < n ==> #[trigger] ord[i] != u32::MAX,
    ensures
        reached_count(ord, n) == n,
    decreases n,
{
    if n > 0 {
        lemma_reach_all(ord, n - 1);
    }
}

} // verus!
