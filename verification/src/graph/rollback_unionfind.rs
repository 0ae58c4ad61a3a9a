//! A union-find structure whose unions can be undone.
//!
//! Every element has a leader, the root of its tree; a union hangs the
//! smaller of two trees below the root of the larger one and records what it
//! overwrote, so that the unions can be taken back in reverse order.

use vstd::prelude::*;

verus! {

/// A forest as the structure holds it: for each element the index of its
/// parent, or the negated size of its tree where it is a root; and the
/// number of steps from each element to its root.
pub struct Forest {
    pub data: Seq<i32>,
    pub dist: Seq<nat>,
}

pub struct RollbackUnionFind {
    data: Vec<i32>,
    history: Vec<(usize, i32)>,
    inner_snap: usize,
    dist: Ghost<Seq<nat>>,
    past: Ghost<Seq<Forest>>,
}

/// The parents lead to the roots in the recorded numbers of steps.
pub open spec fn is_forest(f: Forest) -> bool {
    &&& f.dist.len() == f.data.len()
    &&& forall|k: int|
        0 <= k < f.data.len() ==> if #[trigger] f.data[k] < 0 {
            f.dist[k] == 0
        } else {
            f.data[k] < f.data.len() && f.dist[k] == f.dist[f.data[k] as int] + 1
        }
}

/// The root of the tree of `k`.
pub open spec fn root(f: Forest, k: int) -> int
    decreases f.dist[k],
{
    if 0 <= k < f.data.len() && 0 <= f.data[k] < f.data.len() && f.dist[f.data[k] as int] < f.dist[k] {
        root(f, f.data[k] as int)
    } else {
        k
    }
}

/// The leader of each element.
pub open spec fn leaders_of(f: Forest) -> Seq<int> {
    Seq::new(f.data.len(), |k: int| root(f, k))
}

/// The number of elements among the first `n` whose leader is `l`.
pub open spec fn count_led(leaders: Seq<int>, l: int, n: int) -> int
    decreases n,
{
    if n <= 0 {
        0
    } else {
        count_led(leaders, l, n - 1) + if leaders[n - 1] == l {
            1int
        } else {
            0int
        }
    }
}

/// Every root holds the negated number of the elements that it leads.
pub open spec fn sizes_hold(f: Forest) -> bool {
    forall|r: int|
        0 <= r < f.data.len() && #[trigger] f.data[r] < 0 ==> -f.data[r] == count_led(
            leaders_of(f),
            r,
            f.data.len() as int,
        )
}

/// The leaders after the trees led by `a` and `b` have been united under
/// `a`.
pub open spec fn united(leaders: Seq<int>, a: int, b: int) -> Seq<int> {
    Seq::new(
        leaders.len(),
        |k: int|
            if leaders[k] == b {
                a
            } else {
                leaders[k]
            },
    )
}

/// The root of an element is a root, and is an element.
proof fn lemma_root(f: Forest, k: int)
    requires
        is_forest(f),
        0 <= k < f.data.len(),
    ensures
        0 <= root(f, k) < f.data.len(),
        f.data[root(f, k)] < 0,
        f.data[k] < 0 ==> root(f, k) == k,
        f.data[k] >= 0 ==> root(f, k) == root(f, f.data[k] as int),
    decreases f.dist[k],
{
    if f.data[k] >= 0 {
        lemma_root(f, f.data[k] as int);
    }
}

/// The number of elements with a given leader is between 0 and the number of
/// elements looked at.
proof fn lemma_count_bounds(leaders: Seq<int>, l: int, n: int)
    requires
        0 <= n,
    ensures
        0 <= count_led(leaders, l, n) <= n,
    decreases n,
{
    if n > 0 {
        lemma_count_bounds(leaders, l, n - 1);
    }
}

/// An element among those looked at is counted with its leader.
proof fn lemma_count_positive(leaders: Seq<int>, k: int, n: int)
    requires
        0 <= k < n,
    ensures
        count_led(leaders, leaders[k], n) >= 1,
    decreases n,
{
    lemma_count_bounds(leaders, leaders[k], n - 1);
    if k < n - 1 {
        lemma_count_positive(leaders, k, n - 1);
    }
}

/// Counting depends on the leaders looked at only.
proof fn lemma_count_same(a: Seq<int>, b: Seq<int>, l: int, n: int)
    requires
        forall|k: int| 0 <= k < n ==> a[k] == b[k],
    ensures
        count_led(a, l, n) == count_led(b, l, n),
    decreases n,
{
    if n > 0 {
        lemma_count_same(a, b, l, n - 1);
    }
}

/// After a union under `a`, `a` leads what `a` and `b` led, `b` leads
/// nothing, and every other leader leads what it led.
proof fn lemma_count_united(leaders: Seq<int>, a: int, b: int, l: int, n: int)
    requires
        a != b,
        0 <= n <= leaders.len(),
    ensures
        count_led(united(leaders, a, b), l, n) == (if l == a {
            count_led(leaders, a, n) + count_led(leaders, b, n)
        } else if l == b {
            0
        } else {
            count_led(leaders, l, n)
        }),
    decreases n,
{
    if n > 0 {
        lemma_count_united(leaders, a, b, l, n - 1);
    }
}

/// The forest `f` with the tree of the root `b` hung below the root `a`.
pub open spec fn hung(f: Forest, a: int, b: int) -> Forest {
    Forest {
        data: f.data.update(a, (f.data[a] + f.data[b]) as i32).update(b, a as i32),
        dist: Seq::new(
            f.dist.len(),
            |k: int|
                if root(f, k) == b {
                    f.dist[k] + 1
                } else {
                    f.dist[k]
                },
        ),
    }
}

/// Hanging one tree below another root gives a forest in which the elements
/// of the hung tree have the new root as their leader.
proof fn lemma_hung(f: Forest, a: int, b: int)
    requires
        is_forest(f),
        sizes_hold(f),
        0 <= a < f.data.len(),
        0 <= b < f.data.len(),
        a != b,
        f.data[a] < 0,
        f.data[b] < 0,
        f.data.len() <= i32::MAX,
    ensures
        i32::MIN <= f.data[a] + f.data[b] < 0,
        is_forest(hung(f, a, b)),
        leaders_of(hung(f, a, b)) == united(leaders_of(f), a, b),
        sizes_hold(hung(f, a, b)),
{
    let n = f.data.len() as int;
    let g = hung(f, a, b);
    let old_leaders = leaders_of(f);
    lemma_count_united(old_leaders, a, b, a, n);
    lemma_count_bounds(united(old_leaders, a, b), a, n);
    assert(f.data[a] + f.data[b] >= -n);
    lemma_root(f, a);
    lemma_root(f, b);
    lemma_count_positive(old_leaders, a, n);
    lemma_count_positive(old_leaders, b, n);
    assert forall|k: int| 0 <= k < n implies if #[trigger] g.data[k] < 0 {
        g.dist[k] == 0
    } else {
        g.data[k] < n && g.dist[k] == g.dist[g.data[k] as int] + 1
    } by {
        lemma_root(f, k);
        if k == b {
        } else if k == a {
        } else if f.data[k] >= 0 {
            lemma_root(f, f.data[k] as int);
        }
    }
    assert forall|k: int| 0 <= k < n implies root(g, k) == united(old_leaders, a, b)[k] by {
        lemma_hung_root(f, a, b, k);
    }
    assert(leaders_of(g) =~= united(old_leaders, a, b));
    assert forall|r: int| 0 <= r < n && #[trigger] g.data[r] < 0 implies -g.data[r] == count_led(
        leaders_of(g),
        r,
        n,
    ) by {
        lemma_count_united(old_leaders, a, b, r, n);
    }
}

/// The root of `k` after hanging the tree of `b` below `a`.
proof fn lemma_hung_root(f: Forest, a: int, b: int, k: int)
    requires
        is_forest(f),
        0 <= a < f.data.len(),
        0 <= b < f.data.len(),
        a != b,
        f.data[a] < 0,
        f.data[b] < 0,
        f.data.len() <= i32::MAX,
        i32::MIN <= f.data[a] + f.data[b],
        0 <= k < f.data.len(),
    ensures
        root(hung(f, a, b), k) == (if root(f, k) == b {
            a
        } else {
            root(f, k)
        }),
    decreases f.dist[k],
{
    let g = hung(f, a, b);
    lemma_root(f, k);
    lemma_root(f, a);
    lemma_root(f, b);
    if k == b {
        assert(g.data[b] == a);
        assert(g.dist[a as int] == 0);
        assert(g.dist[b as int] == 1);
        assert(root(g, a) == a);
    } else if f.data[k] < 0 {
        assert(g.data[k] < 0);
    } else {
        let p = f.data[k] as int;
        lemma_root(f, p);
        lemma_hung_root(f, a, b, p);
        assert(g.data[k] == f.data[k]);
    }
}

/// Where every element leads itself, every element leads one element.
proof fn lemma_count_singletons(leaders: Seq<int>, l: int, n: int)
    requires
        0 <= n <= leaders.len(),
        forall|k: int| 0 <= k < leaders.len() ==> leaders[k] == k,
    ensures
        count_led(leaders, l, n) == (if 0 <= l < n {
            1int
        } else {
            0int
        }),
    decreases n,
{
    if n > 0 {
        lemma_count_singletons(leaders, l, n - 1);
    }
}

impl RollbackUnionFind {
    /// The forest that the structure holds now.
    pub closed spec fn forest(&self) -> Forest {
        Forest { data: self.data@, dist: self.dist@ }
    }

    /// The number of elements.
    pub open spec fn len(&self) -> nat {
        self.forest().data.len()
    }

    /// The number of unions that are recorded and can be undone.
    pub closed spec fn state(&self) -> nat {
        self.past@.len()
    }

    /// The state that `snapshot` has saved.
    pub closed spec fn snap(&self) -> nat {
        self.inner_snap as nat
    }

    /// The leader of each element.
    pub open spec fn leaders(&self) -> Seq<int> {
        leaders_of(self.forest())
    }

    /// The leader of each element as it was when `j` unions were recorded.
    pub closed spec fn leaders_at(&self, j: int) -> Seq<int> {
        if 0 <= j < self.past@.len() {
            leaders_of(self.past@[j])
        } else {
            leaders_of(self.forest())
        }
    }

    /// The forest after the union number `j`.
    spec fn later(&self, j: int) -> Forest {
        if j + 1 < self.past@.len() {
            self.past@[j + 1]
        } else {
            self.forest()
        }
    }

    /// The two entries that union number `j` recorded give back the forest
    /// before it from the forest after it.
    spec fn step_ok(&self, j: int) -> bool {
        let before = self.past@[j];
        let after = self.later(j);
        let first = self.history@[2 * j];
        let second = self.history@[2 * j + 1];
        &&& is_forest(before)
        &&& sizes_hold(before)
        &&& before.data.len() == self.data@.len()
        &&& first.0 < self.data@.len()
        &&& second.0 < self.data@.len()
        &&& before.data == after.data.update(second.0 as int, second.1).update(
            first.0 as int,
            first.1,
        )
    }

    /// The structure holds a forest with the sizes of its trees, and a
    /// record from which every union can be undone.
    pub closed spec fn wf(&self) -> bool {
        &&& is_forest(self.forest())
        &&& sizes_hold(self.forest())
        &&& self.data@.len() <= i32::MAX
        &&& self.history@.len() == 2 * self.past@.len()
        &&& forall|j: int| 0 <= j < self.past@.len() ==> #[trigger] self.step_ok(j)
    }

    /// The leaders now are the leaders at the present state, and every
    /// leader is an element that leads itself.
    pub proof fn lemma_leaders(&self)
        requires
            self.wf(),
        ensures
            self.leaders_at(self.state() as int) == self.leaders(),
            self.leaders().len() == self.len(),
            forall|k: int|
                0 <= k < self.len() ==> 0 <= #[trigger] self.leaders()[k] < self.len()
                    && self.leaders()[self.leaders()[k]] == self.leaders()[k],
    {
        assert forall|k: int| 0 <= k < self.len() implies 0 <= #[trigger] self.leaders()[k]
            < self.len() && self.leaders()[self.leaders()[k]] == self.leaders()[k] by {
            lemma_root(self.forest(), k);
            lemma_root(self.forest(), root(self.forest(), k));
        }
    }

    /// A structure of `sz` elements, each in a tree of its own.
    pub fn new(sz: usize) -> (uf: Self)
        requires
            sz <= i32::MAX,
        ensures
            uf.wf(),
            uf.len() == sz,
            uf.state() == 0,
            uf.snap() == 0,
            forall|k: int| 0 <= k < sz ==> #[trigger] uf.leaders()[k] == k,
    {
        let mut data: Vec<i32> = Vec::new();
        let mut i: usize = 0;
        while i < sz
            invariant
                i <= sz,
                data@.len() == i,
                forall|k: int| 0 <= k < i ==> data@[k] == -1,
            decreases sz - i,
        {
            data.push(-1);
            i += 1;
        }
        let uf = Self {
            data,
            history: vec![],
            inner_snap: 0,
            dist: Ghost(Seq::new(sz as nat, |k: int| 0nat)),
            past: Ghost(Seq::empty()),
        };
        proof {
            let f = uf.forest();
            assert forall|r: int| 0 <= r < sz && #[trigger] f.data[r] < 0 implies -f.data[r]
                == count_led(leaders_of(f), r, sz as int) by {
                lemma_count_singletons(leaders_of(f), r, sz as int);
            }
        }
        uf
    }

    /// Unites the trees of `x` and `y`: the root of the smaller tree, or of
    /// the tree of `y` where both are as large, goes below the other root.
    /// Returns whether they were two trees. The union is recorded in either
    /// case.
    pub fn unite(&mut self, x: usize, y: usize) -> (merged: bool)
        requires
            old(self).wf(),
            x < old(self).len(),
            y < old(self).len(),
        ensures
            final(self).wf(),
            final(self).len() == old(self).len(),
            final(self).snap() == old(self).snap(),
            final(self).state() == old(self).state() + 1,
            forall|j: int|
                0 <= j <= old(self).state() ==> #[trigger] final(self).leaders_at(j) == old(
                    self,
                ).leaders_at(j),
            merged == (old(self).leaders()[x as int] != old(self).leaders()[y as int]),
            final(self).leaders() == (if !merged {
                old(self).leaders()
            } else {
                let a = old(self).leaders()[x as int];
                let b = old(self).leaders()[y as int];
                let n = old(self).len() as int;
                if count_led(old(self).leaders(), a, n) >= count_led(old(self).leaders(), b, n) {
                    united(old(self).leaders(), a, b)
                } else {
                    united(old(self).leaders(), b, a)
                }
            }),
    {
        let ghost before = self.forest();
        let mut x = self.find(x);
        let mut y = self.find(y);
        self.history.push((x, self.data[x]));
        self.history.push((y, self.data[y]));
        proof {
            self.past@ = self.past@.push(before);
            assert(before.data.update(y as int, before.data[y as int]).update(
                x as int,
                before.data[x as int],
            ) =~= before.data);
        }
        if x == y {
            proof {
                assert forall|j: int| 0 <= j < self.past@.len() implies #[trigger] self.step_ok(
                    j,
                ) by {
                    if j + 1 < self.past@.len() {
                        assert(old(self).step_ok(j));
                    }
                }
            }
            return false;
        }
        let ghost first = x;
        let ghost second = y;
        if self.data[x] > self.data[y] {
            core::mem::swap(&mut x, &mut y);
        }
        proof {
            lemma_hung(before, x as int, y as int);
        }
        let sum = self.data[x] + self.data[y];
        self.data[x] = sum;
        self.data[y] = x as i32;
        proof {
            self.dist@ = hung(before, x as int, y as int).dist;
            assert(self.forest().data =~= hung(before, x as int, y as int).data);
            assert(self.forest() == hung(before, x as int, y as int));
            assert(before.data =~= self.forest().data.update(second as int, before.data[second as int]).update(
                first as int,
                before.data[first as int],
            ));
            assert forall|j: int| 0 <= j < self.past@.len() implies #[trigger] self.step_ok(j) by {
                if j + 1 < self.past@.len() {
                    assert(old(self).step_ok(j));
                }
            }
        }
        true
    }

    /// The leader of `k`: the root of its tree.
    pub fn find(&self, k: usize) -> (r: usize)
        requires
            self.wf(),
            k < self.len(),
        ensures
            r == self.leaders()[k as int],
            r < self.len(),
            self.forest().data[r as int] < 0,
        decreases self.forest().dist[k as int],
    {
        proof {
            lemma_root(self.forest(), k as int);
        }
        if self.data[k] < 0 {
            return k;
        }
        return self.find(self.data[k] as usize);
    }

    /// Whether `x` and `y` are in one tree.
    pub fn same(&self, x: usize, y: usize) -> (r: bool)
        requires
            self.wf(),
            x < self.len(),
            y < self.len(),
        ensures
            r == (self.leaders()[x as int] == self.leaders()[y as int]),
    {
        self.find(x) == self.find(y)
    }

    /// The number of elements in the tree of `x`.
    pub fn size(&self, x: usize) -> (r: usize)
        requires
            self.wf(),
            x < self.len(),
        ensures
            r == count_led(self.leaders(), self.leaders()[x as int], self.len() as int),
            r >= 1,
    {
        let l = self.find(x);
        proof {
            lemma_count_positive(self.leaders(), x as int, self.len() as int);
            lemma_count_bounds(self.leaders(), l as int, self.len() as int);
        }
        (-self.data[l]) as usize
    }

    /// Takes back the union that was recorded last.
    pub fn undo(&mut self)
        requires
            old(self).wf(),
            old(self).state() >= 1,
        ensures
            final(self).wf(),
            final(self).len() == old(self).len(),
            final(self).snap() == old(self).snap(),
            final(self).state() == old(self).state() - 1,
            final(self).leaders() == old(self).leaders_at(old(self).state() - 1),
            forall|j: int|
                0 <= j <= final(self).state() ==> #[trigger] final(self).leaders_at(j) == old(
                    self,
                ).leaders_at(j),
    {
        let ghost last = self.past@.len() - 1;
        proof {
            assert(self.step_ok(last));
        }
        let a = self.history.pop().unwrap();
        let b = self.history.pop().unwrap();
        self.data[a.0] = a.1;
        self.data[b.0] = b.1;
        proof {
            self.dist@ = old(self).past@[last].dist;
            self.past@ = old(self).past@.drop_last();
            assert(self.forest().data =~= old(self).past@[last].data);
            assert(self.forest() == old(self).past@[last]);
            assert forall|j: int| 0 <= j < self.past@.len() implies #[trigger] self.step_ok(j) by {
                assert(old(self).step_ok(j));
            }
        }
    }

    /// Saves the present state for `rollback(None)`.
    pub fn snapshot(&mut self)
        requires
            old(self).wf(),
        ensures
            final(self).wf(),
            final(self).len() == old(self).len(),
            final(self).state() == old(self).state(),
            final(self).snap() == old(self).state(),
            final(self).leaders() == old(self).leaders(),
            forall|j: int| #[trigger] final(self).leaders_at(j) == old(self).leaders_at(j),
    {
        proof {
            crate::segment_tree2d::layout::lemma_low_bit(self.history.len());
        }
        self.inner_snap = self.history.len() >> 1;
        proof {
            assert forall|j: int| 0 <= j < self.past@.len() implies #[trigger] self.step_ok(j) by {
                assert(old(self).step_ok(j));
            }
        }
    }

    /// The number of unions that are recorded: the state that
    /// `rollback(Some(..))` can come back to.
    pub fn get_state(&self) -> (s: usize)
        requires
            self.wf(),
        ensures
            s == self.state(),
    {
        proof {
            crate::segment_tree2d::layout::lemma_low_bit(self.history.len());
        }
        self.history.len() >> 1
    }

    /// Takes back unions until `state` of them are left, or as many as there
    /// were at the last `snapshot` where `state` is `None`.
    pub fn rollback(&mut self, state: Option<usize>)
        requires
            old(self).wf(),
            match state {
                Some(s) => s <= old(self).state(),
                None => old(self).snap() <= old(self).state(),
            },
        ensures
            final(self).wf(),
            final(self).len() == old(self).len(),
            final(self).snap() == old(self).snap(),
            final(self).state() == (match state {
                Some(s) => s as nat,
                None => old(self).snap(),
            }),
            final(self).leaders() == old(self).leaders_at(final(self).state() as int),
            forall|j: int|
                0 <= j <= final(self).state() ==> #[trigger] final(self).leaders_at(j) == old(
                    self,
                ).leaders_at(j),
    {
        let target = state.unwrap_or(self.inner_snap);
        let recorded = self.history.len();
        proof {
            assert(2 * target <= recorded);
            crate::segment_tree2d::layout::lemma_shift_doubles(target);
        }
        let state = target << 1usize;
        while state < self.history.len()
            invariant
                self.wf(),
                state == 2 * target,
                target <= self.state() <= old(self).state(),
                self.len() == old(self).len(),
                self.snap() == old(self).snap(),
                self.leaders() == old(self).leaders_at(self.state() as int),
                forall|j: int|
                    0 <= j <= self.state() ==> #[trigger] self.leaders_at(j) == old(self).leaders_at(
                        j,
                    ),
            decreases self.state(),
        {
            self.undo();
        }
    }

    /// The same as `unite`.
    pub fn merge(&mut self, x: usize, y: usize) -> (merged: bool)
        requires
            old(self).wf(),
            x < old(self).len(),
            y < old(self).len(),
        ensures
            final(self).wf(),
            final(self).len() == old(self).len(),
            final(self).snap() == old(self).snap(),
            final(self).state() == old(self).state() + 1,
            forall|j: int|
                0 <= j <= old(self).state() ==> #[trigger] final(self).leaders_at(j) == old(
                    self,
                ).leaders_at(j),
            merged == (old(self).leaders()[x as int] != old(self).leaders()[y as int]),
            final(self).leaders() == (if !merged {
                old(self).leaders()
            } else {
                let a = old(self).leaders()[x as int];
                let b = old(self).leaders()[y as int];
                let n = old(self).len() as int;
                if count_led(old(self).leaders(), a, n) >= count_led(old(self).leaders(), b, n) {
                    united(old(self).leaders(), a, b)
                } else {
                    united(old(self).leaders(), b, a)
                }
            }),
    {
        self.unite(x, y)
    }

    /// The same as `find`.
    pub fn leader(&mut self, x: usize) -> (r: usize)
        requires
            old(self).wf(),
            x < old(self).len(),
        ensures
            *final(self) == *old(self),
            r == old(self).leaders()[x as int],
            r < old(self).len(),
    {
        self.find(x)
    }
}

} // verus!
