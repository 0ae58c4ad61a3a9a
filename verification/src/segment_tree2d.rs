//! A two-dimensional segment tree over a caller-supplied combining operation.
//!
//! The tree covers a grid of `height() * width()` cells, both sizes powers of
//! two. Cells are written with [`SegmentTree2D::set`], aggregated once with
//! [`SegmentTree2D::build`], changed afterwards with
//! [`SegmentTree2D::update`], and rectangles of cells are combined with
//! [`SegmentTree2D::query`].
//!
//! All nodes live in one buffer. Tree row `i` and tree column `j` both count
//! from the root, node 1: rows `height()..2 * height()` hold the grid's rows,
//! columns `width()..2 * width()` its columns, and a node with a smaller row or
//! column index holds the combination of its two children in that dimension.
//!
//! The combiner is executable code. Contracts speak of it through any
//! mathematical operation `g` that it computes: a caller who knows such a `g`
//! learns what the tree holds and what a query returns in terms of `g`. The
//! fold order of `query` is not the order of the cells, so its result is
//! stated for operations that are commutative as well as associative.

pub mod fold;
pub mod layout;

use vstd::prelude::*;
use crate::operation::{accepts_all, computes};
use crate::segment_tree2d::fold::{
    fold_range, is_commutative_monoid, lemma_fold_pairs,
    lemma_fold_pointwise, lemma_fold_shift, lemma_take_first, lemma_take_last, neutral_at,
    region_total, row_totals, row_values,
};
use crate::segment_tree2d::layout::{
    doubled_up_to, is_pow2, lemma_doubled_grows, lemma_low_bit, lemma_on_path_below,
    lemma_on_path_bounds, lemma_on_path_parent, lemma_on_path_step, lemma_padded_is_least,
    lemma_shift_doubles,
    lemma_sizes_fit, lemma_slot_in_buffer, lemma_slot_injective, on_path, padded, slot,
};

verus! {

pub struct SegmentTree2D<T, F> {
    height: usize,
    width: usize,
    seg: Vec<T>,
    unit: T,
    f: F,
}

/// The grid `g` with `x` written to row `h`, column `w`.
pub open spec fn grid_put<T>(g: Seq<Seq<T>>, h: int, w: int, x: T) -> Seq<Seq<T>> {
    g.update(h, g[h].update(w, x))
}

impl<F: Fn(T, T) -> T, T: Copy + Eq> SegmentTree2D<T, F> {
    /// The grid of cells: `height()` rows of `width()` values each.
    pub open spec fn view(&self) -> Seq<Seq<T>> {
        Seq::new(self.height(), |h: int| Seq::new(self.width(), |w: int| self.cell(h, w)))
    }

    /// The number of rows of the grid, a power of two.
    pub closed spec fn height(&self) -> nat {
        self.height as nat
    }

    /// The number of columns of the grid, a power of two.
    pub closed spec fn width(&self) -> nat {
        self.width as nat
    }

    /// The identity element that the tree was made with.
    pub closed spec fn identity(&self) -> T {
        self.unit
    }

    /// The combiner that the tree was made with.
    pub closed spec fn combiner(&self) -> F {
        self.f
    }

    /// The value held by the node in tree row `i` and tree column `j`.
    pub closed spec fn node(&self, i: int, j: int) -> T {
        self.seg@[slot(i, j, self.width as int)]
    }

    /// The sizes are powers of two, the buffer has a slot for every node, and
    /// the combiner can be called on every pair of values.
    pub closed spec fn wf(&self) -> bool {
        &&& is_pow2(self.height as int)
        &&& is_pow2(self.width as int)
        &&& 4 * self.height * self.width <= usize::MAX
        &&& self.seg@.len() == 4 * self.height * self.width
        &&& accepts_all(self.f)
    }

    /// `(i, j)` names a node of the tree.
    pub open spec fn within(&self, i: int, j: int) -> bool {
        0 <= i < 2 * self.height() && 0 <= j < 2 * self.width()
    }

    /// The cell in row `h`, column `w` of the grid.
    pub open spec fn cell(&self, h: int, w: int) -> T {
        self.node(h + self.height(), w + self.width())
    }

    /// Node `(i, j)` holds the combination under `g` of the nodes below it in
    /// the row tree, `(2i, j)` and `(2i + 1, j)`.
    pub open spec fn rows_merged_at(&self, g: spec_fn(T, T) -> T, i: int, j: int) -> bool {
        self.node(i, j) == g(self.node(2 * i, j), self.node(2 * i + 1, j))
    }

    /// Node `(i, j)` holds the combination under `g` of the nodes below it in
    /// the column tree, `(i, 2j)` and `(i, 2j + 1)`.
    pub open spec fn cols_merged_at(&self, g: spec_fn(T, T) -> T, i: int, j: int) -> bool {
        self.node(i, j) == g(self.node(i, 2 * j), self.node(i, 2 * j + 1))
    }

    /// The tree is aggregated under `g`: above the grid's rows every node of a
    /// grid column combines its two child rows, and in every row every node
    /// left of the grid's columns combines its two child columns.
    pub open spec fn built(&self, g: spec_fn(T, T) -> T) -> bool {
        &&& forall|i: int, j: int|
            1 <= i < self.height() && self.width() <= j < 2 * self.width()
                ==> #[trigger] self.rows_merged_at(g, i, j)
        &&& forall|i: int, j: int|
            1 <= i < 2 * self.height() && 1 <= j < self.width()
                ==> #[trigger] self.cols_merged_at(g, i, j)
    }

    /// The tree can answer queries in terms of `g`: the combiner computes `g`,
    /// `g` is a commutative monoid with the tree's identity, and the tree is
    /// aggregated under `g`.
    pub open spec fn ready(&self, g: spec_fn(T, T) -> T) -> bool {
        &&& computes(self.combiner(), g)
        &&& is_commutative_monoid(g, self.identity())
        &&& self.built(g)
    }

    /// `other` has the sizes, the identity and the combiner of `self`.
    pub open spec fn same_shape(&self, other: &Self) -> bool {
        &&& self.height() == other.height()
        &&& self.width() == other.width()
        &&& self.identity() == other.identity()
        &&& self.combiner() == other.combiner()
    }

    /// `after` is what `update(h, w, x)` makes of `self`, for a combiner that
    /// computes `g`: the cell holds `x`, the nodes on the way from it to the
    /// root in both trees are recomputed from their children, and every other
    /// node is as it was.
    pub open spec fn updated_to(
        &self,
        g: spec_fn(T, T) -> T,
        after: &Self,
        h: int,
        w: int,
        x: T,
    ) -> bool {
        let leaf = h + self.height();
        let col = w + self.width();
        &&& after.same_shape(self)
        &&& after.node(leaf, col) == x
        &&& forall|i: int, j: int|
            self.within(i, j) && !(on_path(i, leaf) && on_path(j, col))
                ==> #[trigger] after.node(i, j) == self.node(i, j)
        &&& forall|i: int|
            on_path(i, leaf) && i < self.height() ==> #[trigger] after.rows_merged_at(g, i, col)
        &&& forall|i: int, j: int|
            on_path(i, leaf) && on_path(j, col) && j < self.width()
                ==> #[trigger] after.cols_merged_at(g, i, j)
    }

    /// The nodes of tree row `i`, by tree column.
    pub open spec fn row_nodes(&self, i: int) -> spec_fn(int) -> T {
        |j: int| self.node(i, j)
    }

    /// For each tree row, the combination under `g` of its nodes in tree
    /// columns `[c1, c2)`.
    pub open spec fn row_spans(&self, g: spec_fn(T, T) -> T, c1: int, c2: int) -> spec_fn(
        int,
    ) -> T {
        |i: int| fold_range(g, self.identity(), self.row_nodes(i), c1, c2)
    }

    /// Node `(i, j)` holds a value that the combiner gave for the nodes below
    /// it in the row tree.
    spec fn rows_made_at(&self, i: int, j: int) -> bool {
        call_ensures(self.f, (self.node(2 * i, j), self.node(2 * i + 1, j)), self.node(i, j))
    }

    /// Node `(i, j)` holds a value that the combiner gave for the nodes below
    /// it in the column tree.
    spec fn cols_made_at(&self, i: int, j: int) -> bool {
        call_ensures(self.f, (self.node(i, 2 * j), self.node(i, 2 * j + 1)), self.node(i, j))
    }

    /// The combiner's results in tree row `h` stand for `g`, a commutative
    /// monoid that it computes.
    spec fn row_ready(&self, g: spec_fn(T, T) -> T, h: int) -> bool {
        &&& computes(self.f, g)
        &&& is_commutative_monoid(g, self.unit)
        &&& forall|j: int| 1 <= j < self.width ==> #[trigger] self.cols_merged_at(g, h, j)
    }

    /// Makes a tree for a grid of at least `h` by `w` cells, every node of it
    /// holding `identity`. Its sizes are the smallest powers of two that are
    /// at least `h` and `w`.
    pub fn new(h: usize, w: usize, f: F, identity: T) -> (tree: SegmentTree2D<T, F>)
        requires
            accepts_all(f),
            4 * padded(h as nat) * padded(w as nat) <= usize::MAX,
        ensures
            tree.wf(),
            tree.height() == padded(h as nat),
            tree.width() == padded(w as nat),
            tree.identity() == identity,
            tree.combiner() == f,
            forall|i: int, j: int| tree.within(i, j) ==> #[trigger] tree.node(i, j) == identity,
            forall|g: spec_fn(T, T) -> T| g(identity, identity) == identity ==> #[trigger] tree.built(g),
    {
        let mut height: usize = 1;
        let mut width: usize = 1;
        proof {
            lemma_padded_is_least(h as nat);
            lemma_padded_is_least(w as nat);
            lemma_sizes_fit(padded(h as nat) as int, padded(w as nat) as int, usize::MAX as int);
        }
        while height < h
            invariant
                height >= 1,
                is_pow2(height as int),
                doubled_up_to(height as nat, h as nat) == padded(h as nat),
                4 * padded(h as nat) <= usize::MAX,
            decreases
                (if height < h {
                    h - height
                } else {
                    0
                }),
        {
            proof {
                lemma_doubled_grows((2 * height) as nat, h as nat);
                lemma_shift_doubles(height);
            }
            height <<= 1usize;
        }
        while width < w
            invariant
                width >= 1,
                is_pow2(width as int),
                doubled_up_to(width as nat, w as nat) == padded(w as nat),
                4 * padded(w as nat) <= usize::MAX,
            decreases
                (if width < w {
                    w - width
                } else {
                    0
                }),
        {
            proof {
                lemma_doubled_grows((2 * width) as nat, w as nat);
                lemma_shift_doubles(width);
            }
            width <<= 1usize;
        }
        assert(height == padded(h as nat) && width == padded(w as nat));
        let len = 4 * height * width;
        let mut seg: Vec<T> = Vec::with_capacity(len);
        while seg.len() < len
            invariant
                seg@.len() <= len,
                forall|k: int| 0 <= k < seg@.len() ==> seg@[k] == identity,
            decreases len - seg@.len(),
        {
            seg.push(identity);
        }
        let tree = SegmentTree2D { height, width, seg, unit: identity, f };
        proof {
            assert forall|i: int, j: int| tree.within(i, j) implies #[trigger] tree.node(i, j)
                == identity by {
                lemma_slot_in_buffer(i, j, height as int, width as int);
            }
            assert forall|g: spec_fn(T, T) -> T| g(identity, identity) == identity
                implies #[trigger] tree.built(g) by {
                assert forall|i: int, j: int|
                    1 <= i < tree.height() && tree.width() <= j < 2 * tree.width()
                    implies #[trigger] tree.rows_merged_at(g, i, j) by {
                    assert(tree.within(i, j) && tree.within(2 * i, j) && tree.within(2 * i + 1, j));
                }
                assert forall|i: int, j: int|
                    1 <= i < 2 * tree.height() && 1 <= j < tree.width()
                    implies #[trigger] tree.cols_merged_at(g, i, j) by {
                    assert(tree.within(i, j) && tree.within(i, 2 * j) && tree.within(i, 2 * j + 1));
                }
            }
        }
        tree
    }

    /// The slot of node `(h, w)` in the buffer.
    fn id(&self, h: usize, w: usize) -> (r: usize)
        requires
            self.wf(),
            self.within(h as int, w as int),
        ensures
            r == slot(h as int, w as int, self.width() as int),
            r < self.seg@.len(),
    {
        proof {
            lemma_slot_in_buffer(h as int, w as int, self.height as int, self.width as int);
        }
        h * 2 * self.width + w
    }

    /// Writes `x` to the cell in row `h`, column `w`, and to no other node.
    pub fn set(&mut self, h: usize, w: usize, x: T)
        requires
            old(self).wf(),
            h < old(self).height(),
            w < old(self).width(),
        ensures
            final(self).wf(),
            final(self).same_shape(old(self)),
            final(self)@ == grid_put(old(self)@, h as int, w as int, x),
            final(self).cell(h as int, w as int) == x,
            forall|i: int, j: int|
                old(self).within(i, j) && !(i == h + old(self).height() && j == w + old(self).width())
                    ==> #[trigger] final(self).node(i, j) == old(self).node(i, j),
    {
        proof {
            self.lemma_sizes();
        }
        let idx = self.id(h + self.height, w + self.width);
        self.seg[idx] = x;
        proof {
            self.lemma_written(old(self), (h + self.height) as int, (w + self.width) as int, x);
        }
    }

    /// Recomputes node `(i, j)` from the two nodes below it in the row tree.
    fn merge_rows(&mut self, i: usize, j: usize)
        requires
            old(self).wf(),
            1 <= i < old(self).height(),
            j < 2 * old(self).width(),
        ensures
            final(self).wf(),
            final(self).same_shape(old(self)),
            final(self)@ == old(self)@,
            final(self).rows_made_at(i as int, j as int),
            forall|a: int, b: int|
                old(self).within(a, b) && !(a == i && b == j) ==> #[trigger] final(self).node(a, b)
                    == old(self).node(a, b),
    {
        proof {
            self.lemma_sizes();
        }
        let id1 = self.id(i, j);
        let id2 = self.id(2 * i, j);
        let id3 = self.id(2 * i + 1, j);
        let x = (self.f)(self.seg[id2], self.seg[id3]);
        self.seg[id1] = x;
        proof {
            self.lemma_written(old(self), i as int, j as int, x);
            assert(old(self).within(2 * i, j as int) && old(self).within(2 * i + 1, j as int));
        }
    }

    /// Recomputes node `(i, j)` from the two nodes below it in the column
    /// tree.
    fn merge_cols(&mut self, i: usize, j: usize)
        requires
            old(self).wf(),
            i < 2 * old(self).height(),
            1 <= j < old(self).width(),
        ensures
            final(self).wf(),
            final(self).same_shape(old(self)),
            final(self)@ == old(self)@,
            final(self).cols_made_at(i as int, j as int),
            forall|a: int, b: int|
                old(self).within(a, b) && !(a == i && b == j) ==> #[trigger] final(self).node(a, b)
                    == old(self).node(a, b),
    {
        proof {
            self.lemma_sizes();
        }
        let id1 = self.id(i, j);
        let id2 = self.id(i, 2 * j);
        let id3 = self.id(i, 2 * j + 1);
        let x = (self.f)(self.seg[id2], self.seg[id3]);
        self.seg[id1] = x;
        proof {
            self.lemma_written(old(self), i as int, j as int, x);
            assert(old(self).within(i as int, 2 * j) && old(self).within(i as int, 2 * j + 1));
        }
    }

    /// Aggregates the tree from its cells: first every grid column upwards
    /// through the row tree, then every row leftwards through the column
    /// tree. The cells stay as they are.
    pub fn build(&mut self)
        requires
            old(self).wf(),
        ensures
            final(self).wf(),
            final(self).same_shape(old(self)),
            final(self)@ == old(self)@,
            forall|g: spec_fn(T, T) -> T| #[trigger]
                computes(old(self).combiner(), g) ==> final(self).built(g),
    {
        proof {
            self.lemma_sizes();
        }
        let mut w = self.width;
        while w < 2 * self.width
            invariant
                self.wf(),
                self.same_shape(old(self)),
                self@ == old(self)@,
                4 * self.width <= usize::MAX,
                self.width <= w <= 2 * self.width,
                forall|i: int, j: int|
                    1 <= i < self.height() && self.width() <= j < w
                        ==> #[trigger] self.rows_made_at(i, j),
            decreases 2 * self.width - w,
        {
            let mut h = self.height;
            while h > 1
                invariant
                    self.wf(),
                    self.same_shape(old(self)),
                    self@ == old(self)@,
                    self.width <= w < 2 * self.width,
                    1 <= h <= self.height,
                    forall|i: int, j: int|
                        1 <= i < self.height() && self.width() <= j < w
                            ==> #[trigger] self.rows_made_at(i, j),
                    forall|i: int|
                        h <= i < self.height() ==> #[trigger] self.rows_made_at(i, w as int),
                decreases h,
            {
                h -= 1;
                let ghost prev = *self;
                self.merge_rows(h, w);
                proof {
                    assert forall|i: int, j: int|
                        1 <= i < self.height() && self.width() <= j < w
                        implies #[trigger] self.rows_made_at(i, j) by {
                        assert(prev.rows_made_at(i, j));
                    }
                    assert forall|i: int| h <= i < self.height()
                        implies #[trigger] self.rows_made_at(i, w as int) by {
                        if i > h {
                            assert(prev.rows_made_at(i, w as int));
                        }
                    }
                }
            }
            w += 1;
        }
        let mut h: usize = 0;
        while h < 2 * self.height
            invariant
                self.wf(),
                self.same_shape(old(self)),
                self@ == old(self)@,
                4 * self.height <= usize::MAX,
                h <= 2 * self.height,
                forall|i: int, j: int|
                    1 <= i < self.height() && self.width() <= j < 2 * self.width()
                        ==> #[trigger] self.rows_made_at(i, j),
                forall|i: int, j: int|
                    0 <= i < h && 1 <= j < self.width() ==> #[trigger] self.cols_made_at(i, j),
            decreases 2 * self.height - h,
        {
            let mut w = self.width;
            while w > 1
                invariant
                    self.wf(),
                    self.same_shape(old(self)),
                    self@ == old(self)@,
                    h < 2 * self.height,
                    1 <= w <= self.width,
                    forall|i: int, j: int|
                        1 <= i < self.height() && self.width() <= j < 2 * self.width()
                            ==> #[trigger] self.rows_made_at(i, j),
                    forall|i: int, j: int|
                        0 <= i < h && 1 <= j < self.width() ==> #[trigger] self.cols_made_at(i, j),
                    forall|j: int|
                        w <= j < self.width() ==> #[trigger] self.cols_made_at(h as int, j),
                decreases w,
            {
                w -= 1;
                let ghost prev = *self;
                self.merge_cols(h, w);
                proof {
                    assert forall|i: int, j: int|
                        1 <= i < self.height() && self.width() <= j < 2 * self.width()
                        implies #[trigger] self.rows_made_at(i, j) by {
                        assert(prev.rows_made_at(i, j));
                    }
                    assert forall|i: int, j: int| 0 <= i < h && 1 <= j < self.width()
                        implies #[trigger] self.cols_made_at(i, j) by {
                        assert(prev.cols_made_at(i, j));
                    }
                    assert forall|j: int| w <= j < self.width()
                        implies #[trigger] self.cols_made_at(h as int, j) by {
                        if j > w {
                            assert(prev.cols_made_at(h as int, j));
                        }
                    }
                }
            }
            h += 1;
        }
        proof {
            assert forall|g: spec_fn(T, T) -> T| #[trigger]
                computes(old(self).combiner(), g) implies self.built(g) by {
                assert forall|i: int, j: int|
                    1 <= i < self.height() && self.width() <= j < 2 * self.width()
                    implies #[trigger] self.rows_merged_at(g, i, j) by {
                    assert(self.rows_made_at(i, j));
                }
                assert forall|i: int, j: int|
                    1 <= i < 2 * self.height() && 1 <= j < self.width()
                    implies #[trigger] self.cols_merged_at(g, i, j) by {
                    assert(self.cols_made_at(i, j));
                }
            }
        }
    }

    /// Writes `x` to the cell in row `h`, column `w`, and recomputes the
    /// nodes above it: first its column upwards through the row tree, then,
    /// in each row on that way, the nodes leftwards through the column tree.
    /// A tree that was aggregated stays aggregated.
    pub fn update(&mut self, h: usize, w: usize, x: T)
        requires
            old(self).wf(),
            h < old(self).height(),
            w < old(self).width(),
        ensures
            final(self).wf(),
            final(self).same_shape(old(self)),
            final(self)@ == grid_put(old(self)@, h as int, w as int, x),
            forall|g: spec_fn(T, T) -> T| #[trigger]
                computes(old(self).combiner(), g) ==> old(self).updated_to(
                    g,
                    final(self),
                    h as int,
                    w as int,
                    x,
                ),
            forall|g: spec_fn(T, T) -> T|
                computes(old(self).combiner(), g) && old(self).built(g)
                    ==> #[trigger] final(self).built(g),
    {
        proof {
            self.lemma_sizes();
        }
        let leaf = h + self.height;
        let col = w + self.width;
        let id = self.id(leaf, col);
        self.seg[id] = x;
        proof {
            self.lemma_written(old(self), leaf as int, col as int, x);
            lemma_low_bit(leaf);
            assert(on_path(leaf as int, leaf as int));
            if leaf >= 2 {
                lemma_on_path_parent(leaf as int, leaf as int);
            }
            assert forall|a: int| on_path(a, leaf as int) && leaf / 2 < a < self.height()
                implies #[trigger] self.rows_made_at(a, col as int) by {
                lemma_on_path_bounds(a, leaf as int / 2);
            }
        }
        let mut i = leaf >> 1;
        while i > 0
            invariant
                self.wf(),
                self.same_shape(old(self)),
                self@ == grid_put(old(self)@, h as int, w as int, x),
                leaf == h + self.height,
                col == w + self.width,
                h < self.height,
                w < self.width,
                i < self.height,
                i == 0 || on_path(i as int, leaf as int),
                self.node(leaf as int, col as int) == x,
                forall|a: int, b: int|
                    self.within(a, b) && !(on_path(a, leaf as int) && b == col)
                        ==> #[trigger] self.node(a, b) == old(self).node(a, b),
                forall|a: int|
                    on_path(a, leaf as int) && i < a < self.height()
                        ==> #[trigger] self.rows_made_at(a, col as int),
            decreases i,
        {
            let ghost prev = *self;
            self.merge_rows(i, col);
            proof {
                lemma_low_bit(i);
                if i >= 2 {
                    lemma_on_path_parent(i as int, leaf as int);
                }
                assert forall|a: int| on_path(a, leaf as int) && i / 2 < a < self.height()
                    implies #[trigger] self.rows_made_at(a, col as int) by {
                    if a > i {
                        assert(prev.rows_made_at(a, col as int));
                    } else {
                        lemma_on_path_below(i as int, a, leaf as int);
                        if a != i {
                            lemma_on_path_bounds(a, i as int / 2);
                        }
                    }
                }
            }
            i >>= 1;
        }
        proof {
            assert forall|a: int| on_path(a, leaf as int) && a < self.height()
                implies #[trigger] self.rows_made_at(a, col as int) by {
                lemma_on_path_bounds(a, leaf as int);
            }
            assert forall|a: int, b: int|
                on_path(a, leaf as int) && a > leaf && on_path(b, col as int) && b < self.width()
                implies #[trigger] self.cols_made_at(a, b) by {
                lemma_on_path_bounds(a, leaf as int);
            }
        }
        let mut row = leaf;
        while row > 0
            invariant
                self.wf(),
                self.same_shape(old(self)),
                self@ == grid_put(old(self)@, h as int, w as int, x),
                leaf == h + self.height,
                col == w + self.width,
                h < self.height,
                w < self.width,
                row <= leaf,
                row == 0 || on_path(row as int, leaf as int),
                self.node(leaf as int, col as int) == x,
                forall|a: int, b: int|
                    self.within(a, b) && !(on_path(a, leaf as int) && on_path(b, col as int))
                        ==> #[trigger] self.node(a, b) == old(self).node(a, b),
                forall|a: int|
                    on_path(a, leaf as int) && a < self.height()
                        ==> #[trigger] self.rows_made_at(a, col as int),
                forall|a: int, b: int|
                    on_path(a, leaf as int) && a > row && on_path(b, col as int) && b < self.width()
                        ==> #[trigger] self.cols_made_at(a, b),
            decreases row,
        {
            proof {
                lemma_low_bit(col);
                assert(on_path(col as int, col as int));
                if col >= 2 {
                    lemma_on_path_parent(col as int, col as int);
                }
                assert forall|b: int| on_path(b, col as int) && col / 2 < b < self.width()
                    implies #[trigger] self.cols_made_at(row as int, b) by {
                    lemma_on_path_bounds(b, col as int / 2);
                }
            }
            let mut j = col >> 1;
            while j > 0
                invariant
                    self.wf(),
                    self.same_shape(old(self)),
                    self@ == grid_put(old(self)@, h as int, w as int, x),
                    leaf == h + self.height,
                    col == w + self.width,
                    h < self.height,
                    w < self.width,
                    1 <= row <= leaf,
                    on_path(row as int, leaf as int),
                    j < self.width,
                    j == 0 || on_path(j as int, col as int),
                    self.node(leaf as int, col as int) == x,
                    forall|a: int, b: int|
                        self.within(a, b) && !(on_path(a, leaf as int) && on_path(b, col as int))
                            ==> #[trigger] self.node(a, b) == old(self).node(a, b),
                    forall|a: int|
                        on_path(a, leaf as int) && a < self.height()
                            ==> #[trigger] self.rows_made_at(a, col as int),
                    forall|a: int, b: int|
                        on_path(a, leaf as int) && a > row && on_path(b, col as int) && b
                            < self.width() ==> #[trigger] self.cols_made_at(a, b),
                    forall|b: int|
                        on_path(b, col as int) && j < b < self.width()
                            ==> #[trigger] self.cols_made_at(row as int, b),
                decreases j,
            {
                let ghost prev = *self;
                self.merge_cols(row, j);
                proof {
                    lemma_low_bit(j);
                    if j >= 2 {
                        lemma_on_path_parent(j as int, col as int);
                    }
                    assert forall|a: int| on_path(a, leaf as int) && a < self.height()
                        implies #[trigger] self.rows_made_at(a, col as int) by {
                        assert(prev.rows_made_at(a, col as int));
                        lemma_on_path_bounds(a, leaf as int);
                    }
                    assert forall|a: int, b: int|
                        on_path(a, leaf as int) && a > row && on_path(b, col as int) && b
                            < self.width()
                        implies #[trigger] self.cols_made_at(a, b) by {
                        assert(prev.cols_made_at(a, b));
                        lemma_on_path_bounds(a, leaf as int);
                        lemma_on_path_bounds(b, col as int);
                    }
                    assert forall|b: int| on_path(b, col as int) && j / 2 < b < self.width()
                        implies #[trigger] self.cols_made_at(row as int, b) by {
                        if b > j {
                            assert(prev.cols_made_at(row as int, b));
                        } else {
                            lemma_on_path_below(j as int, b, col as int);
                            if b != j {
                                lemma_on_path_bounds(b, j as int / 2);
                            }
                        }
                    }
                }
                j >>= 1;
            }
            proof {
                lemma_low_bit(row);
                if row >= 2 {
                    lemma_on_path_parent(row as int, leaf as int);
                }
                assert forall|a: int, b: int|
                    on_path(a, leaf as int) && a > row / 2 && on_path(b, col as int) && b
                        < self.width()
                    implies #[trigger] self.cols_made_at(a, b) by {
                    if a <= row {
                        lemma_on_path_below(row as int, a, leaf as int);
                        if a != row {
                            lemma_on_path_bounds(a, row as int / 2);
                        }
                        lemma_on_path_bounds(b, col as int);
                    }
                }
            }
            row >>= 1;
        }
        proof {
            assert forall|a: int, b: int|
                on_path(a, leaf as int) && on_path(b, col as int) && b < self.width()
                implies #[trigger] self.cols_made_at(a, b) by {
                lemma_on_path_bounds(a, leaf as int);
            }
            assert forall|g: spec_fn(T, T) -> T| #[trigger]
                computes(old(self).combiner(), g) implies old(self).updated_to(
                g,
                self,
                h as int,
                w as int,
                x,
            ) by {
                assert forall|a: int| on_path(a, leaf as int) && a < self.height()
                    implies #[trigger] self.rows_merged_at(g, a, col as int) by {
                    assert(self.rows_made_at(a, col as int));
                }
                assert forall|a: int, b: int|
                    on_path(a, leaf as int) && on_path(b, col as int) && b < self.width()
                    implies #[trigger] self.cols_merged_at(g, a, b) by {
                    assert(self.cols_made_at(a, b));
                }
            }
            assert forall|g: spec_fn(T, T) -> T|
                computes(old(self).combiner(), g) && old(self).built(g)
                implies #[trigger] self.built(g) by {
                old(self).lemma_update_keeps_built(g, self, h as int, w as int, x);
            }
        }
    }

    /// The combination of the nodes of tree row `h` in tree columns
    /// `[w1, w2)` of the grid's level, found from the column tree of that row.
    fn _inner_query(&self, h: usize, w1: usize, w2: usize) -> (res: T)
        requires
            self.wf(),
            h < 2 * self.height(),
            self.width() <= w1 <= w2 <= 2 * self.width(),
        ensures
            forall|g: spec_fn(T, T) -> T| #[trigger]
                self.row_ready(g, h as int) ==> res == fold_range(
                    g,
                    self.identity(),
                    self.row_nodes(h as int),
                    w1 as int,
                    w2 as int,
                ),
    {
        let ghost unit = self.unit;
        let ghost v = self.row_nodes(h as int);
        let ghost first = w1;
        let ghost last = w2;
        proof {
            self.lemma_sizes();
            assert forall|g: spec_fn(T, T) -> T| #[trigger] self.row_ready(g, h as int) implies g(
                unit,
                fold_range(g, unit, v, first as int, last as int),
            ) == fold_range(g, unit, v, first as int, last as int) by {
                assert(neutral_at(g, unit, fold_range(g, unit, v, first as int, last as int)));
            }
        }
        let mut res: T = self.unit;
        let mut w1 = w1;
        let mut w2 = w2;
        while w1 < w2
            invariant
                self.wf(),
                unit == self.unit,
                v == self.row_nodes(h as int),
                h < 2 * self.height,
                4 * self.width <= usize::MAX,
                1 <= w1 <= w2 <= 2 * self.width,
                forall|g: spec_fn(T, T) -> T| #[trigger]
                    self.row_ready(g, h as int) ==> g(
                        res,
                        fold_range(g, unit, v, w1 as int, w2 as int),
                    ) == fold_range(g, unit, v, first as int, last as int),
            decreases w2,
        {
            proof {
                lemma_low_bit(w1);
                lemma_low_bit(w2);
            }
            if w1 & 1 > 0 {
                let id = self.id(h, w1);
                let ghost acc = res;
                res = (self.f)(res, self.seg[id]);
                proof {
                    assert forall|g: spec_fn(T, T) -> T| #[trigger]
                        self.row_ready(g, h as int) implies g(
                        res,
                        fold_range(g, unit, v, w1 + 1, w2 as int),
                    ) == fold_range(g, unit, v, first as int, last as int) by {
                        lemma_take_first(g, unit, v, acc, w1 as int, w2 as int);
                    }
                }
                w1 += 1;
            }
            if w2 & 1 > 0 {
                w2 -= 1;
                let id = self.id(h, w2);
                let ghost acc = res;
                res = (self.f)(res, self.seg[id]);
                proof {
                    assert forall|g: spec_fn(T, T) -> T| #[trigger]
                        self.row_ready(g, h as int) implies g(
                        res,
                        fold_range(g, unit, v, w1 as int, w2 as int),
                    ) == fold_range(g, unit, v, first as int, last as int) by {
                        lemma_take_last(g, unit, v, acc, w1 as int, w2 + 1);
                    }
                }
            }
            proof {
                lemma_low_bit(w1);
                lemma_low_bit(w2);
                assert forall|g: spec_fn(T, T) -> T| #[trigger]
                    self.row_ready(g, h as int) implies g(
                    res,
                    fold_range(g, unit, v, w1 as int / 2, w2 as int / 2),
                ) == fold_range(g, unit, v, first as int, last as int) by {
                    assert forall|j: int| w1 / 2 <= j < w2 / 2 implies #[trigger] v(j) == g(
                        v(2 * j),
                        v(2 * j + 1),
                    ) by {
                        assert(self.cols_merged_at(g, h as int, j));
                    }
                    lemma_fold_pairs(g, unit, v, v, w1 as int / 2, w2 as int / 2);
                }
            }
            w1 >>= 1;
            w2 >>= 1;
        }
        proof {
            assert forall|g: spec_fn(T, T) -> T| #[trigger]
                self.row_ready(g, h as int) implies res == fold_range(
                g,
                unit,
                v,
                first as int,
                last as int,
            ) by {
                assert(neutral_at(g, unit, res));
            }
        }
        res
    }

    /// The combination of the cells in rows `[h1, h2)` and columns
    /// `[w1, w2)`; the identity where the rectangle is empty.
    ///
    /// A rectangle with cells is asked of a tree that is ready for some
    /// operation, and the result is that rectangle's total under every
    /// operation that the tree is ready for.
    pub fn query(&self, h1: usize, h2: usize, w1: usize, w2: usize) -> (res: T)
        requires
            self.wf(),
            h1 < h2 && w1 < w2 ==> {
                &&& h2 <= self.height()
                &&& w2 <= self.width()
                &&& exists|g: spec_fn(T, T) -> T| #[trigger] self.ready(g)
            },
        ensures
            h1 >= h2 || w1 >= w2 ==> res == self.identity(),
            h1 < h2 && w1 < w2 ==> forall|g: spec_fn(T, T) -> T| #[trigger]
                self.ready(g) ==> res == region_total(
                    g,
                    self.identity(),
                    self@,
                    h1 as int,
                    h2 as int,
                    w1 as int,
                    w2 as int,
                ),
    {
        if h1 >= h2 || w1 >= w2 {
            return self.unit;
        }
        let ghost unit = self.unit;
        let ghost top = h1 + self.height;
        let ghost bottom = h2 + self.height;
        proof {
            self.lemma_sizes();
        }
        let mut h1 = h1 + self.height;
        let mut h2 = h2 + self.height;
        let w1 = w1 + self.width;
        let w2 = w2 + self.width;
        proof {
            assert forall|g: spec_fn(T, T) -> T| #[trigger] self.ready(g) implies g(
                unit,
                fold_range(g, unit, self.row_spans(g, w1 as int, w2 as int), top as int, bottom as int),
            ) == fold_range(
                g,
                unit,
                self.row_spans(g, w1 as int, w2 as int),
                top as int,
                bottom as int,
            ) by {
                assert(neutral_at(
                    g,
                    unit,
                    fold_range(
                        g,
                        unit,
                        self.row_spans(g, w1 as int, w2 as int),
                        top as int,
                        bottom as int,
                    ),
                ));
            }
        }
        let mut res = self.unit;
        while h1 < h2
            invariant
                self.wf(),
                unit == self.unit,
                4 * self.height <= usize::MAX,
                self.width <= w1 < w2 <= 2 * self.width,
                1 <= h1 <= h2 <= 2 * self.height,
                forall|g: spec_fn(T, T) -> T| #[trigger]
                    self.ready(g) ==> g(
                        res,
                        fold_range(
                            g,
                            unit,
                            self.row_spans(g, w1 as int, w2 as int),
                            h1 as int,
                            h2 as int,
                        ),
                    ) == fold_range(
                        g,
                        unit,
                        self.row_spans(g, w1 as int, w2 as int),
                        top as int,
                        bottom as int,
                    ),
            decreases h2,
        {
            proof {
                lemma_low_bit(h1);
                lemma_low_bit(h2);
            }
            if h1 & 1 > 0 {
                let tmp = self._inner_query(h1, w1, w2);
                let ghost acc = res;
                res = (self.f)(res, tmp);
                proof {
                    assert forall|g: spec_fn(T, T) -> T| #[trigger] self.ready(g) implies g(
                        res,
                        fold_range(
                            g,
                            unit,
                            self.row_spans(g, w1 as int, w2 as int),
                            h1 + 1,
                            h2 as int,
                        ),
                    ) == fold_range(
                        g,
                        unit,
                        self.row_spans(g, w1 as int, w2 as int),
                        top as int,
                        bottom as int,
                    ) by {
                        self.lemma_ready_row(g, h1 as int);
                        lemma_take_first(
                            g,
                            unit,
                            self.row_spans(g, w1 as int, w2 as int),
                            acc,
                            h1 as int,
                            h2 as int,
                        );
                    }
                }
                h1 += 1;
            }
            if h2 & 1 > 0 {
                h2 -= 1;
                let tmp = self._inner_query(h2, w1, w2);
                let ghost acc = res;
                res = (self.f)(res, tmp);
                proof {
                    assert forall|g: spec_fn(T, T) -> T| #[trigger] self.ready(g) implies g(
                        res,
                        fold_range(
                            g,
                            unit,
                            self.row_spans(g, w1 as int, w2 as int),
                            h1 as int,
                            h2 as int,
                        ),
                    ) == fold_range(
                        g,
                        unit,
                        self.row_spans(g, w1 as int, w2 as int),
                        top as int,
                        bottom as int,
                    ) by {
                        self.lemma_ready_row(g, h2 as int);
                        lemma_take_last(
                            g,
                            unit,
                            self.row_spans(g, w1 as int, w2 as int),
                            acc,
                            h1 as int,
                            h2 + 1,
                        );
                    }
                }
            }
            proof {
                lemma_low_bit(h1);
                lemma_low_bit(h2);
                assert forall|g: spec_fn(T, T) -> T| #[trigger] self.ready(g) implies g(
                    res,
                    fold_range(
                        g,
                        unit,
                        self.row_spans(g, w1 as int, w2 as int),
                        h1 as int / 2,
                        h2 as int / 2,
                    ),
                ) == fold_range(
                    g,
                    unit,
                    self.row_spans(g, w1 as int, w2 as int),
                    top as int,
                    bottom as int,
                ) by {
                    let v = self.row_spans(g, w1 as int, w2 as int);
                    assert forall|i: int| h1 / 2 <= i < h2 / 2 implies #[trigger] v(i) == g(
                        v(2 * i),
                        v(2 * i + 1),
                    ) by {
                        self.lemma_row_span_merged(g, i, w1 as int, w2 as int);
                    }
                    lemma_fold_pairs(g, unit, v, v, h1 as int / 2, h2 as int / 2);
                }
            }
            h1 >>= 1;
            h2 >>= 1;
        }
        proof {
            assert forall|g: spec_fn(T, T) -> T| #[trigger] self.ready(g) implies res
                == region_total(
                g,
                self.identity(),
                self@,
                top - self.height,
                bottom - self.height,
                w1 - self.width,
                w2 - self.width,
            ) by {
                let v = self.row_spans(g, w1 as int, w2 as int);
                assert(neutral_at(g, unit, res));
                assert(fold_range(g, unit, v, h1 as int, h2 as int) == unit);
                self.lemma_region_in_nodes(
                    g,
                    top - self.height,
                    bottom - self.height,
                    w1 - self.width,
                    w2 - self.width,
                );
            }
        }
        res
    }

    /// The value of the cell in row `h`, column `w`.
    pub fn get(&self, h: usize, w: usize) -> (r: T)
        requires
            self.wf(),
            h < self.height(),
            w < self.width(),
        ensures
            r == self.cell(h as int, w as int),
            r == self@[h as int][w as int],
    {
        proof {
            self.lemma_sizes();
        }
        self.seg[self.id(h + self.height, w + self.width)]
    }

    /// Four times each size fits a machine word.
    proof fn lemma_sizes(&self)
        requires
            self.wf(),
        ensures
            1 <= self.height,
            1 <= self.width,
            4 * self.height <= usize::MAX,
            4 * self.width <= usize::MAX,
    {
        lemma_sizes_fit(self.height as int, self.width as int, usize::MAX as int);
    }

    /// A tree that is ready for `g` has every row below the root row ready.
    proof fn lemma_ready_row(&self, g: spec_fn(T, T) -> T, h: int)
        requires
            self.ready(g),
            1 <= h < 2 * self.height(),
        ensures
            self.row_ready(g, h),
    {
        assert forall|j: int| 1 <= j < self.width implies #[trigger] self.cols_merged_at(g, h, j) by {
        }
    }

    /// An update of a tree that is aggregated under `g` leaves it so.
    pub proof fn lemma_update_keeps_built(
        &self,
        g: spec_fn(T, T) -> T,
        after: &Self,
        h: int,
        w: int,
        x: T,
    )
        requires
            self.built(g),
            self.updated_to(g, after, h, w, x),
            0 <= h < self.height(),
            0 <= w < self.width(),
        ensures
            after.built(g),
    {
        let leaf = h + self.height();
        let col = w + self.width();
        assert forall|i: int, j: int|
            1 <= i < after.height() && after.width() <= j < 2 * after.width()
            implies #[trigger] after.rows_merged_at(g, i, j) by {
            if on_path(i, leaf) && j == col {
            } else {
                assert(self.rows_merged_at(g, i, j));
                if j == col {
                    if on_path(2 * i, leaf) {
                        lemma_on_path_parent(2 * i, leaf);
                    }
                    if on_path(2 * i + 1, leaf) {
                        lemma_on_path_parent(2 * i + 1, leaf);
                    }
                } else {
                    if on_path(j, col) {
                        lemma_on_path_bounds(j, col / 2);
                    }
                }
                assert(self.within(i, j) && self.within(2 * i, j) && self.within(2 * i + 1, j));
            }
        }
        assert forall|i: int, j: int|
            1 <= i < 2 * after.height() && 1 <= j < after.width()
            implies #[trigger] after.cols_merged_at(g, i, j) by {
            if on_path(i, leaf) && on_path(j, col) {
            } else {
                assert(self.cols_merged_at(g, i, j));
                if on_path(i, leaf) {
                    if on_path(2 * j, col) {
                        lemma_on_path_parent(2 * j, col);
                    }
                    if on_path(2 * j + 1, col) {
                        lemma_on_path_parent(2 * j + 1, col);
                    }
                }
                assert(self.within(i, j) && self.within(i, 2 * j) && self.within(i, 2 * j + 1));
            }
        }
    }

    /// A cell that was written holds the written value, whatever the grid held
    /// before, and every other cell is as it was: what `get` returns after
    /// `set` or `update` is the value that was written last.
    pub proof fn lemma_last_write_wins(&self, after: &Self, h: int, w: int, x: T)
        requires
            0 <= h < self.height(),
            0 <= w < self.width(),
            after.same_shape(self),
            after@ == grid_put(self@, h, w, x),
        ensures
            after@[h][w] == x,
            after.cell(h, w) == x,
            forall|i: int, j: int|
                0 <= i < self.height() && 0 <= j < self.width() && !(i == h && j == w)
                    ==> after@[i][j] == self@[i][j] && after.cell(i, j) == self.cell(i, j),
    {
        assert(after@[h][w] == after.cell(h, w));
        assert forall|i: int, j: int|
            0 <= i < self.height() && 0 <= j < self.width() && !(i == h && j == w)
            implies after@[i][j] == self@[i][j] && after.cell(i, j) == self.cell(i, j) by {
            assert(after@[i][j] == after.cell(i, j));
            assert(self@[i][j] == self.cell(i, j));
        }
    }

    /// Updating a cell twice in a row with one value gives the tree that the
    /// first update gave.
    pub proof fn lemma_update_idempotent(
        &self,
        g: spec_fn(T, T) -> T,
        once: &Self,
        twice: &Self,
        h: int,
        w: int,
        x: T,
    )
        requires
            0 <= h < self.height(),
            0 <= w < self.width(),
            self.updated_to(g, once, h, w, x),
            once.updated_to(g, twice, h, w, x),
        ensures
            twice.same_shape(once),
            forall|i: int, j: int| once.within(i, j) ==> twice.node(i, j) == once.node(i, j),
            twice@ == once@,
    {
        assert forall|i: int, j: int| once.within(i, j) implies twice.node(i, j) == once.node(
            i,
            j,
        ) by {
            if on_path(i, h + self.height()) && on_path(j, w + self.width()) {
                self.lemma_same_on_paths(g, once, twice, h, w, x, i, j);
            }
        }
        assert forall|i: int| 0 <= i < once.height() implies #[trigger] twice@[i] =~= once@[i] by {
            assert forall|j: int| 0 <= j < once.width() implies twice@[i][j] == once@[i][j] by {
                assert(once.within(i + once.height(), j + once.width()));
            }
        }
        assert(twice@ =~= once@);
    }

    /// After a second update with the same value, a node on the way from the
    /// cell to the root, in the cell's column, holds what it held.
    proof fn lemma_same_in_column(
        &self,
        g: spec_fn(T, T) -> T,
        once: &Self,
        twice: &Self,
        h: int,
        w: int,
        x: T,
        i: int,
    )
        requires
            0 <= h < self.height(),
            0 <= w < self.width(),
            self.updated_to(g, once, h, w, x),
            once.updated_to(g, twice, h, w, x),
            on_path(i, h + self.height()),
        ensures
            twice.node(i, w + self.width()) == once.node(i, w + self.width()),
        decreases h + self.height() - i,
    {
        let leaf = h + self.height();
        let col = w + self.width();
        lemma_on_path_bounds(i, leaf);
        assert(on_path(col, col));
        if i != leaf {
            lemma_on_path_step(i, leaf);
            assert(once.rows_merged_at(g, i, col));
            assert(twice.rows_merged_at(g, i, col));
            assert(once.within(2 * i, col) && once.within(2 * i + 1, col));
            if on_path(2 * i, leaf) {
                self.lemma_same_in_column(g, once, twice, h, w, x, 2 * i);
            }
            if on_path(2 * i + 1, leaf) {
                lemma_on_path_bounds(2 * i + 1, leaf);
                self.lemma_same_in_column(g, once, twice, h, w, x, 2 * i + 1);
            }
        }
    }

    /// After a second update with the same value, a node on the ways from the
    /// cell to the root in both trees holds what it held.
    proof fn lemma_same_on_paths(
        &self,
        g: spec_fn(T, T) -> T,
        once: &Self,
        twice: &Self,
        h: int,
        w: int,
        x: T,
        i: int,
        j: int,
    )
        requires
            0 <= h < self.height(),
            0 <= w < self.width(),
            self.updated_to(g, once, h, w, x),
            once.updated_to(g, twice, h, w, x),
            on_path(i, h + self.height()),
            on_path(j, w + self.width()),
        ensures
            twice.node(i, j) == once.node(i, j),
        decreases w + self.width() - j,
    {
        let leaf = h + self.height();
        let col = w + self.width();
        lemma_on_path_bounds(i, leaf);
        lemma_on_path_bounds(j, col);
        if j == col {
            self.lemma_same_in_column(g, once, twice, h, w, x, i);
        } else {
            lemma_on_path_step(j, col);
            assert(once.cols_merged_at(g, i, j));
            assert(twice.cols_merged_at(g, i, j));
            assert(once.within(i, 2 * j) && once.within(i, 2 * j + 1));
            if on_path(2 * j, col) {
                self.lemma_same_on_paths(g, once, twice, h, w, x, i, 2 * j);
            }
            if on_path(2 * j + 1, col) {
                lemma_on_path_bounds(2 * j + 1, col);
                self.lemma_same_on_paths(g, once, twice, h, w, x, i, 2 * j + 1);
            }
        }
    }

    /// Two trees of one shape that are aggregated under `g` and hold the same
    /// cells hold the same aggregates, and every rectangle has the same total
    /// in both: it does not matter whether a tree was built from its cells or
    /// brought there by updates.
    pub proof fn lemma_cells_decide(&self, g: spec_fn(T, T) -> T, other: &Self)
        requires
            self.same_shape(other),
            self.built(g),
            other.built(g),
            self@ == other@,
        ensures
            forall|i: int, j: int|
                1 <= i < 2 * self.height() && 1 <= j < 2 * self.width() ==> self.node(i, j)
                    == other.node(i, j),
            forall|h1: int, h2: int, w1: int, w2: int|
                region_total(g, self.identity(), self@, h1, h2, w1, w2) == region_total(
                    g,
                    other.identity(),
                    other@,
                    h1,
                    h2,
                    w1,
                    w2,
                ),
    {
        assert forall|i: int, j: int|
            1 <= i < 2 * self.height() && 1 <= j < 2 * self.width() implies self.node(i, j)
            == other.node(i, j) by {
            self.lemma_same_node(g, other, i, j);
        }
    }

    /// Under the conditions of `lemma_cells_decide`, node `(i, j)` is the same
    /// in both trees.
    proof fn lemma_same_node(&self, g: spec_fn(T, T) -> T, other: &Self, i: int, j: int)
        requires
            self.same_shape(other),
            self.built(g),
            other.built(g),
            self@ == other@,
            1 <= i < 2 * self.height(),
            1 <= j < 2 * self.width(),
        ensures
            self.node(i, j) == other.node(i, j),
        decreases 2 * self.width() - j, 2 * self.height() - i,
    {
        if j < self.width() {
            assert(self.cols_merged_at(g, i, j));
            assert(other.cols_merged_at(g, i, j));
            self.lemma_same_node(g, other, i, 2 * j);
            self.lemma_same_node(g, other, i, 2 * j + 1);
        } else if i < self.height() {
            assert(self.rows_merged_at(g, i, j));
            assert(other.rows_merged_at(g, i, j));
            self.lemma_same_node(g, other, 2 * i, j);
            self.lemma_same_node(g, other, 2 * i + 1, j);
        } else {
            let h = i - self.height();
            let w = j - self.width();
            assert(self@[h][w] == self.cell(h, w));
            assert(other@[h][w] == other.cell(h, w));
        }
    }

    /// In a tree aggregated under a commutative monoid, the span of a row
    /// above the grid's rows, over grid columns, combines the spans of its two
    /// child rows.
    proof fn lemma_row_span_merged(&self, g: spec_fn(T, T) -> T, i: int, c1: int, c2: int)
        requires
            self.built(g),
            is_commutative_monoid(g, self.identity()),
            1 <= i < self.height(),
            self.width() <= c1 <= c2 <= 2 * self.width(),
        ensures
            self.row_spans(g, c1, c2)(i) == g(
                self.row_spans(g, c1, c2)(2 * i),
                self.row_spans(g, c1, c2)(2 * i + 1),
            ),
    {
        let u = self.row_nodes(i);
        let v = self.row_nodes(2 * i);
        let w = self.row_nodes(2 * i + 1);
        assert forall|j: int| c1 <= j < c2 implies #[trigger] u(j) == g(v(j), w(j)) by {
            assert(self.rows_merged_at(g, i, j));
        }
        lemma_fold_pointwise(g, self.identity(), u, v, w, c1, c2);
    }

    /// The total of a rectangle of cells is the fold, over the grid's tree
    /// rows, of the spans over the grid's tree columns.
    proof fn lemma_region_in_nodes(&self, g: spec_fn(T, T) -> T, h1: int, h2: int, w1: int, w2: int)
        requires
            0 <= h1 <= h2 <= self.height(),
            0 <= w1 <= w2 <= self.width(),
        ensures
            region_total(g, self.identity(), self@, h1, h2, w1, w2) == fold_range(
                g,
                self.identity(),
                self.row_spans(g, w1 + self.width(), w2 + self.width()),
                h1 + self.height(),
                h2 + self.height(),
            ),
    {
        let unit = self.identity();
        let rows = row_totals(g, unit, self@, w1, w2);
        let spans = self.row_spans(g, w1 + self.width(), w2 + self.width());
        assert forall|i: int| h1 <= i < h2 implies #[trigger] rows(i) == spans(
            i + self.height(),
        ) by {
            let cells = row_values(self@[i]);
            let nodes = self.row_nodes(i + self.height());
            assert forall|j: int| w1 <= j < w2 implies #[trigger] cells(j) == nodes(
                j + self.width(),
            ) by {
            }
            lemma_fold_shift(g, unit, cells, nodes, self.width() as int, w1, w2);
        }
        lemma_fold_shift(g, unit, rows, spans, self.height() as int, h1, h2);
    }

    /// What one write to the buffer, at the slot of node `(i, j)`, does to the
    /// nodes and to the grid.
    proof fn lemma_written(&self, before: &Self, i: int, j: int, x: T)
        requires
            before.wf(),
            before.within(i, j),
            self.height == before.height,
            self.width == before.width,
            self.unit == before.unit,
            self.f == before.f,
            self.seg@ == before.seg@.update(slot(i, j, before.width as int), x),
        ensures
            self.wf(),
            self.same_shape(before),
            self.node(i, j) == x,
            forall|a: int, b: int|
                before.within(a, b) && !(a == i && b == j) ==> #[trigger] self.node(a, b)
                    == before.node(a, b),
            i >= self.height() && j >= self.width() ==> self@ == grid_put(
                before@,
                i - self.height(),
                j - self.width(),
                x,
            ),
            !(i >= self.height() && j >= self.width()) ==> self@ == before@,
    {
        let width = self.width as int;
        let height = self.height as int;
        lemma_slot_in_buffer(i, j, height, width);
        assert forall|a: int, b: int|
            before.within(a, b) && !(a == i && b == j) implies #[trigger] self.node(a, b)
            == before.node(a, b) by {
            lemma_slot_in_buffer(a, b, height, width);
            if slot(a, b, width) == slot(i, j, width) {
                lemma_slot_injective(a, b, i, j, width);
            }
        }
        assert forall|h: int, w: int| 0 <= h < height && 0 <= w < width implies #[trigger] self@[h][w]
            == (if h + height == i && w + width == j {
            x
        } else {
            before@[h][w]
        }) by {
            assert(before.within(h + height, w + width));
        }
        if i >= height && j >= width {
            let g = grid_put(before@, i - height, j - width, x);
            assert forall|h: int| 0 <= h < height implies #[trigger] self@[h] =~= g[h] by {
                assert forall|w: int| 0 <= w < width implies self@[h][w] == g[h][w] by {
                }
            }
            assert(self@ =~= g);
        } else {
            assert forall|h: int| 0 <= h < height implies #[trigger] self@[h] =~= before@[h] by {
                assert forall|w: int| 0 <= w < width implies self@[h][w] == before@[h][w] by {
                }
            }
            assert(self@ =~= before@);
        }
    }
}

} // verus!
