//! Two-dimensional prefix sums: sums of rectangles of a grid in constant
//! time after one pass over it.

use vstd::prelude::*;
use vstd::std_specs::ops::{AddSpec, SubSpec};

verus! {

/// Values that add and subtract as the integers do, within a range.
///
/// The operators of the type stand for integer addition and subtraction of
/// the values `value()`, wherever the result is in the range `fits`.
pub trait IntegerLike: Copy + core::ops::Add<Output = Self> + core::ops::Sub<Output = Self> {
    /// The integer that a value stands for.
    spec fn value(self) -> int;

    /// `v` is in the range of the type.
    spec fn fits(v: int) -> bool;

    /// A sum in range can be computed and has the sum as its value.
    proof fn lemma_sum(a: Self, b: Self)
        requires
            Self::fits(a.value() + b.value()),
        ensures
            Self::obeys_add_spec(),
            a.add_req(b),
            a.add_spec(b).value() == a.value() + b.value(),
    ;

    /// A difference in range can be computed and has the difference as its
    /// value.
    proof fn lemma_difference(a: Self, b: Self)
        requires
            Self::fits(a.value() - b.value()),
        ensures
            Self::obeys_sub_spec(),
            a.sub_req(b),
            a.sub_spec(b).value() == a.value() - b.value(),
    ;

    /// The range is an interval: what lies between two values in range is
    /// in range.
    proof fn lemma_interval(lo: int, mid: int, hi: int)
        requires
            Self::fits(lo),
            Self::fits(hi),
            lo <= mid <= hi,
        ensures
            Self::fits(mid),
    ;

    /// Every value is in range.
    proof fn lemma_value_fits(a: Self)
        ensures
            Self::fits(a.value()),
    ;
}

impl IntegerLike for i32 {
    open spec fn value(self) -> int {
        self as int
    }

    open spec fn fits(v: int) -> bool {
        i32::MIN <= v <= i32::MAX
    }

    proof fn lemma_sum(a: Self, b: Self) {
    }

    proof fn lemma_difference(a: Self, b: Self) {
    }

    proof fn lemma_interval(lo: int, mid: int, hi: int) {
    }

    proof fn lemma_value_fits(a: Self) {
    }
}

impl IntegerLike for i64 {
    open spec fn value(self) -> int {
        self as int
    }

    open spec fn fits(v: int) -> bool {
        i64::MIN <= v <= i64::MAX
    }

    proof fn lemma_sum(a: Self, b: Self) {
    }

    proof fn lemma_difference(a: Self, b: Self) {
    }

    proof fn lemma_interval(lo: int, mid: int, hi: int) {
    }

    proof fn lemma_value_fits(a: Self) {
    }
}

impl IntegerLike for isize {
    open spec fn value(self) -> int {
        self as int
    }

    open spec fn fits(v: int) -> bool {
        isize::MIN <= v <= isize::MAX
    }

    proof fn lemma_sum(a: Self, b: Self) {
    }

    proof fn lemma_difference(a: Self, b: Self) {
    }

    proof fn lemma_interval(lo: int, mid: int, hi: int) {
    }

    proof fn lemma_value_fits(a: Self) {
    }
}

impl IntegerLike for u32 {
    open spec fn value(self) -> int {
        self as int
    }

    open spec fn fits(v: int) -> bool {
        0 <= v <= u32::MAX
    }

    proof fn lemma_sum(a: Self, b: Self) {
    }

    proof fn lemma_difference(a: Self, b: Self) {
    }

    proof fn lemma_interval(lo: int, mid: int, hi: int) {
    }

    proof fn lemma_value_fits(a: Self) {
    }
}

impl IntegerLike for u64 {
    open spec fn value(self) -> int {
        self as int
    }

    open spec fn fits(v: int) -> bool {
        0 <= v <= u64::MAX
    }

    proof fn lemma_sum(a: Self, b: Self) {
    }

    proof fn lemma_difference(a: Self, b: Self) {
    }

    proof fn lemma_interval(lo: int, mid: int, hi: int) {
    }

    proof fn lemma_value_fits(a: Self) {
    }
}

impl IntegerLike for usize {
    open spec fn value(self) -> int {
        self as int
    }

    open spec fn fits(v: int) -> bool {
        0 <= v <= usize::MAX
    }

    proof fn lemma_sum(a: Self, b: Self) {
    }

    proof fn lemma_difference(a: Self, b: Self) {
    }

    proof fn lemma_interval(lo: int, mid: int, hi: int) {
    }

    proof fn lemma_value_fits(a: Self) {
    }
}

/// The sum of the values of `row` in columns `[l, r)`.
pub open spec fn row_sum<T: IntegerLike>(row: Seq<T>, l: int, r: int) -> int
    decreases r - l,
{
    if l >= r {
        0
    } else {
        row_sum(row, l, r - 1) + row[r - 1].value()
    }
}

/// The sum of the values of `grid` in rows `[t, b)` and columns `[l, r)`.
pub open spec fn rect_sum<T: IntegerLike>(grid: Seq<Seq<T>>, t: int, b: int, l: int, r: int) -> int
    decreases b - t,
{
    if t >= b {
        0
    } else {
        rect_sum(grid, t, b - 1, l, r) + row_sum(grid[b - 1], l, r)
    }
}

/// A rectangle without columns has the sum 0.
pub proof fn lemma_rect_sum_empty<T: IntegerLike>(grid: Seq<Seq<T>>, t: int, b: int, l: int)
    ensures
        rect_sum(grid, t, b, l, l) == 0,
    decreases b - t,
{
    if t < b {
        lemma_rect_sum_empty(grid, t, b - 1, l);
    }
}

/// A row sum splits at any column.
pub proof fn lemma_row_sum_split<T: IntegerLike>(row: Seq<T>, l: int, m: int, r: int)
    requires
        l <= m <= r,
    ensures
        row_sum(row, l, r) == row_sum(row, l, m) + row_sum(row, m, r),
    decreases r - m,
{
    if m < r {
        lemma_row_sum_split(row, l, m, r - 1);
    }
}

/// A rectangle sum splits at any column.
pub proof fn lemma_rect_sum_split_cols<T: IntegerLike>(
    grid: Seq<Seq<T>>,
    t: int,
    b: int,
    l: int,
    m: int,
    r: int,
)
    requires
        l <= m <= r,
    ensures
        rect_sum(grid, t, b, l, r) == rect_sum(grid, t, b, l, m) + rect_sum(grid, t, b, m, r),
    decreases b - t,
{
    if t < b {
        lemma_rect_sum_split_cols(grid, t, b - 1, l, m, r);
        lemma_row_sum_split(grid[b - 1], l, m, r);
    }
}

/// A rectangle sum splits at any row.
pub proof fn lemma_rect_sum_split_rows<T: IntegerLike>(
    grid: Seq<Seq<T>>,
    t: int,
    m: int,
    b: int,
    l: int,
    r: int,
)
    requires
        t <= m <= b,
    ensures
        rect_sum(grid, t, b, l, r) == rect_sum(grid, t, m, l, r) + rect_sum(grid, m, b, l, r),
    decreases b - m,
{
    if m < b {
        lemma_rect_sum_split_rows(grid, t, m, b - 1, l, r);
    }
}

pub struct Accumulate2D<T> {
    h: usize,
    w: usize,
    a: Vec<Vec<T>>,
    d: Vec<Vec<T>>,
}

impl<T> Accumulate2D<T> where T: IntegerLike {
    /// The number of rows.
    pub closed spec fn height(&self) -> nat {
        self.h as nat
    }

    /// The number of columns.
    pub closed spec fn width(&self) -> nat {
        self.w as nat
    }

    /// The grid of values: `height()` rows of `width()` values each.
    pub closed spec fn view(&self) -> Seq<Seq<T>> {
        Seq::new(self.h as nat, |i: int| self.a@[i]@)
    }

    /// The table of sums, one row and one column larger than the grid.
    pub closed spec fn sums(&self) -> Seq<Seq<T>> {
        Seq::new((self.h + 1) as nat, |i: int| self.d@[i]@)
    }

    /// Both tables have their sizes, and the first row and the first column
    /// of the table of sums all hold one value.
    pub closed spec fn wf(&self) -> bool {
        &&& self.h < usize::MAX
        &&& self.w < usize::MAX
        &&& self.a@.len() == self.h
        &&& forall|i: int| 0 <= i < self.h ==> (#[trigger] self.a@[i])@.len() == self.w
        &&& self.d@.len() == self.h + 1
        &&& forall|i: int| 0 <= i <= self.h ==> (#[trigger] self.d@[i])@.len() == self.w + 1
        &&& forall|i: int| 0 <= i <= self.h ==> (#[trigger] self.d@[i])@[0] == self.d@[0]@[0]
        &&& forall|j: int| 0 <= j <= self.w ==> (#[trigger] self.d@[0]@[j]) == self.d@[0]@[0]
    }

    /// The value that the table of sums was made with: what its first row
    /// and first column hold.
    pub open spec fn offset(&self) -> int {
        self.sums()[0][0].value()
    }

    /// The grid and the table of sums have their sizes, and the borders of
    /// the table hold the offset.
    pub proof fn lemma_sizes(&self)
        requires
            self.wf(),
        ensures
            self@.len() == self.height(),
            forall|i: int| 0 <= i < self.height() ==> (#[trigger] self@[i]).len() == self.width(),
            self.sums().len() == self.height() + 1,
            forall|i: int|
                0 <= i <= self.height() ==> (#[trigger] self.sums()[i]).len() == self.width() + 1,
            forall|i: int| 0 <= i <= self.height() ==> (#[trigger] self.sums()[i])[0].value() == self.offset(),
            forall|j: int| 0 <= j <= self.width() ==> (#[trigger] self.sums()[0][j]).value() == self.offset(),
    {
    }

    /// The table of sums is built: entry `(i, j)` is the offset and the sum
    /// of the grid above row `i` and left of column `j`.
    pub open spec fn built(&self) -> bool {
        forall|i: int, j: int|
            0 <= i <= self.height() && 0 <= j <= self.width() ==> (#[trigger] self.sums()[i][j]).value()
                == self.offset() + rect_sum(self@, 0, i, 0, j)
    }

    /// What `build` computes for the entry below row `i` and right of column
    /// `j` is in range at every step.
    pub open spec fn entry_fits(&self, i: int, j: int) -> bool {
        let c = self.offset();
        let x = self@[i][j].value();
        &&& T::fits(x + c + rect_sum(self@, 0, i + 1, 0, j))
        &&& T::fits(x + c + rect_sum(self@, 0, i + 1, 0, j) + c + rect_sum(self@, 0, i, 0, j + 1))
        &&& T::fits(c + rect_sum(self@, 0, i + 1, 0, j + 1))
    }

    /// Every step of `build` is in range.
    pub open spec fn build_fits(&self) -> bool {
        forall|i: int, j: int|
            0 <= i < self.height() && 0 <= j < self.width() ==> #[trigger] self.entry_fits(i, j)
    }

    /// Every step of `query(t, b, l, r)` is in range.
    pub open spec fn query_fits(&self, t: int, b: int, l: int, r: int) -> bool {
        let s = self.sums();
        &&& T::fits(s[b][r].value() + s[t][l].value())
        &&& T::fits(s[b][r].value() + s[t][l].value() - s[b][l].value())
        &&& T::fits(s[b][r].value() + s[t][l].value() - s[b][l].value() - s[t][r].value())
    }

    /// A grid of `h` rows and `w` columns and a table of sums for it, every
    /// entry of both holding `init`.
    pub fn new(h: usize, w: usize, init: T) -> (acc: Self)
        requires
            h < usize::MAX,
            w < usize::MAX,
        ensures
            acc.wf(),
            acc.height() == h,
            acc.width() == w,
            forall|i: int, j: int| 0 <= i < h && 0 <= j < w ==> (#[trigger] acc@[i][j]) == init,
            forall|i: int, j: int| 0 <= i <= h && 0 <= j <= w ==> (#[trigger] acc.sums()[i][j]) == init,
    {
        let a = filled(h, w, init);
        let s = filled(h + 1, w + 1, init);
        Accumulate2D { h, w, a, d: s }
    }

    /// Fills the table of sums from the grid.
    pub fn build(&mut self)
        requires
            old(self).wf(),
            old(self).build_fits(),
        ensures
            final(self).wf(),
            final(self).height() == old(self).height(),
            final(self).width() == old(self).width(),
            final(self)@ == old(self)@,
            final(self).offset() == old(self).offset(),
            final(self).built(),
    {
        let ghost c = self.offset();
        let ghost grid = self@;
        let mut i: usize = 0;
        proof {
            assert forall|b: int| 0 <= b <= self.w implies rect_sum(grid, 0, 0, 0, b) == 0 by {
            }
        }
        while i < self.h
            invariant
                self.wf(),
                self.h == old(self).h,
                self.w == old(self).w,
                self@ == grid,
                grid == old(self)@,
                self.offset() == c,
                c == old(self).offset(),
                old(self).build_fits(),
                i <= self.h,
                forall|a: int, b: int|
                    0 <= a <= i && 0 <= b <= self.w ==> (#[trigger] self.sums()[a][b]).value() == c
                        + rect_sum(grid, 0, a, 0, b),
            decreases self.h - i,
        {
            let mut j: usize = 0;
            proof {
                lemma_rect_sum_empty(grid, 0, i + 1, 0);
            }
            while j < self.w
                invariant
                    self.wf(),
                    self.h == old(self).h,
                    self.w == old(self).w,
                    self@ == grid,
                    grid == old(self)@,
                    self.offset() == c,
                    c == old(self).offset(),
                    old(self).build_fits(),
                    i < self.h,
                    j <= self.w,
                    forall|a: int, b: int|
                        0 <= a <= i && 0 <= b <= self.w ==> (#[trigger] self.sums()[a][b]).value()
                            == c + rect_sum(grid, 0, a, 0, b),
                    forall|b: int|
                        0 <= b <= j ==> (#[trigger] self.sums()[i + 1][b]).value() == c + rect_sum(
                            grid,
                            0,
                            i + 1,
                            0,
                            b,
                        ),
                decreases self.w - j,
            {
                let ghost before = *self;
                let x = self.a[i][j];
                let left = self.d[i + 1][j];
                let up = self.d[i][j + 1];
                let corner = self.d[i][j];
                proof {
                    assert(old(self).entry_fits(i as int, j as int));
                    assert(x == grid[i as int][j as int]);
                    assert(left == self.sums()[i + 1][j as int]);
                    assert(up == self.sums()[i as int][j + 1]);
                    assert(corner == self.sums()[i as int][j as int]);
                    lemma_corner_sum(grid, i as int, j as int);
                    T::lemma_sum(x, left);
                    T::lemma_sum(x.add_spec(left), up);
                    T::lemma_value_fits(corner);
                    T::lemma_value_fits(up);
                    T::lemma_difference(x.add_spec(left).add_spec(up), corner);
                }
                let v = x + left + up - corner;
                self.d[i + 1][j + 1] = v;
                proof {
                    assert(self@ =~= grid);
                    assert forall|a: int, b: int| 0 <= a <= self.h && 0 <= b <= self.w implies (
                    #[trigger] self.sums()[a][b]) == (if a == i + 1 && b == j + 1 {
                        v
                    } else {
                        before.sums()[a][b]
                    }) by {
                    }
                    assert forall|a: int, b: int| 0 <= a <= i && 0 <= b <= self.w implies (
                    #[trigger] self.sums()[a][b]).value() == c + rect_sum(grid, 0, a, 0, b) by {
                        assert(before.sums()[a][b].value() == c + rect_sum(grid, 0, a, 0, b));
                    }
                    assert forall|b: int| 0 <= b <= j + 1 implies (#[trigger] self.sums()[i
                        + 1][b]).value() == c + rect_sum(grid, 0, i + 1, 0, b) by {
                        if b <= j {
                            assert(before.sums()[i + 1][b].value() == c + rect_sum(grid, 0, i + 1, 0, b));
                        }
                    }
                }
                j += 1;
            }
            i += 1;
        }
    }

    /// The sum of the values in rows `[t, b)` and columns `[l, r)`.
    pub fn query(&self, t: usize, b: usize, l: usize, r: usize) -> (res: T)
        requires
            self.wf(),
            t <= self.height(),
            b <= self.height(),
            l <= self.width(),
            r <= self.width(),
            self.query_fits(t as int, b as int, l as int, r as int),
        ensures
            res.value() == self.sums()[b as int][r as int].value() + self.sums()[t as int][l as int].value()
                - self.sums()[b as int][l as int].value() - self.sums()[t as int][r as int].value(),
            self.built() && t <= b && l <= r ==> res.value() == rect_sum(
                self@,
                t as int,
                b as int,
                l as int,
                r as int,
            ),
    {
        let p = self.d[b][r];
        let q = self.d[t][l];
        let m = self.d[b][l];
        let n = self.d[t][r];
        proof {
            assert(p == self.sums()[b as int][r as int]);
            assert(q == self.sums()[t as int][l as int]);
            assert(m == self.sums()[b as int][l as int]);
            assert(n == self.sums()[t as int][r as int]);
            T::lemma_sum(p, q);
            T::lemma_difference(p.add_spec(q), m);
            T::lemma_difference(p.add_spec(q).sub_spec(m), n);
            if self.built() && t <= b && l <= r {
                lemma_rect_sum_split_rows(self@, 0, t as int, b as int, 0, r as int);
                lemma_rect_sum_split_rows(self@, 0, t as int, b as int, 0, l as int);
                lemma_rect_sum_split_cols(self@, t as int, b as int, 0, l as int, r as int);
            }
        }
        p + q - m - n
    }

    /// Adds `v` to the value in row `r`, column `c`.
    pub fn add(&mut self, r: usize, c: usize, v: T)
        requires
            old(self).wf(),
            r < old(self).height(),
            c < old(self).width(),
            T::fits(old(self)@[r as int][c as int].value() + v.value()),
        ensures
            final(self).wf(),
            final(self).height() == old(self).height(),
            final(self).width() == old(self).width(),
            final(self).sums() == old(self).sums(),
            final(self)@.len() == old(self)@.len(),
            final(self)@[r as int][c as int].value() == old(self)@[r as int][c as int].value()
                + v.value(),
            forall|i: int, j: int|
                0 <= i < old(self).height() && 0 <= j < old(self).width() && !(i == r && j == c)
                    ==> (#[trigger] final(self)@[i][j]) == old(self)@[i][j],
    {
        proof {
            T::lemma_sum(self.a@[r as int]@[c as int], v);
        }
        let x = self.a[r][c] + v;
        self.put(r, c, x);
    }

    /// Writes `v` to row `r`, column `c` of the grid.
    pub fn set(&mut self, r: usize, c: usize, v: T)
        requires
            old(self).wf(),
            r < old(self).height(),
            c < old(self).width(),
        ensures
            final(self).wf(),
            final(self).height() == old(self).height(),
            final(self).width() == old(self).width(),
            final(self).sums() == old(self).sums(),
            final(self)@.len() == old(self)@.len(),
            final(self)@[r as int][c as int] == v,
            forall|i: int, j: int|
                0 <= i < old(self).height() && 0 <= j < old(self).width() && !(i == r && j == c)
                    ==> (#[trigger] final(self)@[i][j]) == old(self)@[i][j],
    {
        self.put(r, c, v);
    }

    fn put(&mut self, r: usize, c: usize, v: T)
        requires
            old(self).wf(),
            r < old(self).height(),
            c < old(self).width(),
        ensures
            final(self).wf(),
            final(self).height() == old(self).height(),
            final(self).width() == old(self).width(),
            final(self).sums() == old(self).sums(),
            final(self)@.len() == old(self)@.len(),
            final(self)@[r as int][c as int] == v,
            forall|i: int, j: int|
                0 <= i < old(self).height() && 0 <= j < old(self).width() && !(i == r && j == c)
                    ==> (#[trigger] final(self)@[i][j]) == old(self)@[i][j],
    {
        self.a[r][c] = v;
        proof {
            assert(self.sums() =~= old(self).sums());
        }
    }
}

/// The sum above row `i + 1` and left of column `j + 1`, from the cell at
/// `(i, j)` and the three sums next to it.
proof fn lemma_corner_sum<T: IntegerLike>(grid: Seq<Seq<T>>, i: int, j: int)
    requires
        0 <= i,
        0 <= j,
    ensures
        rect_sum(grid, 0, i + 1, 0, j + 1) == grid[i][j].value() + rect_sum(grid, 0, i + 1, 0, j)
            + rect_sum(grid, 0, i, 0, j + 1) - rect_sum(grid, 0, i, 0, j),
{
}

/// `h` rows of `w` copies of `init`.
fn filled<T: Copy>(h: usize, w: usize, init: T) -> (rows: Vec<Vec<T>>)
    ensures
        rows@.len() == h,
        forall|i: int| 0 <= i < h ==> (#[trigger] rows@[i])@.len() == w,
        forall|i: int, j: int| 0 <= i < h && 0 <= j < w ==> (#[trigger] rows@[i]@[j]) == init,
{
    let mut rows: Vec<Vec<T>> = Vec::new();
    let mut i: usize = 0;
    while i < h
        invariant
            i <= h,
            rows@.len() == i,
            forall|k: int| 0 <= k < i ==> (#[trigger] rows@[k])@.len() == w,
            forall|k: int, j: int| 0 <= k < i && 0 <= j < w ==> (#[trigger] rows@[k]@[j]) == init,
        decreases h - i,
    {
        let mut row: Vec<T> = Vec::new();
        let mut j: usize = 0;
        while j < w
            invariant
                j <= w,
                row@.len() == j,
                forall|k: int| 0 <= k < j ==> (#[trigger] row@[k]) == init,
            decreases w - j,
        {
            row.push(init);
            j += 1;
        }
        rows.push(row);
        i += 1;
    }
    rows
}

} // verus!
