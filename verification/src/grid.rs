//! Positions, directions and rectangular grids.
//!
//! A position wraps around on overflow, so that `usize::MAX` as an offset
//! stands for a step of -1; positions outside a grid are told apart by
//! `Grid::is_valid_position`.

use vstd::prelude::*;

verus! {

/// The four directions: down, right, up, left.
#[derive(Clone, Copy, PartialEq, Eq, Debug, Structural)]
pub enum Direction {
    D,
    R,
    U,
    L,
}

/// A position: row and column.
#[derive(Clone, Copy, PartialEq, Eq, Debug, Hash, Structural)]
pub struct P(pub usize, pub usize);

/// The offsets of the four directions: down, right, up, left.
pub fn d4() -> (offsets: [P; 4])
    ensures
        offsets@ == four_offsets(),
{
    let offsets = [P(1, 0), P(0, 1), P(usize::MAX, 0), P(0, usize::MAX)];
    proof {
        assert(offsets@ =~= four_offsets());
    }
    offsets
}

/// `a + b` in the arithmetic of machine words, which wraps around.
pub open spec fn wrapped_sum(a: usize, b: usize) -> usize {
    if a + b > usize::MAX {
        (a + b - usize::MAX - 1) as usize
    } else {
        (a + b) as usize
    }
}

/// The position `p` moved by the offset `d`, wrapping around.
pub open spec fn moved(p: P, d: P) -> P {
    P(wrapped_sum(p.0, d.0), wrapped_sum(p.1, d.1))
}

/// The offset of a direction.
pub open spec fn offset_of(d: Direction) -> P {
    match d {
        Direction::D => P(1, 0),
        Direction::R => P(0, 1),
        Direction::U => P(usize::MAX, 0),
        Direction::L => P(0, usize::MAX),
    }
}

/// The four offsets in the order down, right, up, left.
pub open spec fn four_offsets() -> Seq<P> {
    seq![P(1, 0), P(0, 1), P(usize::MAX, 0), P(0, usize::MAX)]
}

impl Direction {
    /// The opposite direction.
    pub fn rev(&self) -> (r: Self)
        ensures
            r == (match *self {
                Direction::D => Direction::U,
                Direction::U => Direction::D,
                Direction::R => Direction::L,
                Direction::L => Direction::R,
            }),
            moved(offset_of(*self), offset_of(r)) == P(0, 0),
    {
        match self {
            Direction::D => Direction::U,
            Direction::U => Direction::D,
            Direction::R => Direction::L,
            Direction::L => Direction::R,
        }
    }

    /// The direction with the number `d`: 0 down, 1 right, 2 up, 3 left.
    pub fn from(d: usize) -> (r: Self)
        requires
            d < 4,
        ensures
            offset_of(r) == four_offsets()[d as int],
    {
        match d {
            0 => Direction::D,
            1 => Direction::R,
            2 => Direction::U,
            _ => Direction::L,
        }
    }

    /// The letter of the direction.
    pub fn to_char(&self) -> (c: char)
        ensures
            c == (match *self {
                Direction::D => 'D',
                Direction::R => 'R',
                Direction::U => 'U',
                Direction::L => 'L',
            }),
    {
        match self {
            Direction::D => 'D',
            Direction::R => 'R',
            Direction::U => 'U',
            Direction::L => 'L',
        }
    }
}

impl P {
    /// The four neighbours of the position: below, right, above, left.
    pub fn adj4(self) -> (out: Vec<P>)
        ensures
            out@ == four_offsets().map_values(|d: P| moved(self, d)),
    {
        let mut out: Vec<P> = Vec::new();
        out.push(self.add(&P(1, 0)));
        out.push(self.add(&P(0, 1)));
        out.push(self.add(&P(usize::MAX, 0)));
        out.push(self.add(&P(0, usize::MAX)));
        proof {
            assert(out@ =~= four_offsets().map_values(|d: P| moved(self, d)));
        }
        out
    }

    /// The position moved by the offset `rhs`, wrapping around.
    pub fn add(self, rhs: &P) -> (r: P)
        ensures
            r == moved(self, *rhs),
    {
        P(self.0.wrapping_add(rhs.0), self.1.wrapping_add(rhs.1))
    }

    /// The position moved one step in the direction `rhs`.
    pub fn step(self, rhs: Direction) -> (r: P)
        ensures
            r == moved(self, offset_of(rhs)),
    {
        match rhs {
            Direction::D => self.add(&P(1, 0)),
            Direction::R => self.add(&P(0, 1)),
            Direction::U => self.add(&P(usize::MAX, 0)),
            Direction::L => self.add(&P(0, usize::MAX)),
        }
    }

    /// The Manhattan distance to `rhp`, for coordinates that fit 31 bits.
    pub fn dist(&self, rhp: &P) -> (r: usize)
        requires
            self.0 <= i32::MAX,
            self.1 <= i32::MAX,
            rhp.0 <= i32::MAX,
            rhp.1 <= i32::MAX,
        ensures
            r == (if self.0 >= rhp.0 {
                self.0 - rhp.0
            } else {
                rhp.0 - self.0
            }) + (if self.1 >= rhp.1 {
                self.1 - rhp.1
            } else {
                rhp.1 - self.1
            }),
    {
        let a0 = self.0 as i32 - rhp.0 as i32;
        let a = (if a0 < 0 {
            -a0
        } else {
            a0
        }) as usize;
        let b0 = self.1 as i32 - rhp.1 as i32;
        let b = (if b0 < 0 {
            -b0
        } else {
            b0
        }) as usize;
        a + b
    }
}

/// A grid of `height()` rows and `width()` columns over the rows `g`.
#[derive(Clone)]
pub struct Grid<T> {
    h: usize,
    w: usize,
    pub g: Vec<Vec<T>>,
}

/// The positions among `b` moved by each of `offsets`, in their order, that
/// lie in a grid of `h` rows and `w` columns.
pub open spec fn positions_inside(b: P, offsets: Seq<P>, h: int, w: int) -> Seq<P> {
    offsets.map_values(|d: P| moved(b, d)).filter(|p: P| p.0 < h && p.1 < w)
}

impl<T> View for Grid<T> {
    type V = Seq<Seq<T>>;

    /// The rows of cells.
    closed spec fn view(&self) -> Seq<Seq<T>> {
        self.g@.map_values(|row: Vec<T>| row@)
    }
}

impl<T: Copy> Grid<T> {
    /// A grid that holds a copy of the rows `g`; its width is the length of
    /// the first row.
    pub fn from(g: &Vec<Vec<T>>) -> (grid: Self)
        requires
            g@.len() > 0,
        ensures
            grid.height() == g@.len(),
            grid.width() == g@[0]@.len(),
            grid@.len() == g@.len(),
            forall|i: int| 0 <= i < g@.len() ==> #[trigger] grid@[i] == g@[i]@,
    {
        let mut rows: Vec<Vec<T>> = Vec::new();
        let mut i: usize = 0;
        while i < g.len()
            invariant
                i <= g@.len(),
                rows@.len() == i,
                forall|k: int| 0 <= k < i ==> (#[trigger] rows@[k])@ == g@[k]@,
            decreases g@.len() - i,
        {
            let mut row: Vec<T> = Vec::new();
            let mut j: usize = 0;
            while j < g[i].len()
                invariant
                    i < g@.len(),
                    j <= g@[i as int]@.len(),
                    row@ == g@[i as int]@.subrange(0, j as int),
                decreases g@[i as int]@.len() - j,
            {
                row.push(g[i][j]);
                proof {
                    assert(row@ =~= g@[i as int]@.subrange(0, j + 1));
                }
                j += 1;
            }
            proof {
                assert(row@ =~= g@[i as int]@);
            }
            rows.push(row);
            i += 1;
        }
        Grid { h: g.len(), w: g[0].len(), g: rows }
    }

    /// A grid of `h` rows and `w` columns in which every cell holds `init`.
    pub fn new(h: usize, w: usize, init: T) -> (grid: Self)
        ensures
            grid.height() == h,
            grid.width() == w,
            grid@.len() == h,
            forall|i: int| 0 <= i < h ==> #[trigger] grid@[i] == Seq::new(w as nat, |j: int| init),
    {
        let mut rows: Vec<Vec<T>> = Vec::new();
        let mut i: usize = 0;
        while i < h
            invariant
                i <= h,
                rows@.len() == i,
                forall|k: int| 0 <= k < i ==> (#[trigger] rows@[k])@ == Seq::new(w as nat, |j: int| init),
            decreases h - i,
        {
            let mut row: Vec<T> = Vec::new();
            let mut j: usize = 0;
            while j < w
                invariant
                    j <= w,
                    row@ == Seq::new(j as nat, |j: int| init),
                decreases w - j,
            {
                row.push(init);
                proof {
                    assert(row@ =~= Seq::new((j + 1) as nat, |j: int| init));
                }
                j += 1;
            }
            rows.push(row);
            i += 1;
        }
        Grid { h, w, g: rows }
    }
}

impl<T> Grid<T> {
    /// The number of rows that positions are checked against.
    pub closed spec fn height(&self) -> nat {
        self.h as nat
    }

    /// The number of columns that positions are checked against.
    pub closed spec fn width(&self) -> nat {
        self.w as nat
    }

    /// `p` lies in the grid.
    pub open spec fn contains(&self, p: P) -> bool {
        p.0 < self.height() && p.1 < self.width()
    }

    /// The cells hold something at `p`.
    pub open spec fn holds(&self, p: P) -> bool {
        p.0 < self@.len() && p.1 < self@[p.0 as int].len()
    }

    /// The row `idx` of cells.
    pub fn row(&self, idx: usize) -> (cells: &[T])
        requires
            idx < self@.len(),
        ensures
            cells@ == self@[idx as int],
    {
        self.g[idx].as_slice()
    }

    /// The cell at `p`.
    pub fn at(&self, p: P) -> (cell: &T)
        requires
            self.holds(p),
        ensures
            *cell == self@[p.0 as int][p.1 as int],
    {
        &self.g[p.0][p.1]
    }

    /// Writes `v` to the cell at `p`, and to no other.
    pub fn put(&mut self, p: P, v: T)
        requires
            old(self).holds(p),
        ensures
            final(self).height() == old(self).height(),
            final(self).width() == old(self).width(),
            final(self)@ == old(self)@.update(p.0 as int, old(self)@[p.0 as int].update(p.1 as int, v)),
    {
        self.g[p.0][p.1] = v;
        proof {
            assert(self@ =~= old(self)@.update(
                p.0 as int,
                old(self)@[p.0 as int].update(p.1 as int, v),
            ));
        }
    }

    /// The neighbours of `p` that lie in the grid, in the order below, right,
    /// above, left.
    pub fn adj4(&self, p: P) -> (out: Vec<P>)
        ensures
            out@ == positions_inside(p, four_offsets(), self.height() as int, self.width() as int),
    {
        let offsets = d4();
        self.positions_from(p, offsets.as_slice())
    }

    /// The positions `b` moved by each of `offsets` that lie in the grid, in
    /// the order of the offsets.
    pub fn positions_from(&self, b: P, offsets: &[P]) -> (out: Vec<P>)
        ensures
            out@ == positions_inside(b, offsets@, self.height() as int, self.width() as int),
    {
        let ghost h = self.h as int;
        let ghost w = self.w as int;
        let mut out: Vec<P> = Vec::new();
        let mut i: usize = 0;
        proof {
            assert(offsets@.subrange(0, 0) =~= Seq::<P>::empty());
            assert(positions_inside(b, Seq::<P>::empty(), h, w) =~= Seq::<P>::empty());
        }
        while i < offsets.len()
            invariant
                i <= offsets@.len(),
                h == self.h,
                w == self.w,
                out@ == positions_inside(b, offsets@.subrange(0, i as int), h, w),
            decreases offsets@.len() - i,
        {
            let p = b.add(&offsets[i]);
            proof {
                lemma_positions_inside_push(b, offsets@.subrange(0, i as int), offsets@[i as int], h, w);
                assert(offsets@.subrange(0, i as int).push(offsets@[i as int]) =~= offsets@.subrange(
                    0,
                    i + 1,
                ));
            }
            if p.0 < self.h && p.1 < self.w {
                out.push(p);
            }
            i += 1;
        }
        proof {
            assert(offsets@.subrange(0, i as int) =~= offsets@);
        }
        out
    }

    /// The position `b` moved by `offset`, where that lies in the grid.
    pub fn position_from(&self, b: P, offset: P) -> (r: Option<P>)
        ensures
            r == (if self.contains(moved(b, offset)) {
                Some(moved(b, offset))
            } else {
                None
            }),
    {
        let x = b.add(&offset);
        if self.is_valid_position(&x) {
            Some(x)
        } else {
            None
        }
    }

    /// Whether `p` lies in the grid.
    pub fn is_valid_position(&self, p: &P) -> (r: bool)
        ensures
            r == self.contains(*p),
    {
        p.0 < self.h && p.1 < self.w
    }
}

/// Taking one more offset adds its position at the end where that lies in
/// the grid.
proof fn lemma_positions_inside_push(b: P, offsets: Seq<P>, d: P, h: int, w: int)
    ensures
        positions_inside(b, offsets.push(d), h, w) == (if moved(b, d).0 < h && moved(b, d).1 < w {
            positions_inside(b, offsets, h, w).push(moved(b, d))
        } else {
            positions_inside(b, offsets, h, w)
        }),
{
    let f = |d: P| moved(b, d);
    let inside = |p: P| p.0 < h && p.1 < w;
    let moved_all = offsets.map_values(f);
    assert(offsets.push(d).map_values(f) =~= moved_all.push(moved(b, d)));
    assert(moved_all.push(moved(b, d)).drop_last() =~= moved_all);
    reveal(Seq::filter);
    assert(moved_all.push(moved(b, d)).filter(inside) == (if inside(moved(b, d)) {
        moved_all.filter(inside).push(moved(b, d))
    } else {
        moved_all.filter(inside)
    }));
}

/// The rows of a rectangle: `h` rows of `w` cells each.
pub open spec fn is_rectangle<T>(rows: Seq<Vec<T>>, h: int, w: int) -> bool {
    rows.len() == h && forall|i: int| 0 <= i < h ==> (#[trigger] rows[i])@.len() == w
}

/// Every row has `w` cells or more.
pub open spec fn rows_reach<T>(rows: Seq<Vec<T>>, w: int) -> bool {
    forall|i: int| 0 <= i < rows.len() ==> (#[trigger] rows[i])@.len() >= w
}

/// The grid turned by a quarter turn clockwise: the first row of the result
/// is the first column read from the bottom up. The width is that of the
/// first row; what longer rows hold beyond it is left out.
pub fn rot_clock<T>(vec: &Vec<Vec<T>>) -> (res: Vec<Vec<T>>) where T: Copy + Default
    requires
        vec@.len() > 0,
        rows_reach(vec@, vec@[0]@.len() as int),
    ensures
        is_rectangle(res@, vec@[0]@.len() as int, vec@.len() as int),
        forall|i: int, j: int|
            0 <= i < vec@[0]@.len() && 0 <= j < vec@.len() ==> (#[trigger] res@[i]@[j])
                == vec@[vec@.len() - 1 - j]@[i],
{
    let h = vec.len();
    let w = vec[0].len();
    let mut res: Vec<Vec<T>> = Vec::new();
    let mut i: usize = 0;
    while i < w
        invariant
            h == vec@.len(),
            h > 0,
            w == vec@[0]@.len(),
            rows_reach(vec@, w as int),
            i <= w,
            is_rectangle(res@, i as int, h as int),
            forall|a: int, b: int|
                0 <= a < i && 0 <= b < h ==> (#[trigger] res@[a]@[b]) == vec@[h - 1 - b]@[a],
        decreases w - i,
    {
        let mut row: Vec<T> = Vec::new();
        let mut j: usize = 0;
        while j < h
            invariant
                h == vec@.len(),
                rows_reach(vec@, w as int),
                i < w,
                j <= h,
                row@.len() == j,
                forall|b: int| 0 <= b < j ==> (#[trigger] row@[b]) == vec@[h - 1 - b]@[i as int],
            decreases h - j,
        {
            row.push(vec[h - 1 - j][i]);
            j += 1;
        }
        res.push(row);
        i += 1;
    }
    res
}

/// The grid turned by a quarter turn counter-clockwise: the first row of the
/// result is the last column read from the top down. The width is that of
/// the first row; what longer rows hold beyond it is left out.
pub fn rot_rev_clock<T>(vec: &Vec<Vec<T>>) -> (res: Vec<Vec<T>>) where T: Copy + Default
    requires
        vec@.len() > 0,
        rows_reach(vec@, vec@[0]@.len() as int),
    ensures
        is_rectangle(res@, vec@[0]@.len() as int, vec@.len() as int),
        forall|i: int, j: int|
            0 <= i < vec@[0]@.len() && 0 <= j < vec@.len() ==> (#[trigger] res@[i]@[j])
                == vec@[j]@[vec@[0]@.len() - i - 1],
{
    let h = vec.len();
    let w = vec[0].len();
    let mut res: Vec<Vec<T>> = Vec::new();
    let mut i: usize = 0;
    while i < w
        invariant
            h == vec@.len(),
            h > 0,
            w == vec@[0]@.len(),
            rows_reach(vec@, w as int),
            i <= w,
            is_rectangle(res@, i as int, h as int),
            forall|a: int, b: int|
                0 <= a < i && 0 <= b < h ==> (#[trigger] res@[a]@[b]) == vec@[b]@[w - a - 1],
        decreases w - i,
    {
        let mut row: Vec<T> = Vec::new();
        let mut j: usize = 0;
        while j < h
            invariant
                h == vec@.len(),
                rows_reach(vec@, w as int),
                i < w,
                j <= h,
                row@.len() == j,
                forall|b: int| 0 <= b < j ==> (#[trigger] row@[b]) == vec@[b]@[w - i - 1],
            decreases h - j,
        {
            row.push(vec[j][w - i - 1]);
            j += 1;
        }
        res.push(row);
        i += 1;
    }
    res
}

} // verus!
