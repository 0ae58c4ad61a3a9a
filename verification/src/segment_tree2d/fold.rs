//! Combining operations and folds of them over index ranges.
//!
//! [`fold_range`] combines the values of an indexed family over a half-open
//! range under an operation `g`, and [`region_total`] does so over a
//! rectangle of a grid.

use vstd::prelude::*;

verus! {

/// `(a . b) . c == a . (b . c)` for these three values.
pub open spec fn associative_at<T>(g: spec_fn(T, T) -> T, a: T, b: T, c: T) -> bool {
    g(g(a, b), c) == g(a, g(b, c))
}

/// `a . b == b . a` for these two values.
pub open spec fn commutative_at<T>(g: spec_fn(T, T) -> T, a: T, b: T) -> bool {
    g(a, b) == g(b, a)
}

/// `unit . a == a == a . unit` for this value.
pub open spec fn neutral_at<T>(g: spec_fn(T, T) -> T, unit: T, a: T) -> bool {
    g(unit, a) == a && g(a, unit) == a
}

/// `g` is associative and `unit` is neutral for it.
pub open spec fn is_monoid<T>(g: spec_fn(T, T) -> T, unit: T) -> bool {
    &&& forall|a: T, b: T, c: T| #[trigger] associative_at(g, a, b, c)
    &&& forall|a: T| #[trigger] neutral_at(g, unit, a)
}

/// `g` is associative and commutative, and `unit` is neutral for it.
pub open spec fn is_commutative_monoid<T>(g: spec_fn(T, T) -> T, unit: T) -> bool {
    &&& is_monoid(g, unit)
    &&& forall|a: T, b: T| #[trigger] commutative_at(g, a, b)
}

/// `v(a) . v(a + 1) . ... . v(b - 1)`, and `unit` where the range is empty.
pub open spec fn fold_range<T>(
    g: spec_fn(T, T) -> T,
    unit: T,
    v: spec_fn(int) -> T,
    a: int,
    b: int,
) -> T
    decreases b - a,
{
    if a >= b {
        unit
    } else {
        g(v(a), fold_range(g, unit, v, a + 1, b))
    }
}

/// The values of `row`, by index.
pub open spec fn row_values<T>(row: Seq<T>) -> spec_fn(int) -> T {
    |j: int| row[j]
}

/// The combination of `row[w1], ..., row[w2 - 1]`.
pub open spec fn row_total<T>(g: spec_fn(T, T) -> T, unit: T, row: Seq<T>, w1: int, w2: int) -> T {
    fold_range(g, unit, row_values(row), w1, w2)
}

/// For each row of `grid`, by index, the combination of its cells in columns
/// `[w1, w2)`.
pub open spec fn row_totals<T>(
    g: spec_fn(T, T) -> T,
    unit: T,
    grid: Seq<Seq<T>>,
    w1: int,
    w2: int,
) -> spec_fn(int) -> T {
    |i: int| row_total(g, unit, grid[i], w1, w2)
}

/// The combination of the cells of `grid` in rows `[h1, h2)` and columns
/// `[w1, w2)`, row by row and within each row from left to right.
pub open spec fn region_total<T>(
    g: spec_fn(T, T) -> T,
    unit: T,
    grid: Seq<Seq<T>>,
    h1: int,
    h2: int,
    w1: int,
    w2: int,
) -> T {
    fold_range(g, unit, row_totals(g, unit, grid, w1, w2), h1, h2)
}

/// `(x . y) . (p . q) == (x . p) . (y . q)` in a commutative monoid.
pub proof fn lemma_interchange<T>(g: spec_fn(T, T) -> T, unit: T, x: T, y: T, p: T, q: T)
    requires
        is_commutative_monoid(g, unit),
    ensures
        g(g(x, y), g(p, q)) == g(g(x, p), g(y, q)),
{
    let pq = g(p, q);
    let yq = g(y, q);
    assert(associative_at(g, x, y, pq));
    assert(associative_at(g, y, p, q));
    assert(commutative_at(g, y, p));
    assert(associative_at(g, p, y, q));
    assert(associative_at(g, x, p, yq));
}

/// Two families that agree on `[a, b)` have the same fold over it.
pub proof fn lemma_fold_agree<T>(
    g: spec_fn(T, T) -> T,
    unit: T,
    u: spec_fn(int) -> T,
    v: spec_fn(int) -> T,
    a: int,
    b: int,
)
    requires
        forall|i: int| a <= i < b ==> #[trigger] u(i) == v(i),
    ensures
        fold_range(g, unit, u, a, b) == fold_range(g, unit, v, a, b),
    decreases b - a,
{
    if a < b {
        lemma_fold_agree(g, unit, u, v, a + 1, b);
    }
}

/// A family read at an offset folds as the family itself over the moved range.
pub proof fn lemma_fold_shift<T>(
    g: spec_fn(T, T) -> T,
    unit: T,
    u: spec_fn(int) -> T,
    v: spec_fn(int) -> T,
    k: int,
    a: int,
    b: int,
)
    requires
        forall|i: int| a <= i < b ==> #[trigger] u(i) == v(i + k),
    ensures
        fold_range(g, unit, u, a, b) == fold_range(g, unit, v, a + k, b + k),
    decreases b - a,
{
    if a < b {
        lemma_fold_shift(g, unit, u, v, k, a + 1, b);
    }
}

/// The last element of a non-empty range can be split off the fold.
pub proof fn lemma_fold_last<T>(
    g: spec_fn(T, T) -> T,
    unit: T,
    v: spec_fn(int) -> T,
    a: int,
    b: int,
)
    requires
        is_monoid(g, unit),
        a < b,
    ensures
        fold_range(g, unit, v, a, b) == g(fold_range(g, unit, v, a, b - 1), v(b - 1)),
    decreases b - a,
{
    if a + 1 == b {
        assert(neutral_at(g, unit, v(a)));
        assert(fold_range(g, unit, v, a + 1, b) == unit);
        assert(fold_range(g, unit, v, a, a) == unit);
    } else {
        lemma_fold_last(g, unit, v, a + 1, b);
        assert(associative_at(g, v(a), fold_range(g, unit, v, a + 1, b - 1), v(b - 1)));
    }
}

/// Where every `u(i)` is `v(2i) . v(2i + 1)`, the fold of `u` over `[a, b)` is
/// the fold of `v` over `[2a, 2b)`.
pub proof fn lemma_fold_pairs<T>(
    g: spec_fn(T, T) -> T,
    unit: T,
    u: spec_fn(int) -> T,
    v: spec_fn(int) -> T,
    a: int,
    b: int,
)
    requires
        is_monoid(g, unit),
        forall|i: int| a <= i < b ==> #[trigger] u(i) == g(v(2 * i), v(2 * i + 1)),
    ensures
        fold_range(g, unit, u, a, b) == fold_range(g, unit, v, 2 * a, 2 * b),
    decreases b - a,
{
    if a < b {
        lemma_fold_pairs(g, unit, u, v, a + 1, b);
        let rest = fold_range(g, unit, v, 2 * a + 2, 2 * b);
        assert(fold_range(g, unit, v, 2 * a + 1, 2 * b) == g(v(2 * a + 1), rest));
        assert(associative_at(g, v(2 * a), v(2 * a + 1), rest));
    } else {
        assert(neutral_at(g, unit, unit));
    }
}

/// Where every `u(i)` is `v(i) . w(i)`, the fold of `u` is the fold of `v`
/// combined with the fold of `w`.
pub proof fn lemma_fold_pointwise<T>(
    g: spec_fn(T, T) -> T,
    unit: T,
    u: spec_fn(int) -> T,
    v: spec_fn(int) -> T,
    w: spec_fn(int) -> T,
    a: int,
    b: int,
)
    requires
        is_commutative_monoid(g, unit),
        forall|i: int| a <= i < b ==> #[trigger] u(i) == g(v(i), w(i)),
    ensures
        fold_range(g, unit, u, a, b) == g(fold_range(g, unit, v, a, b), fold_range(g, unit, w, a, b)),
    decreases b - a,
{
    if a < b {
        lemma_fold_pointwise(g, unit, u, v, w, a + 1, b);
        lemma_interchange(g,
            unit,
            v(a),
            w(a),
            fold_range(g, unit, v, a + 1, b),
            fold_range(g, unit, w, a + 1, b),
        );
    } else {
        assert(neutral_at(g, unit, unit));
    }
}

/// Taking the first element of `[l, r)` into the accumulator keeps the total.
pub proof fn lemma_take_first<T>(
    g: spec_fn(T, T) -> T,
    unit: T,
    v: spec_fn(int) -> T,
    acc: T,
    l: int,
    r: int,
)
    requires
        is_monoid(g, unit),
        l < r,
    ensures
        g(g(acc, v(l)), fold_range(g, unit, v, l + 1, r)) == g(acc, fold_range(g, unit, v, l, r)),
{
    assert(associative_at(g, acc, v(l), fold_range(g, unit, v, l + 1, r)));
}

/// Taking the last element of `[l, r)` into the accumulator keeps the total,
/// where the operation is commutative.
pub proof fn lemma_take_last<T>(
    g: spec_fn(T, T) -> T,
    unit: T,
    v: spec_fn(int) -> T,
    acc: T,
    l: int,
    r: int,
)
    requires
        is_commutative_monoid(g, unit),
        l < r,
    ensures
        g(g(acc, v(r - 1)), fold_range(g, unit, v, l, r - 1)) == g(acc, fold_range(g, unit, v, l, r)),
{
    let init = fold_range(g, unit, v, l, r - 1);
    lemma_fold_last(g, unit, v, l, r);
    assert(associative_at(g, acc, v(r - 1), init));
    assert(commutative_at(g, v(r - 1), init));
}

} // verus!
