//! Products and powers of matrices over caller-supplied addition and
//! multiplication.
//!
//! A matrix is a vector of rows. The two operations are executable code;
//! results are stated for every pair of mathematical operations that they
//! compute and for the value that `T::default()` gives, which is where every
//! sum starts.

use vstd::prelude::*;
use crate::operation::{accepts_all, computes, default_is};

verus! {

/// The rows of a matrix as sequences.
pub open spec fn rows_of<T>(m: Seq<Vec<T>>) -> Seq<Seq<T>> {
    m.map_values(|row: Vec<T>| row@)
}

/// `m` has `h` rows of `w` entries each.
pub open spec fn has_shape<T>(m: Seq<Seq<T>>, h: int, w: int) -> bool {
    m.len() == h && forall|i: int| 0 <= i < h ==> (#[trigger] m[i]).len() == w
}

/// The sum, from `zero` on, of the products of the first `k` entries of
/// `row` with the first `k` entries of column `j` of `x`, in order.
pub open spec fn dot<T>(
    plus: spec_fn(T, T) -> T,
    times: spec_fn(T, T) -> T,
    zero: T,
    row: Seq<T>,
    x: Seq<Seq<T>>,
    j: int,
    k: int,
) -> T
    decreases k,
{
    if k <= 0 {
        zero
    } else {
        plus(dot(plus, times, zero, row, x, j, k - 1), times(row[k - 1], x[k - 1][j]))
    }
}

/// The product of the matrix `a` with the matrix `x`.
pub open spec fn product<T>(
    plus: spec_fn(T, T) -> T,
    times: spec_fn(T, T) -> T,
    zero: T,
    a: Seq<Seq<T>>,
    x: Seq<Seq<T>>,
) -> Seq<Seq<T>> {
    Seq::new(
        a.len(),
        |i: int| Seq::new(x[0].len(), |j: int| dot(plus, times, zero, a[i], x, j, a[0].len() as int)),
    )
}

/// What binary exponentiation makes of `m`, the running square `a` and the
/// remaining exponent `n`: for an associative product, `a^n * m`.
pub open spec fn power<T>(
    plus: spec_fn(T, T) -> T,
    times: spec_fn(T, T) -> T,
    zero: T,
    n: nat,
    a: Seq<Seq<T>>,
    m: Seq<Seq<T>>,
) -> Seq<Seq<T>>
    decreases n,
{
    if n == 0 {
        m
    } else {
        power(
            plus,
            times,
            zero,
            n / 2,
            product(plus, times, zero, a, a),
            if n % 2 == 1 {
                product(plus, times, zero, a, m)
            } else {
                m
            },
        )
    }
}

/// The three spec values stand for the executable operations and the
/// default value.
pub open spec fn stand_for<T: Default, MatAdd: Fn(T, T) -> T, MatProd: Fn(T, T) -> T>(
    add: MatAdd,
    prod: MatProd,
    plus: spec_fn(T, T) -> T,
    times: spec_fn(T, T) -> T,
    zero: T,
) -> bool {
    computes(add, plus) && computes(prod, times) && default_is(zero)
}

/// The product `A x` of two matrices.
#[allow(non_snake_case)]
pub fn prod_matrix<T, MatAdd, MatProd>(
    A: &Vec<Vec<T>>,
    x: &Vec<Vec<T>>,
    add: MatAdd,
    prod: MatProd,
) -> (res: Vec<Vec<T>>) where T: Copy + Default, MatAdd: Fn(T, T) -> T, MatProd: Fn(T, T) -> T
    requires
        A@.len() > 0,
        x@.len() > 0,
        has_shape(rows_of(A@), A@.len() as int, x@.len() as int),
        has_shape(rows_of(x@), x@.len() as int, x@[0]@.len() as int),
        accepts_all(add),
        accepts_all(prod),
    ensures
        has_shape(rows_of(res@), A@.len() as int, x@[0]@.len() as int),
        forall|plus: spec_fn(T, T) -> T, times: spec_fn(T, T) -> T, zero: T| #[trigger]
            stand_for(add, prod, plus, times, zero) ==> rows_of(res@) == product(
                plus,
                times,
                zero,
                rows_of(A@),
                rows_of(x@),
            ),
{
    times_matrix(A, x, &add, &prod)
}

/// The product `A x`, with the operations taken by reference.
#[allow(non_snake_case)]
fn times_matrix<T, MatAdd, MatProd>(
    A: &Vec<Vec<T>>,
    x: &Vec<Vec<T>>,
    adder: &MatAdd,
    multiplier: &MatProd,
) -> (res: Vec<Vec<T>>) where T: Copy + Default, MatAdd: Fn(T, T) -> T, MatProd: Fn(T, T) -> T
    requires
        A@.len() > 0,
        x@.len() > 0,
        has_shape(rows_of(A@), A@.len() as int, x@.len() as int),
        has_shape(rows_of(x@), x@.len() as int, x@[0]@.len() as int),
        accepts_all(*adder),
        accepts_all(*multiplier),
    ensures
        has_shape(rows_of(res@), A@.len() as int, x@[0]@.len() as int),
        forall|plus: spec_fn(T, T) -> T, times: spec_fn(T, T) -> T, zero: T| #[trigger]
            stand_for(*adder, *multiplier, plus, times, zero) ==> rows_of(res@) == product(
                plus,
                times,
                zero,
                rows_of(A@),
                rows_of(x@),
            ),
{
    let row = A.len();
    let col = x[0].len();
    let inner = A[0].len();
    let ghost am = rows_of(A@);
    let ghost xm = rows_of(x@);
    proof {
        assert(am[0] == A@[0]@);
        assert(xm[0] == x@[0]@);
    }
    let mut res: Vec<Vec<T>> = Vec::new();
    let mut i: usize = 0;
    while i < row
        invariant
            row == A@.len(),
            col == x@[0]@.len(),
            inner == x@.len(),
            row > 0,
            inner > 0,
            am == rows_of(A@),
            xm == rows_of(x@),
            has_shape(am, row as int, inner as int),
            has_shape(xm, inner as int, col as int),
            accepts_all(*adder),
            accepts_all(*multiplier),
            i <= row,
            res@.len() == i,
            forall|a: int| 0 <= a < i ==> (#[trigger] res@[a])@.len() == col,
            forall|plus: spec_fn(T, T) -> T, times: spec_fn(T, T) -> T, zero: T| #[trigger]
                stand_for(*adder, *multiplier, plus, times, zero) ==> forall|a: int, b: int|
                    0 <= a < i && 0 <= b < col ==> (#[trigger] res@[a]@[b]) == dot(
                        plus,
                        times,
                        zero,
                        am[a],
                        xm,
                        b,
                        inner as int,
                    ),
        decreases row - i,
    {
        let mut out: Vec<T> = Vec::new();
        let mut j: usize = 0;
        while j < col
            invariant
                row == A@.len(),
                col == x@[0]@.len(),
                inner == x@.len(),
                am == rows_of(A@),
                xm == rows_of(x@),
                has_shape(am, row as int, inner as int),
                has_shape(xm, inner as int, col as int),
                accepts_all(*adder),
                accepts_all(*multiplier),
                i < row,
                j <= col,
                out@.len() == j,
                forall|plus: spec_fn(T, T) -> T, times: spec_fn(T, T) -> T, zero: T| #[trigger]
                    stand_for(*adder, *multiplier, plus, times, zero) ==> forall|b: int|
                        0 <= b < j ==> (#[trigger] out@[b]) == dot(
                            plus,
                            times,
                            zero,
                            am[i as int],
                            xm,
                            b,
                            inner as int,
                        ),
            decreases col - j,
        {
            let mut tot = T::default();
            let mut k: usize = 0;
            while k < inner
                invariant
                    row == A@.len(),
                    col == x@[0]@.len(),
                    inner == x@.len(),
                    am == rows_of(A@),
                    xm == rows_of(x@),
                    has_shape(am, row as int, inner as int),
                    has_shape(xm, inner as int, col as int),
                    accepts_all(*adder),
                    accepts_all(*multiplier),
                    i < row,
                    j < col,
                    k <= inner,
                    forall|plus: spec_fn(T, T) -> T, times: spec_fn(T, T) -> T, zero: T| #[trigger]
                        stand_for(*adder, *multiplier, plus, times, zero) ==> tot == dot(
                            plus,
                            times,
                            zero,
                            am[i as int],
                            xm,
                            j as int,
                            k as int,
                        ),
                decreases inner - k,
            {
                proof {
                    assert(am[i as int] == A@[i as int]@);
                    assert(xm[k as int] == x@[k as int]@);
                }
                let p = multiplier(A[i][k], x[k][j]);
                tot = adder(tot, p);
                k += 1;
            }
            out.push(tot);
            j += 1;
        }
        res.push(out);
        i += 1;
    }
    proof {
        assert forall|plus: spec_fn(T, T) -> T, times: spec_fn(T, T) -> T, zero: T| #[trigger]
            stand_for(*adder, *multiplier, plus, times, zero) implies rows_of(res@) == product(
            plus,
            times,
            zero,
            am,
            xm,
        ) by {
            let want = product(plus, times, zero, am, xm);
            assert forall|a: int| 0 <= a < row implies #[trigger] rows_of(res@)[a] =~= want[a] by {
                assert forall|b: int| 0 <= b < col implies rows_of(res@)[a][b] == want[a][b] by {
                    assert(res@[a]@[b] == dot(plus, times, zero, am[a], xm, b, inner as int));
                }
            }
            assert(rows_of(res@) =~= want);
        }
        assert forall|a: int| 0 <= a < row implies (#[trigger] rows_of(res@)[a]).len() == col by {
            assert(rows_of(res@)[a] == res@[a]@);
        }
    }
    res
}

/// A copy of the matrix `m`.
fn copy_matrix<T: Copy>(m: &Vec<Vec<T>>) -> (res: Vec<Vec<T>>)
    ensures
        rows_of(res@) == rows_of(m@),
{
    let mut res: Vec<Vec<T>> = Vec::new();
    let mut i: usize = 0;
    while i < m.len()
        invariant
            i <= m@.len(),
            res@.len() == i,
            forall|k: int| 0 <= k < i ==> (#[trigger] res@[k])@ == m@[k]@,
        decreases m@.len() - i,
    {
        let mut row: Vec<T> = Vec::new();
        let mut j: usize = 0;
        while j < m[i].len()
            invariant
                i < m@.len(),
                j <= m@[i as int]@.len(),
                row@ == m@[i as int]@.subrange(0, j as int),
            decreases m@[i as int]@.len() - j,
        {
            row.push(m[i][j]);
            proof {
                assert(row@ =~= m@[i as int]@.subrange(0, j + 1));
            }
            j += 1;
        }
        proof {
            assert(row@ =~= m@[i as int]@);
        }
        res.push(row);
        i += 1;
    }
    proof {
        assert(rows_of(res@) =~= rows_of(m@));
    }
    res
}

/// The power `A^n` applied to `E`, by repeated squaring: `A^n E` where the
/// product of matrices is associative.
#[allow(non_snake_case)]
pub fn pow_matrix<T, MatAdd, MatProd>(
    n: usize,
    A: &Vec<Vec<T>>,
    E: &Vec<Vec<T>>,
    add: MatAdd,
    prod: MatProd,
) -> (res: Vec<Vec<T>>) where T: Copy + Default, MatAdd: Fn(T, T) -> T, MatProd: Fn(T, T) -> T
    requires
        A@.len() > 0,
        has_shape(rows_of(A@), A@.len() as int, A@.len() as int),
        n > 0 ==> E@.len() == A@.len() && has_shape(rows_of(E@), E@.len() as int, E@[0]@.len() as int),
        accepts_all(add),
        accepts_all(prod),
    ensures
        forall|plus: spec_fn(T, T) -> T, times: spec_fn(T, T) -> T, zero: T| #[trigger]
            stand_for(add, prod, plus, times, zero) ==> rows_of(res@) == power(
                plus,
                times,
                zero,
                n as nat,
                rows_of(A@),
                rows_of(E@),
            ),
{
    let mut n = n;
    let ghost n0 = n;
    let ghost size = A@.len() as int;
    let ghost width = E@[0]@.len() as int;
    let mut a = copy_matrix(A);
    let mut mat0 = copy_matrix(E);
    proof {
        assert(rows_of(a@).len() == a@.len());
        assert(rows_of(mat0@).len() == mat0@.len());
    }
    while n > 0
        invariant
            size > 0,
            a@.len() == size,
            has_shape(rows_of(a@), size, size),
            n > 0 ==> mat0@.len() == size && has_shape(rows_of(mat0@), size, width),
            accepts_all(add),
            accepts_all(prod),
            forall|plus: spec_fn(T, T) -> T, times: spec_fn(T, T) -> T, zero: T| #[trigger]
                stand_for(add, prod, plus, times, zero) ==> power(
                    plus,
                    times,
                    zero,
                    n as nat,
                    rows_of(a@),
                    rows_of(mat0@),
                ) == power(plus, times, zero, n0 as nat, rows_of(A@), rows_of(E@)),
        decreases n,
    {
        let ghost am = rows_of(a@);
        let ghost mm = rows_of(mat0@);
        proof {
            assert(am[0] == a@[0]@);
            assert(mm[0] == mat0@[0]@);
        }
        if n % 2 == 1 {
            mat0 = times_matrix(&a, &mat0, &add, &prod);
        }
        a = times_matrix(&a, &a, &add, &prod);
        proof {
            assert(rows_of(a@).len() == a@.len());
            assert(rows_of(mat0@).len() == mat0@.len());
        }
        n /= 2;
    }
    mat0
}

} // verus!
