//! Small helpers: binary searches on slices, a non-negative remainder, and
//! in-place minimum and maximum.

use vstd::prelude::*;
use vstd::std_specs::ops::{AddSpec, RemSpec};
use crate::std_ext::ascending;
use crate::order::{
    gt, is_total_order, le, less, less_eq, lt, operators_agree,
};

pub mod ord_f;

pub use crate::utils::ord_f::OrdF;

verus! {

/// In-place minimum and maximum.
pub trait SetMinMax: Sized {
    /// The condition under which the two methods may compare values.
    spec fn comparable() -> bool;

    /// `a` is strictly less than `b`.
    spec fn precedes(a: Self, b: Self) -> bool;

    /// `a` is strictly greater than `b`.
    spec fn exceeds(a: Self, b: Self) -> bool;

    /// Replaces `self` by `v` where `self` is greater, and says whether it
    /// did.
    fn setmin(&mut self, v: Self) -> (changed: bool)
        requires
            Self::comparable(),
        ensures
            changed == Self::exceeds(*old(self), v),
            *final(self) == (if changed {
                v
            } else {
                *old(self)
            }),
    ;

    /// Replaces `self` by `v` where `self` is less, and says whether it did.
    fn setmax(&mut self, v: Self) -> (changed: bool)
        requires
            Self::comparable(),
        ensures
            changed == Self::precedes(*old(self), v),
            *final(self) == (if changed {
                v
            } else {
                *old(self)
            }),
    ;
}

impl<T: PartialOrd> SetMinMax for T {
    open spec fn comparable() -> bool {
        operators_agree::<T>()
    }

    open spec fn precedes(a: Self, b: Self) -> bool {
        lt(a, b)
    }

    open spec fn exceeds(a: Self, b: Self) -> bool {
        gt(a, b)
    }

    fn setmin(&mut self, v: T) -> (changed: bool) {
        *self > v && {
            *self = v;
            true
        }
    }

    fn setmax(&mut self, v: T) -> (changed: bool) {
        *self < v && {
            *self = v;
            true
        }
    }
}

/// The remainder of `x` by `m` brought into the range of `m`'s sign:
/// `((x % m) + m) % m`.
pub fn pmod<T: Copy + core::ops::Add<Output = T> + core::ops::Rem<Output = T>>(x: T, m: T) -> (r: T)
    requires
        x.rem_req(m),
        x.rem_spec(m).add_req(m),
        x.rem_spec(m).add_spec(m).rem_req(m),
        T::obeys_add_spec(),
        T::obeys_rem_spec(),
    ensures
        r == x.rem_spec(m).add_spec(m).rem_spec(m),
{
    ((x % m) + m) % m
}

/// For 64-bit integers and a positive modulus whose double fits, `pmod`
/// gives the remainder in `[0, m)`.
pub proof fn lemma_pmod_i64(x: i64, m: i64)
    requires
        0 < m <= i64::MAX / 2,
    ensures
        x.rem_req(m),
        x.rem_spec(m).add_req(m),
        x.rem_spec(m).add_spec(m).rem_req(m),
        x.rem_spec(m).add_spec(m).rem_spec(m) == x as int % m as int,
        0 <= x.rem_spec(m).add_spec(m).rem_spec(m) < m,
{
    if x >= 0 {
        vstd::arithmetic::div_mod::lemma_mod_add_multiples_vanish(x as int % m as int, m as int);
        vstd::arithmetic::div_mod::lemma_mod_twice(x as int, m as int);
    } else {
        lemma_mod_of_negative(x as int, m as int);
    }
}

/// The remainder of a negative number, from the remainder of its opposite.
proof fn lemma_mod_of_negative(x: int, m: int)
    requires
        m > 0,
        x < 0,
    ensures
        (m - (-x) % m) % m == x % m,
{
    let u = (-x) % m;
    vstd::arithmetic::div_mod::lemma_fundamental_div_mod(-x, m);
    let q = (-x) / m;
    assert(x == m * (-q) - u) by (nonlinear_arith)
        requires
            -x == m * q + u,
    ;
    if u == 0 {
        vstd::arithmetic::div_mod::lemma_mod_self_0(m);
        vstd::arithmetic::div_mod::lemma_mod_multiples_basic(-q, m);
        assert(m * (-q) == (-q) * m) by (nonlinear_arith);
    } else {
        assert(x == m * (-q - 1) + (m - u)) by (nonlinear_arith)
            requires
                x == m * (-q) - u,
        ;
        vstd::arithmetic::div_mod::lemma_fundamental_div_mod_converse(x, m, -q - 1, m - u);
        vstd::arithmetic::div_mod::lemma_small_mod((m - u) as nat, m as nat);
    }
}

/// The first index from which on the elements of `a` are not less than `x`,
/// as far as a binary search sees it: the element before the result is less
/// than `x` and the element at it is not. For an ascending slice these hold
/// of every element before and from the result on.
pub fn lower_bound<T: Ord>(a: &[T], x: &T) -> (r: usize)
    requires
        is_total_order::<T>(),
    ensures
        r <= a@.len(),
        r > 0 ==> lt(a@[r - 1], *x),
        r < a@.len() ==> !lt(a@[r as int], *x),
        ascending(a@) ==> forall|i: int| 0 <= i < r ==> lt(#[trigger] a@[i], *x),
        ascending(a@) ==> forall|i: int| r <= i < a@.len() ==> !lt(#[trigger] a@[i], *x),
{
    if a.len() == 0 || !less(&a[0], x) {
        return 0;
    }
    let mut l: usize = 0;
    let mut r: usize = a.len();
    while l + 1 < r
        invariant
            is_total_order::<T>(),
            l < r <= a@.len(),
            lt(a@[l as int], *x),
            r < a@.len() ==> !lt(a@[r as int], *x),
        decreases r - l,
    {
        let m = l + (r - l) / 2;
        if less(&a[m], x) {
            l = m;
        } else {
            r = m;
        }
    }
    r
}

/// The first index from which on the elements of `a` are greater than `x`,
/// as far as a binary search sees it: the element before the result is not
/// greater than `x` and the element at it is. For an ascending slice these
/// hold of every element before and from the result on.
pub fn upper_bound<T: Ord>(a: &[T], x: &T) -> (r: usize)
    requires
        is_total_order::<T>(),
    ensures
        r <= a@.len(),
        r > 0 ==> le(a@[r - 1], *x),
        r < a@.len() ==> !le(a@[r as int], *x),
        ascending(a@) ==> forall|i: int| 0 <= i < r ==> le(#[trigger] a@[i], *x),
        ascending(a@) ==> forall|i: int| r <= i < a@.len() ==> !le(#[trigger] a@[i], *x),
{
    if a.len() == 0 || !less_eq(&a[0], x) {
        return 0;
    }
    let mut l: usize = 0;
    let mut r: usize = a.len();
    while l + 1 < r
        invariant
            is_total_order::<T>(),
            l < r <= a@.len(),
            le(a@[l as int], *x),
            r < a@.len() ==> !le(a@[r as int], *x),
        decreases r - l,
    {
        let m = l + (r - l) / 2;
        if less_eq(&a[m], x) {
            l = m;
        } else {
            r = m;
        }
    }
    r
}

} // verus!
