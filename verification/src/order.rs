//! Total orders on generic element types.
//!
//! Containers and searches that compare elements of a type `T` are specified
//! over the relations [`lt`] and [`le`], and are meant for types whose
//! comparison operators compute a total order that agrees with equality
//! ([`is_total_order`]), as they do for the integers.

use vstd::prelude::*;
use vstd::laws_cmp::{obeys_cmp, obeys_cmp_ord, obeys_cmp_partial_ord, obeys_partial_cmp_spec_properties};
use vstd::laws_eq::{obeys_concrete_eq, obeys_eq_spec_properties};
use vstd::std_specs::cmp::{OrdSpec, PartialEqSpec, PartialOrdSpec};
use core::cmp::Ordering;

verus! {

/// `a` is strictly less than `b` in the order of `T`.
pub open spec fn lt<T: PartialOrd>(a: T, b: T) -> bool {
    a.partial_cmp_spec(&b) == Some(Ordering::Less)
}

/// `a` is strictly greater than `b` in the order of `T`.
pub open spec fn gt<T: PartialOrd>(a: T, b: T) -> bool {
    a.partial_cmp_spec(&b) == Some(Ordering::Greater)
}

/// `a` and `b` compare as equal in the order of `T`.
pub open spec fn equivalent<T: PartialOrd>(a: T, b: T) -> bool {
    a.partial_cmp_spec(&b) == Some(Ordering::Equal)
}

/// `a` is less than or equal to `b` in the order of `T`.
pub open spec fn le<T: PartialOrd>(a: T, b: T) -> bool {
    lt(a, b) || a == b
}

/// The comparison operators of `T` compute the relations `lt` and `gt`.
pub open spec fn operators_agree<T: PartialOrd>() -> bool {
    T::obeys_partial_cmp_spec()
}

/// The operator `==` of `T` tells whether two values are the same value.
pub open spec fn eq_is_identity<T: PartialEq>() -> bool {
    obeys_concrete_eq::<T>()
}

/// The comparison operators of `T` compute a total order: `lt` is
/// irreflexive and transitive, of two different values one is less than the
/// other, `gt` is the converse of `lt`, and two values compare as equal
/// exactly when they are the same value.
pub open spec fn is_total_order<T: PartialOrd>() -> bool {
    &&& operators_agree::<T>()
    &&& forall|a: T| !#[trigger] lt(a, a)
    &&& forall|a: T, b: T| #[trigger] lt(a, b) ==> !lt(b, a)
    &&& forall|a: T, b: T| #[trigger] lt(a, b) || a == b || lt(b, a)
    &&& forall|a: T, b: T, c: T| #[trigger] lt(a, b) && #[trigger] lt(b, c) ==> lt(a, c)
    &&& forall|a: T, b: T| #[trigger] gt(a, b) <==> lt(b, a)
    &&& forall|a: T, b: T| #[trigger] equivalent(a, b) <==> a == b
}

/// The type keeps the laws of `Ord`, which the ordered collections of the
/// standard library rely on, and its `==` is identity.
pub open spec fn keeps_ord_laws<T: Ord>() -> bool {
    obeys_cmp::<T>() && obeys_concrete_eq::<T>()
}

/// A type that keeps the laws of `Ord`, and whose `==` is identity, is
/// totally ordered.
pub proof fn lemma_ord_is_total<T: Ord>()
    requires
        keeps_ord_laws::<T>(),
    ensures
        is_total_order::<T>(),
{
    reveal(obeys_eq_spec_properties);
    reveal(obeys_partial_cmp_spec_properties);
    reveal(obeys_cmp_partial_ord);
    reveal(obeys_cmp_ord);
    reveal(obeys_concrete_eq);
    assert forall|a: T, b: T| #[trigger] lt(a, b) || a == b || lt(b, a) by {
        let c = a.cmp_spec(&b);
        assert(a.partial_cmp_spec(&b) == Some(c));
        match c {
            Ordering::Less => {},
            Ordering::Equal => {
                assert(a.eq_spec(&b));
            },
            Ordering::Greater => {
                assert(b.partial_cmp_spec(&a) == Some(Ordering::Less));
            },
        }
    }
    assert forall|a: T| !#[trigger] lt(a, a) by {
        assert(a.eq_spec(&a));
    }
    assert forall|a: T, b: T| #[trigger] lt(a, b) implies !lt(b, a) by {
        if lt(b, a) {
            assert(lt(a, a));
        }
    }
    assert forall|a: T, b: T| #[trigger] equivalent(a, b) <==> a == b by {
        assert(a.eq_spec(&b) <==> a == b);
    }
}

/// What the ordered collections of the standard library call an increasing
/// sequence is strictly ascending under `lt`.
pub proof fn lemma_increasing_seq<T: Ord>(s: Seq<T>)
    requires
        keeps_ord_laws::<T>(),
        vstd::std_specs::btree::increasing_seq(s),
    ensures
        forall|i: int, j: int| 0 <= i < j < s.len() ==> lt(#[trigger] s[i], #[trigger] s[j]),
{
    reveal(obeys_cmp_ord);
    vstd::std_specs::btree::axiom_increasing_seq_meaning(s);
    assert forall|i: int, j: int| 0 <= i < j < s.len() implies lt(
        #[trigger] s[i],
        #[trigger] s[j],
    ) by {
        assert(s[i].cmp_spec(&s[j]) is Less);
        assert(s[i].partial_cmp_spec(&s[j]) == Some(s[i].cmp_spec(&s[j])));
    }
}

/// Pairs of a type that keeps the laws of `Ord` keep them too, and are
/// ordered by their first parts, and by their second parts where the first
/// are the same.
pub proof fn lemma_pairs_ordered<T: Ord>()
    requires
        keeps_ord_laws::<T>(),
    ensures
        keeps_ord_laws::<(T, T)>(),
        is_total_order::<(T, T)>(),
        forall|a: (T, T), b: (T, T)| #[trigger]
            lt(a, b) <==> (lt(a.0, b.0) || (a.0 == b.0 && lt(a.1, b.1))),
{
    broadcast use vstd::laws_cmp::group_laws_cmp;
    broadcast use vstd::laws_eq::group_laws_eq;
    assert(obeys_cmp::<(T, T)>());
    assert(obeys_concrete_eq::<(T, T)>());
    lemma_ord_is_total::<T>();
    lemma_ord_is_total::<(T, T)>();
    assert forall|a: (T, T), b: (T, T)| #[trigger]
        lt(a, b) <==> (lt(a.0, b.0) || (a.0 == b.0 && lt(a.1, b.1))) by {
        assert(equivalent(a.0, b.0) <==> a.0 == b.0);
    }
}

/// The integers are totally ordered, and `lt` on them is `<`.
pub proof fn lemma_integers_ordered()
    ensures
        keeps_ord_laws::<u8>(),
        keeps_ord_laws::<u16>(),
        keeps_ord_laws::<u32>(),
        keeps_ord_laws::<u64>(),
        keeps_ord_laws::<usize>(),
        keeps_ord_laws::<i8>(),
        keeps_ord_laws::<i16>(),
        keeps_ord_laws::<i32>(),
        keeps_ord_laws::<i64>(),
        keeps_ord_laws::<isize>(),
        is_total_order::<u8>(),
        is_total_order::<u16>(),
        is_total_order::<u32>(),
        is_total_order::<u64>(),
        is_total_order::<usize>(),
        is_total_order::<i8>(),
        is_total_order::<i16>(),
        is_total_order::<i32>(),
        is_total_order::<i64>(),
        is_total_order::<isize>(),
        forall|a: u64, b: u64| #[trigger] lt(a, b) <==> a < b,
        forall|a: usize, b: usize| #[trigger] lt(a, b) <==> a < b,
        forall|a: i32, b: i32| #[trigger] lt(a, b) <==> a < b,
        forall|a: i64, b: i64| #[trigger] lt(a, b) <==> a < b,
{
    broadcast use vstd::laws_cmp::group_laws_cmp;
    broadcast use vstd::laws_eq::group_laws_eq;
    lemma_ord_is_total::<u8>();
    lemma_ord_is_total::<u16>();
    lemma_ord_is_total::<u32>();
    lemma_ord_is_total::<u64>();
    lemma_ord_is_total::<usize>();
    lemma_ord_is_total::<i8>();
    lemma_ord_is_total::<i16>();
    lemma_ord_is_total::<i32>();
    lemma_ord_is_total::<i64>();
    lemma_ord_is_total::<isize>();
}

/// Whether `a` and `b` are the same value.
pub fn same<T: PartialEq>(a: &T, b: &T) -> (r: bool)
    requires
        eq_is_identity::<T>(),
    ensures
        r == (*a == *b),
{
    proof {
        reveal(obeys_concrete_eq);
    }
    *a == *b
}

/// Whether `a` is strictly less than `b`.
pub fn less<T: PartialOrd>(a: &T, b: &T) -> (r: bool)
    requires
        is_total_order::<T>(),
    ensures
        r == lt(*a, *b),
{
    *a < *b
}

/// Whether `a` is strictly greater than `b`.
pub fn greater<T: PartialOrd>(a: &T, b: &T) -> (r: bool)
    requires
        is_total_order::<T>(),
    ensures
        r == lt(*b, *a),
{
    proof {
        assert(gt(*a, *b) <==> lt(*b, *a));
    }
    *a > *b
}

/// Whether `a` is less than or equal to `b`.
pub fn less_eq<T: PartialOrd>(a: &T, b: &T) -> (r: bool)
    requires
        is_total_order::<T>(),
    ensures
        r == le(*a, *b),
{
    proof {
        assert(equivalent(*a, *b) <==> *a == *b);
    }
    *a <= *b
}

} // verus!
