//! Nearest elements in the ordered set and the ordered map of the standard
//! library: the least element that is not less than a value, and the
//! greatest that is not greater.

use vstd::prelude::*;
use std::collections::{BTreeMap, BTreeSet};
use crate::order::{keeps_ord_laws, le, lt};

verus! {

/// `v` is the least element of `s` that is not less than `x`.
pub open spec fn is_first_from<T: Ord>(s: Set<T>, x: T, v: T) -> bool {
    &&& s.contains(v)
    &&& le(x, v)
    &&& forall|e: T| s.contains(e) && le(x, e) ==> le(v, e)
}

/// `v` is the greatest element of `s` that is not greater than `x`.
pub open spec fn is_last_up_to<T: Ord>(s: Set<T>, x: T, v: T) -> bool {
    &&& s.contains(v)
    &&& le(v, x)
    &&& forall|e: T| s.contains(e) && le(e, x) ==> le(e, v)
}

/// Searches for the nearest element in an ordered set.
pub trait Neighbors<T: Ord> {
    /// The elements of the set.
    spec fn elements(&self) -> Set<T>;

    /// The least element that is not less than `x`.
    fn find_first(&self, x: &T) -> (r: Option<&T>)
        requires
            keeps_ord_laws::<T>(),
        ensures
            match r {
                Some(v) => is_first_from(self.elements(), *x, *v),
                None => forall|e: T| self.elements().contains(e) ==> lt(e, *x),
            },
    ;

    /// The greatest element that is not greater than `x`.
    fn find_last(&self, x: &T) -> (r: Option<&T>)
        requires
            keeps_ord_laws::<T>(),
        ensures
            match r {
                Some(v) => is_last_up_to(self.elements(), *x, *v),
                None => forall|e: T| self.elements().contains(e) ==> lt(*x, e),
            },
    ;
}

impl<T: Ord> Neighbors<T> for BTreeSet<T> {
    open spec fn elements(&self) -> Set<T> {
        self@
    }

    fn find_first(&self, x: &T) -> (r: Option<&T>) {
        set_range_first(self, x)
    }

    fn find_last(&self, x: &T) -> (r: Option<&T>) {
        set_range_last(self, x)
    }
}

/// `BTreeSet::range` from `x` on, and the first element of it: the range
/// holds the elements that are not less than `x` in ascending order.
#[verifier::external_body]
fn set_range_first<'a, T: Ord>(s: &'a BTreeSet<T>, x: &T) -> (r: Option<&'a T>)
    requires
        keeps_ord_laws::<T>(),
    ensures
        match r {
            Some(v) => is_first_from(s@, *x, *v),
            None => forall|e: T| s@.contains(e) ==> lt(e, *x),
        },
{
    let mut aftr = s.range((std::ops::Bound::Included(x), std::ops::Bound::Unbounded));
    aftr.next()
}

/// `BTreeSet::range` up to `x`, and the last element of it: the range holds
/// the elements that are not greater than `x` in ascending order.
#[verifier::external_body]
fn set_range_last<'a, T: Ord>(s: &'a BTreeSet<T>, x: &T) -> (r: Option<&'a T>)
    requires
        keeps_ord_laws::<T>(),
    ensures
        match r {
            Some(v) => is_last_up_to(s@, *x, *v),
            None => forall|e: T| s@.contains(e) ==> lt(*x, e),
        },
{
    let mut bfr = s.range((std::ops::Bound::Unbounded, std::ops::Bound::Included(x)));
    bfr.next_back()
}

/// Searches for the entry with the nearest key in an ordered map.
pub trait MapNeighbors<K: Ord, V> {
    /// The entries of the map.
    spec fn entries(&self) -> Map<K, V>;

    /// The entry with the least key that is not less than `x`.
    fn find_first(&self, x: &K) -> (r: Option<(&K, &V)>)
        requires
            keeps_ord_laws::<K>(),
        ensures
            match r {
                Some((k, v)) => is_first_from(self.entries().dom(), *x, *k) && self.entries()[*k]
                    == *v,
                None => forall|e: K| self.entries().dom().contains(e) ==> lt(e, *x),
            },
    ;

    /// The entry with the greatest key that is not greater than `x`.
    fn find_last(&self, x: &K) -> (r: Option<(&K, &V)>)
        requires
            keeps_ord_laws::<K>(),
        ensures
            match r {
                Some((k, v)) => is_last_up_to(self.entries().dom(), *x, *k) && self.entries()[*k]
                    == *v,
                None => forall|e: K| self.entries().dom().contains(e) ==> lt(*x, e),
            },
    ;
}

impl<K: Ord, V> MapNeighbors<K, V> for BTreeMap<K, V> {
    open spec fn entries(&self) -> Map<K, V> {
        self@
    }

    fn find_first(&self, x: &K) -> (r: Option<(&K, &V)>) {
        map_range_first(self, x)
    }

    fn find_last(&self, x: &K) -> (r: Option<(&K, &V)>) {
        map_range_last(self, x)
    }
}

/// `BTreeMap::range` from `x` on, and the first entry of it: the range holds
/// the entries whose keys are not less than `x` in ascending order of the
/// keys.
#[verifier::external_body]
pub(crate) fn map_range_first<'a, K: Ord, V>(m: &'a BTreeMap<K, V>, x: &K) -> (r: Option<
    (&'a K, &'a V),
>)
    requires
        keeps_ord_laws::<K>(),
    ensures
        match r {
            Some((k, v)) => is_first_from(m@.dom(), *x, *k) && m@[*k] == *v,
            None => forall|e: K| m@.dom().contains(e) ==> lt(e, *x),
        },
{
    let mut aftr = m.range((std::ops::Bound::Included(x), std::ops::Bound::Unbounded));
    aftr.next()
}

/// `BTreeMap::range` up to `x`, and the last entry of it: the range holds
/// the entries whose keys are not greater than `x` in ascending order of the
/// keys.
#[verifier::external_body]
pub(crate) fn map_range_last<'a, K: Ord, V>(m: &'a BTreeMap<K, V>, x: &K) -> (r: Option<
    (&'a K, &'a V),
>)
    requires
        keeps_ord_laws::<K>(),
    ensures
        match r {
            Some((k, v)) => is_last_up_to(m@.dom(), *x, *k) && m@[*k] == *v,
            None => forall|e: K| m@.dom().contains(e) ==> lt(*x, e),
        },
{
    let mut bfr = m.range((std::ops::Bound::Unbounded, std::ops::Bound::Included(x)));
    bfr.next_back()
}

/// `BTreeMap::first_key_value`: the entry with the least key, and `None`
/// for an empty map.
#[verifier::external_body]
pub(crate) fn map_first<'a, K: Ord, V>(m: &'a BTreeMap<K, V>) -> (r: Option<(&'a K, &'a V)>)
    requires
        keeps_ord_laws::<K>(),
    ensures
        match r {
            Some((k, v)) => m@.dom().contains(*k) && m@[*k] == *v && forall|e: K|
                m@.dom().contains(e) ==> le(*k, e),
            None => m@.dom() == Set::<K>::empty(),
        },
{
    m.first_key_value()
}

/// `BTreeMap::last_key_value`: the entry with the greatest key, and `None`
/// for an empty map.
#[verifier::external_body]
pub(crate) fn map_last<'a, K: Ord, V>(m: &'a BTreeMap<K, V>) -> (r: Option<(&'a K, &'a V)>)
    requires
        keeps_ord_laws::<K>(),
    ensures
        match r {
            Some((k, v)) => m@.dom().contains(*k) && m@[*k] == *v && forall|e: K|
                m@.dom().contains(e) ==> le(e, *k),
            None => m@.dom() == Set::<K>::empty(),
        },
{
    m.last_key_value()
}

} // verus!
