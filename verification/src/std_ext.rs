//! Contracts for functions of the standard library that are called as they
//! are. Verus does not read their bodies: each contract states what the
//! standard library documents of the function.

use vstd::prelude::*;
use crate::order::{keeps_ord_laws, le};

verus! {

/// `s` is in ascending order, equal neighbours allowed.
pub open spec fn ascending<T: Ord>(s: Seq<T>) -> bool {
    forall|i: int, j: int| 0 <= i < j < s.len() ==> le(#[trigger] s[i], #[trigger] s[j])
}

/// `Vec::reverse` (the slice method `reverse`): reverses the order of the
/// elements in place.
#[verifier::external_body]
pub(crate) fn reverse<T>(v: &mut Vec<T>)
    ensures
        final(v)@ == old(v)@.reverse(),
{
    v.reverse();
}

/// `Vec::sort` (the slice method `sort`): sorts in place, in ascending order
/// of a total order, keeping every element as often as it occurred.
#[verifier::external_body]
pub(crate) fn sort<T: Ord>(v: &mut Vec<T>)
    requires
        keeps_ord_laws::<T>(),
    ensures
        ascending(final(v)@),
        final(v)@.to_multiset() == old(v)@.to_multiset(),
{
    v.sort();
}

/// `Vec::swap` (the slice method `swap`): exchanges the elements at `i` and
/// `j`. It panics where an index is out of bounds, so both are required to be
/// inside.
#[verifier::external_body]
pub(crate) fn swap<T>(v: &mut Vec<T>, i: usize, j: usize)
    requires
        i < old(v)@.len(),
        j < old(v)@.len(),
    ensures
        final(v)@ == old(v)@.update(i as int, old(v)@[j as int]).update(j as int, old(v)@[i as int]),
{
    v.swap(i, j);
}

} // verus!
