//! Values under the reverse of their order.

use vstd::prelude::*;
use vstd::std_specs::cmp::{PartialEqSpec, PartialEqSpecImpl, PartialOrdSpec, PartialOrdSpecImpl};
use core::cmp::Ordering;
use crate::order::{is_total_order, lt};

verus! {

/// A value that compares as the reverse of the value inside.
#[derive(Clone, Debug)]
pub struct Reversed<T>(pub T);

impl<T: PartialEq> PartialEq for Reversed<T> {
    fn eq(&self, other: &Self) -> (r: bool) {
        self.0 == other.0
    }
}

impl<T: PartialEq> PartialEqSpecImpl for Reversed<T> {
    open spec fn obeys_eq_spec() -> bool {
        T::obeys_eq_spec()
    }

    open spec fn eq_spec(&self, other: &Self) -> bool {
        self.0.eq_spec(&other.0)
    }
}

impl<T: PartialOrd> PartialOrd for Reversed<T> {
    fn partial_cmp(&self, other: &Self) -> (r: Option<Ordering>) {
        other.0.partial_cmp(&self.0)
    }
}

impl<T: PartialOrd> PartialOrdSpecImpl for Reversed<T> {
    open spec fn obeys_partial_cmp_spec() -> bool {
        T::obeys_partial_cmp_spec()
    }

    open spec fn partial_cmp_spec(&self, other: &Self) -> Option<Ordering> {
        other.0.partial_cmp_spec(&self.0)
    }
}

/// The reverse of a total order is a total order, in which a value is less
/// than another where the other is less than it.
pub proof fn lemma_reversed_order<T: PartialOrd>()
    requires
        is_total_order::<T>(),
    ensures
        is_total_order::<Reversed<T>>(),
        forall|a: Reversed<T>, b: Reversed<T>| #[trigger] lt(a, b) <==> lt(b.0, a.0),
{
    assert forall|a: Reversed<T>, b: Reversed<T>| #[trigger] lt(a, b) <==> lt(b.0, a.0) by {
    }
    assert forall|a: Reversed<T>, b: Reversed<T>| #[trigger]
        crate::order::gt(a, b) <==> lt(b, a) by {
        assert(crate::order::gt(b.0, a.0) <==> lt(a.0, b.0));
    }
    assert forall|a: Reversed<T>, b: Reversed<T>| #[trigger]
        crate::order::equivalent(a, b) <==> a == b by {
        assert(crate::order::equivalent(b.0, a.0) <==> b.0 == a.0);
    }
    assert forall|a: Reversed<T>, b: Reversed<T>| #[trigger] lt(a, b) || a == b || lt(b, a) by {
        assert(lt(b.0, a.0) || b.0 == a.0 || lt(a.0, b.0));
    }
    assert forall|a: Reversed<T>, b: Reversed<T>, c: Reversed<T>| #[trigger]
        lt(a, b) && #[trigger] lt(b, c) implies lt(a, c) by {
        assert(lt(c.0, b.0) && lt(b.0, a.0));
    }
    assert forall|a: Reversed<T>, b: Reversed<T>| #[trigger] lt(a, b) implies !lt(b, a) by {
        assert(lt(b.0, a.0));
    }
    assert forall|a: Reversed<T>| !#[trigger] lt(a, a) by {
        assert(!lt(a.0, a.0));
    }
}

} // verus!
