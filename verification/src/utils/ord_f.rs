//! A wrapper that gives a partially ordered value a place in a total order.

use vstd::prelude::*;
use vstd::std_specs::cmp::{PartialEqSpec, PartialEqSpecImpl, PartialOrdSpec, PartialOrdSpecImpl};
use core::cmp::Ordering;

verus! {

/// A value that is compared by the value inside.
pub struct OrdF<T>(pub T);

impl<T: PartialEq> PartialEq for OrdF<T> {
    fn eq(&self, other: &Self) -> (r: bool) {
        self.0 == other.0
    }
}

impl<T: PartialEq> PartialEqSpecImpl for OrdF<T> {
    open spec fn obeys_eq_spec() -> bool {
        T::obeys_eq_spec()
    }

    open spec fn eq_spec(&self, other: &Self) -> bool {
        self.0.eq_spec(&other.0)
    }
}

impl<T: PartialOrd> PartialOrd for OrdF<T> {
    fn partial_cmp(&self, other: &Self) -> (r: Option<Ordering>) {
        self.0.partial_cmp(&other.0)
    }
}

impl<T: PartialOrd> PartialOrdSpecImpl for OrdF<T> {
    open spec fn obeys_partial_cmp_spec() -> bool {
        T::obeys_partial_cmp_spec()
    }

    open spec fn partial_cmp_spec(&self, other: &Self) -> Option<Ordering> {
        self.0.partial_cmp_spec(&other.0)
    }
}

impl<T: PartialOrd> OrdF<T> {
    /// The two values inside can be compared.
    pub open spec fn comparable(&self, other: &OrdF<T>) -> bool {
        self.0.partial_cmp_spec(&other.0).is_some()
    }

    /// How `self` stands to `other`, where the two can be compared.
    pub fn cmp(&self, other: &OrdF<T>) -> (r: Ordering)
        requires
            T::obeys_partial_cmp_spec(),
            self.comparable(other),
        ensures
            Some(r) == self.0.partial_cmp_spec(&other.0),
    {
        self.0.partial_cmp(&other.0).unwrap()
    }
}

} // verus!
