//! A multiset of ordered values.

use vstd::prelude::*;
use vstd::multiset::Multiset;
use crate::order::{keeps_ord_laws, le};
use crate::std_ext::ascending;

verus! {

#[derive(Clone, Debug)]
pub struct MultiSet<T> {
    inner: crate::data_structures::multiset::MultiSet<T>,
}

impl<T: Ord + Copy> View for MultiSet<T> {
    type V = Multiset<T>;

    /// The values with their multiplicities.
    closed spec fn view(&self) -> Multiset<T> {
        self.inner@
    }
}

impl<T> MultiSet<T> where T: Ord + Copy {
    /// The size is the number of values with their multiplicities.
    pub closed spec fn wf(&self) -> bool {
        self.inner.wf()
    }

    /// An empty multiset.
    pub fn new() -> (s: MultiSet<T>)
        ensures
            s.wf(),
            s@ == Multiset::<T>::empty(),
    {
        MultiSet { inner: crate::data_structures::multiset::MultiSet::new() }
    }

    /// Adds one occurrence of `val`.
    pub fn insert(&mut self, val: T)
        requires
            keeps_ord_laws::<T>(),
            old(self).wf(),
            old(self)@.len() < usize::MAX,
        ensures
            final(self).wf(),
            final(self)@ == old(self)@.insert(val),
    {
        self.inner.insert(val);
    }

    /// Takes out one occurrence of `val`, where there is one.
    pub fn erase(&mut self, val: T)
        requires
            keeps_ord_laws::<T>(),
            old(self).wf(),
        ensures
            final(self).wf(),
            final(self)@ == old(self)@.remove(val),
    {
        self.inner.erase(val);
    }

    /// The least value, and `None` for an empty multiset.
    pub fn get_min(&self) -> (r: Option<T>)
        requires
            keeps_ord_laws::<T>(),
            self.wf(),
        ensures
            match r {
                Some(k) => self@.contains(k) && forall|e: T| self@.contains(e) ==> le(k, e),
                None => self@ == Multiset::<T>::empty(),
            },
    {
        self.inner.get_min()
    }

    /// The greatest value, and `None` for an empty multiset.
    pub fn get_max(&self) -> (r: Option<T>)
        requires
            keeps_ord_laws::<T>(),
            self.wf(),
        ensures
            match r {
                Some(k) => self@.contains(k) && forall|e: T| self@.contains(e) ==> le(e, k),
                None => self@ == Multiset::<T>::empty(),
            },
    {
        self.inner.get_max()
    }

    /// Whether `val` occurs.
    pub fn contains(&self, val: &T) -> (r: bool)
        requires
            keeps_ord_laws::<T>(),
            self.wf(),
        ensures
            r == self@.contains(*val),
    {
        self.inner.contains(val)
    }

    /// The values in ascending order, each as often as it occurs.
    pub fn to_vec(&self) -> (res: Vec<T>)
        requires
            keeps_ord_laws::<T>(),
            self.wf(),
        ensures
            res@.to_multiset() == self@,
            ascending(res@),
    {
        self.inner.to_vec()
    }

    /// The number of values, each counted as often as it occurs.
    pub fn len(&self) -> (n: usize)
        requires
            self.wf(),
        ensures
            n == self@.len(),
    {
        self.inner.len()
    }
}

} // verus!
