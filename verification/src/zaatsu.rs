//! Coordinate compression: the distinct values that were added, in ascending
//! order, and the rank of a value among them.

use vstd::prelude::*;
use crate::order::{is_total_order, keeps_ord_laws, le, less, less_eq, lt};
use crate::std_ext::{ascending, sort};

verus! {

pub struct Zaatsu<T> where T: Ord {
    list: Vec<T>,
    initialized: bool,
}

/// `s` is in strictly ascending order.
pub open spec fn strictly_ascending<T: Ord>(s: Seq<T>) -> bool {
    forall|i: int, j: int| 0 <= i < j < s.len() ==> lt(#[trigger] s[i], #[trigger] s[j])
}

impl<T> View for Zaatsu<T> where T: Ord {
    type V = Seq<T>;

    /// The values held: as they were added before `init`, and the distinct
    /// values in ascending order after it.
    closed spec fn view(&self) -> Seq<T> {
        self.list@
    }
}

impl<T> Zaatsu<T> where T: Ord {
    /// Whether `init` has been called.
    pub closed spec fn initialized(&self) -> bool {
        self.initialized
    }

    /// After `init` the values are strictly ascending.
    pub open spec fn wf(&self) -> bool {
        self.initialized() ==> strictly_ascending(self@)
    }

    /// An empty collection that has not been initialized.
    pub fn new() -> (za: Self)
        ensures
            za@ == Seq::<T>::empty(),
            !za.initialized(),
            za.wf(),
    {
        Zaatsu { list: vec![], initialized: false }
    }

    /// Adds the value `v` at the end. Before `init` this keeps the
    /// collection in order; after it, the values are in order again only
    /// after another `init`.
    pub fn add(&mut self, v: T)
        ensures
            final(self)@ == old(self)@.push(v),
            final(self).initialized() == old(self).initialized(),
            !old(self).initialized() ==> final(self).wf(),
    {
        self.list.push(v);
    }

    /// Sorts the values and drops repeated ones: afterwards the collection
    /// holds each value that was added once, in ascending order.
    pub fn init(&mut self)
        requires
            keeps_ord_laws::<T>(),
        ensures
            final(self).initialized(),
            final(self).wf(),
            strictly_ascending(final(self)@),
            final(self)@.to_set() == old(self)@.to_set(),
    {
        self.initialized = true;
        sort(&mut self.list);
        let ghost sorted = self.list@;
        proof {
            crate::order::lemma_ord_is_total::<T>();
            sorted.to_multiset_ensures();
            old(self)@.to_multiset_ensures();
            assert(sorted.to_set() =~= old(self)@.to_set()) by {
                assert forall|x: T| sorted.contains(x) <==> old(self)@.contains(x) by {
                    assert(sorted.to_multiset().count(x) == old(self)@.to_multiset().count(x));
                }
            }
        }
        if self.list.len() == 0 {
            return ;
        }
        let mut tmp: Vec<T> = vec![];
        core::mem::swap(&mut self.list, &mut tmp);
        proof {
            assert(sorted.subrange(0, 0).to_set() =~= self.list@.to_set());
        }
        for v in iter: tmp
            invariant
                is_total_order::<T>(),
                self.initialized,
                iter.seq() == sorted,
                ascending(sorted),
                strictly_ascending(self.list@),
                self.list@.to_set() == sorted.subrange(0, iter.index() as int).to_set(),
                iter.index() > 0 ==> self.list@.len() > 0 && self.list@.last() == sorted[iter.index() - 1],
        {
            let ghost before = self.list@;
            let ghost i = iter.index() as int;
            proof {
                assert(sorted.subrange(0, i + 1) =~= sorted.subrange(0, i).push(v));
                sorted.subrange(0, i).lemma_push_to_set_commute(v);
                before.lemma_push_to_set_commute(v);
            }
            if self.list.is_empty() || less(&self.list[self.list.len() - 1], &v) {
                proof {
                    assert forall|a: int, b: int| 0 <= a < b < before.push(v).len() implies lt(
                        #[trigger] before.push(v)[a],
                        #[trigger] before.push(v)[b],
                    ) by {
                        if b == before.len() && a + 1 < before.len() {
                            assert(lt(before[a], before[before.len() - 1]));
                        }
                    }
                }
                self.list.push(v);
            } else {
                proof {
                    assert(i > 0) by {
                        assert(before.contains(before[0]));
                        if i == 0 {
                            assert(sorted.subrange(0, 0).to_set().contains(before[0]));
                            assert(sorted.subrange(0, 0).contains(before[0]));
                        }
                    }
                    assert(le(sorted[i - 1], sorted[i]));
                    assert(before.last() == v);
                    assert(before.to_set().contains(v));
                    assert(before.to_set().insert(v) =~= before.to_set());
                }
            }
        }
        proof {
            assert(sorted.subrange(0, sorted.len() as int) =~= sorted);
        }
    }

    /// The position of the greatest value that is at most `v`, and 0 where
    /// there is none: for a value that was added, its rank among the distinct
    /// values. This is what a binary search finds where the values are in
    /// order, as they are after `init`.
    pub fn index(&self, v: &T) -> (r: usize)
        requires
            is_total_order::<T>(),
            self.initialized(),
        ensures
            self@.len() > 0 ==> r < self@.len(),
            self@.len() == 0 ==> r == 0,
            r > 0 ==> le(self@[r as int], *v),
            self.wf() ==> {
                &&& self@.len() > 0 && le(self@[0], *v) ==> le(self@[r as int], *v)
                &&& forall|i: int| r < i < self@.len() ==> !le(#[trigger] self@[i], *v)
                &&& forall|i: int| 0 <= i < self@.len() && self@[i] == *v ==> r == i
                &&& !le(self@[0], *v) ==> r == 0
            },
    {
        let mut l: usize = 0;
        let mut r: usize = self.list.len();
        while l + 1 < r
            invariant
                is_total_order::<T>(),
                l <= r <= self.list@.len(),
                self.list@.len() > 0 ==> l < r,
                l > 0 ==> le(self.list@[l as int], *v),
                r < self.list@.len() ==> !le(self.list@[r as int], *v),
            decreases r - l,
        {
            let m = l + (r - l) / 2;
            if less_eq(&self.list[m], v) {
                l = m;
            } else {
                r = m;
            }
        }
        proof {
            let s = self.list@;
            if strictly_ascending(s) {
                assert forall|i: int| l < i < s.len() implies !le(#[trigger] s[i], *v) by {
                    if i > r {
                        assert(lt(s[r as int], s[i]));
                    }
                }
                assert forall|i: int| 0 <= i < s.len() && s[i] == *v implies l == i by {
                    if i < l {
                        assert(lt(s[i], s[l as int]));
                    }
                }
                if s.len() > 0 && !le(s[0], *v) && l > 0 {
                    assert(lt(s[0], s[l as int]));
                }
            }
        }
        l
    }

    /// The number of distinct values.
    pub fn size(&self) -> (n: usize)
        requires
            self.initialized(),
        ensures
            n == self@.len(),
    {
        self.list.len()
    }
}

impl<T> Zaatsu<T> where T: Ord {
    /// The value at position `i`.
    pub fn at(&self, i: usize) -> (v: &T)
        requires
            i < self@.len(),
        ensures
            *v == self@[i as int],
    {
        &self.list[i]
    }
}

} // verus!
