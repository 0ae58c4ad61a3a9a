//! A set of half-open ranges that lie apart from each other.
//!
//! Ranges are added, and parts of a range are used up again. Ranges that
//! touch are joined when they are added, so that the ranges held are always
//! apart. Each range `[l, r)` is held as the pair `(r, l)`, its end first.

use vstd::prelude::*;
use std::collections::BTreeSet;
use crate::data_structures::btree_neighbors::Neighbors;
use crate::order::{
    greater, is_total_order, keeps_ord_laws, le, lemma_ord_is_total, lemma_pairs_ordered, less,
    less_eq, lt, same,
};

verus! {

pub struct RangeSpace<T> where T: Copy + Ord {
    inf: T,
    st: BTreeSet<(T, T)>,
}

/// Every range of `s` is not empty and ends at `inf` at the latest, and any
/// two ranges lie apart: the one ends before the other begins.
pub open spec fn ranges_apart<T: Ord>(s: Set<(T, T)>, inf: T) -> bool {
    &&& s.finite()
    &&& forall|e: (T, T)| #[trigger] s.contains(e) ==> lt(e.1, e.0) && le(e.0, inf)
    &&& forall|a: (T, T), b: (T, T)|
        #[trigger] s.contains(a) && #[trigger] s.contains(b) && a != b ==> lt(a.0, b.1) || lt(
            b.0,
            a.1,
        )
}

/// `e` is the range of `s` with the least end after `x`.
pub open spec fn is_next_range<T: Ord>(s: Set<(T, T)>, x: T, e: (T, T)) -> bool {
    &&& s.contains(e)
    &&& lt(x, e.0)
    &&& forall|o: (T, T)| s.contains(o) && lt(x, o.0) ==> le(e.0, o.0)
}

/// `[l, r)` meets no range of `s`.
pub open spec fn is_free<T: Ord>(s: Set<(T, T)>, l: T, r: T) -> bool {
    forall|e: (T, T)| #[trigger] s.contains(e) ==> le(e.0, l) || le(r, e.1)
}

/// The range of `s` that begins at `r`, if there is one.
pub open spec fn beginning_at<T>(s: Set<(T, T)>, r: T) -> Option<(T, T)> {
    if exists|e: (T, T)| s.contains(e) && e.1 == r {
        Some(choose|e: (T, T)| s.contains(e) && e.1 == r)
    } else {
        None
    }
}

/// The range of `s` that ends at `l`, if there is one.
pub open spec fn ending_at<T>(s: Set<(T, T)>, l: T) -> Option<(T, T)> {
    if exists|e: (T, T)| s.contains(e) && e.0 == l {
        Some(choose|e: (T, T)| s.contains(e) && e.0 == l)
    } else {
        None
    }
}

/// The ranges `s` with `[l, r)` added and joined to the ranges that it
/// touches.
pub open spec fn joined<T>(s: Set<(T, T)>, l: T, r: T) -> Set<(T, T)> {
    let after = beginning_at(s, r);
    let before = ending_at(s, l);
    let rest = match after {
        Some(e) => s.remove(e),
        None => s,
    };
    let rest = match before {
        Some(e) => rest.remove(e),
        None => rest,
    };
    let end = match after {
        Some(e) => e.0,
        None => r,
    };
    let begin = match before {
        Some(e) => e.1,
        None => l,
    };
    rest.insert((end, begin))
}

/// The ranges `s` without the part `[l, r)` of the range `e`.
pub open spec fn used<T: Ord>(s: Set<(T, T)>, e: (T, T), l: T, r: T) -> Set<(T, T)> {
    let rest = s.remove(e);
    let rest = if lt(e.1, l) {
        rest.insert((l, e.1))
    } else {
        rest
    };
    if lt(r, e.0) {
        rest.insert((e.0, r))
    } else {
        rest
    }
}

impl<T> View for RangeSpace<T> where T: Copy + Ord {
    type V = Set<(T, T)>;

    /// The ranges held, each `[l, r)` as the pair `(r, l)`.
    closed spec fn view(&self) -> Set<(T, T)> {
        self.st@
    }
}

impl<T> RangeSpace<T> where T: Copy + Ord {
    /// The bound that no range goes beyond.
    pub closed spec fn inf(&self) -> T {
        self.inf
    }

    /// The ranges held lie apart and inside the bound.
    pub open spec fn wf(&self) -> bool {
        ranges_apart(self@, self.inf())
    }

    /// A space without ranges, bounded by `inf`.
    pub fn new(inf: T) -> (space: Self)
        ensures
            space.wf(),
            space.inf() == inf,
            space@ == Set::<(T, T)>::empty(),
    {
        RangeSpace { inf, st: BTreeSet::new() }
    }

    /// The range with the least end after `x`, as `(begin, end)`.
    pub fn find_first_range(&self, x: T) -> (res: Option<(T, T)>)
        requires
            keeps_ord_laws::<T>(),
            self.wf(),
        ensures
            match res {
                Some((l, r)) => is_next_range(self@, x, (r, l)),
                None => forall|e: (T, T)| self@.contains(e) ==> le(e.0, x),
            },
    {
        proof {
            lemma_pairs_ordered::<T>();
            lemma_ord_is_total::<T>();
        }
        let key = (x, self.inf);
        let found = self.st.find_first(&key);
        if let Some(e) = found {
            let (r, l) = *e;
            proof {
                assert(self@.contains((r, l)));
                assert(!lt((r, l), key));
                assert forall|o: (T, T)| self@.contains(o) && lt(x, o.0) implies le(r, o.0) by {
                    assert(lt(key, o));
                    assert(le(key, o));
                    assert(le((r, l), o));
                }
            }
            Some((l, r))
        } else {
            proof {
                assert forall|e: (T, T)| self@.contains(e) implies le(e.0, x) by {
                    assert(lt(e, key));
                }
            }
            None
        }
    }

    /// The least point that is not less than `x` and lies in a range.
    pub fn find_first_point(&self, x: T) -> (res: Option<T>)
        requires
            keeps_ord_laws::<T>(),
            self.wf(),
        ensures
            match res {
                Some(p) => exists|e: (T, T)|
                    #[trigger] is_next_range(self@, x, e) && p == (if le(x, e.1) {
                        e.1
                    } else {
                        x
                    }),
                None => forall|e: (T, T)| self@.contains(e) ==> le(e.0, x),
            },
    {
        proof {
            lemma_ord_is_total::<T>();
        }
        if let Some((l, _r)) = self.find_first_range(x) {
            proof {
                assert(is_next_range(self@, x, (_r, l)));
            }
            if less_eq(&x, &l) {
                Some(l)
            } else {
                Some(x)
            }
        } else {
            None
        }
    }

    /// Adds the range `[l, r)`, joined to the ranges that it touches. Fails
    /// where the range goes beyond the bound or meets a range that is held.
    pub fn add_range(&mut self, l: T, r: T) -> (res: Result<(), String>)
        requires
            keeps_ord_laws::<T>(),
            old(self).wf(),
            lt(l, r),
        ensures
            final(self).wf(),
            final(self).inf() == old(self).inf(),
            res is Ok <==> le(r, old(self).inf()) && is_free(old(self)@, l, r),
            res is Ok ==> final(self)@ == joined(old(self)@, l, r),
            res is Err ==> final(self)@ == old(self)@,
            res matches Err(msg) ==> msg@ == (if le(r, old(self).inf()) {
                "区間が重複しています"@
            } else {
                "r が inf を超えています"@
            }),
        decreases old(self)@.len(),
    {
        broadcast use vstd::std_specs::btree::group_btree_axioms;
        broadcast use vstd::string::to_string_from_display_ensures_for_str;
        proof {
            lemma_pairs_ordered::<T>();
            lemma_ord_is_total::<T>();
        }
        if greater(&r, &self.inf) {
            return Err("r が inf を超えています".to_string());
        }
        let ghost s = self@;
        let key = (l, self.inf);
        let after = match self.st.find_first(&key) {
            Some(e) => Some(*e),
            None => None,
        };
        if let Some((nxt_r, nxt_l)) = after {
            proof {
                assert(s.contains((nxt_r, nxt_l)));
                assert(!lt((nxt_r, nxt_l), key));
                assert(lt(l, nxt_r));
            }
            if greater(&r, &nxt_l) {
                return Err("区間が重複しています".to_string());
            }
            if same(&r, &nxt_l) {
                self.st.remove(&(nxt_r, nxt_l));
                proof {
                    lemma_join_after(s, self.inf, l, r, (nxt_r, nxt_l));
                }
                return self.add_range(l, nxt_r);
            }
        }
        proof {
            assert forall|e: (T, T)| #[trigger] s.contains(e) && lt(l, e.0) implies lt(r, e.1) by {
                assert(lt(key, e));
                if let Some(first) = after {
                    assert(le(first, e));
                    if first != e {
                        assert(lt(first.0, e.1) || lt(e.0, first.1));
                    }
                }
            }
        }
        let before = match self.st.find_last(&key) {
            Some(e) => Some(*e),
            None => None,
        };
        if let Some((pre_r, pre_l)) = before {
            proof {
                assert(s.contains((pre_r, pre_l)));
                assert(!lt(key, (pre_r, pre_l)));
                assert(le(pre_r, l));
            }
            if greater(&pre_r, &l) {
                return Err("区間が重複しています".to_string());
            }
            if same(&pre_r, &l) {
                self.st.remove(&(pre_r, pre_l));
                proof {
                    lemma_join_before(s, self.inf, l, r, (pre_r, pre_l));
                }
                return self.add_range(pre_l, r);
            }
        }
        proof {
            assert(beginning_at(s, r) is None) by {
                if exists|e: (T, T)| s.contains(e) && e.1 == r {
                    let e = choose|e: (T, T)| s.contains(e) && e.1 == r;
                    assert(lt(l, e.0));
                }
            }
            assert(ending_at(s, l) is None) by {
                if exists|e: (T, T)| s.contains(e) && e.0 == l {
                    let e = choose|e: (T, T)| s.contains(e) && e.0 == l;
                    assert(lt(e, key));
                    assert(le(e, key));
                    if let Some(last) = before {
                        assert(le(e, last));
                        if last != e {
                            assert(lt(last.0, e.1) || lt(e.0, last.1));
                        }
                    }
                }
            }
            assert forall|e: (T, T)| #[trigger] s.contains(e) implies le(e.0, l) || le(r, e.1) by {
            }
            assert forall|e: (T, T)| #[trigger] s.contains(e) implies lt(e.0, l) || lt(r, e.1) by {
                if e.0 == l {
                    assert(ending_at(s, l) is Some);
                }
                if e.1 == r {
                    assert(beginning_at(s, r) is Some);
                }
            }
        }
        self.st.insert((r, l));
        return Ok(());
    }

    /// Takes the range `[l, r)` out of the range that holds it. Fails where
    /// no range holds all of it.
    pub fn use_range(&mut self, l: T, r: T) -> (res: Result<(), String>)
        requires
            keeps_ord_laws::<T>(),
            old(self).wf(),
            lt(l, r),
        ensures
            final(self).wf(),
            final(self).inf() == old(self).inf(),
            res is Ok <==> exists|e: (T, T)|
                #[trigger] old(self)@.contains(e) && le(e.1, l) && le(r, e.0),
            res is Ok ==> exists|e: (T, T)|
                #[trigger] old(self)@.contains(e) && le(e.1, l) && le(r, e.0) && final(self)@
                    == used(old(self)@, e, l, r),
            res matches Err(msg) ==> final(self)@ == old(self)@ && msg@ == "not found space"@,
    {
        broadcast use vstd::std_specs::btree::group_btree_axioms;
        broadcast use vstd::string::to_string_from_display_ensures_for_str;
        proof {
            lemma_pairs_ordered::<T>();
            lemma_ord_is_total::<T>();
        }
        let ghost s = self@;
        let key = (l, self.inf);
        let found = match self.st.find_first(&key) {
            Some(e) => Some(*e),
            None => None,
        };
        if let Some((sr, sl)) = found {
            proof {
                assert(s.contains((sr, sl)));
                assert(!lt((sr, sl), key));
                assert(lt(l, sr));
            }
            if less_eq(&sl, &l) && less_eq(&r, &sr) {
                self.st.remove(&(sr, sl));
                if less(&sl, &l) {
                    self.st.insert((l, sl));
                }
                if less(&r, &sr) {
                    self.st.insert((sr, r));
                }
                proof {
                    assert(self@ =~= used(s, (sr, sl), l, r));
                    lemma_used_apart(s, self.inf, (sr, sl), l, r);
                }
                return Ok(());
            }
        }
        proof {
            assert forall|e: (T, T)| #[trigger] s.contains(e) && le(e.1, l) && le(r, e.0) implies false by {
                assert(lt(key, e));
                if let Some(first) = found {
                    assert(le(first, e));
                    if first != e {
                        assert(lt(first.0, e.1) || lt(e.0, first.1));
                    }
                }
            }
        }
        Err("not found space".to_string())
    }

    /// Whether the range `[l, r)` is held as it is.
    pub fn holds(&self, l: T, r: T) -> (res: bool)
        requires
            keeps_ord_laws::<T>(),
        ensures
            res == self@.contains((r, l)),
    {
        broadcast use vstd::std_specs::btree::group_btree_axioms;
        proof {
            lemma_pairs_ordered::<T>();
        }
        self.st.contains(&(r, l))
    }

    /// The number of ranges held.
    pub fn len(&self) -> (n: usize)
        requires
            keeps_ord_laws::<T>(),
        ensures
            n == self@.len(),
    {
        broadcast use vstd::std_specs::btree::group_btree_axioms;
        proof {
            lemma_pairs_ordered::<T>();
        }
        self.st.len()
    }
}

/// Adding a range that touches the range `e` after it is adding the range
/// up to the end of `e` where `e` has been taken out.
proof fn lemma_join_after<T: Ord>(s: Set<(T, T)>, inf: T, l: T, r: T, e: (T, T))
    requires
        is_total_order::<T>(),
        ranges_apart(s, inf),
        s.contains(e),
        e.1 == r,
        lt(l, r),
        forall|o: (T, T)| s.contains(o) && lt(l, o.0) ==> le(e.0, o.0),
    ensures
        ranges_apart(s.remove(e), inf),
        s.remove(e).len() < s.len(),
        joined(s.remove(e), l, e.0) == joined(s, l, r),
        le(r, inf),
        is_free(s, l, r) <==> is_free(s.remove(e), l, e.0),
        le(e.0, inf),
        lt(l, e.0),
{
    let t = s.remove(e);
    assert(beginning_at(s, r) == Some(e)) by {
        let c = choose|c: (T, T)| s.contains(c) && c.1 == r;
        if c != e {
            assert(lt(c.0, e.1) || lt(e.0, c.1));
        }
    }
    assert(beginning_at(t, e.0) is None) by {
        if exists|c: (T, T)| t.contains(c) && c.1 == e.0 {
            let c = choose|c: (T, T)| t.contains(c) && c.1 == e.0;
            assert(s.contains(c));
            assert(lt(c.0, e.1) || lt(e.0, c.1));
        }
    }
    assert(ending_at(t, l) == ending_at(s, l)) by {
        assert forall|c: (T, T)| c.0 == l implies (s.contains(c) <==> t.contains(c)) by {
        }
        if exists|c: (T, T)| s.contains(c) && c.0 == l {
            let c = choose|c: (T, T)| s.contains(c) && c.0 == l;
            assert(t.contains(c));
            let d = choose|d: (T, T)| t.contains(d) && d.0 == l;
            assert(s.contains(d));
            if c != d {
                assert(lt(c.0, d.1) || lt(d.0, c.1));
            }
        } else {
            if exists|d: (T, T)| t.contains(d) && d.0 == l {
                let d = choose|d: (T, T)| t.contains(d) && d.0 == l;
                assert(s.contains(d));
            }
        }
    }
    match ending_at(s, l) {
        Some(b) => {
            assert(s.remove(e).remove(b) =~= t.remove(b));
        },
        None => {},
    }
    assert(joined(t, l, e.0) =~= joined(s, l, r));
    assert forall|o: (T, T)| #[trigger] s.contains(o) implies (le(o.0, l) || le(r, o.1)) == (o == e
        || le(o.0, l) || le(e.0, o.1)) by {
        if o != e {
            assert(lt(o.0, e.1) || lt(e.0, o.1));
        }
    }
    if is_free(s, l, r) {
        assert forall|o: (T, T)| #[trigger] t.contains(o) implies le(o.0, l) || le(e.0, o.1) by {
            assert(s.contains(o));
        }
    }
    if is_free(t, l, e.0) {
        assert forall|o: (T, T)| #[trigger] s.contains(o) implies le(o.0, l) || le(r, o.1) by {
            if o != e {
                assert(t.contains(o));
            }
        }
    }
}

/// Adding a range that touches the range `e` before it is adding the range
/// from the beginning of `e` where `e` has been taken out.
proof fn lemma_join_before<T: Ord>(s: Set<(T, T)>, inf: T, l: T, r: T, e: (T, T))
    requires
        is_total_order::<T>(),
        ranges_apart(s, inf),
        s.contains(e),
        e.0 == l,
        lt(l, r),
        le(r, inf),
        forall|o: (T, T)| #[trigger] s.contains(o) && lt(l, o.0) ==> lt(r, o.1),
    ensures
        ranges_apart(s.remove(e), inf),
        s.remove(e).len() < s.len(),
        joined(s.remove(e), e.1, r) == joined(s, l, r),
        is_free(s, l, r),
        is_free(s.remove(e), e.1, r),
        lt(e.1, r),
{
    let t = s.remove(e);
    assert(ending_at(s, l) == Some(e)) by {
        let c = choose|c: (T, T)| s.contains(c) && c.0 == l;
        if c != e {
            assert(lt(c.0, e.1) || lt(e.0, c.1));
        }
    }
    assert(beginning_at(s, r) is None) by {
        if exists|c: (T, T)| s.contains(c) && c.1 == r {
            let c = choose|c: (T, T)| s.contains(c) && c.1 == r;
            assert(lt(l, c.0));
        }
    }
    assert(beginning_at(t, r) is None) by {
        if exists|c: (T, T)| t.contains(c) && c.1 == r {
            let c = choose|c: (T, T)| t.contains(c) && c.1 == r;
            assert(s.contains(c));
        }
    }
    assert(ending_at(t, e.1) is None) by {
        if exists|c: (T, T)| t.contains(c) && c.0 == e.1 {
            let c = choose|c: (T, T)| t.contains(c) && c.0 == e.1;
            assert(s.contains(c));
            assert(lt(c.0, e.1) || lt(e.0, c.1));
        }
    }
    assert(joined(t, e.1, r) =~= joined(s, l, r));
    assert forall|o: (T, T)| #[trigger] s.contains(o) implies le(o.0, l) || le(r, o.1) by {
    }
    assert forall|o: (T, T)| #[trigger] t.contains(o) implies le(o.0, e.1) || le(r, o.1) by {
        assert(s.contains(o));
        assert(lt(o.0, e.1) || lt(e.0, o.1));
    }
}

/// Taking a part out of a range leaves ranges that lie apart.
proof fn lemma_used_apart<T: Ord>(s: Set<(T, T)>, inf: T, e: (T, T), l: T, r: T)
    requires
        is_total_order::<T>(),
        ranges_apart(s, inf),
        s.contains(e),
        le(e.1, l),
        le(r, e.0),
        lt(l, r),
    ensures
        ranges_apart(used(s, e, l, r), inf),
{
    let u = used(s, e, l, r);
    assert forall|a: (T, T)| #[trigger] u.contains(a) implies lt(a.1, a.0) && le(a.0, inf) by {
        if a != (l, e.1) && a != (e.0, r) {
            assert(s.contains(a));
        }
    }
    assert forall|a: (T, T), b: (T, T)|
        #[trigger] u.contains(a) && #[trigger] u.contains(b) && a != b implies lt(a.0, b.1) || lt(
        b.0,
        a.1,
    ) by {
        let a_new = a == (l, e.1) || a == (e.0, r);
        let b_new = b == (l, e.1) || b == (e.0, r);
        if !a_new && s.contains(a) && a != e {
            assert(lt(a.0, e.1) || lt(e.0, a.1));
        }
        if !b_new && s.contains(b) && b != e {
            assert(lt(b.0, e.1) || lt(e.0, b.1));
        }
        if !a_new && !b_new {
            assert(s.contains(a) && s.contains(b));
        }
    }
}

} // verus!
