//! A list that keeps the entries with the smallest keys, up to a fixed
//! number of them, in ascending order of their keys.

use vstd::prelude::*;
use crate::order::{is_total_order, le, less, lt};

verus! {

pub struct BoundedSortedList<K: PartialOrd + Copy, V: Clone> {
    que: Vec<(K, V)>,
    size: usize,
}

/// The keys of `s` are in ascending order, equal neighbours allowed.
pub open spec fn keys_ascending<K: PartialOrd, V>(s: Seq<(K, V)>) -> bool {
    forall|i: int, j: int| 0 <= i < j < s.len() ==> le((#[trigger] s[i]).0, (#[trigger] s[j]).0)
}

/// The number of entries of `s` among the first `n` whose key is at most
/// `k`: the place where an entry with the key `k` goes, behind the entries
/// with that key.
pub open spec fn place_of<K: PartialOrd, V>(s: Seq<(K, V)>, k: K, n: int) -> int
    decreases n,
{
    if n <= 0 {
        0
    } else {
        place_of(s, k, n - 1) + if le(s[n - 1].0, k) {
            1int
        } else {
            0int
        }
    }
}

/// The list `s` after an entry `(k, v)` has been offered to it, where at most
/// `limit` entries are kept: the entry goes to its place, and the entry with
/// the greatest key leaves where the list was full; a full list whose
/// greatest key is not greater than `k` stays as it is.
pub open spec fn offered<K: PartialOrd, V>(s: Seq<(K, V)>, limit: int, k: K, v: V) -> Seq<(K, V)> {
    if s.len() < limit {
        s.insert(place_of(s, k, s.len() as int), (k, v))
    } else if s.len() > 0 && lt(k, s.last().0) {
        s.drop_last().insert(place_of(s.drop_last(), k, s.len() - 1), (k, v))
    } else {
        s
    }
}

/// In a list with ascending keys, the entries before the place of `k` have
/// keys that are at most `k`, and the entries from it on have greater keys.
pub proof fn lemma_place_of<K: PartialOrd, V>(s: Seq<(K, V)>, k: K, n: int)
    requires
        is_total_order::<K>(),
        keys_ascending(s),
        0 <= n <= s.len(),
    ensures
        0 <= place_of(s, k, n) <= n,
        forall|i: int| 0 <= i < place_of(s, k, n) ==> le((#[trigger] s[i]).0, k),
        forall|i: int| place_of(s, k, n) <= i < n ==> lt(k, (#[trigger] s[i]).0),
    decreases n,
{
    if n > 0 {
        lemma_place_of(s, k, n - 1);
        let p = place_of(s, k, n - 1);
        if le(s[n - 1].0, k) {
            if p < n - 1 {
                assert(lt(k, s[p].0));
                assert(le(s[p].0, s[n - 1].0));
            }
            assert(p == n - 1);
        }
    }
}

impl<K: PartialOrd + Copy, V: Clone> View for BoundedSortedList<K, V> {
    type V = Seq<(K, V)>;

    /// The entries, in ascending order of their keys.
    closed spec fn view(&self) -> Seq<(K, V)> {
        self.que@
    }
}

impl<K: PartialOrd + Copy, V: Clone> BoundedSortedList<K, V> {
    /// The greatest number of entries that the list keeps.
    pub closed spec fn limit(&self) -> nat {
        self.size as nat
    }

    /// The list holds at most its limit of entries, in ascending order of
    /// their keys.
    pub open spec fn wf(&self) -> bool {
        self@.len() <= self.limit() && keys_ascending(self@)
    }

    /// An empty list that keeps up to `size` entries.
    pub fn new(size: usize) -> (list: Self)
        ensures
            list.wf(),
            list.limit() == size,
            list@ == Seq::<(K, V)>::empty(),
    {
        Self { que: Vec::with_capacity(size), size }
    }

    /// Whether an entry with the key `k` would be taken: whether there is
    /// room, or `k` is less than the greatest key.
    pub fn can_insert(&self, k: K) -> (r: bool)
        requires
            is_total_order::<K>(),
            self.wf(),
            self.limit() > 0,
        ensures
            r == (self@.len() < self.limit() || lt(k, self@.last().0)),
    {
        self.que.len() < self.size || less(&k, &self.que[self.que.len() - 1].0)
    }

    /// Offers the entry `(k, v)` to the list.
    pub fn insert(&mut self, k: K, v: V)
        requires
            is_total_order::<K>(),
            old(self).wf(),
            old(self).limit() > 0,
        ensures
            final(self).wf(),
            final(self).limit() == old(self).limit(),
            final(self)@ == offered(old(self)@, old(self).limit() as int, k, v),
    {
        if self.can_insert(k) {
            if self.que.len() == self.size {
                self.que.pop();
            }
            let ghost kept = self.que@;
            let mut pos = self.que.len();
            proof {
                lemma_place_of(kept, k, kept.len() as int);
            }
            while pos > 0 && less(&k, &self.que[pos - 1].0)
                invariant
                    is_total_order::<K>(),
                    self.que@ == kept,
                    keys_ascending(kept),
                    pos <= kept.len(),
                    place_of(kept, k, kept.len() as int) <= pos,
                    forall|i: int| 0 <= i < place_of(kept, k, kept.len() as int) ==> le(
                        (#[trigger] kept[i]).0,
                        k,
                    ),
                    forall|i: int|
                        place_of(kept, k, kept.len() as int) <= i < kept.len() ==> lt(
                            k,
                            (#[trigger] kept[i]).0,
                        ),
                decreases pos,
            {
                proof {
                    if place_of(kept, k, kept.len() as int) == pos {
                        assert(le(kept[pos - 1].0, k));
                    }
                }
                pos -= 1;
            }
            proof {
                if place_of(kept, k, kept.len() as int) < pos {
                    assert(lt(k, kept[pos - 1].0));
                }
            }
            self.que.insert(pos, (k, v));
            proof {
                let s = self.que@;
                assert forall|i: int, j: int| 0 <= i < j < s.len() implies le(
                    (#[trigger] s[i]).0,
                    (#[trigger] s[j]).0,
                ) by {
                    if i < pos && j > pos {
                        assert(le(kept[i].0, kept[j - 1].0));
                    } else if i < pos && j == pos {
                        assert(le(kept[i].0, k));
                    } else if i == pos {
                        assert(lt(k, kept[j - 1].0));
                    } else if i > pos {
                        assert(le(kept[i - 1].0, kept[j - 1].0));
                    } else {
                        assert(le(kept[i].0, kept[j].0));
                    }
                }
            }
        }
    }

    /// The entries in ascending order of their keys, the values cloned.
    pub fn list(&self) -> (out: Vec<(K, V)>)
        ensures
            out@.len() == self@.len(),
            forall|i: int|
                0 <= i < out@.len() ==> (#[trigger] out@[i]).0 == self@[i].0 && cloned(
                    self@[i].1,
                    out@[i].1,
                ),
    {
        let mut out: Vec<(K, V)> = Vec::new();
        let mut i: usize = 0;
        while i < self.que.len()
            invariant
                i <= self.que@.len(),
                out@.len() == i,
                forall|j: int|
                    0 <= j < i ==> (#[trigger] out@[j]).0 == self.que@[j].0 && cloned(
                        self.que@[j].1,
                        out@[j].1,
                    ),
            decreases self.que@.len() - i,
        {
            out.push((self.que[i].0, self.que[i].1.clone()));
            i += 1;
        }
        out
    }

    /// The number of entries.
    pub fn len(&self) -> (n: usize)
        ensures
            n == self@.len(),
    {
        self.que.len()
    }
}

} // verus!
