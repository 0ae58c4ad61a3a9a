//! A double-ended priority queue as an interval heap, and two queues of
//! bounded size on top of it.
//!
//! The elements lie in one vector. The places `2k` and `2k + 1` form a node:
//! the lower and the upper end of an interval. The intervals of the two
//! children of a node, the nodes at `4k + 2` and `4k + 4`, lie inside the
//! interval of their parent. So the least element is at place 0 and the
//! greatest at place 1.

pub mod reversed;

use vstd::prelude::*;
use vstd::multiset::Multiset;
use crate::interval_heap::reversed::{lemma_reversed_order, Reversed};
use crate::order::{greater, is_total_order, le, less, lt};
use crate::segment_tree2d::layout::{lemma_low_bit, lemma_shift_doubles};
use crate::std_ext::swap;

verus! {

/// The place of the lower end of the parent of the place `i`, for `i >= 2`.
pub open spec fn parent_of(i: int) -> int {
    2 * ((i - 2) / 4)
}

/// The element at the place `c` is at least the lower end of the node at
/// `p`.
pub open spec fn above<T: PartialOrd>(s: Seq<T>, p: int, c: int) -> bool {
    le(s[p], s[c])
}

/// The element at the place `c` is at most the upper end of the node at `p`.
pub open spec fn below<T: PartialOrd>(s: Seq<T>, p: int, c: int) -> bool {
    le(s[c], s[p + 1])
}

/// The element at the place `c` is at least the lower end of its parent.
pub open spec fn above_low<T: PartialOrd>(s: Seq<T>, c: int) -> bool {
    above(s, parent_of(c), c)
}

/// The element at the place `c` is at most the upper end of its parent.
pub open spec fn below_high<T: PartialOrd>(s: Seq<T>, c: int) -> bool {
    below(s, parent_of(c), c)
}

/// The lower end of node `j` is at most its upper end.
pub open spec fn pair_ok_at<T: PartialOrd>(s: Seq<T>, j: int) -> bool {
    le(s[2 * j], s[2 * j + 1])
}

/// The lower end of every node is at most its upper end.
pub open spec fn pairs_ok<T: PartialOrd>(s: Seq<T>) -> bool {
    forall|j: int| 0 <= j && 2 * j + 1 < s.len() ==> #[trigger] pair_ok_at(s, j)
}

/// The sequence is an interval heap.
pub open spec fn is_interval_heap<T: PartialOrd>(s: Seq<T>) -> bool {
    &&& pairs_ok(s)
    &&& forall|c: int| 2 <= c < s.len() ==> #[trigger] above_low(s, c)
    &&& forall|c: int| 2 <= c < s.len() ==> #[trigger] below_high(s, c)
}

/// `m` is a least element of `s`.
pub open spec fn is_least<T: PartialOrd>(s: Multiset<T>, m: T) -> bool {
    s.contains(m) && forall|e: T| s.contains(e) ==> le(m, e)
}

/// `m` is a greatest element of `s`.
pub open spec fn is_greatest<T: PartialOrd>(s: Multiset<T>, m: T) -> bool {
    s.contains(m) && forall|e: T| s.contains(e) ==> le(e, m)
}

/// The interval heap but for the place `i`, whose element may lie outside
/// the interval of its parent: what holds while an element moves up. The
/// children of the node of `i` lie in the interval of the parent of `i`.
pub open spec fn heap_but_up<T: PartialOrd>(s: Seq<T>, i: int) -> bool {
    &&& pairs_ok(s)
    &&& forall|c: int| 2 <= c < s.len() && c != i ==> #[trigger] above_low(s, c)
    &&& forall|c: int| 2 <= c < s.len() && c != i ==> #[trigger] below_high(s, c)
    &&& i >= 2 ==> forall|c: int|
        2 <= c < s.len() && parent_of(c) == i - i % 2 ==> #[trigger] above(s, parent_of(i), c)
    &&& i >= 2 ==> forall|c: int|
        2 <= c < s.len() && parent_of(c) == i - i % 2 ==> #[trigger] below(s, parent_of(i), c)
}

/// The interval heap but for the place `i`, an even one, whose element may
/// be greater than the lower ends of its children: what holds while an
/// element moves down on the side of the lower ends. With `open`, the node of
/// `i` may also have its ends in the wrong order.
pub open spec fn heap_but_down_min<T: PartialOrd>(s: Seq<T>, i: int, open: bool) -> bool {
    &&& forall|j: int|
        0 <= j && 2 * j + 1 < s.len() && !(open && 2 * j == i) ==> #[trigger] pair_ok_at(s, j)
    &&& forall|c: int| 2 <= c < s.len() ==> #[trigger] below_high(s, c)
    &&& forall|c: int| 2 <= c < s.len() && parent_of(c) != i ==> #[trigger] above_low(s, c)
    &&& i >= 2 ==> forall|c: int|
        2 <= c < s.len() && parent_of(c) == i ==> #[trigger] above(s, parent_of(i), c)
}

/// The interval heap but for the place `i`, an odd one, whose element may
/// be less than the upper ends of its children: what holds while an element
/// moves down on the side of the upper ends. A last element without a
/// partner is at most the element at `i`. With `open`, the node of `i` may
/// also have its ends in the wrong order.
pub open spec fn heap_but_down_max<T: PartialOrd>(s: Seq<T>, i: int, open: bool) -> bool {
    &&& forall|j: int|
        0 <= j && 2 * j + 1 < s.len() && !(open && 2 * j + 1 == i) ==> #[trigger] pair_ok_at(s, j)
    &&& forall|c: int| 2 <= c < s.len() ==> #[trigger] above_low(s, c)
    &&& forall|c: int| 2 <= c < s.len() && parent_of(c) != i - 1 ==> #[trigger] below_high(s, c)
    &&& i >= 3 ==> forall|c: int|
        2 <= c < s.len() && parent_of(c) == i - 1 ==> #[trigger] below(s, parent_of(i), c)
    &&& s.len() % 2 == 1 && s.len() - 1 > i ==> le(s[s.len() - 1], s[i])
}

/// Exchanging two elements keeps the elements.
pub proof fn lemma_swap_keeps_elements<T>(s: Seq<T>, i: int, j: int)
    requires
        0 <= i < s.len(),
        0 <= j < s.len(),
    ensures
        s.update(i, s[j]).update(j, s[i]).to_multiset() == s.to_multiset(),
{
    broadcast use vstd::multiset::group_multiset_axioms;
    vstd::seq_lib::to_multiset_update(s, i, s[j]);
    vstd::seq_lib::to_multiset_update(s.update(i, s[j]), j, s[i]);
    vstd::seq_lib::to_multiset_contains(s, s[j]);
    vstd::seq_lib::to_multiset_contains(s, s[i]);
    assert(s.update(i, s[j]).update(j, s[i]).to_multiset() =~= s.to_multiset());
}

/// Taking the last element off a sequence takes one occurrence of it out
/// of the elements.
pub proof fn lemma_pop_keeps_rest<T>(s: Seq<T>)
    requires
        s.len() >= 1,
    ensures
        s.drop_last().to_multiset() == s.to_multiset().remove(s.last()),
{
    broadcast use vstd::multiset::group_multiset_axioms;
    vstd::seq_lib::to_multiset_build(s.drop_last(), s.last());
    assert(s.drop_last().push(s.last()) =~= s);
    assert(s.drop_last().to_multiset() =~= s.to_multiset().remove(s.last()));
}

/// The machine computes the parent of a place as the specification states
/// it.
proof fn lemma_parent_bits(i: usize)
    by (bit_vector)
    requires
        i >= 2,
    ensures
        (((i >> 1usize) - 1) as usize) & !1usize == (2 * (((i - 2) as usize) / 4usize)) as usize,
        (((i >> 1usize) - 1) as usize) & !1usize < i - 1,
{
}

/// In an interval heap every element is at least the element at place 0.
pub proof fn lemma_least<T: PartialOrd>(s: Seq<T>, i: int)
    requires
        is_total_order::<T>(),
        is_interval_heap(s),
        0 <= i < s.len(),
    ensures
        le(s[0], s[i]),
    decreases i,
{
    if i >= 2 {
        assert(above_low(s, i));
        lemma_least(s, parent_of(i));
    } else if i == 1 {
        assert(pair_ok_at(s, 0));
    }
}

/// In an interval heap of two or more elements every element is at most the
/// element at place 1.
pub proof fn lemma_greatest<T: PartialOrd>(s: Seq<T>, i: int)
    requires
        is_total_order::<T>(),
        is_interval_heap(s),
        0 <= i < s.len(),
        s.len() >= 2,
    ensures
        le(s[i], s[1]),
    decreases i,
{
    if i >= 2 {
        assert(below_high(s, i));
        lemma_greatest(s, parent_of(i) + 1);
    } else if i == 0 {
        assert(pair_ok_at(s, 0));
    }
}

/// The least element is at place 0, and the greatest at place 1, or at
/// place 0 where there is one element only.
pub proof fn lemma_ends<T: PartialOrd>(s: Seq<T>)
    requires
        is_total_order::<T>(),
        is_interval_heap(s),
    ensures
        s.to_multiset().len() == s.len(),
        s.len() >= 1 ==> is_least(s.to_multiset(), s[0]),
        s.len() >= 2 ==> is_greatest(s.to_multiset(), s[1]),
        s.len() == 1 ==> is_greatest(s.to_multiset(), s[0]),
{
    vstd::seq_lib::to_multiset_len(s);
    if s.len() >= 1 {
        vstd::seq_lib::to_multiset_contains(s, s[0]);
        assert forall|e: T| s.to_multiset().contains(e) implies le(s[0], e) by {
            vstd::seq_lib::to_multiset_contains(s, e);
            let i = choose|i: int| 0 <= i < s.len() && s[i] == e;
            lemma_least(s, i);
        }
    }
    if s.len() >= 2 {
        vstd::seq_lib::to_multiset_contains(s, s[1]);
        assert forall|e: T| s.to_multiset().contains(e) implies le(e, s[1]) by {
            vstd::seq_lib::to_multiset_contains(s, e);
            let i = choose|i: int| 0 <= i < s.len() && s[i] == e;
            lemma_greatest(s, i);
        }
    }
    if s.len() == 1 {
        assert forall|e: T| s.to_multiset().contains(e) implies le(e, s[0]) by {
            vstd::seq_lib::to_multiset_contains(s, e);
        }
    }
}

/// A heap with one more element at its end is in order but for that place.
proof fn lemma_pushed<T: PartialOrd>(s: Seq<T>, x: T)
    requires
        is_total_order::<T>(),
        is_interval_heap(s),
    ensures
        heap_but_pushed(s.push(x)),
{
    let t = s.push(x);
    let i = s.len() as int;
    assert forall|j: int| 0 <= j && 2 * j + 1 < t.len() && 2 * j + 1 != i implies #[trigger] pair_ok_at(
        t,
        j,
    ) by {
        assert(pair_ok_at(s, j));
    }
    assert forall|c: int| 2 <= c < t.len() && c != i implies #[trigger] above_low(t, c) by {
        assert(above_low(s, c));
    }
    assert forall|c: int| 2 <= c < t.len() && c != i implies #[trigger] below_high(t, c) by {
        assert(below_high(s, c));
    }
}

/// The interval heap but for its last place: what holds after an element
/// has been put at the end.
pub open spec fn heap_but_pushed<T: PartialOrd>(s: Seq<T>) -> bool {
    &&& s.len() >= 1
    &&& forall|j: int|
        0 <= j && 2 * j + 1 < s.len() && 2 * j + 1 != s.len() - 1 ==> #[trigger] pair_ok_at(s, j)
    &&& forall|c: int| 2 <= c < s.len() && c != s.len() - 1 ==> #[trigger] above_low(s, c)
    &&& forall|c: int| 2 <= c < s.len() && c != s.len() - 1 ==> #[trigger] below_high(s, c)
}

/// The last element, at an odd place, changes places with its partner where
/// it is less than it.
proof fn lemma_up_pair<T: PartialOrd>(s: Seq<T>, t: Seq<T>)
    requires
        is_total_order::<T>(),
        heap_but_pushed(s),
        s.len() % 2 == 0,
        lt(s[s.len() - 1], s[s.len() - 2]),
        t == s.update(s.len() - 1, s[s.len() - 2]).update(s.len() - 2, s[s.len() - 1]),
    ensures
        heap_but_up(t, s.len() - 2),
{
    let i = s.len() - 1;
    assert forall|j: int| 0 <= j && 2 * j + 1 < t.len() implies #[trigger] pair_ok_at(t, j) by {
        if 2 * j + 1 != i {
            assert(pair_ok_at(s, j));
        }
    }
    assert forall|c: int| 2 <= c < t.len() && c != i - 1 implies #[trigger] above_low(t, c) by {
        if c == i {
            assert(above_low(s, i - 1));
        } else {
            assert(above_low(s, c));
        }
    }
    assert forall|c: int| 2 <= c < t.len() && c != i - 1 implies #[trigger] below_high(t, c) by {
        if c == i {
            assert(below_high(s, i - 1));
        } else {
            assert(below_high(s, c));
        }
    }
}

/// Where the last element is in order with its partner, the heap is in
/// order but for the last place.
proof fn lemma_up_start<T: PartialOrd>(s: Seq<T>)
    requires
        is_total_order::<T>(),
        heap_but_pushed(s),
        s.len() % 2 == 0 ==> le(s[s.len() - 2], s[s.len() - 1]),
    ensures
        heap_but_up(s, s.len() - 1),
{
    let i = s.len() - 1;
    assert forall|j: int| 0 <= j && 2 * j + 1 < s.len() implies #[trigger] pair_ok_at(s, j) by {
    }
}

/// One step up on the side of the lower ends: the element at `i`, which is
/// less than the lower end of its parent, changes places with it.
proof fn lemma_up_min_step<T: PartialOrd>(s: Seq<T>, t: Seq<T>, i: int)
    requires
        is_total_order::<T>(),
        2 <= i < s.len(),
        heap_but_up(s, i),
        lt(s[i], s[parent_of(i)]),
        t == s.update(i, s[parent_of(i)]).update(parent_of(i), s[i]),
    ensures
        heap_but_up(t, parent_of(i)),
{
    let p = parent_of(i);
    assert(pair_ok_at(s, p / 2));
    if i % 2 == 1 {
        assert(pair_ok_at(s, (i - 1) / 2));
        assert(above_low(s, i - 1));
        assert(false);
    }
    assert forall|j: int| 0 <= j && 2 * j + 1 < t.len() implies #[trigger] pair_ok_at(t, j) by {
        assert(pair_ok_at(s, j));
        if 2 * j == i {
            assert(above_low(s, i + 1));
        }
    }
    assert forall|c: int| 2 <= c < t.len() && c != p implies #[trigger] above_low(t, c) by {
        if c == i {
        } else if parent_of(c) == p {
            assert(above_low(s, c));
        } else if parent_of(c) == i {
            assert(above(s, parent_of(i), c));
            assert(above_low(s, c));
        } else {
            assert(above_low(s, c));
        }
    }
    assert forall|c: int| 2 <= c < t.len() && c != p implies #[trigger] below_high(t, c) by {
        if c == i {
        } else {
            assert(below_high(s, c));
        }
    }
    if p >= 2 {
        assert(above_low(s, p));
        assert(below_high(s, p));
        assert(above_low(s, p + 1));
        assert(below_high(s, p + 1));
        assert forall|c: int| 2 <= c < t.len() && parent_of(c) == p - p % 2 implies #[trigger] above(
            t,
            parent_of(p),
            c,
        ) by {
            if c != i {
                assert(above_low(s, c));
            }
        }
        assert forall|c: int| 2 <= c < t.len() && parent_of(c) == p - p % 2 implies #[trigger] below(
            t,
            parent_of(p),
            c,
        ) by {
            if c != i {
                assert(below_high(s, c));
            }
        }
    }
}

/// One step up on the side of the upper ends: the element at `i`, which is
/// greater than the upper end of its parent, changes places with it.
proof fn lemma_up_max_step<T: PartialOrd>(s: Seq<T>, t: Seq<T>, i: int)
    requires
        is_total_order::<T>(),
        2 <= i < s.len(),
        heap_but_up(s, i),
        le(s[parent_of(i)], s[i]),
        lt(s[parent_of(i) + 1], s[i]),
        t == s.update(i, s[parent_of(i) + 1]).update(parent_of(i) + 1, s[i]),
    ensures
        heap_but_up(t, parent_of(i) + 1),
        parent_of(i) + 1 >= 2 ==> le(t[parent_of(parent_of(i) + 1)], t[parent_of(i) + 1]),
{
    let p = parent_of(i) + 1;
    assert(pair_ok_at(s, (p - 1) / 2));
    assert forall|j: int| 0 <= j && 2 * j + 1 < t.len() implies #[trigger] pair_ok_at(t, j) by {
        assert(pair_ok_at(s, j));
        if 2 * j + 1 == i {
            assert(below_high(s, i - 1));
        }
    }
    assert forall|c: int| 2 <= c < t.len() && c != p implies #[trigger] below_high(t, c) by {
        if c == i {
        } else if parent_of(c) == p - 1 {
            assert(below_high(s, c));
        } else if parent_of(c) == i - i % 2 {
            assert(below(s, parent_of(i), c));
            assert(below_high(s, c));
        } else {
            assert(below_high(s, c));
        }
    }
    assert forall|c: int| 2 <= c < t.len() && c != p implies #[trigger] above_low(t, c) by {
        if c == i {
        } else {
            assert(above_low(s, c));
        }
    }
    if p >= 2 {
        assert(above_low(s, p));
        assert(below_high(s, p));
        assert(above_low(s, p - 1));
        assert(below_high(s, p - 1));
        assert forall|c: int| 2 <= c < t.len() && parent_of(c) == p - p % 2 implies #[trigger] above(
            t,
            parent_of(p),
            c,
        ) by {
            if c != i {
                assert(above_low(s, c));
            }
        }
        assert forall|c: int| 2 <= c < t.len() && parent_of(c) == p - p % 2 implies #[trigger] below(
            t,
            parent_of(p),
            c,
        ) by {
            if c != i {
                assert(below_high(s, c));
            }
        }
    }
}

/// Where the element at `i` lies in the interval of its parent, the heap is
/// in order.
proof fn lemma_up_end<T: PartialOrd>(s: Seq<T>, i: int)
    requires
        is_total_order::<T>(),
        0 <= i < s.len(),
        heap_but_up(s, i),
        i >= 2 ==> le(s[parent_of(i)], s[i]) && le(s[i], s[parent_of(i) + 1]),
    ensures
        is_interval_heap(s),
{
    assert forall|c: int| 2 <= c < s.len() implies #[trigger] above_low(s, c) by {
    }
    assert forall|c: int| 2 <= c < s.len() implies #[trigger] below_high(s, c) by {
    }
}

/// After the last element has taken the place of the least one, the heap is
/// in order but for the place 0.
proof fn lemma_after_pop_min<T: PartialOrd>(s: Seq<T>, t: Seq<T>)
    requires
        is_total_order::<T>(),
        is_interval_heap(s),
        s.len() >= 2,
        t == s.update(0, s[s.len() - 1]).update(s.len() - 1, s[0]).drop_last(),
    ensures
        heap_but_down_min(t, 0, false),
{
    let n = s.len() as int;
    lemma_greatest(s, n - 1);
    assert forall|j: int| 0 <= j && 2 * j + 1 < t.len() implies #[trigger] pair_ok_at(t, j) by {
        assert(pair_ok_at(s, j));
    }
    assert forall|c: int| 2 <= c < t.len() implies #[trigger] below_high(t, c) by {
        assert(below_high(s, c));
    }
    assert forall|c: int| 2 <= c < t.len() && parent_of(c) != 0 implies #[trigger] above_low(t, c) by {
        assert(above_low(s, c));
    }
}

/// After the last element has taken the place of the greatest one, the heap
/// is in order but for the place 1.
proof fn lemma_after_pop_max<T: PartialOrd>(s: Seq<T>, t: Seq<T>)
    requires
        is_total_order::<T>(),
        is_interval_heap(s),
        s.len() >= 3,
        t == s.update(1, s[s.len() - 1]).update(s.len() - 1, s[1]).drop_last(),
    ensures
        heap_but_down_max(t, 1, false),
{
    let n = s.len() as int;
    lemma_least(s, n - 1);
    assert forall|j: int| 0 <= j && 2 * j + 1 < t.len() implies #[trigger] pair_ok_at(t, j) by {
        assert(pair_ok_at(s, j));
    }
    assert forall|c: int| 2 <= c < t.len() implies #[trigger] above_low(t, c) by {
        assert(above_low(s, c));
    }
    assert forall|c: int| 2 <= c < t.len() && parent_of(c) != 0 implies #[trigger] below_high(t, c) by {
        assert(below_high(s, c));
    }
    if t.len() % 2 == 1 && t.len() - 1 > 1 {
        assert(pair_ok_at(s, (n - 2) / 2));
    }
}

/// After a greater element has taken the place of the least one, the heap is
/// in order but for the place 0, whose node may have its ends in the wrong
/// order.
proof fn lemma_after_replace_min<T: PartialOrd>(s: Seq<T>, x: T)
    requires
        is_total_order::<T>(),
        is_interval_heap(s),
        s.len() >= 1,
    ensures
        heap_but_down_min(s.update(0, x), 0, true),
{
    let t = s.update(0, x);
    assert forall|j: int| 0 <= j && 2 * j + 1 < t.len() && 2 * j != 0 implies #[trigger] pair_ok_at(
        t,
        j,
    ) by {
        assert(pair_ok_at(s, j));
    }
    assert forall|c: int| 2 <= c < t.len() implies #[trigger] below_high(t, c) by {
        assert(below_high(s, c));
    }
    assert forall|c: int| 2 <= c < t.len() && parent_of(c) != 0 implies #[trigger] above_low(t, c) by {
        assert(above_low(s, c));
    }
}

/// One step down on the side of the lower ends: the element at `i` changes
/// places with the lesser lower end `k` of its children, which is less than
/// it.
proof fn lemma_down_min_step<T: PartialOrd>(s: Seq<T>, t: Seq<T>, i: int, k: int)
    requires
        is_total_order::<T>(),
        0 <= i,
        i % 2 == 0,
        heap_but_down_min(s, i, false),
        k == 2 * i + 2 || k == 2 * i + 4,
        k < s.len(),
        lt(s[k], s[i]),
        2 * i + 2 < s.len() ==> le(s[k], s[2 * i + 2]),
        2 * i + 4 < s.len() ==> le(s[k], s[2 * i + 4]),
        t == s.update(i, s[k]).update(k, s[i]),
    ensures
        heap_but_down_min(t, k, true),
{
    assert(parent_of(k) == i);
    assert(pair_ok_at(s, i / 2));
    assert(below_high(s, k));
    assert forall|j: int|
        0 <= j && 2 * j + 1 < t.len() && 2 * j != k implies #[trigger] pair_ok_at(t, j) by {
        assert(pair_ok_at(s, j));
    }
    assert forall|c: int| 2 <= c < t.len() implies #[trigger] below_high(t, c) by {
        assert(below_high(s, c));
        if c == i {
            assert(below_high(s, i + 1));
        }
    }
    assert forall|c: int| 2 <= c < t.len() && parent_of(c) != k implies #[trigger] above_low(t, c) by {
        if parent_of(c) == i {
            if c == k {
            } else if c % 2 == 0 {
            } else {
                assert(pair_ok_at(s, (c - 1) / 2));
            }
        } else if c == i {
            assert(above(s, parent_of(i), k));
        } else {
            assert(above_low(s, c));
        }
    }
    assert forall|c: int| 2 <= c < t.len() && parent_of(c) == k implies #[trigger] above(
        t,
        parent_of(k),
        c,
    ) by {
        assert(above_low(s, c));
    }
}

/// The ends of the node of `i` change places where they are in the wrong
/// order.
proof fn lemma_down_min_fix<T: PartialOrd>(s: Seq<T>, t: Seq<T>, i: int)
    requires
        is_total_order::<T>(),
        0 <= i,
        i % 2 == 0,
        i + 1 < s.len(),
        heap_but_down_min(s, i, true),
        lt(s[i + 1], s[i]),
        i >= 2 ==> le(s[i], s[parent_of(i) + 1]) && le(s[parent_of(i)], s[i + 1]),
        t == s.update(i, s[i + 1]).update(i + 1, s[i]),
    ensures
        heap_but_down_min(t, i, false),
{
    let lo = s[i + 1];
    let hi = s[i];
    assert forall|j: int| 0 <= j && 2 * j + 1 < t.len() implies #[trigger] pair_ok_at(t, j) by {
        if 2 * j != i {
            assert(pair_ok_at(s, j));
            assert(t[2 * j] == s[2 * j] && t[2 * j + 1] == s[2 * j + 1]);
        } else {
            assert(t[2 * j] == lo && t[2 * j + 1] == hi);
        }
    }
    assert forall|c: int| 2 <= c < t.len() implies #[trigger] below_high(t, c) by {
        let p = parent_of(c);
        assert(below_high(s, c));
        if c == i {
            assert(below_high(s, i + 1));
            assert(t[c] == lo && t[p + 1] == s[p + 1]);
        } else if c == i + 1 {
            assert(t[c] == hi && t[p + 1] == s[p + 1]);
        } else if p == i {
            assert(t[c] == s[c] && t[p + 1] == hi);
            assert(le(s[c], lo));
        } else {
            assert(t[c] == s[c] && t[p + 1] == s[p + 1]);
        }
    }
    assert forall|c: int| 2 <= c < t.len() && parent_of(c) != i implies #[trigger] above_low(t, c) by {
        let p = parent_of(c);
        if c == i {
            assert(t[c] == lo && t[p] == s[p]);
        } else if c == i + 1 {
            assert(t[c] == hi && t[p] == s[p]);
            assert(le(s[p], lo));
        } else {
            assert(above_low(s, c));
            assert(t[c] == s[c] && t[p] == s[p]);
        }
    }
    if i >= 2 {
        assert forall|c: int| 2 <= c < t.len() && parent_of(c) == i implies #[trigger] above(
            t,
            parent_of(i),
            c,
        ) by {
            assert(above(s, parent_of(i), c));
            assert(t[c] == s[c] && t[parent_of(i)] == s[parent_of(i)]);
        }
    }
}

/// Where the ends of the node of `i` are in order, nothing is to mend.
proof fn lemma_down_min_no_fix<T: PartialOrd>(s: Seq<T>, i: int)
    requires
        is_total_order::<T>(),
        0 <= i < s.len(),
        i % 2 == 0,
        heap_but_down_min(s, i, true),
        i + 1 < s.len() ==> le(s[i], s[i + 1]),
    ensures
        heap_but_down_min(s, i, false),
{
    assert forall|j: int| 0 <= j && 2 * j + 1 < s.len() implies #[trigger] pair_ok_at(s, j) by {
    }
}

/// Where the element at `i` is at most the lesser lower end of its
/// children, or has no children, the heap is in order.
proof fn lemma_down_min_end<T: PartialOrd>(s: Seq<T>, i: int, k: int)
    requires
        is_total_order::<T>(),
        0 <= i,
        i % 2 == 0,
        heap_but_down_min(s, i, false),
        2 * i + 2 < s.len() ==> {
            &&& k == 2 * i + 2 || k == 2 * i + 4
            &&& k < s.len()
            &&& le(s[i], s[k])
            &&& le(s[k], s[2 * i + 2])
            &&& 2 * i + 4 < s.len() ==> le(s[k], s[2 * i + 4])
        },
    ensures
        is_interval_heap(s),
{
    assert forall|c: int| 2 <= c < s.len() implies #[trigger] above_low(s, c) by {
        if parent_of(c) == i {
            if c % 2 == 1 {
                assert(pair_ok_at(s, (c - 1) / 2));
            }
        }
    }
}

/// One step down on the side of the upper ends: the element at `i` changes
/// places with the greater upper end `k` of its children, which is greater
/// than it.
proof fn lemma_down_max_step<T: PartialOrd>(s: Seq<T>, t: Seq<T>, i: int, k: int)
    requires
        is_total_order::<T>(),
        1 <= i,
        i % 2 == 1,
        heap_but_down_max(s, i, false),
        k == 2 * i + 1 || k == 2 * i + 3,
        k < s.len(),
        lt(s[i], s[k]),
        2 * i + 1 < s.len() ==> le(s[2 * i + 1], s[k]),
        2 * i + 3 < s.len() ==> le(s[2 * i + 3], s[k]),
        t == s.update(i, s[k]).update(k, s[i]),
    ensures
        heap_but_down_max(t, k, true),
        le(t[k], t[parent_of(k) + 1]),
        le(t[k - 1], t[parent_of(k) + 1]),
        le(t[parent_of(k)], t[k]),
{
    assert(parent_of(k) == i - 1);
    assert(pair_ok_at(s, (i - 1) / 2));
    assert(pair_ok_at(s, (k - 1) / 2));
    assert(above_low(s, k));
    assert(above_low(s, k - 1));
    assert forall|j: int|
        0 <= j && 2 * j + 1 < t.len() && 2 * j + 1 != k implies #[trigger] pair_ok_at(t, j) by {
        assert(pair_ok_at(s, j));
    }
    assert forall|c: int| 2 <= c < t.len() implies #[trigger] above_low(t, c) by {
        assert(above_low(s, c));
        if c == i {
            assert(above_low(s, i - 1));
        }
    }
    assert forall|c: int| 2 <= c < t.len() && parent_of(c) != k - 1 implies #[trigger] below_high(
        t,
        c,
    ) by {
        if parent_of(c) == i - 1 {
            if c == k {
            } else if c % 2 == 1 {
            } else if c + 1 < s.len() {
                assert(pair_ok_at(s, c / 2));
            } else {
            }
        } else if c == i {
            assert(below(s, parent_of(i), k));
        } else {
            assert(below_high(s, c));
        }
    }
    assert forall|c: int| 2 <= c < t.len() && parent_of(c) == k - 1 implies #[trigger] below(
        t,
        parent_of(k),
        c,
    ) by {
        assert(below_high(s, c));
    }
}

/// The ends of the node of `i` change places where they are in the wrong
/// order.
proof fn lemma_down_max_fix<T: PartialOrd>(s: Seq<T>, t: Seq<T>, i: int)
    requires
        is_total_order::<T>(),
        3 <= i < s.len(),
        i % 2 == 1,
        heap_but_down_max(s, i, true),
        lt(s[i], s[i - 1]),
        le(s[i - 1], s[parent_of(i) + 1]),
        le(s[parent_of(i)], s[i]),
        t == s.update(i, s[i - 1]).update(i - 1, s[i]),
    ensures
        heap_but_down_max(t, i, false),
{
    assert forall|j: int| 0 <= j && 2 * j + 1 < t.len() implies #[trigger] pair_ok_at(t, j) by {
        if 2 * j + 1 != i {
            assert(pair_ok_at(s, j));
        }
    }
    assert forall|c: int| 2 <= c < t.len() implies #[trigger] above_low(t, c) by {
        assert(above_low(s, c));
        if c == i {
            assert(above_low(s, i - 1));
        }
    }
    assert forall|c: int| 2 <= c < t.len() && parent_of(c) != i - 1 implies #[trigger] below_high(
        t,
        c,
    ) by {
        if c == i || c == i - 1 {
        } else {
            assert(below_high(s, c));
        }
    }
    assert forall|c: int| 2 <= c < t.len() && parent_of(c) == i - 1 implies #[trigger] below(
        t,
        parent_of(i),
        c,
    ) by {
        assert(below(s, parent_of(i), c));
    }
}

/// Where the ends of the node of `i` are in order, nothing is to mend.
proof fn lemma_down_max_no_fix<T: PartialOrd>(s: Seq<T>, i: int)
    requires
        is_total_order::<T>(),
        1 <= i < s.len(),
        i % 2 == 1,
        heap_but_down_max(s, i, true),
        le(s[i - 1], s[i]),
    ensures
        heap_but_down_max(s, i, false),
{
    assert forall|j: int| 0 <= j && 2 * j + 1 < s.len() implies #[trigger] pair_ok_at(s, j) by {
    }
}

/// Where the element at `i` is at least the greater upper end of its
/// children, or no child has an upper end, the heap is in order.
proof fn lemma_down_max_end<T: PartialOrd>(s: Seq<T>, i: int, k: int)
    requires
        is_total_order::<T>(),
        1 <= i,
        i % 2 == 1,
        heap_but_down_max(s, i, false),
        2 * i + 1 < s.len() ==> {
            &&& k == 2 * i + 1 || k == 2 * i + 3
            &&& k < s.len()
            &&& le(s[k], s[i])
            &&& le(s[2 * i + 1], s[k])
            &&& 2 * i + 3 < s.len() ==> le(s[2 * i + 3], s[k])
        },
    ensures
        is_interval_heap(s),
{
    assert forall|c: int| 2 <= c < s.len() implies #[trigger] below_high(s, c) by {
        if parent_of(c) == i - 1 {
            if c % 2 == 0 && c + 1 < s.len() {
                assert(pair_ok_at(s, c / 2));
            }
        }
    }
}

#[derive(Clone, Debug)]
pub struct IntervalHeap<T: PartialOrd> {
    data: Vec<T>,
}

impl<T: PartialOrd> View for IntervalHeap<T> {
    type V = Multiset<T>;

    /// The elements with their multiplicities.
    closed spec fn view(&self) -> Multiset<T> {
        self.data@.to_multiset()
    }
}

impl<T: PartialOrd> IntervalHeap<T> {
    /// The elements are laid out as an interval heap.
    pub closed spec fn wf(&self) -> bool {
        is_interval_heap(self.data@)
    }

    /// An empty heap.
    pub fn new() -> (heap: IntervalHeap<T>)
        ensures
            heap.wf(),
            heap@ == Multiset::<T>::empty(),
    {
        let heap = IntervalHeap { data: Vec::new() };
        proof {
            vstd::seq_lib::to_multiset_len(heap.data@);
            vstd::multiset::lemma_multiset_empty_len(heap@);
        }
        heap
    }

    /// An empty heap with room for `n` elements.
    pub fn with_capacity(n: usize) -> (heap: IntervalHeap<T>)
        ensures
            heap.wf(),
            heap@ == Multiset::<T>::empty(),
    {
        let heap = IntervalHeap { data: Vec::with_capacity(n) };
        proof {
            vstd::seq_lib::to_multiset_len(heap.data@);
            vstd::multiset::lemma_multiset_empty_len(heap@);
        }
        heap
    }

    /// The number of elements.
    pub fn len(&self) -> (n: usize)
        ensures
            n == self@.len(),
    {
        proof {
            vstd::seq_lib::to_multiset_len(self.data@);
        }
        self.data.len()
    }

    /// Whether the heap holds no element.
    pub fn is_empty(&self) -> (r: bool)
        ensures
            r == (self@.len() == 0),
    {
        proof {
            vstd::seq_lib::to_multiset_len(self.data@);
        }
        self.data.is_empty()
    }

    /// Adds the element `x`.
    pub fn push(&mut self, x: T)
        requires
            is_total_order::<T>(),
            old(self).wf(),
        ensures
            final(self).wf(),
            final(self)@ == old(self)@.insert(x),
    {
        let i = self.data.len();
        self.data.push(x);
        proof {
            vstd::seq_lib::to_multiset_build(old(self).data@, x);
            lemma_pushed(old(self).data@, x);
        }
        self.up(i);
    }

    /// The least element, and `None` for an empty heap.
    pub fn peek_min(&self) -> (r: Option<&T>)
        requires
            is_total_order::<T>(),
            self.wf(),
        ensures
            match r {
                Some(m) => is_least(self@, *m),
                None => self@.len() == 0,
            },
    {
        proof {
            lemma_ends(self.data@);
        }
        if self.data.len() > 0 {
            Some(&self.data[0])
        } else {
            None
        }
    }

    /// The greatest element, and `None` for an empty heap.
    pub fn peek_max(&self) -> (r: Option<&T>)
        requires
            is_total_order::<T>(),
            self.wf(),
        ensures
            match r {
                Some(m) => is_greatest(self@, *m),
                None => self@.len() == 0,
            },
    {
        proof {
            lemma_ends(self.data@);
        }
        if self.data.len() > 1 {
            Some(&self.data[1])
        } else if self.data.len() > 0 {
            Some(&self.data[0])
        } else {
            None
        }
    }

    /// Takes out the least element, and returns `None` for an empty heap.
    pub fn pop_min(&mut self) -> (r: Option<T>)
        requires
            is_total_order::<T>(),
            old(self).wf(),
        ensures
            final(self).wf(),
            match r {
                Some(m) => is_least(old(self)@, m) && final(self)@ == old(self)@.remove(m),
                None => old(self)@.len() == 0 && final(self)@ == old(self)@,
            },
    {
        proof {
            lemma_ends(self.data@);
        }
        if self.data.len() <= 1 {
            let r = self.data.pop();
            proof {
                if r is Some {
                    lemma_pop_keeps_rest(old(self).data@);
                }
            }
            return r;
        }
        let len = self.data.len();
        swap(&mut self.data, 0, len - 1);
        let ghost swapped = self.data@;
        let res = self.data.pop();
        proof {
            lemma_swap_keeps_elements(old(self).data@, 0, len - 1);
            lemma_pop_keeps_rest(swapped);
            lemma_after_pop_min(old(self).data@, self.data@);
        }
        self.down(0);
        res
    }

    /// Takes out the greatest element, and returns `None` for an empty heap.
    pub fn pop_max(&mut self) -> (r: Option<T>)
        requires
            is_total_order::<T>(),
            old(self).wf(),
        ensures
            final(self).wf(),
            match r {
                Some(m) => is_greatest(old(self)@, m) && final(self)@ == old(self)@.remove(m),
                None => old(self)@.len() == 0 && final(self)@ == old(self)@,
            },
    {
        proof {
            lemma_ends(self.data@);
        }
        if self.data.len() <= 2 {
            let r = self.data.pop();
            proof {
                if r is Some {
                    lemma_pop_keeps_rest(old(self).data@);
                }
            }
            return r;
        }
        let len = self.data.len();
        swap(&mut self.data, 1, len - 1);
        let ghost swapped = self.data@;
        let res = self.data.pop();
        proof {
            lemma_swap_keeps_elements(old(self).data@, 1, len - 1);
            lemma_pop_keeps_rest(swapped);
            lemma_after_pop_max(old(self).data@, self.data@);
        }
        self.down(1);
        res
    }

    /// The place of the lower end of the parent of the place `i`.
    fn parent(i: usize) -> (p: usize)
        requires
            i >= 2,
        ensures
            p == parent_of(i as int),
            p % 2 == 0,
            p + 1 < i,
    {
        proof {
            lemma_parent_bits(i);
            lemma_low_bit(i);
        }
        ((i >> 1) - 1) & !1
    }

    /// Moves the element at the place `i` down to where it belongs: on the
    /// side of the lower ends for an even place, on the side of the upper
    /// ends for an odd one.
    fn down(&mut self, i: usize)
        requires
            is_total_order::<T>(),
            i < old(self).data@.len(),
            i % 2 == 0 ==> heap_but_down_min(old(self).data@, i as int, false),
            i % 2 == 1 ==> heap_but_down_max(old(self).data@, i as int, false),
        ensures
            final(self).wf(),
            final(self)@ == old(self)@,
    {
        let mut i = i;
        let n = self.data.len();
        proof {
            lemma_low_bit(i);
        }
        if i & 1 == 0 {
            while n >= 3 && i <= (n - 3) / 2
                invariant_except_break
                    heap_but_down_min(self.data@, i as int, false),
                invariant
                    is_total_order::<T>(),
                    n == self.data@.len(),
                    i < n,
                    i % 2 == 0,
                    self.data@.to_multiset() == old(self).data@.to_multiset(),
                ensures
                    is_interval_heap(self.data@),
                decreases n - i,
            {
                proof {
                    lemma_shift_doubles(i);
                }
                let mut k = (i << 1usize) + 2;
                if n - k > 2 && less(&self.data[k + 2], &self.data[k]) {
                    k = k + 2;
                }
                if greater(&self.data[i], &self.data[k]) {
                    let ghost before = self.data@;
                    swap(&mut self.data, i, k);
                    proof {
                        lemma_swap_keeps_elements(before, i as int, k as int);
                        lemma_down_min_step(before, self.data@, i as int, k as int);
                        assert(pair_ok_at(before, i as int / 2));
                        assert(below_high(before, k as int));
                        if k + 1 < n {
                            assert(pair_ok_at(before, k as int / 2));
                        }
                    }
                    i = k;
                    if i + 1 < self.data.len() && greater(&self.data[i], &self.data[i + 1]) {
                        let ghost mid = self.data@;
                        swap(&mut self.data, i, i + 1);
                        proof {
                            lemma_swap_keeps_elements(mid, i as int, i + 1);
                            lemma_down_min_fix(mid, self.data@, i as int);
                        }
                    } else {
                        proof {
                            lemma_down_min_no_fix(self.data@, i as int);
                        }
                    }
                } else {
                    proof {
                        lemma_down_min_end(self.data@, i as int, k as int);
                    }
                    break ;
                }
            }
            proof {
                if !is_interval_heap(self.data@) {
                    lemma_down_min_end(self.data@, i as int, 0);
                }
            }
        } else {
            while n >= 2 && i <= (n - 2) / 2
                invariant_except_break
                    heap_but_down_max(self.data@, i as int, false),
                invariant
                    is_total_order::<T>(),
                    n == self.data@.len(),
                    i < n,
                    i % 2 == 1,
                    self.data@.to_multiset() == old(self).data@.to_multiset(),
                ensures
                    is_interval_heap(self.data@),
                decreases n - i,
            {
                proof {
                    lemma_shift_doubles(i);
                }
                let mut k = (i << 1usize) + 1;
                if n - k > 2 && greater(&self.data[k + 2], &self.data[k]) {
                    k = k + 2;
                }
                if less(&self.data[i], &self.data[k]) {
                    let ghost before = self.data@;
                    swap(&mut self.data, i, k);
                    proof {
                        lemma_swap_keeps_elements(before, i as int, k as int);
                        lemma_down_max_step(before, self.data@, i as int, k as int);
                    }
                    i = k;
                    if i > 0 && less(&self.data[i], &self.data[i - 1]) {
                        let ghost mid = self.data@;
                        swap(&mut self.data, i, i - 1);
                        proof {
                            lemma_swap_keeps_elements(mid, i as int, i - 1);
                            lemma_down_max_fix(mid, self.data@, i as int);
                        }
                    } else {
                        proof {
                            lemma_down_max_no_fix(self.data@, i as int);
                        }
                    }
                } else {
                    proof {
                        lemma_down_max_end(self.data@, i as int, k as int);
                    }
                    break ;
                }
            }
            proof {
                if !is_interval_heap(self.data@) {
                    lemma_down_max_end(self.data@, i as int, 0);
                }
            }
        }
    }

    /// Moves the element at the place `i`, the last one, up to where it
    /// belongs.
    fn up(&mut self, i: usize)
        requires
            is_total_order::<T>(),
            heap_but_pushed(old(self).data@),
            i == old(self).data@.len() - 1,
        ensures
            final(self).wf(),
            final(self)@ == old(self)@,
    {
        let mut i = i;
        proof {
            lemma_low_bit(i);
        }
        if i & 1 == 1 && less(&self.data[i], &self.data[i - 1]) {
            let ghost before = self.data@;
            swap(&mut self.data, i, i - 1);
            proof {
                lemma_swap_keeps_elements(before, i as int, i - 1);
                lemma_up_pair(before, self.data@);
            }
            i -= 1;
        } else {
            proof {
                lemma_up_start(self.data@);
            }
        }
        while i > 1 && less(&self.data[i], &self.data[Self::parent(i)])
            invariant
                is_total_order::<T>(),
                i < self.data@.len(),
                heap_but_up(self.data@, i as int),
                self.data@.to_multiset() == old(self).data@.to_multiset(),
            decreases i,
        {
            let p = Self::parent(i);
            let ghost before = self.data@;
            swap(&mut self.data, i, p);
            proof {
                lemma_swap_keeps_elements(before, i as int, p as int);
                lemma_up_min_step(before, self.data@, i as int);
            }
            i = p;
        }
        while i > 1 && greater(&self.data[i], &self.data[Self::parent(i) + 1])
            invariant
                is_total_order::<T>(),
                i < self.data@.len(),
                heap_but_up(self.data@, i as int),
                i >= 2 ==> le(self.data@[parent_of(i as int)], self.data@[i as int]),
                self.data@.to_multiset() == old(self).data@.to_multiset(),
            decreases i,
        {
            let p = Self::parent(i) + 1;
            let ghost before = self.data@;
            swap(&mut self.data, i, p);
            proof {
                lemma_swap_keeps_elements(before, i as int, p as int);
                lemma_up_max_step(before, self.data@, i as int);
            }
            i = p;
        }
        proof {
            lemma_up_end(self.data@, i as int);
        }
    }

    /// Takes all elements out.
    pub fn clear(&mut self)
        ensures
            final(self).wf(),
            final(self)@ == Multiset::<T>::empty(),
    {
        self.data.clear();
        proof {
            vstd::seq_lib::to_multiset_len(self.data@);
            vstd::multiset::lemma_multiset_empty_len(self@);
        }
    }
}

/// A priority queue of bounded size that keeps the greatest elements.
#[derive(Clone, Debug)]
pub struct LimitedMaximumHeap<T: PartialOrd> {
    heap: IntervalHeap<T>,
    limit: usize,
}

impl<T: PartialOrd> View for LimitedMaximumHeap<T> {
    type V = Multiset<T>;

    /// The elements with their multiplicities.
    closed spec fn view(&self) -> Multiset<T> {
        self.heap@
    }
}

impl<T: PartialOrd> LimitedMaximumHeap<T> {
    /// The greatest number of elements that the queue keeps.
    pub closed spec fn limit(&self) -> nat {
        self.limit as nat
    }

    /// The elements are laid out as an interval heap.
    pub closed spec fn wf(&self) -> bool {
        self.heap.wf()
    }

    /// An empty queue that keeps up to `limit` elements.
    pub fn new(limit: usize) -> (queue: LimitedMaximumHeap<T>)
        ensures
            queue.wf(),
            queue.limit() == limit,
            queue@ == Multiset::<T>::empty(),
    {
        LimitedMaximumHeap { heap: IntervalHeap::with_capacity(limit), limit }
    }

    /// Whether the queue holds no element.
    pub fn is_empty(&self) -> (r: bool)
        ensures
            r == (self@.len() == 0),
    {
        self.heap.is_empty()
    }

    /// Adds `x`. Where the queue is full, the least of its elements and `x`
    /// leaves and is returned.
    pub fn push(&mut self, x: T) -> (out: Option<T>)
        requires
            is_total_order::<T>(),
            old(self).wf(),
            old(self).limit() > 0,
        ensures
            final(self).wf(),
            final(self).limit() == old(self).limit(),
            match out {
                None => old(self)@.len() < old(self).limit() && final(self)@ == old(self)@.insert(x),
                Some(y) => {
                    &&& old(self)@.len() >= old(self).limit()
                    &&& is_least(old(self)@.insert(x), y)
                    &&& final(self)@ == old(self)@.insert(x).remove(y)
                },
            },
    {
        broadcast use vstd::multiset::group_multiset_axioms;
        if self.heap.len() < self.limit {
            self.heap.push(x);
            None
        } else {
            proof {
                lemma_ends(self.heap.data@);
            }
            if less(&self.heap.data[0], &x) {
                let ghost before = self.heap.data@;
                let ghost added = x;
                self.heap.data.push(x);
                let x = self.heap.data.swap_remove(0);
                proof {
                    let now = self.heap.data@;
                    assert(now =~= before.update(0, added));
                    vstd::seq_lib::to_multiset_update(before, 0, added);
                    vstd::seq_lib::to_multiset_contains(before, before[0]);
                    lemma_after_replace_min(before, added);
                    assert(now.to_multiset() =~= before.to_multiset().insert(added).remove(x));
                    assert forall|e: T| before.to_multiset().insert(added).contains(e) implies le(
                        x,
                        e,
                    ) by {
                    }
                }
                if self.heap.len() >= 2 && greater(&self.heap.data[0], &self.heap.data[1]) {
                    let ghost mid = self.heap.data@;
                    swap(&mut self.heap.data, 0, 1);
                    proof {
                        lemma_swap_keeps_elements(mid, 0, 1);
                        lemma_down_min_fix(mid, self.heap.data@, 0);
                    }
                } else {
                    proof {
                        lemma_down_min_no_fix(self.heap.data@, 0);
                    }
                }
                self.heap.down(0);
                Some(x)
            } else {
                proof {
                    let s = self.heap.data@.to_multiset();
                    assert(s.insert(x).remove(x) =~= s);
                    let least = self.heap.data@[0];
                    assert(le(x, least));
                    assert forall|e: T| s.insert(x).contains(e) implies le(x, e) by {
                        if e != x {
                            assert(s.contains(e));
                            assert(le(least, e));
                        }
                    }
                }
                Some(x)
            }
        }
    }

    /// Takes out the greatest element, and returns `None` for an empty
    /// queue.
    pub fn pop(&mut self) -> (r: Option<T>)
        requires
            is_total_order::<T>(),
            old(self).wf(),
        ensures
            final(self).wf(),
            final(self).limit() == old(self).limit(),
            match r {
                Some(m) => is_greatest(old(self)@, m) && final(self)@ == old(self)@.remove(m),
                None => old(self)@.len() == 0 && final(self)@ == old(self)@,
            },
    {
        self.heap.pop_max()
    }

    /// The greatest element, and `None` for an empty queue.
    pub fn peek(&self) -> (r: Option<&T>)
        requires
            is_total_order::<T>(),
            self.wf(),
        ensures
            match r {
                Some(m) => is_greatest(self@, *m),
                None => self@.len() == 0,
            },
    {
        self.heap.peek_max()
    }

    /// Takes all elements out.
    pub fn clear(&mut self)
        ensures
            final(self).wf(),
            final(self).limit() == old(self).limit(),
            final(self)@ == Multiset::<T>::empty(),
    {
        self.heap.clear();
    }
}

/// The values inside the reversed values of `s`.
pub open spec fn unreversed<T>(s: Seq<Reversed<T>>) -> Seq<T> {
    s.map_values(|r: Reversed<T>| r.0)
}

/// A value occurs among the values inside as often as its reversed value
/// occurs.
pub proof fn lemma_unreversed_count<T>(s: Seq<Reversed<T>>, v: T)
    ensures
        unreversed(s).to_multiset().count(v) == s.to_multiset().count(Reversed(v)),
    decreases s.len(),
{
    broadcast use vstd::multiset::group_multiset_axioms;
    if s.len() == 0 {
        vstd::seq_lib::to_multiset_len(s);
        vstd::seq_lib::to_multiset_len(unreversed(s));
        vstd::multiset::lemma_multiset_empty_len(s.to_multiset());
        vstd::multiset::lemma_multiset_empty_len(unreversed(s).to_multiset());
    } else {
        let t = s.drop_last();
        lemma_unreversed_count(t, v);
        assert(s =~= t.push(s.last()));
        assert(unreversed(s) =~= unreversed(t).push(s.last().0));
        vstd::seq_lib::to_multiset_build(t, s.last());
        vstd::seq_lib::to_multiset_build(unreversed(t), s.last().0);
    }
}

/// A priority queue of bounded size that keeps the least elements.
#[derive(Clone, Debug)]
pub struct LimitedMinimumHeap<T: PartialOrd> {
    heap: LimitedMaximumHeap<Reversed<T>>,
}

impl<T: PartialOrd> View for LimitedMinimumHeap<T> {
    type V = Multiset<T>;

    /// The elements with their multiplicities.
    closed spec fn view(&self) -> Multiset<T> {
        unreversed(self.heap.heap.data@).to_multiset()
    }
}

impl<T: PartialOrd> LimitedMinimumHeap<T> {
    /// The greatest number of elements that the queue keeps.
    pub closed spec fn limit(&self) -> nat {
        self.heap.limit()
    }

    /// The elements are laid out as an interval heap.
    pub closed spec fn wf(&self) -> bool {
        self.heap.wf()
    }

    /// What holds of the elements holds of the reversed elements that the
    /// queue keeps.
    proof fn lemma_view(&self)
        ensures
            forall|v: T| #[trigger] self@.count(v) == self.heap@.count(Reversed(v)),
            self@.len() == self.heap@.len(),
    {
        assert forall|v: T| #[trigger] self@.count(v) == self.heap@.count(Reversed(v)) by {
            lemma_unreversed_count(self.heap.heap.data@, v);
        }
        vstd::seq_lib::to_multiset_len(self.heap.heap.data@);
        vstd::seq_lib::to_multiset_len(unreversed(self.heap.heap.data@));
    }

    /// An empty queue that keeps up to `limit` elements.
    pub fn new(limit: usize) -> (queue: LimitedMinimumHeap<T>)
        ensures
            queue.wf(),
            queue.limit() == limit,
            queue@ == Multiset::<T>::empty(),
    {
        let queue = LimitedMinimumHeap { heap: LimitedMaximumHeap::new(limit) };
        proof {
            queue.lemma_view();
            vstd::multiset::lemma_multiset_empty_len(queue.heap@);
            vstd::multiset::lemma_multiset_empty_len(queue@);
        }
        queue
    }

    /// Whether the queue holds no element.
    pub fn is_empty(&self) -> (r: bool)
        ensures
            r == (self@.len() == 0),
    {
        proof {
            self.lemma_view();
        }
        self.heap.is_empty()
    }

    /// Adds `x`. Where the queue is full, the greatest of its elements and
    /// `x` leaves and is returned.
    pub fn push(&mut self, x: T) -> (out: Option<T>)
        requires
            is_total_order::<T>(),
            old(self).wf(),
            old(self).limit() > 0,
        ensures
            final(self).wf(),
            final(self).limit() == old(self).limit(),
            match out {
                None => old(self)@.len() < old(self).limit() && final(self)@ == old(self)@.insert(x),
                Some(y) => {
                    &&& old(self)@.len() >= old(self).limit()
                    &&& is_greatest(old(self)@.insert(x), y)
                    &&& final(self)@ == old(self)@.insert(x).remove(y)
                },
            },
    {
        broadcast use vstd::multiset::group_multiset_axioms;
        proof {
            lemma_reversed_order::<T>();
            old(self).lemma_view();
        }
        let ghost added = x;
        let out = self.heap.push(Reversed(x));
        proof {
            self.lemma_view();
        }
        if let Some(Reversed(x)) = out {
            proof {
                let all = old(self)@.insert(added);
                let inner = old(self).heap@.insert(Reversed(added));
                assert forall|e: T| #[trigger] all.contains(e) implies le(e, x) by {
                    assert(inner.contains(Reversed(e)));
                    assert(le(Reversed(x), Reversed(e)));
                }
                assert(inner.contains(Reversed(x)));
                assert(self@ =~= all.remove(x));
            }
            Some(x)
        } else {
            proof {
                assert(self@ =~= old(self)@.insert(added));
            }
            None
        }
    }

    /// Takes out the least element, and returns `None` for an empty queue.
    pub fn pop(&mut self) -> (r: Option<T>)
        requires
            is_total_order::<T>(),
            old(self).wf(),
        ensures
            final(self).wf(),
            final(self).limit() == old(self).limit(),
            match r {
                Some(m) => is_least(old(self)@, m) && final(self)@ == old(self)@.remove(m),
                None => old(self)@.len() == 0 && final(self)@ == old(self)@,
            },
    {
        broadcast use vstd::multiset::group_multiset_axioms;
        proof {
            lemma_reversed_order::<T>();
            old(self).lemma_view();
        }
        let out = self.heap.pop();
        proof {
            self.lemma_view();
        }
        if let Some(Reversed(x)) = out {
            proof {
                assert forall|e: T| #[trigger] old(self)@.contains(e) implies le(x, e) by {
                    assert(old(self).heap@.contains(Reversed(e)));
                    assert(le(Reversed(e), Reversed(x)));
                }
                assert(old(self).heap@.contains(Reversed(x)));
                assert(self@ =~= old(self)@.remove(x));
            }
            Some(x)
        } else {
            proof {
                assert(self@ =~= old(self)@);
            }
            None
        }
    }

    /// Takes all elements out.
    pub fn clear(&mut self)
        ensures
            final(self).wf(),
            final(self).limit() == old(self).limit(),
            final(self)@ == Multiset::<T>::empty(),
    {
        self.heap.clear();
        proof {
            self.lemma_view();
            vstd::multiset::lemma_multiset_empty_len(self.heap@);
            vstd::multiset::lemma_multiset_empty_len(self@);
        }
    }
}

} // verus!
