//! A multiset of ordered values: a map from each value to the number of
//! times that it occurs.

use vstd::prelude::*;
use vstd::multiset::Multiset;
use vstd::std_specs::iter::IteratorSpec;
use std::collections::BTreeMap;
use crate::data_structures::btree_neighbors::{
    is_first_from, is_last_up_to, map_first, map_last, MapNeighbors,
};
use crate::order::{keeps_ord_laws, le, lt};
use crate::std_ext::ascending;

verus! {

#[derive(Clone, Debug)]
pub struct MultiSet<T> {
    size: usize,
    map: BTreeMap<T, usize>,
}

/// The multiset that a map of counts stands for.
pub open spec fn counted<T>(m: Map<T, usize>) -> Multiset<T> {
    Multiset::from_map(m.map_values(|c: usize| c as nat))
}

/// `counted` counts what the map holds.
proof fn lemma_counted<T>(m: Map<T, usize>, v: T)
    requires
        m.dom().finite(),
    ensures
        counted(m).count(v) == (if m.dom().contains(v) {
            m[v] as nat
        } else {
            0nat
        }),
{
    let n = m.map_values(|c: usize| c as nat);
    assert(n.dom() =~= m.dom());
    if m.dom().contains(v) {
        vstd::multiset::axiom_multiset_contained(n, v);
    } else {
        vstd::multiset::axiom_multiset_new_not_contained(n, v);
    }
}

/// `c` copies of `k`.
pub open spec fn run_of<T>(k: T, c: nat) -> Seq<T> {
    Seq::new(c, |i: int| k)
}

/// A run of `c` copies of `k` holds `k` exactly `c` times and nothing else.
proof fn lemma_run_count<T>(k: T, c: nat)
    ensures
        forall|v: T|
            #[trigger] run_of(k, c).to_multiset().count(v) == (if v == k {
                c
            } else {
                0
            }),
    decreases c,
{
    broadcast use vstd::multiset::group_multiset_axioms;
    let run = run_of(k, c);
    if c == 0 {
        vstd::seq_lib::to_multiset_len(run);
        vstd::multiset::lemma_multiset_empty_len(run.to_multiset());
    } else {
        let shorter = run_of(k, (c - 1) as nat);
        lemma_run_count(k, (c - 1) as nat);
        assert(run =~= shorter.push(k));
        vstd::seq_lib::to_multiset_build(shorter, k);
    }
}

/// The laws of a total order hold for a type that keeps the laws of `Ord`.
proof fn lemma_order_total<T: Ord>()
    requires
        keeps_ord_laws::<T>(),
    ensures
        crate::order::is_total_order::<T>(),
{
    crate::order::lemma_ord_is_total::<T>();
}

impl<T: Ord + Copy> View for MultiSet<T> {
    type V = Multiset<T>;

    /// The values with their multiplicities.
    closed spec fn view(&self) -> Multiset<T> {
        counted(self.map@)
    }
}

impl<T> MultiSet<T> where T: Ord + Copy {
    /// No value is held with the count 0, and the size is the number of
    /// values with their multiplicities.
    pub closed spec fn wf(&self) -> bool {
        &&& self.map@.dom().finite()
        &&& forall|k: T| self.map@.dom().contains(k) ==> #[trigger] self.map@[k] >= 1
        &&& self.size == self@.len()
    }

    /// A value is held by the map exactly when it occurs.
    proof fn lemma_dom(&self)
        requires
            self.wf(),
        ensures
            forall|v: T| #[trigger] self.map@.dom().contains(v) <==> self@.count(v) > 0,
            forall|v: T| #[trigger] self.map@.dom().contains(v) ==> self@.count(v) == self.map@[v],
            self@.dom() == self.map@.dom(),
    {
        assert forall|v: T| #[trigger] self.map@.dom().contains(v) <==> self@.count(v) > 0 by {
            lemma_counted(self.map@, v);
        }
        assert forall|v: T| #[trigger] self.map@.dom().contains(v) implies self@.count(v)
            == self.map@[v] by {
            lemma_counted(self.map@, v);
        }
        assert(self@.dom() =~= self.map@.dom());
    }

    /// An empty multiset.
    pub fn new() -> (s: MultiSet<T>)
        ensures
            s.wf(),
            s@ == Multiset::<T>::empty(),
    {
        let s = MultiSet { size: 0, map: BTreeMap::new() };
        proof {
            broadcast use vstd::multiset::group_multiset_axioms;
            assert forall|v: T| s@.count(v) == 0 by {
                lemma_counted(s.map@, v);
            }
            assert(s@ =~= Multiset::<T>::empty());
        }
        s
    }

    /// Adds one occurrence of `val`.
    pub fn insert(&mut self, val: T)
        requires
            keeps_ord_laws::<T>(),
            old(self).wf(),
            old(self)@.len() < usize::MAX,
        ensures
            final(self).wf(),
            final(self)@ == old(self)@.insert(val),
    {
        broadcast use vstd::std_specs::btree::group_btree_axioms;
        broadcast use vstd::multiset::group_multiset_axioms;
        proof {
            self.lemma_dom();
            vstd::multiset::axiom_count_le_len(self@, val);
        }
        self.size += 1;
        let count = match self.map.get(&val) {
            Some(c) => *c,
            None => 0,
        };
        self.map.insert(val, count + 1);
        proof {
            assert forall|v: T| self@.count(v) == old(self)@.insert(val).count(v) by {
                lemma_counted(self.map@, v);
                lemma_counted(old(self).map@, v);
            }
            assert(self@ =~= old(self)@.insert(val));
        }
    }

    /// Takes out one occurrence of `val`, where there is one.
    pub fn erase(&mut self, val: T)
        requires
            keeps_ord_laws::<T>(),
            old(self).wf(),
        ensures
            final(self).wf(),
            final(self)@ == old(self)@.remove(val),
    {
        broadcast use vstd::std_specs::btree::group_btree_axioms;
        broadcast use vstd::multiset::group_multiset_axioms;
        proof {
            self.lemma_dom();
            vstd::multiset::axiom_count_le_len(self@, val);
        }
        if self.map.contains_key(&val) {
            let count = match self.map.get(&val) {
                Some(c) => *c,
                None => 0,
            };
            if count - 1 == 0 {
                self.map.remove(&val);
            } else {
                self.map.insert(val, count - 1);
            }
            self.size -= 1;
            proof {
                assert forall|v: T| self@.count(v) == old(self)@.remove(val).count(v) by {
                    lemma_counted(self.map@, v);
                    lemma_counted(old(self).map@, v);
                }
                assert(self@ =~= old(self)@.remove(val));
            }
        } else {
            proof {
                assert(old(self)@.remove(val) =~= old(self)@);
            }
        }
    }

    /// The least value, and `None` for an empty multiset.
    pub fn get_min(&self) -> (r: Option<T>)
        requires
            keeps_ord_laws::<T>(),
            self.wf(),
        ensures
            match r {
                Some(k) => self@.contains(k) && forall|e: T| self@.contains(e) ==> le(k, e),
                None => self@ == Multiset::<T>::empty(),
            },
    {
        proof {
            self.lemma_dom();
        }
        if let Some((k, _)) = map_first(&self.map) {
            return Some(*k);
        } else {
            proof {
                broadcast use vstd::multiset::group_multiset_axioms;
                assert forall|v: T| self@.count(v) == 0 by {
                    lemma_counted(self.map@, v);
                }
                assert(self@ =~= Multiset::<T>::empty());
            }
            return None;
        }
    }

    /// The greatest value, and `None` for an empty multiset.
    pub fn get_max(&self) -> (r: Option<T>)
        requires
            keeps_ord_laws::<T>(),
            self.wf(),
        ensures
            match r {
                Some(k) => self@.contains(k) && forall|e: T| self@.contains(e) ==> le(e, k),
                None => self@ == Multiset::<T>::empty(),
            },
    {
        proof {
            self.lemma_dom();
        }
        if let Some((k, _)) = map_last(&self.map) {
            return Some(*k);
        } else {
            proof {
                broadcast use vstd::multiset::group_multiset_axioms;
                assert forall|v: T| self@.count(v) == 0 by {
                    lemma_counted(self.map@, v);
                }
                assert(self@ =~= Multiset::<T>::empty());
            }
            return None;
        }
    }

    /// Whether `val` occurs.
    pub fn contains(&self, val: &T) -> (r: bool)
        requires
            keeps_ord_laws::<T>(),
            self.wf(),
        ensures
            r == self@.contains(*val),
    {
        broadcast use vstd::std_specs::btree::group_btree_axioms;
        proof {
            self.lemma_dom();
        }
        self.map.contains_key(val)
    }

    /// The values in ascending order, each as often as it occurs.
    pub fn to_vec(&self) -> (res: Vec<T>)
        requires
            keeps_ord_laws::<T>(),
            self.wf(),
        ensures
            res@.to_multiset() == self@,
            ascending(res@),
    {
        broadcast use vstd::std_specs::btree::group_btree_axioms;
        broadcast use vstd::multiset::group_multiset_axioms;
        let mut res: Vec<T> = vec![];
        let ghost entries = vstd::std_specs::btree::spec_btree_map_iter(&self.map).remaining();
        let ghost keys = entries.map_values(|kv: (&T, &usize)| *kv.0);
        proof {
            self.lemma_dom();
            lemma_order_total::<T>();
            vstd::seq_lib::to_multiset_len(res@);
            vstd::multiset::lemma_multiset_empty_len(res@.to_multiset());
        }
        let it = self.map.iter();
        proof {
            assert(it.remaining() == entries);
            assert(vstd::std_specs::btree::increasing_seq(keys));
            crate::order::lemma_increasing_seq(keys);
        }
        for entry in iter: it
            invariant
                keeps_ord_laws::<T>(),
                crate::order::is_total_order::<T>(),
                self.wf(),
                iter.seq() == entries,
                keys == entries.map_values(|kv: (&T, &usize)| *kv.0),
                entries == vstd::std_specs::btree::spec_btree_map_iter(&self.map).remaining(),
                forall|i: int, j: int| 0 <= i < j < keys.len() ==> lt(#[trigger] keys[i], #[trigger] keys[j]),
                ascending(res@),
                forall|p: int, j: int|
                    0 <= p < res@.len() && iter.index() <= j < keys.len() ==> lt(
                        #[trigger] res@[p],
                        #[trigger] keys[j],
                    ),
                forall|v: T|
                    #[trigger] res@.to_multiset().count(v) == (if exists|i: int|
                        0 <= i < iter.index() && keys[i] == v {
                        self@.count(v)
                    } else {
                        0
                    }),
        {
            let k = *entry.0;
            let c = *entry.1;
            let ghost idx = iter.index();
            let ghost before = res@;
            proof {
                assert(keys[idx] == k);
                assert(self.map@.contains_key(*entries[idx].0));
                assert(self.map@[k] == c);
                assert(forall|i: int| 0 <= i < idx ==> keys[i] != k) by {
                    assert forall|i: int| 0 <= i < idx implies keys[i] != k by {
                        assert(lt(keys[i], keys[idx]));
                    }
                }
            }
            let mut t: usize = 0;
            while t < c
                invariant
                    keeps_ord_laws::<T>(),
                    t <= c,
                    res@ == before + run_of(k, t as nat),
                decreases c - t,
            {
                res.push(k);
                proof {
                    assert(res@ =~= before + run_of(k, (t + 1) as nat));
                }
                t += 1;
            }
            proof {
                let run = run_of(k, c as nat);
                lemma_run_count(k, c as nat);
                vstd::seq_lib::lemma_multiset_commutative(before, run);
                self.lemma_dom();
                assert(res@.to_multiset() == before.to_multiset().add(run.to_multiset()));
                assert(self@.count(k) == c);
                assert forall|v: T|
                    #[trigger] res@.to_multiset().count(v) == (if exists|i: int|
                        0 <= i < idx + 1 && keys[i] == v {
                        self@.count(v)
                    } else {
                        0
                    }) by {
                    assert(res@.to_multiset().count(v) == before.to_multiset().count(v)
                        + run.to_multiset().count(v));
                    if v == k {
                        assert(keys[idx] == v);
                        assert(!exists|i: int| 0 <= i < idx && keys[i] == v);
                        assert(before.to_multiset().count(v) == 0);
                    } else {
                        if exists|i: int| 0 <= i < idx + 1 && keys[i] == v {
                            let i = choose|i: int| 0 <= i < idx + 1 && keys[i] == v;
                            assert(0 <= i < idx && keys[i] == v);
                        }
                    }
                }
                assert forall|a: int, b: int| 0 <= a < b < res@.len() implies le(
                    #[trigger] res@[a],
                    #[trigger] res@[b],
                ) by {
                    if b >= before.len() {
                        if a < before.len() {
                            assert(lt(before[a], keys[idx]));
                        }
                    } else {
                        assert(le(before[a], before[b]));
                    }
                }
                assert forall|p: int, j: int|
                    0 <= p < res@.len() && idx + 1 <= j < keys.len() implies lt(
                    #[trigger] res@[p],
                    #[trigger] keys[j],
                ) by {
                    if p < before.len() {
                        assert(lt(before[p], keys[j]));
                    } else {
                        assert(lt(keys[idx], keys[j]));
                    }
                }
            }
        }
        proof {
            assert forall|v: T| res@.to_multiset().count(v) == self@.count(v) by {
                if self.map@.contains_key(v) {
                    assert(entries.contains((&v, &self.map@[v])));
                    let i = choose|i: int| 0 <= i < entries.len() && entries[i] == (&v, &self.map@[v]);
                    assert(keys[i] == v);
                } else {
                    if exists|i: int| 0 <= i < keys.len() && keys[i] == v {
                        let i = choose|i: int| 0 <= i < keys.len() && keys[i] == v;
                        assert(self.map@.contains_key(*entries[i].0));
                    }
                }
            }
            assert(res@.to_multiset() =~= self@);
        }
        res
    }

    /// The least value that is not less than `val`.
    pub fn find_first(&self, val: &T) -> (r: Option<T>)
        requires
            keeps_ord_laws::<T>(),
            self.wf(),
        ensures
            match r {
                Some(k) => is_first_from(self@.dom(), *val, k),
                None => forall|e: T| self@.contains(e) ==> lt(e, *val),
            },
    {
        proof {
            self.lemma_dom();
        }
        if let Some((k, _)) = self.map.find_first(val) {
            Some(*k)
        } else {
            None
        }
    }

    /// The greatest value that is not greater than `val`.
    pub fn find_last(&self, val: &T) -> (r: Option<T>)
        requires
            keeps_ord_laws::<T>(),
            self.wf(),
        ensures
            match r {
                Some(k) => is_last_up_to(self@.dom(), *val, k),
                None => forall|e: T| self@.contains(e) ==> lt(*val, e),
            },
    {
        proof {
            self.lemma_dom();
        }
        if let Some((k, _)) = self.map.find_last(val) {
            Some(*k)
        } else {
            None
        }
    }

    /// The number of values, each counted as often as it occurs.
    pub fn len(&self) -> (n: usize)
        requires
            self.wf(),
        ensures
            n == self@.len(),
    {
        self.size
    }

    /// The number of different values.
    pub fn unique_len(&self) -> (n: usize)
        requires
            keeps_ord_laws::<T>(),
            self.wf(),
        ensures
            n == self@.dom().len(),
    {
        broadcast use vstd::std_specs::btree::group_btree_axioms;
        proof {
            self.lemma_dom();
        }
        self.map.len()
    }
}

} // verus!
