//! A log of steps in which every entry names the entry before it, so that
//! many traces can share their beginnings.

use vstd::prelude::*;
use crate::std_ext::reverse;

verus! {

pub struct Trace<T: Clone> {
    log: Vec<(T, usize)>,
}

/// The log indices from entry `i` back to the start of its trace: `i`, the
/// entry before it, and so on. Empty where `i` is no index of the log.
pub open spec fn steps_back<T>(log: Seq<(T, usize)>, i: int) -> Seq<int>
    decreases i,
{
    if 0 <= i < log.len() {
        if log[i].1 < i {
            seq![i] + steps_back(log, log[i].1 as int)
        } else {
            seq![i]
        }
    } else {
        Seq::empty()
    }
}

/// The log indices of the trace that ends at entry `i`, from its start to
/// `i`.
pub open spec fn steps_to<T>(log: Seq<(T, usize)>, i: int) -> Seq<int> {
    steps_back(log, i).reverse()
}

/// In a well-formed log every entry names an earlier entry or none.
pub open spec fn linked<T>(log: Seq<(T, usize)>) -> bool {
    forall|k: int| 0 <= k < log.len() ==> (#[trigger] log[k]).1 == usize::MAX || log[k].1 < k
}

/// `out` holds, in the order of `steps`, clones of the values of those
/// entries of the log.
pub open spec fn holds_values<T: Clone>(out: Seq<T>, log: Seq<(T, usize)>, steps: Seq<int>) -> bool {
    &&& out.len() == steps.len()
    &&& forall|k: int| 0 <= k < out.len() ==> cloned(log[steps[k]].0, #[trigger] out[k])
}

/// Every step is an index of the log, and the steps back from an entry begin
/// with that entry.
pub proof fn lemma_steps_back<T>(log: Seq<(T, usize)>, i: int)
    ensures
        0 <= i ==> steps_back(log, i).len() <= i + 1,
        steps_back(log, i).len() <= log.len(),
        forall|k: int|
            0 <= k < steps_back(log, i).len() ==> 0 <= #[trigger] steps_back(log, i)[k] < log.len(),
        0 <= i < log.len() ==> steps_back(log, i).len() >= 1 && steps_back(log, i)[0] == i,
    decreases i,
{
    if 0 <= i < log.len() && log[i].1 < i {
        lemma_steps_back(log, log[i].1 as int);
    }
}

impl<T: Clone> View for Trace<T> {
    type V = Seq<(T, usize)>;

    /// The entries of the log: each a value and the index of the entry
    /// before it, `usize::MAX` for none.
    closed spec fn view(&self) -> Seq<(T, usize)> {
        self.log@
    }
}

impl<T: Clone> Trace<T> {
    /// Every entry names an earlier entry or none.
    pub open spec fn wf(&self) -> bool {
        linked(self@)
    }

    /// An empty log.
    pub fn new() -> (trace: Self)
        ensures
            trace@ == Seq::<(T, usize)>::empty(),
            trace.wf(),
    {
        Trace { log: Vec::new() }
    }

    /// Appends the value `c` as the step after entry `p`, or as the start of
    /// a trace where `p` is `usize::MAX`, and returns the index of the new
    /// entry. The log stays well formed where `p` names an entry that is
    /// there, or none.
    pub fn add(&mut self, c: T, p: usize) -> (index: usize)
        ensures
            final(self)@ == old(self)@.push((c, p)),
            index == old(self)@.len(),
            old(self).wf() && (p == usize::MAX || p < old(self)@.len()) ==> final(self).wf(),
    {
        self.log.push((c, p));
        self.log.len() - 1
    }

    /// The values of the trace that ends at entry `i`, from its start to
    /// `i`; empty where `i` is `usize::MAX`.
    pub fn get(&self, i: usize) -> (out: Vec<T>)
        requires
            self.wf(),
            i == usize::MAX || i < self@.len(),
        ensures
            holds_values(out@, self@, steps_to(self@, i as int)),
    {
        let ghost steps = steps_back(self@, i as int);
        let mut i = i;
        let mut out: Vec<T> = vec![];
        let n = self.log.len();
        while i != usize::MAX
            invariant
                self.wf(),
                n == self@.len(),
                i == usize::MAX || i < self@.len(),
                holds_values(out@, self@, steps.subrange(0, out@.len() as int)),
                out@.len() <= steps.len(),
                steps_back(self@, i as int) == steps.subrange(out@.len() as int, steps.len() as int),
            decreases
                (if i == usize::MAX {
                    0
                } else {
                    i + 1
                }),
        {
            proof {
                let rest = steps_back(self@, i as int);
                let next = steps_back(self@, self@[i as int].1 as int);
                assert(rest[0] == i);
                assert(rest.subrange(1, rest.len() as int) =~= next);
                assert(steps.subrange(out@.len() as int + 1, steps.len() as int) =~= rest.subrange(
                    1,
                    rest.len() as int,
                ));
                assert(steps[out@.len() as int] == rest[0]);
            }
            out.push(self.log[i].0.clone());
            i = self.log[i].1;
        }
        proof {
            assert(steps.subrange(0, out@.len() as int) =~= steps);
        }
        reverse(&mut out);
        out
    }

    /// The log indices of the trace that ends at entry `i`, from its start
    /// to `i`; empty where `i` is `usize::MAX`.
    pub fn get_tid_list(&self, i: usize) -> (out: Vec<usize>)
        requires
            self.wf(),
            i == usize::MAX || i < self@.len(),
        ensures
            out@.map_values(|t: usize| t as int) == steps_to(self@, i as int),
    {
        let ghost steps = steps_back(self@, i as int);
        let mut i = i;
        let mut out: Vec<usize> = vec![];
        let n = self.log.len();
        while i != usize::MAX
            invariant
                self.wf(),
                n == self@.len(),
                i == usize::MAX || i < self@.len(),
                out@.map_values(|t: usize| t as int) == steps.subrange(0, out@.len() as int),
                out@.len() <= steps.len(),
                steps_back(self@, i as int) == steps.subrange(out@.len() as int, steps.len() as int),
            decreases
                (if i == usize::MAX {
                    0
                } else {
                    i + 1
                }),
        {
            proof {
                let rest = steps_back(self@, i as int);
                let next = steps_back(self@, self@[i as int].1 as int);
                assert(rest[0] == i);
                assert(rest.subrange(1, rest.len() as int) =~= next);
                assert(steps.subrange(out@.len() as int + 1, steps.len() as int) =~= rest.subrange(
                    1,
                    rest.len() as int,
                ));
                assert(steps[out@.len() as int] == rest[0]);
                assert(out@.push(i).map_values(|t: usize| t as int) =~= steps.subrange(
                    0,
                    out@.len() as int + 1,
                ));
            }
            out.push(i);
            i = self.log[i].1;
        }
        proof {
            assert(steps.subrange(0, out@.len() as int) =~= steps);
            assert(out@.reverse().map_values(|t: usize| t as int) =~= out@.map_values(
                |t: usize| t as int,
            ).reverse());
        }
        reverse(&mut out);
        out
    }

    /// The values of the last `k` entries of the trace that ends at entry
    /// `i`, in the order of the trace; of the whole trace where it has fewer
    /// entries or `k` is 0.
    pub fn get_last_k(&self, i: usize, k: usize) -> (out: Vec<T>)
        requires
            self.wf(),
            i == usize::MAX || i < self@.len(),
        ensures
            holds_values(out@, self@, last_steps(steps_to(self@, i as int), k as int)),
    {
        let ghost steps = steps_back(self@, i as int);
        let mut i = i;
        let mut out: Vec<T> = vec![];
        let mut iter: usize = 0;
        let n = self.log.len();
        proof {
            lemma_steps_back(self@, i as int);
        }
        while i != usize::MAX
            invariant_except_break
                i == usize::MAX || i < self@.len(),
                steps_back(self@, i as int) == steps.subrange(out@.len() as int, steps.len() as int),
                steps_back(self@, i as int).len() == steps.len() - out@.len(),
                k == 0 || iter < k,
            invariant
                self.wf(),
                n == self@.len(),
                steps.len() <= n,
                iter == out@.len(),
                holds_values(out@, self@, steps.subrange(0, out@.len() as int)),
                out@.len() <= steps.len(),
            ensures
                out@.len() == steps.len() || (k != 0 && out@.len() == k),
                k == 0 || out@.len() <= k,
            decreases
                (if i == usize::MAX {
                    0
                } else {
                    i + 1
                }),
        {
            proof {
                let rest = steps_back(self@, i as int);
                let next = steps_back(self@, self@[i as int].1 as int);
                assert(rest[0] == i);
                assert(rest.subrange(1, rest.len() as int) =~= next);
                assert(steps.subrange(out@.len() as int + 1, steps.len() as int) =~= rest.subrange(
                    1,
                    rest.len() as int,
                ));
                assert(steps[out@.len() as int] == rest[0]);
            }
            iter += 1;
            out.push(self.log[i].0.clone());
            i = self.log[i].1;
            if iter == k {
                break ;
            }
        }
        proof {
            let taken = steps.subrange(0, out@.len() as int);
            assert(taken.reverse() =~= last_steps(steps.reverse(), k as int));
        }
        reverse(&mut out);
        out
    }
}

/// The last `k` of the steps, or all of them where they are fewer or `k` is
/// 0.
pub open spec fn last_steps(steps: Seq<int>, k: int) -> Seq<int> {
    if k == 0 || k >= steps.len() {
        steps
    } else {
        steps.subrange(steps.len() - k, steps.len() as int)
    }
}

} // verus!
