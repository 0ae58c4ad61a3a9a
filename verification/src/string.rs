//! Sequences: run-length encoding and rolling hashes.

pub mod rolling_hash;

use vstd::prelude::*;
use crate::order::{eq_is_identity, same};

verus! {

/// The sequence that the runs stand for: each value as often as its count,
/// run after run.
pub open spec fn expand<T>(runs: Seq<(T, usize)>) -> Seq<T>
    decreases runs.len(),
{
    if runs.len() == 0 {
        Seq::empty()
    } else {
        expand(runs.drop_last()) + Seq::new(runs.last().1 as nat, |k: int| runs.last().0)
    }
}

/// No run is empty, and no run continues the value of the run before it.
pub open spec fn is_run_length_encoding<T>(runs: Seq<(T, usize)>) -> bool {
    &&& forall|k: int| 0 <= k < runs.len() ==> (#[trigger] runs[k]).1 > 0
    &&& forall|k: int| 0 < k < runs.len() ==> (#[trigger] runs[k]).0 != runs[k - 1].0
}

/// The run-length encoding of a sequence that is not empty: the runs of
/// equal values with their lengths, in order.
pub fn runlength_encoding<T: Eq + Copy>(s: &[T]) -> (res: Vec<(T, usize)>)
    requires
        eq_is_identity::<T>(),
        s@.len() > 0,
    ensures
        expand(res@) == s@,
        is_run_length_encoding(res@),
{
    let mut pi: usize = 0;
    let mut cnt: usize = 0;
    let mut res: Vec<(T, usize)> = vec![];
    let mut i: usize = 0;
    proof {
        assert(expand(res@) + Seq::new(0, |k: int| s@[0]) =~= s@.subrange(0, 0));
    }
    while i < s.len()
        invariant
            eq_is_identity::<T>(),
            s@.len() > 0,
            i <= s@.len(),
            pi <= i,
            pi < s@.len(),
            cnt == i - pi,
            i > 0 ==> cnt > 0,
            is_run_length_encoding(res@),
            res@.len() > 0 ==> res@.last().0 != s@[pi as int],
            expand(res@) + Seq::new(cnt as nat, |k: int| s@[pi as int]) == s@.subrange(0, i as int),
        decreases s@.len() - i,
    {
        let c = s[i];
        let ghost before = res@;
        let ghost run = Seq::new(cnt as nat, |k: int| s@[pi as int]);
        if !same(&s[pi], &c) {
            res.push((s[pi], cnt));
            proof {
                assert(res@.drop_last() =~= before);
                assert(expand(res@) == expand(before) + run);
                assert(expand(res@) + Seq::new(1, |k: int| s@[i as int]) =~= s@.subrange(0, i + 1));
            }
            cnt = 0;
            pi = i;
        } else {
            proof {
                assert(expand(before) + Seq::new((cnt + 1) as nat, |k: int| s@[pi as int])
                    =~= s@.subrange(0, i + 1)) by {
                    assert((expand(before) + run).push(s@[i as int]) =~= s@.subrange(0, i + 1));
                    assert(expand(before) + Seq::new((cnt + 1) as nat, |k: int| s@[pi as int])
                        =~= (expand(before) + run).push(s@[pi as int]));
                }
            }
        }
        cnt += 1;
        i += 1;
    }
    let ghost before = res@;
    res.push((s[pi], cnt));
    proof {
        assert(res@.drop_last() =~= before);
        assert(s@.subrange(0, s@.len() as int) =~= s@);
    }
    res
}

} // verus!
