//! States held as the digits of a number in a fixed base.
//!
//! A state is a number whose digit `i` in base `base()` is the value of
//! element `i`; a builder knows the base and how many elements there are.

use vstd::prelude::*;
use vstd::arithmetic::power::{lemma_pow0, lemma_pow_positive, pow};

verus! {

pub struct BaseStateBuilder {
    size: usize,
    base: usize,
    powb: Vec<usize>,
}

/// Digit `i` of `state` in base `base`.
pub open spec fn digit(state: int, base: int, i: nat) -> int {
    (state / pow(base, i)) % base
}

/// The number with the digits `vals` in base `base`, lowest digit first:
/// the sum of `vals[i] * base^i`.
pub open spec fn number_of(vals: Seq<usize>, base: int) -> int
    decreases vals.len(),
{
    if vals.len() == 0 {
        0
    } else {
        number_of(vals.drop_last(), base) + pow(base, (vals.len() - 1) as nat) * vals.last()
    }
}

/// `base^(e + 1)` is `base^e * base`.
proof fn lemma_pow_next(base: int, e: nat)
    ensures
        pow(base, e + 1) == pow(base, e) * base,
{
    vstd::arithmetic::power::lemma_pow_adds(base, e, 1);
    vstd::arithmetic::power::lemma_pow1(base);
}

/// The number of a sequence of digits is not negative and does not shrink
/// when a digit is added.
proof fn lemma_number_of_grows(vals: Seq<usize>, base: int, k: int)
    requires
        base >= 1,
        0 <= k <= vals.len(),
    ensures
        0 <= number_of(vals.subrange(0, k), base) <= number_of(vals, base),
    decreases vals.len() - k,
{
    if k == 0 {
        lemma_number_of_nonnegative(vals, base);
        assert(vals.subrange(0, 0) =~= Seq::<usize>::empty());
    } else if k == vals.len() {
        assert(vals.subrange(0, k) =~= vals);
        lemma_number_of_nonnegative(vals, base);
    } else {
        lemma_number_of_grows(vals, base, k + 1);
        let longer = vals.subrange(0, k + 1);
        assert(longer.drop_last() =~= vals.subrange(0, k));
        lemma_pow_positive(base, k as nat);
        assert(pow(base, k as nat) * longer.last() >= 0) by (nonlinear_arith)
            requires
                pow(base, k as nat) > 0,
                longer.last() >= 0,
        ;
        lemma_number_of_nonnegative(vals.subrange(0, k), base);
    }
}

proof fn lemma_number_of_nonnegative(vals: Seq<usize>, base: int)
    requires
        base >= 1,
    ensures
        number_of(vals, base) >= 0,
    decreases vals.len(),
{
    if vals.len() > 0 {
        lemma_number_of_nonnegative(vals.drop_last(), base);
        lemma_pow_positive(base, (vals.len() - 1) as nat);
        assert(pow(base, (vals.len() - 1) as nat) * vals.last() >= 0) by (nonlinear_arith)
            requires
                pow(base, (vals.len() - 1) as nat) > 0,
                vals.last() >= 0,
        ;
    }
}

/// The sum of `(base - 1) * base^i` over `i < k` is `base^k - 1`.
pub open spec fn all_highest(base: int, k: nat) -> int
    decreases k,
{
    if k == 0 {
        0
    } else {
        all_highest(base, (k - 1) as nat) + pow(base, (k - 1) as nat) * (base - 1)
    }
}

/// The state whose digits are all `base - 1` is `base^k - 1`.
pub proof fn lemma_all_highest(base: int, k: nat)
    ensures
        all_highest(base, k) == pow(base, k) - 1,
    decreases k,
{
    if k == 0 {
        lemma_pow0(base);
    } else {
        lemma_all_highest(base, (k - 1) as nat);
        lemma_pow_next(base, (k - 1) as nat);
        let p = pow(base, (k - 1) as nat);
        assert(p - 1 + p * (base - 1) == p * base - 1) by (nonlinear_arith);
    }
}

/// The state `state` with the digit at `i` taken out and `v` put in.
pub open spec fn with_digit(state: int, base: int, i: nat, v: int) -> int {
    state - pow(base, i) * digit(state, base, i) + pow(base, i) * v
}

/// The quotient of `m * n * q + lo` by `m`, and its remainder by `n`.
proof fn lemma_low_digit(m: int, n: int, q: int, lo: int)
    requires
        m > 0,
        n > 0,
    ensures
        ((m * (n * q) + lo) / m) % n == (lo / m) % n,
{
    vstd::arithmetic::div_mod::lemma_hoist_over_denominator(lo, n * q, m as nat);
    assert(lo + (n * q) * m == m * (n * q) + lo) by (nonlinear_arith);
    vstd::arithmetic::div_mod::lemma_mod_multiples_vanish(q, lo / m, n);
    assert(n * q + lo / m == lo / m + n * q);
}

/// Putting a digit in changes that digit and no other.
pub proof fn lemma_with_digit(state: int, base: int, i: nat, v: int, j: nat)
    requires
        base > 1,
        state >= 0,
        0 <= v < base,
    ensures
        with_digit(state, base, i, v) >= 0,
        digit(with_digit(state, base, i, v), base, j) == (if j == i {
            v
        } else {
            digit(state, base, j)
        }),
{
    let bi = pow(base, i);
    lemma_pow_positive(base, i);
    let q = state / bi;
    let lo = state % bi;
    vstd::arithmetic::div_mod::lemma_fundamental_div_mod(state, bi);
    vstd::arithmetic::div_mod::lemma_mod_bound(state, bi);
    vstd::arithmetic::div_mod::lemma_div_pos_is_pos(state, bi);
    let cur = q % base;
    let hi = q / base;
    vstd::arithmetic::div_mod::lemma_fundamental_div_mod(q, base);
    vstd::arithmetic::div_mod::lemma_mod_bound(q, base);
    vstd::arithmetic::div_mod::lemma_div_pos_is_pos(q, base);
    let q2 = base * hi + v;
    let res = with_digit(state, base, i, v);
    assert(res == q2 * bi + lo) by (nonlinear_arith)
        requires
            res == state - bi * cur + bi * v,
            state == bi * q + lo,
            q == base * hi + cur,
            q2 == base * hi + v,
    ;
    assert(q2 >= 0) by (nonlinear_arith)
        requires
            q2 == base * hi + v,
            base > 1,
            hi >= 0,
            v >= 0,
    ;
    assert(q2 * bi >= 0) by (nonlinear_arith)
        requires
            q2 >= 0,
            bi > 0,
    ;
    vstd::arithmetic::div_mod::lemma_fundamental_div_mod_converse(res, bi, q2, lo);
    vstd::arithmetic::div_mod::lemma_fundamental_div_mod_converse(q2, base, hi, v);
    assert(q2 == hi * base + v) by (nonlinear_arith)
        requires
            q2 == base * hi + v,
    ;
    if j == i {
    } else if j > i {
        let k = (j - i) as nat;
        let rest = (k - 1) as nat;
        vstd::arithmetic::power::lemma_pow_adds(base, i, k);
        vstd::arithmetic::power::lemma_pow_adds(base, 1, rest);
        vstd::arithmetic::power::lemma_pow1(base);
        lemma_pow_positive(base, k);
        lemma_pow_positive(base, rest);
        let pk = pow(base, k);
        let pr = pow(base, rest);
        assert(pow(base, j) == bi * pk);
        assert(pk == base * pr);
        vstd::arithmetic::div_mod::lemma_div_denominator(res, bi, pk);
        vstd::arithmetic::div_mod::lemma_div_denominator(state, bi, pk);
        vstd::arithmetic::div_mod::lemma_div_denominator(q2, base, pr);
        vstd::arithmetic::div_mod::lemma_div_denominator(q, base, pr);
        assert(res / pow(base, j) == (res / bi) / pk);
        assert(state / pow(base, j) == (state / bi) / pk);
        assert(q2 / pk == (q2 / base) / pr);
        assert(q / pk == (q / base) / pr);
    } else {
        let k = (i - j) as nat;
        vstd::arithmetic::power::lemma_pow_adds(base, j, k);
        vstd::arithmetic::power::lemma_pow_adds(base, 1, (k - 1) as nat);
        vstd::arithmetic::power::lemma_pow1(base);
        lemma_pow_positive(base, j);
        lemma_pow_positive(base, (k - 1) as nat);
        let bj = pow(base, j);
        let pr = pow(base, (k - 1) as nat);
        assert(bi == bj * (base * pr));
        assert(res == bj * (base * (pr * q2)) + lo) by (nonlinear_arith)
            requires
                res == q2 * bi + lo,
                bi == bj * (base * pr),
        ;
        assert(state == bj * (base * (pr * q)) + lo) by (nonlinear_arith)
            requires
                state == bi * q + lo,
                bi == bj * (base * pr),
        ;
        lemma_low_digit(bj, base, pr * q2, lo);
        lemma_low_digit(bj, base, pr * q, lo);
    }
}

impl BaseStateBuilder {
    /// The number of elements of a state.
    pub closed spec fn size(&self) -> nat {
        self.size as nat
    }

    /// The number of values that an element can take.
    pub closed spec fn base(&self) -> int {
        self.base as int
    }

    /// The builder holds the powers of its base, one for each element.
    pub closed spec fn wf(&self) -> bool {
        &&& self.base > 1
        &&& self.size >= 1
        &&& self.powb@.len() == self.size
        &&& forall|i: int| 0 <= i < self.size ==> #[trigger] self.powb@[i] == pow(self.base as int, i as nat)
    }

    /// A builder for states of `mx_size` elements with `base` values each.
    pub fn new(mx_size: usize, base: usize) -> (builder: Self)
        requires
            base > 1,
            mx_size >= 1,
            pow(base as int, (mx_size - 1) as nat) <= usize::MAX,
        ensures
            builder.wf(),
            builder.size() == mx_size,
            builder.base() == base,
    {
        let mut powb: Vec<usize> = vec![1];
        proof {
            lemma_pow0(base as int);
        }
        let mut i: usize = 0;
        while i < mx_size - 1
            invariant
                base > 1,
                mx_size >= 1,
                i <= mx_size - 1,
                powb@.len() == i + 1,
                pow(base as int, (mx_size - 1) as nat) <= usize::MAX,
                forall|k: int| 0 <= k <= i ==> #[trigger] powb@[k] == pow(base as int, k as nat),
            decreases mx_size - 1 - i,
        {
            proof {
                lemma_pow_next(base as int, i as nat);
                vstd::arithmetic::power::lemma_pow_increases(
                    base as nat,
                    (i + 1) as nat,
                    (mx_size - 1) as nat,
                );
            }
            powb.push(powb[i] * base);
            i += 1;
        }
        Self { size: mx_size, base, powb }
    }

    /// The state `state` with element `i` changed to `v`: the digit that
    /// `state` has there is taken out and `v` is put in.
    pub fn modify(&self, state: usize, i: usize, v: usize) -> (res: usize)
        requires
            self.wf(),
            i < self.size(),
            with_digit(state as int, self.base(), i as nat, v as int) <= usize::MAX,
        ensures
            res == with_digit(state as int, self.base(), i as nat, v as int),
            v < self.base() ==> forall|j: nat|
                #[trigger] digit(res as int, self.base(), j) == (if j == i {
                    v as int
                } else {
                    digit(state as int, self.base(), j)
                }),
    {
        let ghost old_state = state;
        let mut state = state;
        let b = self.powb[i];
        proof {
            lemma_pow_positive(self.base as int, i as nat);
        }
        let current = (state / b) % self.base;
        proof {
            let q = state as int / b as int;
            vstd::arithmetic::div_mod::lemma_fundamental_div_mod(state as int, b as int);
            vstd::arithmetic::div_mod::lemma_fundamental_div_mod(q, self.base as int);
            assert(b * current <= b * q) by (nonlinear_arith)
                requires
                    0 <= current <= q,
                    b > 0,
            ;
            assert(0 <= b * v) by (nonlinear_arith)
                requires
                    0 <= v,
                    b > 0,
            ;
        }
        state -= b * current;
        state += b * v;
        proof {
            if v < self.base {
                assert forall|j: nat|
                    #[trigger] digit(state as int, self.base(), j) == (if j == i {
                        v as int
                    } else {
                        digit(old_state as int, self.base(), j)
                    }) by {
                    lemma_with_digit(old_state as int, self.base(), i as nat, v as int, j);
                }
            }
        }
        state
    }

    /// The state whose elements are `vals`.
    pub fn encode(&self, vals: &[usize]) -> (res: usize)
        requires
            self.wf(),
            vals@.len() <= self.size(),
            number_of(vals@, self.base()) <= usize::MAX,
        ensures
            res == number_of(vals@, self.base()),
    {
        let mut s: usize = 0;
        let mut i: usize = 0;
        proof {
            assert(vals@.subrange(0, 0) =~= Seq::<usize>::empty());
        }
        while i < vals.len()
            invariant
                self.wf(),
                i <= vals@.len() <= self.size(),
                number_of(vals@, self.base()) <= usize::MAX,
                s == number_of(vals@.subrange(0, i as int), self.base()),
            decreases vals@.len() - i,
        {
            proof {
                let longer = vals@.subrange(0, i + 1);
                assert(longer.drop_last() =~= vals@.subrange(0, i as int));
                lemma_number_of_grows(vals@, self.base as int, i + 1);
                lemma_number_of_grows(vals@, self.base as int, i as int);
                assert(number_of(longer, self.base()) == s + pow(self.base(), i as nat) * vals@[i as int]);
            }
            s = s + self.powb[i] * vals[i];
            i += 1;
        }
        proof {
            assert(vals@.subrange(0, i as int) =~= vals@);
        }
        s
    }

    /// The elements of the state `state`.
    pub fn decode(&self, state: usize) -> (vals: Vec<usize>)
        requires
            self.wf(),
        ensures
            vals@.len() == self.size(),
            forall|i: int|
                0 <= i < self.size() ==> #[trigger] vals@[i] == digit(
                    state as int,
                    self.base(),
                    i as nat,
                ),
    {
        let mut vals: Vec<usize> = Vec::new();
        let mut i: usize = 0;
        while i < self.size
            invariant
                self.wf(),
                i <= self.size,
                vals@.len() == i,
                forall|k: int|
                    0 <= k < i ==> #[trigger] vals@[k] == digit(state as int, self.base(), k as nat),
            decreases self.size - i,
        {
            proof {
                lemma_pow_positive(self.base as int, i as nat);
            }
            vals.push((state / self.powb[i]) % self.base);
            i += 1;
        }
        vals
    }

    /// Element `i` of the state `state`.
    pub fn get_val(&self, state: usize, i: usize) -> (v: usize)
        requires
            self.wf(),
            i < self.size(),
        ensures
            v == digit(state as int, self.base(), i as nat),
            v < self.base(),
    {
        proof {
            lemma_pow_positive(self.base as int, i as nat);
        }
        (state / self.powb[i]) % self.base
    }

    /// The greatest state: every element has the highest value, which makes
    /// `base^size - 1`.
    pub fn get_max_state_value(&self) -> (res: usize)
        requires
            self.wf(),
            pow(self.base(), self.size()) - 1 <= usize::MAX,
        ensures
            res == pow(self.base(), self.size()) - 1,
    {
        let mut s: usize = 0;
        let mut i: usize = 0;
        while i < self.powb.len()
            invariant
                self.wf(),
                i <= self.size,
                pow(self.base(), self.size()) - 1 <= usize::MAX,
                s == all_highest(self.base(), i as nat),
            decreases self.size - i,
        {
            proof {
                lemma_all_highest(self.base(), i as nat);
                lemma_all_highest(self.base(), (i + 1) as nat);
                vstd::arithmetic::power::lemma_pow_increases(
                    self.base as nat,
                    (i + 1) as nat,
                    self.size as nat,
                );
                lemma_pow_positive(self.base as int, i as nat);
                let p = pow(self.base(), i as nat);
                assert(0 <= p * (self.base - 1)) by (nonlinear_arith)
                    requires
                        p > 0,
                        self.base > 1,
                ;
            }
            s = s + self.powb[i] * (self.base - 1);
            i += 1;
        }
        proof {
            lemma_all_highest(self.base(), self.size as nat);
        }
        s
    }
}

} // verus!
