//! Primes and prime factors, and a linear sieve that finds the least prime
//! factor of every number up to a limit.

use vstd::prelude::*;
use crate::math::{
    divides, lemma_bezout, lemma_divides_multiple, lemma_divides_remainder,
    lemma_divides_transitive, lemma_divisor_bound,
};
use crate::string::{expand, is_run_length_encoding};

verus! {

pub struct LinearSieve {
    min_prime_factor: Vec<usize>,
    prime_list: Vec<usize>,
}

/// The product of the numbers of `s`.
pub open spec fn product_of(s: Seq<usize>) -> int
    decreases s.len(),
{
    if s.len() == 0 {
        1
    } else {
        product_of(s.drop_last()) * s.last()
    }
}

/// `p` is a prime: it is at least 2, and no number from 2 up to it divides
/// it but itself.
pub open spec fn is_prime_number(p: int) -> bool {
    p >= 2 && forall|d: int| 2 <= d < p ==> !#[trigger] divides(d, p)
}

/// `p` is the least number from 2 on that divides `x`.
pub open spec fn is_least_factor(p: int, x: int) -> bool {
    &&& 2 <= p <= x
    &&& divides(p, x)
    &&& forall|d: int| 2 <= d < p ==> !#[trigger] divides(d, x)
}

/// The least number from `d` on that divides `x`, and `x` where there is
/// none below it.
pub open spec fn least_factor_from(x: int, d: int) -> int
    decreases x - d,
{
    if d >= x {
        x
    } else if divides(d, x) {
        d
    } else {
        least_factor_from(x, d + 1)
    }
}

/// The least number from 2 on that divides `x`.
pub open spec fn least_factor(x: int) -> int {
    least_factor_from(x, 2)
}

/// The primes that multiply to `x`, in ascending order: the least factor of
/// `x`, then the primes of the quotient. None for 0 and 1.
pub open spec fn prime_factors(x: int) -> Seq<usize>
    decreases x,
{
    let p = least_factor(x);
    if 2 <= x && 2 <= p && x / p < x {
        if p == x {
            seq![x as usize]
        } else {
            seq![p as usize] + prime_factors(x / p)
        }
    } else {
        Seq::empty()
    }
}

/// The table `f` holds for each of its numbers from 2 on either 0 or the
/// least factor of the number.
pub open spec fn exact_where_set(f: Seq<usize>) -> bool {
    forall|m: int| 2 <= m < f.len() && #[trigger] f[m] != 0 ==> is_least_factor(f[m] as int, m)
}

/// The prime `p` is at most the least factor of `e`: the sieve writes the
/// least factor of `p * e` when it comes to `e`.
pub open spec fn sifts(p: int, e: int) -> bool {
    is_prime_number(p) && p <= least_factor(e)
}

/// The table `f` holds the least factor of every product that the sieve
/// writes for a number below `d`.
pub open spec fn sifted_below(f: Seq<usize>, d: int) -> bool {
    forall|p: int, e: int|
        2 <= e < d && #[trigger] sifts(p, e) && p * e < f.len() ==> f[p * e] != 0
}

/// The list `s` holds, in ascending order, the primes below `d`.
pub open spec fn primes_below(s: Seq<usize>, d: int) -> bool {
    &&& forall|k: int| 0 <= k < s.len() ==> #[trigger] s[k] < d && is_prime_number(s[k] as int)
    &&& forall|x: int| 2 <= x < d && is_prime_number(x) ==> #[trigger] s.contains(x as usize)
    &&& forall|a: int, b: int| 0 <= a < b < s.len() ==> s[a] < s[b]
}

/// The search for a factor from `d` on finds the least factor, where no
/// number from 2 up to `d` divides `x`.
pub proof fn lemma_least_factor_from(x: int, d: int)
    requires
        2 <= d <= x,
        forall|e: int| 2 <= e < d ==> !#[trigger] divides(e, x),
    ensures
        is_least_factor(least_factor_from(x, d), x),
    decreases x - d,
{
    if d >= x {
        assert(x == x * 1);
    } else if divides(d, x) {
    } else {
        lemma_least_factor_from(x, d + 1);
    }
}

/// Every number from 2 on has a least factor, which is a prime.
pub proof fn lemma_least_factor(x: int)
    requires
        x >= 2,
    ensures
        is_least_factor(least_factor(x), x),
        is_prime_number(least_factor(x)),
{
    lemma_least_factor_from(x, 2);
    lemma_least_factor_is_prime(least_factor(x), x);
}

/// The least factor of a number is a prime.
pub proof fn lemma_least_factor_is_prime(p: int, x: int)
    requires
        is_least_factor(p, x),
    ensures
        is_prime_number(p),
{
    assert forall|d: int| 2 <= d < p implies !#[trigger] divides(d, p) by {
        if divides(d, p) {
            lemma_divides_transitive(d, p, x);
        }
    }
}

/// A number has one least factor.
pub proof fn lemma_least_factor_unique(p: int, q: int, x: int)
    requires
        is_least_factor(p, x),
        is_least_factor(q, x),
    ensures
        p == q,
{
}

/// A number is a prime where it is its own least factor.
pub proof fn lemma_prime_is_own_factor(x: int)
    requires
        x >= 2,
    ensures
        is_prime_number(x) <==> is_least_factor(x, x),
        is_prime_number(x) <==> least_factor(x) == x,
{
    assert(x == x * 1);
    lemma_least_factor(x);
    if is_least_factor(x, x) {
        lemma_least_factor_is_prime(x, x);
    }
}

/// A prime that divides a product of two numbers that are not negative
/// divides one of the two.
pub proof fn lemma_prime_divides_product(q: int, a: int, b: int)
    requires
        is_prime_number(q),
        a >= 0,
        b >= 0,
        divides(q, a * b),
    ensures
        divides(q, a) || divides(q, b),
{
    if !divides(q, a) {
        let (x, y, g) = lemma_bezout(q, a);
        assert(q == q * 1);
        assert(divides(g, q));
        lemma_divisor_bound(g, q);
        if g == q {
            assert(false);
        }
        if g >= 2 {
            assert(false);
        }
        assert(g == 1);
        lemma_divides_multiple(q, x * b);
        let k = choose|k: int| a * b == #[trigger] (q * k);
        assert(b == q * (x * b + k * y)) by (nonlinear_arith)
            requires
                q * x + a * y == 1,
                a * b == q * k,
        ;
    }
}

/// The least factor of the quotient of a number by its least factor is not
/// below that factor.
pub proof fn lemma_factors_ascend(p: int, x: int, q: int)
    requires
        is_least_factor(p, x),
        x == p * q,
        q >= 2,
    ensures
        p <= least_factor(q),
        sifts(p, q),
{
    lemma_least_factor(q);
    lemma_least_factor_is_prime(p, x);
    let r = least_factor(q);
    assert(divides(q, x)) by {
        lemma_divides_multiple(q, p);
    }
    lemma_divides_transitive(r, q, x);
}

/// The product of a number `e` and a prime that is at most the least
/// factor of `e` has that prime for its least factor.
pub proof fn lemma_sifted_factor(p: int, e: int)
    requires
        e >= 2,
        sifts(p, e),
    ensures
        is_least_factor(p, p * e),
{
    lemma_least_factor(e);
    lemma_divides_multiple(p, e);
    assert(p * e >= p) by (nonlinear_arith)
        requires
            p >= 2,
            e >= 2,
    ;
    assert forall|d: int| 2 <= d < p implies !#[trigger] divides(d, p * e) by {
        if divides(d, p * e) {
            lemma_least_factor(d);
            let r = least_factor(d);
            lemma_divides_transitive(r, d, p * e);
            lemma_prime_divides_product(r, p, e);
        }
    }
}

/// The product of a sequence with one more number in front.
proof fn lemma_product_prepend(a: usize, s: Seq<usize>)
    ensures
        product_of(seq![a] + s) == a * product_of(s),
    decreases s.len(),
{
    if s.len() == 0 {
        assert(seq![a] + s =~= seq![a]);
        assert(seq![a].drop_last() =~= Seq::<usize>::empty());
        assert(product_of(Seq::<usize>::empty()) == 1);
        assert(product_of(seq![a]) == 1 * a);
    } else {
        lemma_product_prepend(a, s.drop_last());
        assert((seq![a] + s).drop_last() =~= seq![a] + s.drop_last());
        assert(a * product_of(s.drop_last()) * s.last() == a * (product_of(s.drop_last())
            * s.last())) by (nonlinear_arith);
    }
}

/// The prime factors of a number from 2 on multiply to it, each is a
/// prime, and none is less than the one before it.
pub proof fn lemma_prime_factors(x: int)
    requires
        2 <= x <= usize::MAX,
    ensures
        prime_factors(x).len() >= 1,
        prime_factors(x)[0] == least_factor(x),
        product_of(prime_factors(x)) == x,
        forall|k: int|
            0 <= k < prime_factors(x).len() ==> is_prime_number(#[trigger] prime_factors(x)[k] as int),
        forall|a: int, b: int|
            0 <= a <= b < prime_factors(x).len() ==> prime_factors(x)[a] <= prime_factors(x)[b],
    decreases x,
{
    lemma_least_factor(x);
    let p = least_factor(x);
    lemma_quotient_by_factor(p, x);
    if p == x {
        assert(seq![x as usize].drop_last() =~= Seq::<usize>::empty());
        assert(product_of(Seq::<usize>::empty()) == 1);
        assert(product_of(seq![x as usize]) == 1 * x);
    } else {
        let q = x / p;
        lemma_prime_factors(q);
        lemma_product_prepend(p as usize, prime_factors(q));
        lemma_factors_ascend(p, x, q);
        let rest = prime_factors(q);
        let all = prime_factors(x);
        assert(all =~= seq![p as usize] + rest);
        assert forall|a: int, b: int| 0 <= a <= b < all.len() implies all[a] <= all[b] by {
            if a == 0 {
                if b > 0 {
                    assert(all[b] == rest[b - 1]);
                    assert(rest[0] <= rest[b - 1]);
                }
            } else {
                assert(all[a] == rest[a - 1]);
                assert(all[b] == rest[b - 1]);
            }
        }
        assert forall|k: int| 0 <= k < all.len() implies is_prime_number(#[trigger] all[k] as int) by {
            if k > 0 {
                assert(all[k] == rest[k - 1]);
            }
        }
    }
}

/// The quotient of a number by a factor of it below the number is exact,
/// at least 2 and below the number.
pub proof fn lemma_quotient_by_factor(p: int, x: int)
    requires
        2 <= p <= x,
        divides(p, x),
    ensures
        x == p * (x / p),
        x / p < x,
        p < x ==> x / p >= 2,
        p == x ==> x / p == 1,
{
    lemma_divides_remainder(p, x);
    vstd::arithmetic::div_mod::lemma_fundamental_div_mod(x, p);
    let q = x / p;
    assert(q < x && (p < x ==> q >= 2) && (p == x ==> q == 1)) by (nonlinear_arith)
        requires
            x == p * q,
            2 <= p <= x,
    ;
}

impl LinearSieve {
    /// The greatest number that the sieve covers.
    pub closed spec fn limit(&self) -> int {
        self.min_prime_factor@.len() - 1
    }

    /// The table of least factors, by number.
    pub closed spec fn table(&self) -> Seq<usize> {
        self.min_prime_factor@
    }

    /// The list of primes.
    pub closed spec fn listed(&self) -> Seq<usize> {
        self.prime_list@
    }

    /// The table holds the least factor of every number from 2 to the limit,
    /// and the list holds, in ascending order, the primes up to the limit.
    pub open spec fn wf(&self) -> bool {
        &&& self.table().len() == self.limit() + 1
        &&& self.limit() >= 0
        &&& forall|x: int|
            2 <= x <= self.limit() ==> is_least_factor(#[trigger] self.table()[x] as int, x)
        &&& primes_below(self.listed(), self.limit() + 1)
    }

    /// A sieve for the numbers up to `n`.
    pub fn new(n: usize) -> (sieve: LinearSieve)
        requires
            n < usize::MAX,
        ensures
            sieve.wf(),
            sieve.limit() == n,
    {
        let mut primes: Vec<usize> = vec![];
        let mut factor: Vec<usize> = Vec::new();
        let mut z: usize = 0;
        while z < n + 1
            invariant
                z <= n + 1,
                n < usize::MAX,
                factor@.len() == z,
                forall|k: int| 0 <= k < z ==> factor@[k] == 0,
            decreases n + 1 - z,
        {
            factor.push(0);
            z += 1;
        }
        let mut d: usize = 2;
        while d <= n
            invariant
                2 <= d,
                d <= n + 1 || n < 2,
                n < 2 ==> d == 2,
                n < usize::MAX,
                factor@.len() == n + 1,
                exact_where_set(factor@),
                forall|m: int| 2 <= m < d && m <= n ==> #[trigger] factor@[m] != 0,
                forall|m: int| d <= m <= n && #[trigger] factor@[m] != 0 ==> factor@[m] < m,
                sifted_below(factor@, d as int),
                primes_below(primes@, d as int),
            decreases n + 1 - d,
        {
            if factor[d] == 0 {
                proof {
                    Self::lemma_unset_is_prime(factor@, d as int);
                    lemma_prime_is_own_factor(d as int);
                }
                let ghost unset = factor@;
                factor[d] = d;
                let ghost before = primes@;
                primes.push(d);
                proof {
                    assert forall|x: int| 2 <= x < d + 1 && is_prime_number(x) implies #[trigger] primes@.contains(
                        x as usize,
                    ) by {
                        if x < d {
                            assert(before.contains(x as usize));
                            let k = choose|k: int| 0 <= k < before.len() && before[k] == x as usize;
                            assert(primes@[k] == x as usize);
                        } else {
                            assert(primes@[before.len() as int] == d);
                        }
                    }
                    assert forall|p: int, e: int|
                        2 <= e < d && #[trigger] sifts(p, e) && p * e < factor@.len() implies factor@[p
                            * e] != 0 by {
                        assert(unset[p * e] != 0);
                    }
                }
            } else {
                proof {
                    lemma_prime_is_own_factor(d as int);
                    assert forall|x: int| 2 <= x < d + 1 && is_prime_number(x) implies #[trigger] primes@.contains(
                        x as usize,
                    ) by {
                        if x == d {
                            assert(is_least_factor(factor@[d as int] as int, d as int));
                        }
                    }
                    assert forall|k: int| 0 <= k < primes@.len() implies #[trigger] primes@[k] < d + 1
                        && is_prime_number(primes@[k] as int) by {
                    }
                }
            }
            let mut t: usize = 0;
            while t < primes.len()
                invariant
                    2 <= d <= n,
                    n < usize::MAX,
                    factor@.len() == n + 1,
                    t <= primes@.len(),
                    exact_where_set(factor@),
                    forall|m: int| 2 <= m < d + 1 && m <= n ==> #[trigger] factor@[m] != 0,
                    forall|m: int| d + 1 <= m <= n && #[trigger] factor@[m] != 0 ==> factor@[m] < m,
                    sifted_below(factor@, d as int),
                    primes_below(primes@, d + 1),
                    forall|k: int|
                        0 <= k < t ==> factor@[#[trigger] primes@[k] * d] != 0 && primes@[k] * d <= n,
                ensures
                    t == primes@.len() || primes@[t as int] > n / d || primes@[t as int] > factor@[d as int],
                decreases primes@.len() - t,
            {
                let p = primes[t];
                if p > n / d || p > factor[d] {
                    break ;
                }
                proof {
                    vstd::arithmetic::div_mod::lemma_fundamental_div_mod(n as int, d as int);
                    assert(p * d <= n) by (nonlinear_arith)
                        requires
                            p <= n as int / d as int,
                            d > 0,
                            d * (n as int / d as int) <= n,
                    ;
                    assert(p * d >= 2 * d) by (nonlinear_arith)
                        requires
                            p >= 2,
                            d >= 2,
                    ;
                    assert(is_least_factor(factor@[d as int] as int, d as int));
                    lemma_least_factor(d as int);
                    lemma_sifted_factor(p as int, d as int);
                }
                let ghost before = factor@;
                factor[p * d] = p;
                proof {
                    assert forall|q: int, e: int|
                        2 <= e < d && #[trigger] sifts(q, e) && q * e < factor@.len() implies factor@[q
                            * e] != 0 by {
                        assert(before[q * e] != 0);
                    }
                    assert forall|k: int| 0 <= k < t + 1 implies factor@[#[trigger] primes@[k] * d] != 0
                        && primes@[k] * d <= n by {
                        if k < t {
                            assert(before[primes@[k] * d] != 0);
                        }
                    }
                }
                t += 1;
            }
            proof {
                lemma_least_factor(d as int);
                assert(is_least_factor(factor@[d as int] as int, d as int));
                assert forall|p: int, e: int|
                    2 <= e < d + 1 && #[trigger] sifts(p, e) && p * e < factor@.len() implies factor@[p
                        * e] != 0 by {
                    if e == d {
                        assert(primes@.contains(p as usize));
                        let k = choose|k: int| 0 <= k < primes@.len() && primes@[k] == p as usize;
                        if k >= t {
                            let stop = primes@[t as int];
                            assert(stop <= p);
                            if stop > n / d {
                                vstd::arithmetic::div_mod::lemma_fundamental_div_mod(n as int, d as int);
                                assert(stop * d > n) by (nonlinear_arith)
                                    requires
                                        stop >= n as int / d as int + 1,
                                        d > 0,
                                        n == d * (n as int / d as int) + (n as int % d as int),
                                        (n as int % d as int) < d,
                                ;
                                assert(p * d >= stop * d) by (nonlinear_arith)
                                    requires
                                        p >= stop,
                                        d > 0,
                                ;
                            }
                        } else {
                            assert(factor@[primes@[k] * d] != 0);
                        }
                    }
                }
            }
            d += 1;
        }
        proof {
            if n < 2 {
                assert forall|k: int| 0 <= k < primes@.len() implies #[trigger] primes@[k] < n + 1
                    && is_prime_number(primes@[k] as int) by {
                    assert(primes@[k] < 2);
                }
            }
        }
        LinearSieve { min_prime_factor: factor, prime_list: primes }
    }

    /// A number whose place in the table is empty when the sieve comes to it
    /// is a prime.
    proof fn lemma_unset_is_prime(f: Seq<usize>, d: int)
        requires
            2 <= d < f.len(),
            sifted_below(f, d),
            f[d] == 0,
        ensures
            is_prime_number(d),
    {
        lemma_least_factor(d);
        let l = least_factor(d);
        if l < d {
            lemma_quotient_by_factor(l, d);
            let e = d / l;
            lemma_factors_ascend(l, d, e);
            assert(sifts(l, e));
            assert(f[l * e] != 0);
        }
        lemma_prime_is_own_factor(d);
    }

    /// Whether `x` is a prime.
    pub fn is_prime(&self, x: usize) -> (r: bool)
        requires
            self.wf(),
            x <= self.limit(),
        ensures
            r == is_prime_number(x as int),
            r == self.listed().contains(x),
    {
        if x < 2 {
            proof {
                if self.listed().contains(x) {
                    let k = choose|k: int| 0 <= k < self.listed().len() && self.listed()[k] == x;
                    assert(is_prime_number(self.listed()[k] as int));
                }
            }
            return false;
        }
        proof {
            lemma_prime_is_own_factor(x as int);
            assert(is_least_factor(self.table()[x as int] as int, x as int));
            if is_prime_number(x as int) {
                assert(self.listed().contains((x as int) as usize));
            }
            if self.listed().contains(x) {
                let k = choose|k: int| 0 <= k < self.listed().len() && self.listed()[k] == x;
                assert(is_prime_number(self.listed()[k] as int));
            }
        }
        self.min_prime_factor[x] == x
    }

    /// The primes that multiply to `x`, in ascending order, each as often as
    /// it divides `x`. None for 0 and 1.
    pub fn factors(&self, x: usize) -> (res: Vec<usize>)
        requires
            self.wf(),
            x <= self.limit(),
        ensures
            res@ == prime_factors(x as int),
            x >= 2 ==> product_of(res@) == x,
            forall|k: int| 0 <= k < res@.len() ==> is_prime_number(#[trigger] res@[k] as int),
            forall|a: int, b: int| 0 <= a <= b < res@.len() ==> res@[a] <= res@[b],
    {
        let mut res: Vec<usize> = vec![];
        let ghost start = x;
        let mut x = x;
        if x <= 1 {
            return res;
        }
        proof {
            lemma_prime_factors(x as int);
        }
        loop
            invariant_except_break
                self.wf(),
                2 <= x <= self.limit(),
                res@ + prime_factors(x as int) == prime_factors(start as int),
            ensures
                res@ == prime_factors(start as int),
            decreases x,
        {
            let ghost before = res@;
            let f = self.min_prime_factor[x];
            proof {
                lemma_least_factor(x as int);
                assert(is_least_factor(self.table()[x as int] as int, x as int));
                lemma_quotient_by_factor(f as int, x as int);
            }
            if f == x {
                res.push(x);
                proof {
                    assert(res@ =~= before + prime_factors(x as int));
                }
                break ;
            }
            res.push(f);
            proof {
                let q = x as int / f as int;
                assert(res@ + prime_factors(q) =~= before + prime_factors(x as int));
            }
            x /= f;
        }
        res
    }

    /// The factors of `x` with their multiplicities: each run of equal
    /// factors of `factors(x)` as the factor and the length of the run.
    pub fn factor_pairs(&self, x: usize) -> (res: Vec<(usize, usize)>)
        requires
            self.wf(),
            x <= self.limit(),
        ensures
            expand(res@) == prime_factors(x as int),
            is_run_length_encoding(res@),
    {
        let mut res: Vec<(usize, usize)> = vec![];
        let fs = self.factors(x);
        if fs.is_empty() {
            proof {
                assert(expand(res@) =~= fs@);
            }
            return res;
        }
        let mut now: (usize, usize) = (fs[0], 0);
        let mut i: usize = 0;
        proof {
            assert(expand(res@) + Seq::new(0, |k: int| now.0) =~= fs@.subrange(0, 0));
        }
        while i < fs.len()
            invariant
                fs@.len() > 0,
                i <= fs@.len(),
                now.1 <= i,
                i > 0 ==> now.1 > 0,
                i == 0 ==> now.0 == fs@[0],
                is_run_length_encoding(res@),
                res@.len() > 0 ==> res@.last().0 != now.0,
                expand(res@) + Seq::new(now.1 as nat, |k: int| now.0) == fs@.subrange(0, i as int),
            decreases fs@.len() - i,
        {
            let p = fs[i];
            let ghost before = res@;
            let ghost run = Seq::new(now.1 as nat, |k: int| now.0);
            if now.0 == p {
                proof {
                    assert(expand(before) + Seq::new((now.1 + 1) as nat, |k: int| now.0)
                        =~= (expand(before) + run).push(p));
                    assert((expand(before) + run).push(p) =~= fs@.subrange(0, i + 1));
                }
                now.1 += 1;
            } else {
                res.push(now);
                proof {
                    assert(res@.drop_last() =~= before);
                    assert(expand(res@) == expand(before) + run);
                    assert(expand(res@) + Seq::new(1, |k: int| p) =~= fs@.subrange(0, i + 1));
                }
                now = (p, 1);
            }
            i += 1;
        }
        let ghost before = res@;
        res.push(now);
        proof {
            assert(res@.drop_last() =~= before);
            assert(fs@.subrange(0, fs@.len() as int) =~= fs@);
        }
        res
    }

    /// The numbers that the sieve holds to be primes, in ascending order.
    pub fn primes(&self) -> (list: &Vec<usize>)
        ensures
            list@ == self.listed(),
    {
        &self.prime_list
    }
}

} // verus!
