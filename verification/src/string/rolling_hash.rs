//! Rolling hashes of sequences of numbers, modulo the prime `2^61 - 1`.
//!
//! The hash of a sequence is the value of the polynomial with the
//! sequence's elements as coefficients, highest first, at the base `B`.

use vstd::prelude::*;
use vstd::arithmetic::div_mod::{
    lemma_add_mod_noop, lemma_fundamental_div_mod, lemma_mod_add_multiples_vanish,
    lemma_mod_multiples_vanish, lemma_mul_mod_noop, lemma_mul_mod_noop_general, lemma_small_mod,
    lemma_sub_mod_noop,
};
use vstd::arithmetic::power::{lemma_pow0, lemma_pow1, lemma_pow_adds, pow};

verus! {

pub const MASK30: u64 = 0x3FFF_FFFF;

pub const MASK31: u64 = 0x7FFF_FFFF;

/// The modulus, `2^61 - 1`.
pub const MOD: u64 = 0x1FFF_FFFF_FFFF_FFFF;

pub const MASK61: u64 = 0x1FFF_FFFF_FFFF_FFFF;

/// A multiple of the modulus, added before a subtraction to keep the
/// difference from going below zero: `4 * MOD`.
pub const POSITIVIZER: u64 = 0x7FFF_FFFF_FFFF_FFFC;

/// The base of the rolling hash.
pub const B: u64 = 1_000_000_007;

/// The hash of `s`: `(hash(s without its last element) * B + last) % MOD`.
pub open spec fn hash_of(s: Seq<u64>) -> int
    decreases s.len(),
{
    if s.len() == 0 {
        0
    } else {
        (hash_of(s.drop_last()) * B + s.last()) % (MOD as int)
    }
}

proof fn lemma_split61(x: u64)
    by (bit_vector)
    ensures
        x == (x >> 61) * 0x2000_0000_0000_0000 + (x & 0x1FFF_FFFF_FFFF_FFFF),
        (x >> 61) <= 7,
        (x & 0x1FFF_FFFF_FFFF_FFFF) <= 0x1FFF_FFFF_FFFF_FFFF,
{
}

proof fn lemma_split31(x: u64)
    by (bit_vector)
    requires
        x <= 0x1FFF_FFFF_FFFF_FFFF,
    ensures
        x == (x >> 31) * 0x8000_0000 + (x & 0x7FFF_FFFF),
        (x >> 31) <= 0x3FFF_FFFF,
        (x & 0x7FFF_FFFF) <= 0x7FFF_FFFF,
{
}

proof fn lemma_split30(x: u64)
    by (bit_vector)
    ensures
        x == (x >> 30) * 0x4000_0000 + (x & 0x3FFF_FFFF),
        (x & 0x3FFF_FFFF) <= 0x3FFF_FFFF,
        (x & 0x3FFF_FFFF) << 31 == (x & 0x3FFF_FFFF) * 0x8000_0000,
{
}

/// The remainder of `x` modulo `2^61 - 1`.
#[allow(non_snake_case)]
pub fn CalcMod(x: u64) -> (res: u64)
    ensures
        res == x % MOD,
{
    let xu = x >> 61;
    let xd = x & MASK61;
    proof {
        lemma_split61(x);
        lemma_mod_multiples_vanish(xu as int, xu + xd, MOD as int);
        if xu + xd >= MOD {
            lemma_mod_add_multiples_vanish(xu + xd - MOD, MOD as int);
            lemma_small_mod((xu + xd - MOD) as nat, MOD as nat);
        } else {
            lemma_small_mod((xu + xd) as nat, MOD as nat);
        }
    }
    let mut res = xu + xd;
    if res >= MOD {
        res -= MOD;
    }
    res
}

/// A number that is congruent to `a * b` modulo `2^61 - 1` and fits a
/// word, for factors that are at most the modulus.
#[allow(non_snake_case)]
pub fn Mul(a: u64, b: u64) -> (res: u64)
    requires
        a <= MOD,
        b <= MOD,
    ensures
        res % MOD == (a * b) % (MOD as int),
        res <= POSITIVIZER,
{
    let au = a >> 31;
    let ad = a & MASK31;
    let bu = b >> 31;
    let bd = b & MASK31;
    proof {
        lemma_split31(a);
        lemma_split31(b);
        assert(ad * bu <= 0x7FFF_FFFF * 0x3FFF_FFFF && au * bd <= 0x3FFF_FFFF * 0x7FFF_FFFF && au
            * bu <= 0x3FFF_FFFF * 0x3FFF_FFFF && ad * bd <= 0x7FFF_FFFF * 0x7FFF_FFFF)
            by (nonlinear_arith)
            requires
                au <= 0x3FFF_FFFF,
                bu <= 0x3FFF_FFFF,
                ad <= 0x7FFF_FFFF,
                bd <= 0x7FFF_FFFF,
        ;
    }
    let mid = ad * bu + au * bd;
    let midu = mid >> 30;
    let midd = mid & MASK30;
    proof {
        lemma_split30(mid);
        let k = 2 * (au * bu) + midu;
        assert(a * b == (au * bu * 2 + midu + midd * 0x8000_0000 + ad * bd) + k * MOD)
            by (nonlinear_arith)
            requires
                a == au * 0x8000_0000 + ad,
                b == bu * 0x8000_0000 + bd,
                mid == ad * bu + au * bd,
                mid == midu * 0x4000_0000 + midd,
                k == 2 * (au * bu) + midu,
                MOD == 0x1FFF_FFFF_FFFF_FFFF,
        ;
        lemma_mod_multiples_vanish(
            k as int,
            (au * bu * 2 + midu + midd * 0x8000_0000 + ad * bd) as int,
            MOD as int,
        );
        assert(midu <= 0xFFFF_FFFF) by {
            assert(midu * 0x4000_0000 <= mid);
        }
    }
    au * bu * 2 + midu + (midd << 31) + ad * bd
}

/// `a * b` modulo `2^61 - 1`, for factors that are at most the modulus.
#[allow(non_snake_case)]
pub fn MulMod(a: u64, b: u64) -> (res: u64)
    requires
        a <= MOD,
        b <= MOD,
    ensures
        res == (a * b) % (MOD as int),
{
    CalcMod(Mul(a, b))
}

/// `lhs - rhs` modulo `2^61 - 1`, computed without going below zero.
#[allow(non_snake_case)]
pub fn Sub(lhs: u64, rhs: u64) -> (res: u64)
    requires
        rhs <= POSITIVIZER,
        lhs + POSITIVIZER - rhs <= u64::MAX,
    ensures
        res == (lhs - rhs) % (MOD as int),
{
    let d = POSITIVIZER - rhs;
    proof {
        lemma_mod_multiples_vanish(4, lhs - rhs, MOD as int);
    }
    CalcMod(lhs + d)
}

/// The hash of the sequence with the hash `h` after `v` is added at its
/// end.
pub fn push_back(h: u64, v: u64) -> (res: u64)
    requires
        h <= MOD,
        v <= u64::MAX - POSITIVIZER,
    ensures
        res == (h * B + v) % (MOD as int),
{
    let m = Mul(h, B);
    proof {
        lemma_add_mod_noop(m as int, v as int, MOD as int);
        lemma_add_mod_noop(h * B, v as int, MOD as int);
    }
    CalcMod(m + v)
}

/// The hash of the sequence `s`.
pub fn hash(s: &[u64]) -> (res: u64)
    requires
        forall|i: int| 0 <= i < s@.len() ==> #[trigger] s@[i] <= u64::MAX - POSITIVIZER,
    ensures
        res == hash_of(s@),
        res < MOD,
{
    let mut h: u64 = 0;
    let mut i: usize = 0;
    proof {
        assert(s@.subrange(0, 0) =~= Seq::<u64>::empty());
    }
    while i < s.len()
        invariant
            i <= s@.len(),
            forall|i: int| 0 <= i < s@.len() ==> #[trigger] s@[i] <= u64::MAX - POSITIVIZER,
            h == hash_of(s@.subrange(0, i as int)),
            h < MOD,
        decreases s@.len() - i,
    {
        proof {
            assert(s@.subrange(0, i + 1).drop_last() =~= s@.subrange(0, i as int));
        }
        h = push_back(h, s[i]);
        i += 1;
    }
    proof {
        assert(s@.subrange(0, i as int) =~= s@);
    }
    h
}

/// The product of two numbers has the remainder of the product of their
/// remainders.
proof fn lemma_mul_mod(a: int, b: int, ra: int, rb: int, m: int)
    requires
        m > 0,
        ra == a % m,
        rb == b % m,
    ensures
        (ra * rb) % m == (a * b) % m,
{
    lemma_mul_mod_noop(a, b, m);
}

/// One step of taking a power by squaring: the low part of the exponent
/// grows by the next bit.
proof fn lemma_pow_step(v: int, e: int, p: int, res: int, x: int)
    requires
        p > 0,
        e >= 0,
        res == pow(v, (e % p) as nat) % (MOD as int),
        x == pow(v, p as nat) % (MOD as int),
    ensures
        2 * p > 0,
        (e / p) % 2 == 1 ==> (res * x) % (MOD as int) == pow(v, (e % (2 * p)) as nat) % (MOD as int),
        (e / p) % 2 == 0 ==> res == pow(v, (e % (2 * p)) as nat) % (MOD as int),
        (x * x) % (MOD as int) == pow(v, (2 * p) as nat) % (MOD as int),
{
    vstd::arithmetic::div_mod::lemma_mod_breakdown(e, p, 2);
    assert(p * 2 == 2 * p);
    let low = (e % p) as nat;
    lemma_pow_adds(v, low, p as nat);
    lemma_pow_adds(v, p as nat, p as nat);
    lemma_mul_mod(pow(v, low), pow(v, p as nat), res, x, MOD as int);
    lemma_mul_mod(pow(v, p as nat), pow(v, p as nat), x, x, MOD as int);
    if (e / p) % 2 == 1 {
        assert(p * 1 == p) by (nonlinear_arith);
        assert(e % (2 * p) == p + e % p);
    } else {
        assert(p * 0 == 0) by (nonlinear_arith);
        assert(e % (2 * p) == e % p);
    }
}

/// `v^e` modulo `2^61 - 1`, by repeated squaring.
#[allow(non_snake_case)]
pub fn CalcPow(v: u64, e: usize) -> (res: u64)
    requires
        e <= usize::MAX / 2,
        e > 0 ==> v <= MOD,
    ensures
        res == pow(v as int, e as nat) % (MOD as int),
{
    if e == 0 {
        proof {
            lemma_pow0(v as int);
        }
        return 1;
    }
    let mut x = v;
    let mut res: u64 = 1;
    let mut i: usize = 0;
    proof {
        vstd::arithmetic::power2::lemma2_to64();
        lemma_pow0(v as int);
        lemma_pow1(v as int);
        if v == MOD {
        } else {
            lemma_small_mod(v as nat, MOD as nat);
        }
        vstd::bits::lemma_usize_shr_is_div(e, 0);
    }
    let ghost mut p: int = 1;
    let ghost mut xv: int = v as int % (MOD as int);
    while e >> i > 0
        invariant
            0 < e <= usize::MAX / 2,
            i < usize::BITS,
            p == vstd::arithmetic::power2::pow2(i as nat),
            p > 0,
            x <= MOD,
            x as int % (MOD as int) == xv,
            xv == pow(v as int, p as nat) % (MOD as int),
            res < MOD,
            res == pow(v as int, (e as int % p) as nat) % (MOD as int),
            e >> i == e as int / p,
        decreases usize::BITS - i,
    {
        let q = e >> i;
        proof {
            crate::segment_tree2d::layout::lemma_low_bit(q);
            lemma_pow_step(v as int, e as int, p, res as int, xv);
            vstd::arithmetic::power2::lemma_pow2_unfold((i + 1) as nat);
            lemma_fundamental_div_mod(e as int, p);
            assert(p <= e) by (nonlinear_arith)
                requires
                    e == p * (e as int / p) + e as int % p,
                    e as int / p >= 1,
                    e as int % p >= 0,
                    p > 0,
            ;
            vstd::arithmetic::power2::lemma2_to64();
            vstd::arithmetic::power2::lemma2_to64_rest();
            if i + 1 >= usize::BITS {
                assert(false);
            }
            vstd::bits::lemma_usize_shr_is_div(e, (i + 1) as usize);
            lemma_mul_mod(xv, xv, xv, xv, MOD as int);
        }
        if e >> i & 1 == 1 {
            proof {
                lemma_mul_mod(res as int, x as int, res as int, xv, MOD as int);
                lemma_small_mod(res as nat, MOD as nat);
            }
            res = CalcMod(Mul(res, x));
        }
        proof {
            lemma_mul_mod(x as int, x as int, xv, xv, MOD as int);
        }
        x = CalcMod(Mul(x, x));
        i += 1;
        proof {
            xv = x as int;
            p = 2 * p;
            lemma_small_mod(x as nat, MOD as nat);
        }
    }
    proof {
        lemma_fundamental_div_mod(e as int, p);
        assert(p * 0 == 0) by (nonlinear_arith);
    }
    res
}

/// The power `B^e` modulo `2^61 - 1`.
fn get_bs(e: usize) -> (res: u64)
    requires
        e <= usize::MAX / 2,
    ensures
        res == pow(B as int, e as nat) % (MOD as int),
{
    CalcPow(B, e)
}

/// The hash of the sequence with the hash `h` and the length
/// `current_len` after `v` is added at its front.
pub fn push_front(h: u64, current_len: usize, v: u64) -> (res: u64)
    requires
        h <= u64::MAX - POSITIVIZER,
        v <= MOD,
        current_len <= usize::MAX / 2,
    ensures
        res == (h + v * pow(B as int, current_len as nat)) % (MOD as int),
{
    let b = get_bs(current_len);
    let m = Mul(v, b);
    proof {
        let full = pow(B as int, current_len as nat);
        lemma_mul_mod_noop_general(v as int, full, MOD as int);
        assert((v * b) % (MOD as int) == (v * full) % (MOD as int));
        lemma_add_mod_noop(h as int, m as int, MOD as int);
        lemma_add_mod_noop(h as int, v * full, MOD as int);
    }
    CalcMod(h + m)
}

/// Two numbers with the same remainder modulo `2^61 - 1`.
pub open spec fn congruent(a: int, b: int) -> bool {
    a % (MOD as int) == b % (MOD as int)
}

/// Sums and products of congruent numbers are congruent.
proof fn lemma_congruent(a: int, a2: int, b: int, b2: int)
    requires
        congruent(a, a2),
        congruent(b, b2),
    ensures
        congruent(a + b, a2 + b2),
        congruent(a - b, a2 - b2),
        congruent(a * b, a2 * b2),
        congruent(a % (MOD as int), a),
{
    let m = MOD as int;
    lemma_add_mod_noop(a, b, m);
    lemma_add_mod_noop(a2, b2, m);
    lemma_sub_mod_noop(a, b, m);
    lemma_sub_mod_noop(a2, b2, m);
    lemma_mul_mod_noop_general(a, b, m);
    lemma_mul_mod_noop_general(a2, b2, m);
    vstd::arithmetic::div_mod::lemma_mod_twice(a, m);
}

/// The hash of a sequence with `x` put in front.
proof fn lemma_hash_prepend(x: u64, t: Seq<u64>)
    ensures
        congruent(hash_of(seq![x] + t), x * pow(B as int, t.len()) + hash_of(t)),
    decreases t.len(),
{
    let m = MOD as int;
    if t.len() == 0 {
        assert(seq![x] + t =~= seq![x]);
        assert(seq![x].drop_last() =~= Seq::<u64>::empty());
        lemma_pow0(B as int);
        lemma_congruent((0 * B + x) as int, x as int, 0, 0);
        assert(hash_of(Seq::<u64>::empty()) == 0);
        assert(seq![x].last() == x);
        assert(hash_of(seq![x]) == (0 * B + x) % (MOD as int));
        assert(x * pow(B as int, t.len()) + hash_of(t) == x) by (nonlinear_arith)
            requires
                pow(B as int, t.len()) == 1,
                hash_of(t) == 0,
        ;
    } else {
        let t0 = t.drop_last();
        let z = t.last();
        lemma_hash_prepend(x, t0);
        assert((seq![x] + t).drop_last() =~= seq![x] + t0);
        let h0 = hash_of(seq![x] + t0);
        let e0 = x * pow(B as int, t0.len()) + hash_of(t0);
        lemma_congruent(h0, e0, B as int, B as int);
        lemma_congruent(h0 * B, e0 * B, z as int, z as int);
        lemma_congruent(h0 * B + z, h0 * B + z, 0, 0);
        lemma_pow_adds(B as int, t0.len(), 1);
        lemma_pow1(B as int);
        assert(e0 * B + z == x * pow(B as int, t.len()) + (hash_of(t0) * B + z)) by (nonlinear_arith)
            requires
                e0 == x * pow(B as int, t0.len()) + hash_of(t0),
                pow(B as int, t.len()) == pow(B as int, t0.len()) * B,
        ;
        lemma_congruent(hash_of(t0) * B + z, hash_of(t0) * B + z, 0, 0);
        lemma_congruent(
            x * pow(B as int, t.len()),
            x * pow(B as int, t.len()),
            hash_of(t0) * B + z,
            hash_of(t),
        );
        assert((seq![x] + t).last() == z);
        assert(hash_of(seq![x] + t) == (h0 * B + z) % (MOD as int));
        assert(congruent(hash_of(seq![x] + t), h0 * B + z));
        assert(congruent(h0 * B + z, e0 * B + z));
    }
}

/// The hash of a window moved by one place: the element `y` comes in at the
/// end and the first element goes out.
pub proof fn lemma_hash_roll(w: Seq<u64>, y: u64)
    requires
        w.len() >= 1,
    ensures
        congruent(
            hash_of(w.subrange(1, w.len() as int).push(y)),
            hash_of(w) * B + y - w[0] * pow(B as int, w.len()),
        ),
{
    let t = w.subrange(1, w.len() as int);
    let x = w[0];
    assert(seq![x] + t =~= w);
    lemma_hash_prepend(x, t);
    assert(t.push(y).drop_last() =~= t);
    let e = x * pow(B as int, t.len()) + hash_of(t);
    lemma_congruent(hash_of(w), e, B as int, B as int);
    lemma_congruent(hash_of(w) * B, e * B, y as int, y as int);
    lemma_pow_adds(B as int, t.len(), 1);
    lemma_pow1(B as int);
    let full = w[0] * pow(B as int, w.len());
    assert(e * B + y - full == hash_of(t) * B + y) by (nonlinear_arith)
        requires
            e == x * pow(B as int, t.len()) + hash_of(t),
            pow(B as int, w.len()) == pow(B as int, t.len()) * B,
            full == x * pow(B as int, w.len()),
    ;
    lemma_congruent(hash_of(w) * B + y, e * B + y, full, full);
    lemma_congruent(hash_of(t) * B + y, hash_of(t) * B + y, 0, 0);
}

/// Whether some window of `b` of the length of `a` has the hash of `a`:
/// whether `a` occurs in `b`, as far as the hash tells.
pub fn contains(a: &[u64], b: &[u64]) -> (found: bool)
    requires
        a@.len() <= usize::MAX / 2,
        forall|i: int| 0 <= i < a@.len() ==> #[trigger] a@[i] <= MOD,
        forall|i: int| 0 <= i < b@.len() ==> #[trigger] b@[i] <= MOD,
    ensures
        found <==> exists|i: int|
            0 <= i < b@.len() && i + a@.len() <= b@.len() && hash_of(
                #[trigger] b@.subrange(i, i + a@.len()),
            ) == hash_of(a@),
{
    let al = a.len();
    let bl = b.len();
    if al > bl {
        return false;
    }
    let ah = hash(a);
    let mut bh = hash(vstd::slice::slice_subrange(b, 0, al));
    let fa = get_bs(al);
    let mut i: usize = 0;
    while i < bl
        invariant
            al == a@.len(),
            bl == b@.len(),
            al <= bl,
            forall|i: int| 0 <= i < b@.len() ==> #[trigger] b@[i] <= MOD,
            ah == hash_of(a@),
            fa == pow(B as int, al as nat) % (MOD as int),
            i + al <= bl,
            bh == hash_of(b@.subrange(i as int, i + al)),
            bh < MOD,
            forall|k: int| 0 <= k < i ==> hash_of(#[trigger] b@.subrange(k, k + al)) != hash_of(a@),
        ensures
            !(exists|k: int|
                0 <= k < bl && k + al <= bl && hash_of(#[trigger] b@.subrange(k, k + al)) == hash_of(
                    a@,
                )),
        decreases bl - i,
    {
        if ah == bh {
            return true;
        }
        if i + al >= bl {
            break ;
        }
        let out = Mul(b[i], fa);
        let d = POSITIVIZER - out;
        let m = Mul(bh, B);
        let c = CalcMod(m + b[i + al]);
        proof {
            let w = b@.subrange(i as int, i + al);
            let y = b@[i + al];
            assert(w.len() >= 1);
            lemma_hash_roll(w, y);
            assert(w.subrange(1, w.len() as int).push(y) =~= b@.subrange(i + 1, i + 1 + al));
            let full = pow(B as int, al as nat);
            lemma_congruent(b@[i as int] as int, b@[i as int] as int, fa as int, full);
            lemma_congruent(out as int, b@[i as int] * fa, 0, 0);
            lemma_congruent(m as int, bh * B, y as int, y as int);
            lemma_congruent(c as int, bh * B + y, out as int, b@[i as int] * full);
            lemma_mod_multiples_vanish(4, c - out, MOD as int);
            assert(congruent(c + d, c - out));
        }
        bh = CalcMod(c + d);
        proof {
            lemma_small_mod(bh as nat, MOD as nat);
            lemma_small_mod(hash_of(b@.subrange(i + 1, i + 1 + al)) as nat, MOD as nat);
            lemma_hash_bound(b@.subrange(i + 1, i + 1 + al));
        }
        i += 1;
    }
    false
}

/// A hash is a remainder.
pub proof fn lemma_hash_bound(s: Seq<u64>)
    ensures
        0 <= hash_of(s) < MOD,
{
}

} // verus!
