//! Arithmetic helpers: greatest common divisors, least common multiples and
//! integer square roots.

pub mod prime;

use vstd::prelude::*;
use vstd::std_specs::ops::{DivSpec, MulSpec};

verus! {

/// `d` divides `n`: `n` is a multiple of `d`.
pub open spec fn divides(d: int, n: int) -> bool {
    exists|k: int| n == #[trigger] (d * k)
}

/// `g` is the greatest common divisor of `a` and `b`: it is not negative,
/// it divides both, and every number that divides both divides it.
pub open spec fn is_gcd(g: int, a: int, b: int) -> bool {
    &&& g >= 0
    &&& divides(g, a)
    &&& divides(g, b)
    &&& forall|d: int| divides(d, a) && divides(d, b) ==> #[trigger] divides(d, g)
}

/// The absolute value.
pub open spec fn magnitude(v: int) -> int {
    if v < 0 {
        -v
    } else {
        v
    }
}

/// The quotient of `a` by `b` rounded towards zero, as the division of
/// machine integers gives it.
pub open spec fn quotient(a: int, b: int) -> int {
    if a >= 0 {
        a / b
    } else {
        -((-a) / b)
    }
}

/// `d` divides `n` given as a multiple.
pub proof fn lemma_divides_multiple(d: int, k: int)
    ensures
        divides(d, d * k),
        divides(d, k * d),
{
    assert(d * k == k * d) by (nonlinear_arith);
    assert(d * k == d * k);
}

/// What divides two numbers divides their sums of multiples.
pub proof fn lemma_divides_combination(d: int, x: int, y: int, q: int)
    requires
        divides(d, x),
        divides(d, y),
    ensures
        divides(d, x + y * q),
        divides(d, x - y * q),
{
    let kx = choose|k: int| x == #[trigger] (d * k);
    let ky = choose|k: int| y == #[trigger] (d * k);
    assert(x + y * q == d * (kx + ky * q)) by (nonlinear_arith)
        requires
            x == d * kx,
            y == d * ky,
    ;
    assert(x - y * q == d * (kx - ky * q)) by (nonlinear_arith)
        requires
            x == d * kx,
            y == d * ky,
    ;
}

/// The common divisors of `a` and `b` are those of `b` and the remainder of
/// `a` by `b`.
pub proof fn lemma_gcd_step(a: int, b: int, d: int)
    requires
        b > 0,
        a >= 0,
    ensures
        (divides(d, a) && divides(d, b)) <==> (divides(d, b) && divides(d, a % b)),
{
    vstd::arithmetic::div_mod::lemma_fundamental_div_mod(a, b);
    let q = a / b;
    assert(a % b == a - b * q);
    if divides(d, a) && divides(d, b) {
        lemma_divides_combination(d, a, b, q);
        assert(b * q == a - (a - b * q));
    }
    if divides(d, b) && divides(d, a % b) {
        lemma_divides_combination(d, a % b, b, q);
        assert(a % b + b * q == a);
    }
}

/// A number that is not negative is the greatest common divisor of itself
/// and 0.
pub proof fn lemma_gcd_with_zero(a: int)
    requires
        a >= 0,
    ensures
        is_gcd(a, a, 0),
        is_gcd(a, 0, a),
{
    assert(a == a * 1);
    assert(0 == a * 0);
}

/// The opposite of a number has the divisors of the number.
pub proof fn lemma_divides_opposite(d: int, n: int)
    ensures
        divides(d, n) <==> divides(d, -n),
{
    if divides(d, n) {
        let k = choose|k: int| n == #[trigger] (d * k);
        assert(-n == d * (-k)) by (nonlinear_arith)
            requires
                n == d * k,
        ;
    }
    if divides(d, -n) {
        let k = choose|k: int| -n == #[trigger] (d * k);
        assert(n == d * (-k)) by (nonlinear_arith)
            requires
                -n == d * k,
        ;
    }
}

/// A greatest common divisor of the absolute values is one of the numbers.
pub proof fn lemma_gcd_magnitudes(g: int, a: int, b: int)
    requires
        is_gcd(g, magnitude(a), magnitude(b)) || is_gcd(g, magnitude(b), magnitude(a)),
    ensures
        is_gcd(g, a, b),
{
    lemma_divides_opposite(g, a);
    lemma_divides_opposite(g, b);
    assert forall|d: int| divides(d, a) && divides(d, b) implies #[trigger] divides(d, g) by {
        lemma_divides_opposite(d, a);
        lemma_divides_opposite(d, b);
    }
}

/// The invariant of Euclid's algorithm: `a` and `b` have the common
/// divisors of `x` and `y`.
pub open spec fn same_divisors(a: int, b: int, x: int, y: int) -> bool {
    forall|d: int| #![trigger divides(d, a)] #![trigger divides(d, x)]
        (divides(d, a) && divides(d, b)) <==> (divides(d, x) && divides(d, y))
}

/// One step of Euclid's algorithm keeps the common divisors.
pub proof fn lemma_euclid_step(a: int, b: int, x: int, y: int)
    requires
        b > 0,
        a >= 0,
        same_divisors(a, b, x, y),
    ensures
        same_divisors(b, a % b, x, y),
{
    assert forall|d: int| #![trigger divides(d, b)] #![trigger divides(d, x)]
        (divides(d, b) && divides(d, a % b)) <==> (divides(d, x) && divides(d, y)) by {
        lemma_gcd_step(a, b, d);
        assert((divides(d, a) && divides(d, b)) <==> (divides(d, x) && divides(d, y)));
    }
}

/// Where Euclid's algorithm ends, what is left is the greatest common
/// divisor.
pub proof fn lemma_euclid_end(a: int, x: int, y: int)
    requires
        a >= 0,
        same_divisors(a, 0, x, y),
    ensures
        is_gcd(a, x, y),
{
    lemma_gcd_with_zero(a);
    assert(divides(a, a) && divides(a, 0));
    assert((divides(a, a) && divides(a, 0)) <==> (divides(a, x) && divides(a, y)));
    assert forall|d: int| divides(d, x) && divides(d, y) implies #[trigger] divides(d, a) by {
        assert((divides(d, a) && divides(d, 0)) <==> (divides(d, x) && divides(d, y)));
    }
}

/// Integers with a greatest common divisor.
///
/// The operators of the type stand for the arithmetic of the integers on the
/// values `value()`, wherever the result is in the range `fits`.
pub trait Integer: Copy + core::ops::Add<Output = Self> + core::ops::Sub<Output = Self> + core::ops::Div<
    Output = Self,
> + core::ops::Mul<Output = Self> + core::ops::Rem<Output = Self> {
    /// The integer that a value stands for.
    spec fn value(self) -> int;

    /// `v` is in the range of the type.
    spec fn fits(v: int) -> bool;

    /// The greatest common divisor of `self` and `n`.
    fn gcd(&self, n: &Self) -> (g: Self)
        requires
            Self::fits(magnitude(self.value())),
            Self::fits(magnitude(n.value())),
        ensures
            is_gcd(g.value(), self.value(), n.value()),
    ;

    /// A quotient in range can be computed and has the quotient as its
    /// value.
    proof fn lemma_quotient(a: Self, b: Self)
        requires
            b.value() != 0,
            Self::fits(quotient(a.value(), b.value())),
        ensures
            Self::obeys_div_spec(),
            a.div_req(b),
            a.div_spec(b).value() == quotient(a.value(), b.value()),
    ;

    /// A product in range can be computed and has the product as its value.
    proof fn lemma_product(a: Self, b: Self)
        requires
            Self::fits(a.value() * b.value()),
        ensures
            Self::obeys_mul_spec(),
            a.mul_req(b),
            a.mul_spec(b).value() == a.value() * b.value(),
    ;
}

/// The greatest common divisor of `x` and `y`.
pub fn gcd<T: Integer>(x: T, y: T) -> (g: T)
    requires
        T::fits(magnitude(x.value())),
        T::fits(magnitude(y.value())),
    ensures
        is_gcd(g.value(), x.value(), y.value()),
{
    x.gcd(&y)
}

/// For a positive `m`, `m * m <= x` exactly when `m <= x / m`.
proof fn lemma_square_by_division(x: int, m: int)
    requires
        x >= 0,
        m > 0,
    ensures
        m <= x / m <==> m * m <= x,
{
    vstd::arithmetic::div_mod::lemma_fundamental_div_mod(x, m);
    let q = x / m;
    assert(0 <= x % m < m);
    if m <= q {
        assert(m * m <= m * q) by (nonlinear_arith)
            requires
                m <= q,
                m > 0,
        ;
    } else {
        assert(m * (q + 1) <= m * m) by (nonlinear_arith)
            requires
                q + 1 <= m,
                m > 0,
        ;
        assert(m * (q + 1) == m * q + m) by (nonlinear_arith);
    }
}

/// The greatest number whose square is at most `x`.
pub fn sqrti(x: usize) -> (v: usize)
    ensures
        v * v <= x < (v + 1) * (v + 1),
{
    let mut lo: usize = 0;
    let mut hi: usize = x;
    proof {
        assert(x < (x + 1) * (x + 1)) by (nonlinear_arith)
            requires
                x >= 0,
        ;
    }
    while lo < hi
        invariant
            lo <= hi <= x,
            lo * lo <= x,
            x < (hi + 1) * (hi + 1),
        decreases hi - lo,
    {
        let mid = lo + (hi - lo) / 2 + (hi - lo) % 2;
        proof {
            lemma_square_by_division(x as int, mid as int);
        }
        if mid <= x / mid {
            lo = mid;
        } else {
            hi = mid - 1;
        }
    }
    lo
}

proof fn lemma_or_zero_i8(a: i8)
    by (bit_vector)
    ensures
        a | 0 == a,
{
}

impl Integer for i8 {
    open spec fn value(self) -> int {
        self as int
    }

    open spec fn fits(v: int) -> bool {
        i8::MIN <= v <= i8::MAX
    }

    fn gcd(&self, other: &i8) -> (g: i8) {
        let n = if *self < 0 {
            -*self
        } else {
            *self
        };
        let m = if *other < 0 {
            -*other
        } else {
            *other
        };
        let (mut a, mut b) = if n > m {
            (n, m)
        } else {
            (m, n)
        };
        if a == 0 || b == 0 {
            proof {
                lemma_or_zero_i8(a);
                lemma_gcd_with_zero(a as int);
                lemma_gcd_magnitudes(a as int, *self as int, *other as int);
            }
            let r = a | b;
            return if r < 0 {
                -r
            } else {
                r
            };
        }
        while b != 0
            invariant
                a >= 0,
                b >= 0,
                same_divisors(a as int, b as int, n as int, m as int),
            decreases b,
        {
            proof {
                lemma_euclid_step(a as int, b as int, n as int, m as int);
            }
            let tmp = b;
            b = a % b;
            a = tmp;
        }
        proof {
            lemma_euclid_end(a as int, n as int, m as int);
            lemma_gcd_magnitudes(a as int, *self as int, *other as int);
        }
        a
    }

    proof fn lemma_quotient(a: Self, b: Self) {
    }

    proof fn lemma_product(a: Self, b: Self) {
    }
}

proof fn lemma_or_zero_i32(a: i32)
    by (bit_vector)
    ensures
        a | 0 == a,
{
}

impl Integer for i32 {
    open spec fn value(self) -> int {
        self as int
    }

    open spec fn fits(v: int) -> bool {
        i32::MIN <= v <= i32::MAX
    }

    fn gcd(&self, other: &i32) -> (g: i32) {
        let n = if *self < 0 {
            -*self
        } else {
            *self
        };
        let m = if *other < 0 {
            -*other
        } else {
            *other
        };
        let (mut a, mut b) = if n > m {
            (n, m)
        } else {
            (m, n)
        };
        if a == 0 || b == 0 {
            proof {
                lemma_or_zero_i32(a);
                lemma_gcd_with_zero(a as int);
                lemma_gcd_magnitudes(a as int, *self as int, *other as int);
            }
            let r = a | b;
            return if r < 0 {
                -r
            } else {
                r
            };
        }
        while b != 0
            invariant
                a >= 0,
                b >= 0,
                same_divisors(a as int, b as int, n as int, m as int),
            decreases b,
        {
            proof {
                lemma_euclid_step(a as int, b as int, n as int, m as int);
            }
            let tmp = b;
            b = a % b;
            a = tmp;
        }
        proof {
            lemma_euclid_end(a as int, n as int, m as int);
            lemma_gcd_magnitudes(a as int, *self as int, *other as int);
        }
        a
    }

    proof fn lemma_quotient(a: Self, b: Self) {
    }

    proof fn lemma_product(a: Self, b: Self) {
    }
}

proof fn lemma_or_zero_i64(a: i64)
    by (bit_vector)
    ensures
        a | 0 == a,
{
}

impl Integer for i64 {
    open spec fn value(self) -> int {
        self as int
    }

    open spec fn fits(v: int) -> bool {
        i64::MIN <= v <= i64::MAX
    }

    fn gcd(&self, other: &i64) -> (g: i64) {
        let n = if *self < 0 {
            -*self
        } else {
            *self
        };
        let m = if *other < 0 {
            -*other
        } else {
            *other
        };
        let (mut a, mut b) = if n > m {
            (n, m)
        } else {
            (m, n)
        };
        if a == 0 || b == 0 {
            proof {
                lemma_or_zero_i64(a);
                lemma_gcd_with_zero(a as int);
                lemma_gcd_magnitudes(a as int, *self as int, *other as int);
            }
            let r = a | b;
            return if r < 0 {
                -r
            } else {
                r
            };
        }
        while b != 0
            invariant
                a >= 0,
                b >= 0,
                same_divisors(a as int, b as int, n as int, m as int),
            decreases b,
        {
            proof {
                lemma_euclid_step(a as int, b as int, n as int, m as int);
            }
            let tmp = b;
            b = a % b;
            a = tmp;
        }
        proof {
            lemma_euclid_end(a as int, n as int, m as int);
            lemma_gcd_magnitudes(a as int, *self as int, *other as int);
        }
        a
    }

    proof fn lemma_quotient(a: Self, b: Self) {
    }

    proof fn lemma_product(a: Self, b: Self) {
    }
}

proof fn lemma_or_zero_isize(a: isize)
    by (bit_vector)
    ensures
        a | 0 == a,
{
}

impl Integer for isize {
    open spec fn value(self) -> int {
        self as int
    }

    open spec fn fits(v: int) -> bool {
        isize::MIN <= v <= isize::MAX
    }

    fn gcd(&self, other: &isize) -> (g: isize) {
        let n = if *self < 0 {
            -*self
        } else {
            *self
        };
        let m = if *other < 0 {
            -*other
        } else {
            *other
        };
        let (mut a, mut b) = if n > m {
            (n, m)
        } else {
            (m, n)
        };
        if a == 0 || b == 0 {
            proof {
                lemma_or_zero_isize(a);
                lemma_gcd_with_zero(a as int);
                lemma_gcd_magnitudes(a as int, *self as int, *other as int);
            }
            let r = a | b;
            return if r < 0 {
                -r
            } else {
                r
            };
        }
        while b != 0
            invariant
                a >= 0,
                b >= 0,
                same_divisors(a as int, b as int, n as int, m as int),
            decreases b,
        {
            proof {
                lemma_euclid_step(a as int, b as int, n as int, m as int);
            }
            let tmp = b;
            b = a % b;
            a = tmp;
        }
        proof {
            lemma_euclid_end(a as int, n as int, m as int);
            lemma_gcd_magnitudes(a as int, *self as int, *other as int);
        }
        a
    }

    proof fn lemma_quotient(a: Self, b: Self) {
    }

    proof fn lemma_product(a: Self, b: Self) {
    }
}

proof fn lemma_or_zero_u8(a: u8)
    by (bit_vector)
    ensures
        a | 0 == a,
{
}

impl Integer for u8 {
    open spec fn value(self) -> int {
        self as int
    }

    open spec fn fits(v: int) -> bool {
        0 <= v <= u8::MAX
    }

    fn gcd(&self, other: &u8) -> (g: u8) {
        let n = *self;
        let m = *other;
        let (mut a, mut b) = if n > m {
            (n, m)
        } else {
            (m, n)
        };
        if a == 0 || b == 0 {
            proof {
                lemma_or_zero_u8(a);
                lemma_gcd_with_zero(a as int);
            }
            return a | b;
        }
        while b != 0
            invariant
                same_divisors(a as int, b as int, n as int, m as int),
            decreases b,
        {
            proof {
                lemma_euclid_step(a as int, b as int, n as int, m as int);
            }
            let tmp = b;
            b = a % b;
            a = tmp;
        }
        proof {
            lemma_euclid_end(a as int, n as int, m as int);
        }
        a
    }

    proof fn lemma_quotient(a: Self, b: Self) {
    }

    proof fn lemma_product(a: Self, b: Self) {
    }
}

proof fn lemma_or_zero_u32(a: u32)
    by (bit_vector)
    ensures
        a | 0 == a,
{
}

impl Integer for u32 {
    open spec fn value(self) -> int {
        self as int
    }

    open spec fn fits(v: int) -> bool {
        0 <= v <= u32::MAX
    }

    fn gcd(&self, other: &u32) -> (g: u32) {
        let n = *self;
        let m = *other;
        let (mut a, mut b) = if n > m {
            (n, m)
        } else {
            (m, n)
        };
        if a == 0 || b == 0 {
            proof {
                lemma_or_zero_u32(a);
                lemma_gcd_with_zero(a as int);
            }
            return a | b;
        }
        while b != 0
            invariant
                same_divisors(a as int, b as int, n as int, m as int),
            decreases b,
        {
            proof {
                lemma_euclid_step(a as int, b as int, n as int, m as int);
            }
            let tmp = b;
            b = a % b;
            a = tmp;
        }
        proof {
            lemma_euclid_end(a as int, n as int, m as int);
        }
        a
    }

    proof fn lemma_quotient(a: Self, b: Self) {
    }

    proof fn lemma_product(a: Self, b: Self) {
    }
}

proof fn lemma_or_zero_u64(a: u64)
    by (bit_vector)
    ensures
        a | 0 == a,
{
}

impl Integer for u64 {
    open spec fn value(self) -> int {
        self as int
    }

    open spec fn fits(v: int) -> bool {
        0 <= v <= u64::MAX
    }

    fn gcd(&self, other: &u64) -> (g: u64) {
        let n = *self;
        let m = *other;
        let (mut a, mut b) = if n > m {
            (n, m)
        } else {
            (m, n)
        };
        if a == 0 || b == 0 {
            proof {
                lemma_or_zero_u64(a);
                lemma_gcd_with_zero(a as int);
            }
            return a | b;
        }
        while b != 0
            invariant
                same_divisors(a as int, b as int, n as int, m as int),
            decreases b,
        {
            proof {
                lemma_euclid_step(a as int, b as int, n as int, m as int);
            }
            let tmp = b;
            b = a % b;
            a = tmp;
        }
        proof {
            lemma_euclid_end(a as int, n as int, m as int);
        }
        a
    }

    proof fn lemma_quotient(a: Self, b: Self) {
    }

    proof fn lemma_product(a: Self, b: Self) {
    }
}

proof fn lemma_or_zero_usize(a: usize)
    by (bit_vector)
    ensures
        a | 0 == a,
{
}

impl Integer for usize {
    open spec fn value(self) -> int {
        self as int
    }

    open spec fn fits(v: int) -> bool {
        0 <= v <= usize::MAX
    }

    fn gcd(&self, other: &usize) -> (g: usize) {
        let n = *self;
        let m = *other;
        let (mut a, mut b) = if n > m {
            (n, m)
        } else {
            (m, n)
        };
        if a == 0 || b == 0 {
            proof {
                lemma_or_zero_usize(a);
                lemma_gcd_with_zero(a as int);
            }
            return a | b;
        }
        while b != 0
            invariant
                same_divisors(a as int, b as int, n as int, m as int),
            decreases b,
        {
            proof {
                lemma_euclid_step(a as int, b as int, n as int, m as int);
            }
            let tmp = b;
            b = a % b;
            a = tmp;
        }
        proof {
            lemma_euclid_end(a as int, n as int, m as int);
        }
        a
    }

    proof fn lemma_quotient(a: Self, b: Self) {
    }

    proof fn lemma_product(a: Self, b: Self) {
    }
}

/// Two greatest common divisors of the same numbers are one number.
pub proof fn lemma_gcd_unique(g: int, h: int, a: int, b: int)
    requires
        is_gcd(g, a, b),
        is_gcd(h, a, b),
    ensures
        g == h,
{
    assert(divides(g, h));
    assert(divides(h, g));
    let k = choose|k: int| h == #[trigger] (g * k);
    let j = choose|j: int| g == #[trigger] (h * j);
    assert(g == h) by (nonlinear_arith)
        requires
            h == g * k,
            g == h * j,
            g >= 0,
            h >= 0,
    ;
}

/// The quotient by a positive divisor of a number is exact.
pub proof fn lemma_exact_quotient(a: int, g: int)
    requires
        g > 0,
        divides(g, a),
    ensures
        quotient(a, g) * g == a,
{
    let k = choose|k: int| a == #[trigger] (g * k);
    if a >= 0 {
        vstd::arithmetic::div_mod::lemma_fundamental_div_mod_converse(a, g, k, 0);
        assert(g * k == k * g) by (nonlinear_arith);
    } else {
        assert(-a == g * (-k)) by (nonlinear_arith)
            requires
                a == g * k,
        ;
        vstd::arithmetic::div_mod::lemma_fundamental_div_mod_converse(-a, g, -k, 0);
        assert(-(-k) * g == a) by (nonlinear_arith)
            requires
                a == g * k,
        ;
    }
}

/// Every step of `lcm(x, y)` is in range.
pub open spec fn lcm_fits<T: Integer>(x: T, y: T) -> bool {
    forall|g: int| #[trigger]
        is_gcd(g, x.value(), y.value()) ==> {
            let p = quotient(x.value(), g);
            let q = quotient(y.value(), g);
            T::fits(p) && T::fits(q) && T::fits(p * q) && T::fits(p * q * g)
        }
}

/// The least common multiple of `x` and `y`, which are not both 0: the
/// product of the two divided by their greatest common divisor.
pub fn lcm<T: Integer>(x: T, y: T) -> (r: T)
    requires
        T::fits(magnitude(x.value())),
        T::fits(magnitude(y.value())),
        x.value() != 0 || y.value() != 0,
        lcm_fits(x, y),
    ensures
        forall|g: int| #[trigger]
            is_gcd(g, x.value(), y.value()) ==> r.value() * g == x.value() * y.value(),
{
    let g = x.gcd(&y);
    proof {
        let gv = g.value();
        assert(is_gcd(gv, x.value(), y.value()));
        if gv == 0 {
            let k = choose|k: int| x.value() == #[trigger] (gv * k);
            let j = choose|j: int| y.value() == #[trigger] (gv * j);
            assert(0 * k == 0 && 0 * j == 0) by (nonlinear_arith);
        }
        let p = quotient(x.value(), gv);
        let q = quotient(y.value(), gv);
        T::lemma_quotient(x, g);
        T::lemma_quotient(y, g);
        T::lemma_product(x.div_spec(g), y.div_spec(g));
        T::lemma_product(x.div_spec(g).mul_spec(y.div_spec(g)), g);
        lemma_exact_quotient(x.value(), gv);
        lemma_exact_quotient(y.value(), gv);
        assert((p * q * gv) * gv == (p * gv) * (q * gv)) by (nonlinear_arith);
        assert forall|h: int| #[trigger] is_gcd(h, x.value(), y.value()) implies (p * q * gv) * h
            == x.value() * y.value() by {
            lemma_gcd_unique(gv, h, x.value(), y.value());
        }
    }
    (x / g) * (y / g) * g
}

/// What divides a number divides what that number divides.
pub proof fn lemma_divides_transitive(a: int, b: int, c: int)
    requires
        divides(a, b),
        divides(b, c),
    ensures
        divides(a, c),
{
    let k = choose|k: int| b == #[trigger] (a * k);
    let j = choose|j: int| c == #[trigger] (b * j);
    assert(c == a * (k * j)) by (nonlinear_arith)
        requires
            b == a * k,
            c == b * j,
    ;
}

/// A positive number divides the numbers that leave no remainder by it.
pub proof fn lemma_divides_remainder(d: int, n: int)
    requires
        d > 0,
    ensures
        divides(d, n) <==> n % d == 0,
{
    if n % d == 0 {
        vstd::arithmetic::div_mod::lemma_fundamental_div_mod(n, d);
        assert(n == d * (n / d));
    }
    if divides(d, n) {
        let k = choose|k: int| n == #[trigger] (d * k);
        vstd::arithmetic::div_mod::lemma_mod_multiples_basic(k, d);
        assert(k * d == d * k) by (nonlinear_arith);
    }
}

/// Coefficients `(x, y)` and the greatest common divisor `g` of two numbers
/// that are not negative, with `a * x + b * y == g`.
pub proof fn lemma_bezout(a: int, b: int) -> (r: (int, int, int))
    requires
        a >= 0,
        b >= 0,
    ensures
        a * r.0 + b * r.1 == r.2,
        is_gcd(r.2, a, b),
    decreases b,
{
    if b == 0 {
        lemma_gcd_with_zero(a);
        assert(a * 1 + b * 0 == a) by (nonlinear_arith)
            requires
                b == 0,
        ;
        (1, 0, a)
    } else {
        let (x, y, g) = lemma_bezout(b, a % b);
        let t = a / b;
        vstd::arithmetic::div_mod::lemma_fundamental_div_mod(a, b);
        assert(a * y + b * (x - t * y) == g) by (nonlinear_arith)
            requires
                b * x + (a % b) * y == g,
                a == b * t + a % b,
        ;
        assert forall|e: int| divides(e, a) && divides(e, b) implies #[trigger] divides(e, g) by {
            lemma_gcd_step(a, b, e);
        }
        lemma_gcd_step(a, b, g);
        (y, x - t * y, g)
    }
}

/// A divisor of a positive number is at most that number.
pub proof fn lemma_divisor_bound(d: int, n: int)
    requires
        d >= 0,
        n > 0,
        divides(d, n),
    ensures
        1 <= d <= n,
{
    let k = choose|k: int| n == #[trigger] (d * k);
    assert(1 <= d <= n) by (nonlinear_arith)
        requires
            n == d * k,
            d >= 0,
            n > 0,
    ;
}

/// The quotient of `a` by `b` rounded towards zero, for a divisor of either
/// sign.
pub open spec fn truncated(a: int, b: int) -> int {
    if b > 0 {
        quotient(a, b)
    } else {
        -quotient(a, -b)
    }
}

/// The division that rounds towards zero leaves a remainder with the sign of
/// the dividend, less than the divisor in magnitude; in magnitudes it is the
/// division of the magnitudes.
pub proof fn lemma_truncated(a: int, b: int)
    requires
        b != 0,
    ensures
        magnitude(a) == magnitude(b) * magnitude(truncated(a, b)) + magnitude(
            a - b * truncated(a, b),
        ),
        magnitude(a - b * truncated(a, b)) < magnitude(b),
        magnitude(truncated(a, b)) == magnitude(a) / magnitude(b),
        a >= 0 ==> a - b * truncated(a, b) == magnitude(a) % magnitude(b),
        a < 0 ==> a - b * truncated(a, b) == -(magnitude(a) % magnitude(b)),
{
    let ma = magnitude(a);
    let mb = magnitude(b);
    let q = ma / mb;
    let r = ma % mb;
    vstd::arithmetic::div_mod::lemma_fundamental_div_mod(ma, mb);
    vstd::arithmetic::div_mod::lemma_mod_bound(ma, mb);
    vstd::arithmetic::div_mod::lemma_div_pos_is_pos(ma, mb);
    let t = truncated(a, b);
    assert(t == (if (a >= 0) == (b > 0) {
        q
    } else {
        -q
    }));
    assert(b * t == (if a >= 0 {
        mb * q
    } else {
        -(mb * q)
    })) by (nonlinear_arith)
        requires
            t == (if (a >= 0) == (b > 0) {
                q
            } else {
                -q
            }),
            mb == (if b > 0 {
                b
            } else {
                -b
            }),
            b != 0,
    ;
}

/// The quotient of `a` by `b`, rounded towards zero.
fn div_trunc(a: i64, b: i64) -> (q: i64)
    requires
        b != 0,
        a > i64::MIN,
        b > i64::MIN,
    ensures
        q == truncated(a as int, b as int),
{
    proof {
        lemma_truncated(a as int, b as int);
        lemma_truncated(a as int, -b as int);
    }
    if b > 0 {
        a / b
    } else {
        -(a / (-b))
    }
}

/// The remainder of `a` by `b` that the division rounded towards zero
/// leaves.
fn rem_trunc(a: i64, b: i64) -> (r: i64)
    requires
        b != 0,
        a > i64::MIN,
        b > i64::MIN,
    ensures
        r == a - b * truncated(a as int, b as int),
{
    proof {
        lemma_truncated(a as int, b as int);
    }
    if b > 0 {
        a % b
    } else {
        a % (-b)
    }
}

/// The greater of two numbers.
pub open spec fn larger(a: int, b: int) -> int {
    if a > b {
        a
    } else {
        b
    }
}

/// The coefficients that the next step of the extended algorithm gives,
/// and their bounds, from those of the step before.
proof fn lemma_ext_step(a: int, b: int, t: int, r: int, d: int, big_p: int, big_q: int)
    requires
        b != 0,
        a == b * t + r,
        magnitude(a) == magnitude(b) * magnitude(t) + magnitude(r),
        magnitude(r) < magnitude(b),
        d != 0,
        magnitude(d) <= magnitude(b),
        b * big_p + r * big_q == d,
        r == 0 ==> big_p == 1 && big_q == 0,
        r != 0 ==> magnitude(d) * magnitude(big_p) <= magnitude(r) && magnitude(d) * magnitude(
            big_q,
        ) <= magnitude(b),
    ensures
        a * big_q + b * (big_p - t * big_q) == d,
        magnitude(t * big_q) <= magnitude(a),
        magnitude(d) * magnitude(big_q) <= magnitude(b),
        magnitude(d) * magnitude(big_p - t * big_q) <= larger(magnitude(d), magnitude(a)),
        magnitude(big_q) <= magnitude(b),
        magnitude(big_p - t * big_q) <= larger(magnitude(d), magnitude(a)),
{
    let md = magnitude(d);
    let ma = magnitude(a);
    let mb = magnitude(b);
    let mt = magnitude(t);
    let mr = magnitude(r);
    let mp = magnitude(big_p);
    let mq = magnitude(big_q);
    assert(a * big_q + b * (big_p - t * big_q) == b * big_p + r * big_q) by (nonlinear_arith)
        requires
            a == b * t + r,
    ;
    if r == 0 {
        assert(t * 0 == 0) by (nonlinear_arith);
        assert(md * 1 == md) by (nonlinear_arith);
        assert(md * 0 == 0) by (nonlinear_arith);
    } else {
        assert(magnitude(t * big_q) == mt * mq) by (nonlinear_arith)
            requires
                mt == magnitude(t),
                mq == magnitude(big_q),
        ;
        assert(md * (mt * mq) <= mt * mb) by (nonlinear_arith)
            requires
                md * mq <= mb,
                mt >= 0,
        ;
        assert(mt * mq <= md * (mt * mq)) by (nonlinear_arith)
            requires
                md >= 1,
                mt >= 0,
                mq >= 0,
        ;
        assert(mt * mb <= ma) by (nonlinear_arith)
            requires
                ma == mb * mt + mr,
                mr >= 0,
        ;
        assert(magnitude(big_p - t * big_q) <= mp + mt * mq);
        assert(md * magnitude(big_p - t * big_q) <= md * mp + md * (mt * mq)) by (nonlinear_arith)
            requires
                magnitude(big_p - t * big_q) <= mp + mt * mq,
                md >= 1,
        ;
        assert(md * mp + mt * mb <= ma) by (nonlinear_arith)
            requires
                md * mp <= mr,
                ma == mb * mt + mr,
        ;
        assert(mq <= md * mq) by (nonlinear_arith)
            requires
                md >= 1,
                mq >= 0,
        ;
        assert(magnitude(big_p - t * big_q) <= md * magnitude(big_p - t * big_q)) by (nonlinear_arith)
            requires
                md >= 1,
                magnitude(big_p - t * big_q) >= 0,
        ;
    }
}

/// The common divisors of `a` and `b` are those of `b` and `a - b * t`.
pub proof fn lemma_gcd_shift(a: int, b: int, t: int, d: int)
    ensures
        (divides(d, a) && divides(d, b)) <==> (divides(d, b) && divides(d, a - b * t)),
{
    if divides(d, a) && divides(d, b) {
        lemma_divides_combination(d, a, b, t);
    }
    if divides(d, b) && divides(d, a - b * t) {
        lemma_divides_combination(d, a - b * t, b, t);
        assert(a - b * t + b * t == a);
    }
}

/// The extended algorithm of Euclid: leaves in `p` and `q` coefficients
/// with `a * p + b * q == d` and returns `d`, the greatest common divisor of
/// `a` and `b` or its opposite.
fn _ext_gcd(a: i64, b: i64, p: &mut i64, q: &mut i64) -> (d: i64)
    requires
        a > i64::MIN,
        b > i64::MIN,
    ensures
        a * *final(p) + b * *final(q) == d,
        is_gcd(magnitude(d as int), a as int, b as int),
        b == 0 ==> *final(p) == 1 && *final(q) == 0 && d == a,
        b != 0 ==> d != 0 && magnitude(d as int) * magnitude(*final(p) as int) <= magnitude(
            b as int,
        ) && magnitude(d as int) * magnitude(*final(q) as int) <= larger(
            magnitude(d as int),
            magnitude(a as int),
        ),
        d > i64::MIN,
        a >= 0 && b >= 0 ==> d >= 0,
    decreases magnitude(b as int),
{
    if b == 0 {
        *p = 1;
        *q = 0;
        proof {
            lemma_gcd_with_zero(magnitude(a as int));
            assert forall|e: int| divides(e, a as int) == divides(e, magnitude(a as int)) by {
                lemma_divides_opposite(e, a as int);
            }
            assert(is_gcd(magnitude(a as int), a as int, 0));
        }
        return a;
    }
    proof {
        lemma_truncated(a as int, b as int);
    }
    let r = rem_trunc(a, b);
    let d = _ext_gcd(b, r, q, p);
    let t = div_trunc(a, b);
    proof {
        let md = magnitude(d as int);
        assert(d != 0) by {
            if d == 0 {
                let k = choose|k: int| b as int == #[trigger] (0 * k);
                assert(0 * k == 0) by (nonlinear_arith);
            }
        }
        assert(divides(md, magnitude(b as int))) by {
            lemma_divides_opposite(md, b as int);
        }
        lemma_divisor_bound(md, magnitude(b as int));
        if r != 0 {
            assert(larger(md, magnitude(b as int)) == magnitude(b as int));
        }
        lemma_ext_step(a as int, b as int, t as int, r as int, d as int, *q as int, *p as int);
        assert forall|e: int| divides(e, a as int) && divides(e, b as int) implies #[trigger] divides(
            e,
            md,
        ) by {
            lemma_gcd_shift(a as int, b as int, t as int, e);
        }
        assert(divides(md, a as int)) by {
            lemma_gcd_shift(a as int, b as int, t as int, md);
        }
    }
    *q = *q - t * *p;
    d
}

/// The extended algorithm of Euclid: `(p, q, g)` with `a * p + b * q == g`,
/// where `g` is the greatest common divisor of `a` and `b` or, for negative
/// numbers, its opposite. The coefficients are small: `|g| * |p|` is at most
/// `|b|` and `|g| * |q|` at most `|a|`, or `|g|` where that is more.
pub fn ext_gcd(a: i64, b: i64) -> (res: (i64, i64, i64))
    requires
        a > i64::MIN,
        b > i64::MIN,
    ensures
        a * res.0 + b * res.1 == res.2,
        is_gcd(magnitude(res.2 as int), a as int, b as int),
        a >= 0 && b >= 0 ==> res.2 >= 0,
        b == 0 ==> res == (1i64, 0i64, a),
        b != 0 ==> res.2 != 0 && magnitude(res.2 as int) * magnitude(res.0 as int) <= magnitude(
            b as int,
        ) && magnitude(res.2 as int) * magnitude(res.1 as int) <= larger(
            magnitude(res.2 as int),
            magnitude(a as int),
        ),
{
    let mut p: i64 = 0;
    let mut q: i64 = 0;
    let g = _ext_gcd(a, b, &mut p, &mut q);
    return (p, q, g);
}

} // verus!
