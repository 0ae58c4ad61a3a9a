//! The arithmetic of the flat node buffer: slots, padded sizes and the paths
//! from a leaf to the root.

use vstd::prelude::*;

verus! {

/// The buffer position of the node in tree row `h` and tree column `w`, for a
/// tree whose padded width is `width`.
pub open spec fn slot(h: int, w: int, width: int) -> int {
    h * (2 * width) + w
}

/// Every node of a tree with `height` by `width` leaves has a slot inside the
/// buffer of `4 * height * width` values.
pub proof fn lemma_slot_in_buffer(h: int, w: int, height: int, width: int)
    by (nonlinear_arith)
    requires
        0 <= h < 2 * height,
        0 <= w < 2 * width,
    ensures
        0 <= slot(h, w, width) < 4 * height * width,
        h * 2 * width + w == slot(h, w, width),
        0 <= h * 2 <= 4 * height * width,
        0 <= h * 2 * width <= 4 * height * width,
{
}

/// Different nodes have different slots.
pub proof fn lemma_slot_injective(h1: int, w1: int, h2: int, w2: int, width: int)
    by (nonlinear_arith)
    requires
        0 <= w1 < 2 * width,
        0 <= w2 < 2 * width,
        slot(h1, w1, width) == slot(h2, w2, width),
    ensures
        h1 == h2,
        w1 == w2,
{
}

/// `n` is a power of two.
pub open spec fn is_pow2(n: int) -> bool
    decreases n,
{
    n == 1 || (n > 1 && n % 2 == 0 && is_pow2(n / 2))
}

/// `p` doubled until it is at least `n`.
pub open spec fn doubled_up_to(p: nat, n: nat) -> nat
    decreases
        (if p < n {
            n - p
        } else {
            0
        }),
{
    if 1 <= p < n {
        doubled_up_to(2 * p, n)
    } else {
        p
    }
}

/// The padded size for a requested size `n`: the smallest power of two that
/// is at least `n`.
pub open spec fn padded(n: nat) -> nat {
    doubled_up_to(1, n)
}

/// Of two powers of two, the smaller is at most half the larger.
pub proof fn lemma_pow2_gap(p: int, q: int)
    requires
        is_pow2(p),
        is_pow2(q),
        p < q,
    ensures
        2 * p <= q,
    decreases q,
{
    if p > 1 {
        lemma_pow2_gap(p / 2, q / 2);
    }
}

proof fn lemma_doubled_up_to(p: nat, n: nat)
    requires
        is_pow2(p as int),
        p == 1 || p < 2 * n,
    ensures
        is_pow2(doubled_up_to(p, n) as int),
        doubled_up_to(p, n) >= n,
        doubled_up_to(p, n) >= p,
        doubled_up_to(p, n) == 1 || doubled_up_to(p, n) < 2 * n,
    decreases
        (if p < n {
            n - p
        } else {
            0
        }),
{
    if p < n {
        assert(is_pow2(2 * p as int));
        lemma_doubled_up_to(2 * p, n);
    }
}

/// Doubling once more, below `n`, does not change where the doubling ends.
pub proof fn lemma_doubled_grows(p: nat, n: nat)
    requires
        p >= 2,
        p % 2 == 0,
        p / 2 < n,
        is_pow2(p as int / 2),
    ensures
        doubled_up_to(p / 2, n) == doubled_up_to(p, n),
        doubled_up_to(p, n) >= p,
        is_pow2(p as int),
{
    lemma_doubled_up_to(p, n);
}

/// `padded(n)` is a power of two, is at least `n`, and no power of two that is
/// at least `n` is smaller.
pub proof fn lemma_padded_is_least(n: nat)
    ensures
        is_pow2(padded(n) as int),
        padded(n) >= n,
        padded(n) >= 1,
        forall|p: int| is_pow2(p) && p >= n ==> padded(n) <= p,
{
    lemma_doubled_up_to(1, n);
    assert forall|p: int| is_pow2(p) && p >= n implies padded(n) <= p by {
        if p < padded(n) {
            lemma_pow2_gap(p, padded(n) as int);
        }
    }
}

/// `a` lies on the path from node `leaf` up to the root, node 1: it is one of
/// `leaf`, `leaf / 2`, `leaf / 4`, ..., `1`.
pub open spec fn on_path(a: int, leaf: int) -> bool
    decreases leaf,
{
    leaf >= 1 && (a == leaf || on_path(a, leaf / 2))
}

/// A node on the path lies between the root and the leaf.
pub proof fn lemma_on_path_bounds(a: int, leaf: int)
    requires
        on_path(a, leaf),
    ensures
        1 <= a <= leaf,
    decreases leaf,
{
    if a != leaf {
        lemma_on_path_bounds(a, leaf / 2);
    }
}

/// The parent of a node on the path, other than the root, is on the path.
pub proof fn lemma_on_path_parent(a: int, leaf: int)
    requires
        on_path(a, leaf),
        a >= 2,
    ensures
        on_path(a / 2, leaf),
    decreases leaf,
{
    if a == leaf {
        assert(on_path(a / 2, a / 2));
    } else {
        lemma_on_path_parent(a, leaf / 2);
    }
}

/// The path nodes below `i` on the path are those on the path of `i`.
pub proof fn lemma_on_path_below(a: int, i: int, leaf: int)
    requires
        on_path(a, leaf),
        on_path(i, leaf),
        a >= i,
    ensures
        on_path(i, a),
    decreases leaf,
{
    lemma_on_path_bounds(a, leaf);
    lemma_on_path_bounds(i, leaf);
    if a == leaf {
    } else if i == leaf {
    } else {
        lemma_on_path_below(a, i, leaf / 2);
    }
}

/// The path goes on from every node on it, other than the leaf, to one of
/// that node's two children.
pub proof fn lemma_on_path_step(i: int, leaf: int)
    requires
        on_path(i, leaf),
        i != leaf,
    ensures
        on_path(2 * i, leaf) || on_path(2 * i + 1, leaf),
        2 * i <= leaf,
    decreases leaf,
{
    lemma_on_path_bounds(i, leaf / 2);
    if i == leaf / 2 {
        assert(on_path(leaf, leaf));
    } else {
        lemma_on_path_step(i, leaf / 2);
    }
}

/// For a machine word, the lowest bit is the remainder by two, and shifting
/// right by one halves.
pub proof fn lemma_low_bit(x: usize)
    by (bit_vector)
    ensures
        x & 1 == x % 2,
        x >> 1 == x / 2,
{
}

/// Shifting a machine word left by one doubles it, where the double fits.
pub proof fn lemma_shift_doubles(x: usize)
    requires
        2 * x <= usize::MAX,
    ensures
        x << 1 == 2 * x,
{
    vstd::arithmetic::power2::lemma2_to64();
    vstd::bits::lemma_usize_shl_is_mul(x, 1);
}

/// Sizes whose fourfold product fits a machine word fit it themselves.
pub proof fn lemma_sizes_fit(height: int, width: int, max: int)
    by (nonlinear_arith)
    requires
        height >= 1,
        width >= 1,
        4 * height * width <= max,
    ensures
        4 * height <= max,
        4 * width <= max,
{
}

} // verus!
