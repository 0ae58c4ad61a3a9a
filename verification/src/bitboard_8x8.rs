//! Transformations of an 8 by 8 board held in the 64 bits of a word.
//!
//! Bit `8 * r + c` of the word is the square in row `r` and column `c`.

use vstd::prelude::*;

verus! {

/// Whether the square in row `r` and column `c` of the board `x` is set.
pub open spec fn square(x: u64, r: u64, c: u64) -> bool {
    (x >> ((8 * r + c) as u64)) & 1 == 1
}

/// Whether bit `i` of `x` is set.
pub open spec fn bit(x: u64, i: u64) -> bool {
    (x >> i) & 1 == 1
}

/// The word `x` after a delta swap with `mask` and `delta`.
pub open spec fn delta_swapped(x: u64, mask: u64, delta: u64) -> u64 {
    let t = ((x >> delta) ^ x) & mask;
    (t ^ (t << delta)) ^ x
}

/// The board `x` with every row reversed.
pub open spec fn flipped_horizontal(x: u64) -> u64 {
    let x = delta_swapped(x, 0x5555555555555555, 1);
    let x = delta_swapped(x, 0x3333333333333333, 2);
    delta_swapped(x, 0x0F0F0F0F0F0F0F0F, 4)
}

/// The board `x` with the order of its rows reversed.
pub open spec fn flipped_vertical(x: u64) -> u64 {
    let x = delta_swapped(x, 0x00FF00FF00FF00FF, 8);
    let x = delta_swapped(x, 0x0000FFFF0000FFFF, 16);
    delta_swapped(x, 0x00000000FFFFFFFF, 32)
}

/// The board `x` with rows and columns exchanged.
pub open spec fn flipped_diagonal_a1h8(x: u64) -> u64 {
    let x = delta_swapped(x, 0x00AA00AA00AA00AA, 7);
    let x = delta_swapped(x, 0x0000CCCC0000CCCC, 14);
    delta_swapped(x, 0x00000000F0F0F0F0, 28)
}

/// The board `x` mirrored at its other diagonal.
pub open spec fn flipped_diagonal_a8h1(x: u64) -> u64 {
    let x = delta_swapped(x, 0x0055005500550055, 9);
    let x = delta_swapped(x, 0x0000333300003333, 18);
    delta_swapped(x, 0x000000000F0F0F0F, 36)
}

/// A delta swap exchanges bit `i` with bit `i + delta` for every bit `i` of
/// `mask`, and leaves the other bits, where the bits of `mask` moved up by
/// `delta` stay inside the word and apart from `mask`.
pub proof fn lemma_delta_swap_exchanges(x: u64, mask: u64, delta: u64)
    by (bit_vector)
    requires
        delta < 64,
        (mask << delta) >> delta == mask,
        mask & (mask << delta) == 0,
    ensures
        forall|i: u64|
            i < 64 ==> #[trigger] bit(delta_swapped(x, mask, delta), i) == (if bit(mask, i) {
                bit(x, (i + delta) as u64)
            } else if bit(mask << delta, i) {
                bit(x, (i - delta) as u64)
            } else {
                bit(x, i)
            }),
{
}

proof fn lemma_flipped_horizontal(x: u64)
    by (bit_vector)
    ensures
        forall|r: u64, c: u64|
            r < 8 && c < 8 ==> #[trigger] square(flipped_horizontal(x), r, c) == square(
                x,
                r,
                (7 - c) as u64,
            ),
{
}

proof fn lemma_flipped_vertical(x: u64)
    by (bit_vector)
    ensures
        forall|r: u64, c: u64|
            r < 8 && c < 8 ==> #[trigger] square(flipped_vertical(x), r, c) == square(
                x,
                (7 - r) as u64,
                c,
            ),
{
}

proof fn lemma_flipped_diagonal_a1h8(x: u64)
    by (bit_vector)
    ensures
        forall|r: u64, c: u64|
            r < 8 && c < 8 ==> #[trigger] square(flipped_diagonal_a1h8(x), r, c) == square(x, c, r),
{
}

proof fn lemma_flipped_diagonal_a8h1(x: u64)
    by (bit_vector)
    ensures
        forall|r: u64, c: u64|
            r < 8 && c < 8 ==> #[trigger] square(flipped_diagonal_a8h1(x), r, c) == square(
                x,
                (7 - c) as u64,
                (7 - r) as u64,
            ),
{
}

/// Delta swap: exchanges two groups of bits of `x`, the one under `mask` and
/// the one `delta` places above it.
pub fn delta_swap(x: u64, mask: u64, delta: usize) -> (res: u64)
    requires
        delta < 64,
    ensures
        res == delta_swapped(x, mask, delta as u64),
{
    let t = ((x >> delta) ^ x) & mask;
    (t ^ (t << delta)) ^ x
}

/// Reverses every row of the board.
pub fn flip_horizontal(x: u64) -> (res: u64)
    ensures
        res == flipped_horizontal(x),
        forall|r: u64, c: u64|
            r < 8 && c < 8 ==> #[trigger] square(res, r, c) == square(x, r, (7 - c) as u64),
{
    proof {
        lemma_flipped_horizontal(x);
    }
    let x = delta_swap(x, 0x5555555555555555, 1);
    let x = delta_swap(x, 0x3333333333333333, 2);
    return delta_swap(x, 0x0F0F0F0F0F0F0F0F, 4);
}

/// Reverses the order of the rows of the board.
pub fn flip_vertical(x: u64) -> (res: u64)
    ensures
        res == flipped_vertical(x),
        forall|r: u64, c: u64|
            r < 8 && c < 8 ==> #[trigger] square(res, r, c) == square(x, (7 - r) as u64, c),
{
    proof {
        lemma_flipped_vertical(x);
    }
    let x = delta_swap(x, 0x00FF00FF00FF00FF, 8);
    let x = delta_swap(x, 0x0000FFFF0000FFFF, 16);
    return delta_swap(x, 0x00000000FFFFFFFF, 32);
}

/// Mirrors the board at the diagonal through row 0, column 0: rows and
/// columns change places.
#[allow(non_snake_case)]
pub fn flip_diagonal_A1H8(x: u64) -> (res: u64)
    ensures
        res == flipped_diagonal_a1h8(x),
        forall|r: u64, c: u64| r < 8 && c < 8 ==> #[trigger] square(res, r, c) == square(x, c, r),
{
    proof {
        lemma_flipped_diagonal_a1h8(x);
    }
    let x = delta_swap(x, 0x00AA00AA00AA00AA, 7);
    let x = delta_swap(x, 0x0000CCCC0000CCCC, 14);
    return delta_swap(x, 0x00000000F0F0F0F0, 28);
}

/// Mirrors the board at the diagonal through row 0, column 7.
#[allow(non_snake_case)]
pub fn flip_diagonal_A8H1(x: u64) -> (res: u64)
    ensures
        res == flipped_diagonal_a8h1(x),
        forall|r: u64, c: u64|
            r < 8 && c < 8 ==> #[trigger] square(res, r, c) == square(
                x,
                (7 - c) as u64,
                (7 - r) as u64,
            ),
{
    proof {
        lemma_flipped_diagonal_a8h1(x);
    }
    let x = delta_swap(x, 0x0055005500550055, 9);
    let x = delta_swap(x, 0x0000333300003333, 18);
    return delta_swap(x, 0x000000000F0F0F0F, 36);
}

/// Turns the board by a quarter turn clockwise.
pub fn rotate_clockwise90(x: u64) -> (res: u64)
    ensures
        res == flipped_horizontal(flipped_diagonal_a1h8(x)),
        forall|r: u64, c: u64|
            r < 8 && c < 8 ==> #[trigger] square(res, r, c) == square(x, (7 - c) as u64, r),
{
    flip_horizontal(flip_diagonal_A1H8(x))
}

/// Turns the board by a quarter turn counter-clockwise.
pub fn rotate_counter_clockwise90(x: u64) -> (res: u64)
    ensures
        res == flipped_vertical(flipped_diagonal_a1h8(x)),
        forall|r: u64, c: u64|
            r < 8 && c < 8 ==> #[trigger] square(res, r, c) == square(x, c, (7 - r) as u64),
{
    flip_vertical(flip_diagonal_A1H8(x))
}

/// Turns the board by a half turn.
pub fn rotate180(x: u64) -> (res: u64)
    ensures
        res == flipped_vertical(flipped_horizontal(x)),
        forall|r: u64, c: u64|
            r < 8 && c < 8 ==> #[trigger] square(res, r, c) == square(
                x,
                (7 - r) as u64,
                (7 - c) as u64,
            ),
{
    flip_vertical(flip_horizontal(x))
}

/// Row `i` of the board `x`, counted from the highest byte of the word.
pub open spec fn row_byte(x: u64, i: u64) -> u64 {
    (x >> (((7 - i) * 8) as u64)) & 0xFF
}

/// The eight rows of the board, the highest byte of the word first.
pub fn row_bytes(x: u64) -> (res: Vec<u8>)
    ensures
        res@.len() == 8,
        forall|i: int| 0 <= i < 8 ==> #[trigger] res@[i] == row_byte(x, i as u64),
{
    let mut res: Vec<u8> = Vec::new();
    let mut i: u64 = 0;
    while i < 8
        invariant
            i <= 8,
            res@.len() == i,
            forall|k: int| 0 <= k < i ==> #[trigger] res@[k] == row_byte(x, k as u64),
        decreases 8 - i,
    {
        let shift: u64 = (7 - i) * 8;
        let v: u64 = (x >> shift) & 0xFF;
        proof {
            assert((x >> shift) & 0xFF <= 0xFF) by (bit_vector);
        }
        res.push(v as u8);
        i += 1;
    }
    res
}

} // verus!
