use kyopro::bitboard_8x8::{
    delta_swap, flip_diagonal_A1H8, flip_diagonal_A8H1, flip_horizontal, flip_vertical, rotate180,
    rotate_clockwise90, rotate_counter_clockwise90, row_bytes,
};

#[test]
fn test_delta_swap() {
    let x = 0b110011u64;
    assert_eq!(delta_swap(x, 0b111, 3), 0b011110);
    assert_eq!(delta_swap(x, 0b11, 3), 0b111010);
    assert_eq!(delta_swap(x, 0b01, 2), 0b110110);
}

#[test]
fn test_flip_horizontal() {
    let x = 0b11000000_00110000_00001100_00000011_11000000_00110000_00001100_00000011u64;
    let y = 0b00000011_00001100_00110000_11000000_00000011_00001100_00110000_11000000u64;
    assert_eq!(flip_horizontal(x), y);
}

#[test]
fn test_flip_vertical() {
    let x = 0b11000000_00110000_00001100_00000011_11000000_00110000_00001100_00000011u64;
    let y = 0b00000011_00001100_00110000_11000000_00000011_00001100_00110000_11000000u64;
    assert_eq!(flip_vertical(x), y);
}

#[test]
#[allow(non_snake_case)]
fn test_diagonal_A1H8() {
    let x = 0b11000000_00110000_00001100_00000011_11000000_00110000_00001100_00000011u64;
    let y = 0b10001000_10001000_01000100_01000100_00100010_00100010_00010001_00010001u64;
    assert_eq!(flip_diagonal_A1H8(x), y);
}

#[test]
#[allow(non_snake_case)]
fn test_diagonal_A8H1() {
    let x = 0b11000000_00110000_00001100_00000011_11000000_00110000_00001100_00000011u64;
    let y = 0b10001000_10001000_01000100_01000100_00100010_00100010_00010001_00010001u64;
    assert_eq!(flip_diagonal_A8H1(x), y);
}

#[test]
fn test_rotate_clockwise90() {
    let x = 0b11000000_00110000_00001100_00000011_11000000_00110000_00001100_00000011u64;
    let y = 0b00010001_00010001_00100010_00100010_01000100_01000100_10001000_10001000u64;
    assert_eq!(rotate_clockwise90(x), y);
}

#[test]
fn test_rotate_counter_clockwise90() {
    let x = 0b11000000_00110000_00001100_00000011_11000000_00110000_00001100_00000011u64;
    let y = rotate_clockwise90(rotate_clockwise90(rotate_clockwise90(x)));
    assert_eq!(rotate_counter_clockwise90(x), y);
}

#[test]
fn test_rotate180() {
    let x = 0b11000000_00110000_00001100_00000011_11000000_00110000_00001100_00000011u64;
    let y = rotate_clockwise90(rotate_clockwise90(x));
    assert_eq!(rotate180(x), y);
}

fn square(x: u64, r: u64, c: u64) -> bool {
    (x >> (8 * r + c)) & 1 == 1
}

#[test]
fn test_squares_move_as_stated() {
    let x = 0x0123_4567_89AB_CDEFu64;
    for r in 0..8 {
        for c in 0..8 {
            assert_eq!(square(flip_horizontal(x), r, c), square(x, r, 7 - c));
            assert_eq!(square(flip_vertical(x), r, c), square(x, 7 - r, c));
            assert_eq!(square(flip_diagonal_A1H8(x), r, c), square(x, c, r));
            assert_eq!(square(flip_diagonal_A8H1(x), r, c), square(x, 7 - c, 7 - r));
            assert_eq!(square(rotate_clockwise90(x), r, c), square(x, 7 - c, r));
            assert_eq!(square(rotate_counter_clockwise90(x), r, c), square(x, c, 7 - r));
            assert_eq!(square(rotate180(x), r, c), square(x, 7 - r, 7 - c));
        }
    }
}

#[test]
fn row_bytes_highest_first() {
    assert_eq!(
        row_bytes(0x0102030405060708),
        vec![1u8, 2, 3, 4, 5, 6, 7, 8]
    );
    assert_eq!(row_bytes(0), vec![0u8; 8]);
    assert_eq!(row_bytes(u64::MAX), vec![255u8; 8]);
    assert_eq!(row_bytes(0xFF00000000000080)[0], 0xFF);
    assert_eq!(row_bytes(0xFF00000000000080)[7], 0x80);
}
