use chess_movegen::bitboard::{BitManipulation, Bitboard};

#[test]
fn toggle_square_on_bitboard() {
    let bitboard: Bitboard = 0;
    let bitboard = bitboard.toggle_square(2);
    assert_eq!(bitboard, 4);
}

#[test]
fn toggle_square() {
    let bitboard: Bitboard = 0;
    let bitboard = bitboard.toggle_square(2).toggle_square(2);
    assert_eq!(bitboard, 0);
}
