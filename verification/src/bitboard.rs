use vstd::prelude::*;
use vstd::std_specs::bits::*;

verus! {

/// A set of squares of the board: bit `i` is set where square `i` belongs to
/// the set.
pub type Bitboard = u64;

/// The first rank, the row of the squares 56 to 63.
pub const RANK1: Bitboard = 0xFF00_0000_0000_0000;

/// The second rank, the home row of the white pawns.
pub const RANK2: Bitboard = 0x00FF_0000_0000_0000;

/// The third rank.
pub const RANK3: Bitboard = 0x0000_FF00_0000_0000;

/// The fourth rank, where the double pushes of the white pawns end.
pub const RANK4: Bitboard = 0x0000_00FF_0000_0000;

/// The fifth rank, where the double pushes of the black pawns end.
pub const RANK5: Bitboard = 0x0000_0000_FF00_0000;

/// The sixth rank.
pub const RANK6: Bitboard = 0x0000_0000_00FF_0000;

/// The seventh rank, the home row of the black pawns.
pub const RANK7: Bitboard = 0x0000_0000_0000_FF00;

/// The eighth rank, the row of the squares 0 to 7.
pub const RANK8: Bitboard = 0x0000_0000_0000_00FF;

/// The a-file, the column of the squares 0, 8, 16 and so on.
pub const FILE_A: Bitboard = 0x0101_0101_0101_0101;

/// The b-file.
pub const FILE_B: Bitboard = 0x0202_0202_0202_0202;

/// The c-file.
pub const FILE_C: Bitboard = 0x0404_0404_0404_0404;

/// The d-file.
pub const FILE_D: Bitboard = 0x0808_0808_0808_0808;

/// The e-file.
pub const FILE_E: Bitboard = 0x1010_1010_1010_1010;

/// The f-file.
pub const FILE_F: Bitboard = 0x2020_2020_2020_2020;

/// The g-file.
pub const FILE_G: Bitboard = 0x4040_4040_4040_4040;

/// The h-file, the column of the squares 7, 15, 23 and so on.
pub const FILE_H: Bitboard = 0x8080_8080_8080_8080;

/// Whether square `square` is a member of the bitboard `b`.
pub open spec fn has_bit(b: Bitboard, square: int) -> bool {
    0 <= square < 64 && (b >> (square as u64)) & 1 == 1
}

/// The column of a square: 0 for file a up to 7 for file h.
pub open spec fn file_of(square: int) -> int {
    square % 8
}

/// The row of a square: 0 for the eighth rank down to 7 for the first rank.
pub open spec fn row_of(square: int) -> int {
    square / 8
}

/// The lowest square of a bitboard; 64 when the bitboard is empty.
pub open spec fn lowest_square(b: Bitboard) -> int {
    u64_trailing_zeros(b) as int
}

/// The highest square of a bitboard; -1 when the bitboard is empty.
pub open spec fn highest_square(b: Bitboard) -> int {
    63 - u64_leading_zeros(b)
}

proof fn lemma_bitwise(a: u64, b: u64, i: u64)
    by (bit_vector)
    requires
        i < 64,
    ensures
        ((a & b) >> i) & 1 == 1 <==> ((a >> i) & 1 == 1 && (b >> i) & 1 == 1),
        ((a | b) >> i) & 1 == 1 <==> ((a >> i) & 1 == 1 || (b >> i) & 1 == 1),
        ((a ^ b) >> i) & 1 == 1 <==> ((a >> i) & 1 == 1) != ((b >> i) & 1 == 1),
        ((!a) >> i) & 1 == 1 <==> (a >> i) & 1 != 1,
        (0u64 >> i) & 1 != 1,
        (a >> i) & 1 != 0 <==> (a >> i) & 1 == 1,
{
}

proof fn lemma_shifted(a: u64, k: u64, i: u64)
    by (bit_vector)
    requires
        i < 64,
        k < 64,
    ensures
        ((a << k) >> i) & 1 == 1 <==> (i >= k && (a >> ((i - k) as u64)) & 1 == 1),
        ((a >> k) >> i) & 1 == 1 <==> (i + k < 64 && (a >> ((i + k) as u64)) & 1 == 1),
        ((1u64 << k) >> i) & 1 == 1 <==> i == k,
{
}

proof fn lemma_board_masks(i: u64)
    by (bit_vector)
    requires
        i < 64,
    ensures
        (FILE_A >> i) & 1 == 1 <==> i % 8 == 0,
        (FILE_B >> i) & 1 == 1 <==> i % 8 == 1,
        (FILE_C >> i) & 1 == 1 <==> i % 8 == 2,
        (FILE_D >> i) & 1 == 1 <==> i % 8 == 3,
        (FILE_E >> i) & 1 == 1 <==> i % 8 == 4,
        (FILE_F >> i) & 1 == 1 <==> i % 8 == 5,
        (FILE_G >> i) & 1 == 1 <==> i % 8 == 6,
        (FILE_H >> i) & 1 == 1 <==> i % 8 == 7,
        (RANK8 >> i) & 1 == 1 <==> i / 8 == 0,
        (RANK7 >> i) & 1 == 1 <==> i / 8 == 1,
        (RANK6 >> i) & 1 == 1 <==> i / 8 == 2,
        (RANK5 >> i) & 1 == 1 <==> i / 8 == 3,
        (RANK4 >> i) & 1 == 1 <==> i / 8 == 4,
        (RANK3 >> i) & 1 == 1 <==> i / 8 == 5,
        (RANK2 >> i) & 1 == 1 <==> i / 8 == 6,
        (RANK1 >> i) & 1 == 1 <==> i / 8 == 7,
{
}

/// Membership in an intersection, a union, a symmetric difference and a
/// complement, square by square.
pub proof fn lemma_has_bit_algebra()
    ensures
        forall|a: u64, b: u64, s: int| #[trigger]
            has_bit(a & b, s) <==> has_bit(a, s) && has_bit(b, s),
        forall|a: u64, b: u64, s: int| #[trigger]
            has_bit(a | b, s) <==> has_bit(a, s) || has_bit(b, s),
        forall|a: u64, b: u64, s: int| #[trigger]
            has_bit(a ^ b, s) <==> has_bit(a, s) != has_bit(b, s),
        forall|a: u64, s: int| #[trigger] has_bit(!a, s) <==> 0 <= s < 64 && !has_bit(a, s),
        forall|s: int| !#[trigger] has_bit(0, s),
{
    assert forall|a: u64, b: u64, s: int|
        0 <= s < 64 implies (#[trigger] has_bit(a & b, s) <==> has_bit(a, s) && has_bit(b, s)) by {
        lemma_bitwise(a, b, s as u64);
    }
    assert forall|a: u64, b: u64, s: int|
        0 <= s < 64 implies (#[trigger] has_bit(a | b, s) <==> has_bit(a, s) || has_bit(b, s)) by {
        lemma_bitwise(a, b, s as u64);
    }
    assert forall|a: u64, b: u64, s: int|
        0 <= s < 64 implies (#[trigger] has_bit(a ^ b, s) <==> has_bit(a, s) != has_bit(b, s)) by {
        lemma_bitwise(a, b, s as u64);
    }
    assert forall|a: u64, s: int| 0 <= s < 64 implies (#[trigger] has_bit(!a, s) <==> !has_bit(
        a,
        s,
    )) by {
        lemma_bitwise(a, a, s as u64);
    }
    assert forall|s: int| 0 <= s < 64 implies !#[trigger] has_bit(0, s) by {
        lemma_bitwise(0, 0, s as u64);
    }
}

/// The bitboard `1 << k` holds square `k` and no other.
pub proof fn lemma_has_bit_single(k: int, s: int)
    requires
        0 <= k < 64,
    ensures
        has_bit(1u64 << (k as u64), s) <==> s == k,
{
    if 0 <= s < 64 {
        lemma_shifted(0, k as u64, s as u64);
    }
}

/// Shifting towards higher squares moves every member up by `k`.
pub proof fn lemma_has_bit_shl(a: u64, k: int, s: int)
    requires
        0 <= k < 64,
    ensures
        has_bit(a << (k as u64), s) <==> s < 64 && has_bit(a, s - k),
{
    if 0 <= s < 64 {
        lemma_shifted(a, k as u64, s as u64);
    }
}

/// Shifting towards lower squares moves every member down by `k`.
pub proof fn lemma_has_bit_shr(a: u64, k: int, s: int)
    requires
        0 <= k < 64,
    ensures
        has_bit(a >> (k as u64), s) <==> 0 <= s && has_bit(a, s + k),
{
    if 0 <= s < 64 {
        lemma_shifted(a, k as u64, s as u64);
    }
}

/// The file masks hold one column each, the rank masks one row each.
pub proof fn lemma_has_bit_masks(s: int)
    requires
        0 <= s < 64,
    ensures
        has_bit(FILE_A, s) <==> file_of(s) == 0,
        has_bit(FILE_B, s) <==> file_of(s) == 1,
        has_bit(FILE_C, s) <==> file_of(s) == 2,
        has_bit(FILE_D, s) <==> file_of(s) == 3,
        has_bit(FILE_E, s) <==> file_of(s) == 4,
        has_bit(FILE_F, s) <==> file_of(s) == 5,
        has_bit(FILE_G, s) <==> file_of(s) == 6,
        has_bit(FILE_H, s) <==> file_of(s) == 7,
        has_bit(RANK8, s) <==> row_of(s) == 0,
        has_bit(RANK7, s) <==> row_of(s) == 1,
        has_bit(RANK6, s) <==> row_of(s) == 2,
        has_bit(RANK5, s) <==> row_of(s) == 3,
        has_bit(RANK4, s) <==> row_of(s) == 4,
        has_bit(RANK3, s) <==> row_of(s) == 5,
        has_bit(RANK2, s) <==> row_of(s) == 6,
        has_bit(RANK1, s) <==> row_of(s) == 7,
{
    lemma_board_masks(s as u64);
}

/// A non-empty bitboard holds its lowest square and nothing below it.
pub proof fn lemma_lowest_square(b: Bitboard)
    requires
        b != 0,
    ensures
        0 <= lowest_square(b) < 64,
        has_bit(b, lowest_square(b)),
        forall|s: int| 0 <= s < lowest_square(b) ==> !has_bit(b, s),
{
    axiom_u64_trailing_zeros(b);
}

/// A non-empty bitboard holds its highest square and nothing above it.
pub proof fn lemma_highest_square(b: Bitboard)
    requires
        b != 0,
    ensures
        0 <= highest_square(b) < 64,
        has_bit(b, highest_square(b)),
        forall|s: int| highest_square(b) < s < 64 ==> !has_bit(b, s),
{
    axiom_u64_leading_zeros(b);
    let high = (63 - u64_leading_zeros(b)) as u64;
    lemma_bitwise(b, b, high);
}

/// Two bitboards that hold the same squares are the same bitboard.
pub proof fn lemma_bitboard_extensional(a: Bitboard, b: Bitboard)
    requires
        forall|s: int| 0 <= s < 64 ==> (has_bit(a, s) <==> has_bit(b, s)),
    ensures
        a == b,
{
    let diff = a ^ b;
    if diff != 0 {
        lemma_lowest_square(diff);
        lemma_has_bit_algebra();
    } else {
        assert(a ^ b == 0 ==> a == b) by (bit_vector);
    }
}

/// The empty bitboard is the only one without a member.
pub proof fn lemma_empty_bitboard(b: Bitboard)
    ensures
        b == 0 <==> forall|s: int| 0 <= s < 64 ==> !has_bit(b, s),
{
    lemma_has_bit_algebra();
    if b != 0 {
        lemma_lowest_square(b);
    }
}

/// Toggling a square flips its membership and leaves every other square
/// as it was.
pub proof fn lemma_toggled(b: Bitboard, index: int, square: int)
    requires
        0 <= index < 64,
    ensures
        has_bit(b.toggled(index), square) <==> (has_bit(b, square) != (square == index)),
{
    lemma_has_bit_algebra();
    lemma_has_bit_single(index, square);
}

/// Toggling the same square twice gives the bitboard back.
pub proof fn lemma_toggled_twice(b: Bitboard, index: int)
    requires
        0 <= index < 64,
    ensures
        b.toggled(index).toggled(index) == b,
{
    assert forall|square: int| 0 <= square < 64 implies (has_bit(
        b.toggled(index).toggled(index),
        square,
    ) <==> has_bit(b, square)) by {
        lemma_toggled(b, index, square);
        lemma_toggled(b.toggled(index), index, square);
    }
    lemma_bitboard_extensional(b.toggled(index).toggled(index), b);
}

/// Changes of single squares of a bitboard.
pub trait BitManipulation {
    /// The bitboard with the membership of square `index` flipped.
    spec fn toggled(&self, index: int) -> Bitboard;

    /// Flips the membership of one square and leaves every other square as it was.
    fn toggle_square(&self, index: u8) -> (toggled: Bitboard)
        requires
            index < 64,
        ensures
            toggled == self.toggled(index as int),
    ;
}

impl BitManipulation for Bitboard {
    open spec fn toggled(&self, index: int) -> Bitboard {
        *self ^ (1u64 << (index as u64))
    }

    fn toggle_square(&self, index: u8) -> (toggled: Bitboard) {
        *self ^ (1u64 << index)
    }
}

} // verus!
