use crate::bitboard::{
    has_bit, lemma_empty_bitboard, lemma_has_bit_algebra, lemma_has_bit_single,
    lemma_lowest_square, Bitboard,
};
use crate::board::Board;
use crate::piece::Pieces;
use vstd::prelude::*;

verus! {

/// A picture in which every square of `bitboard` shows `piece_char` and
/// every other place shows what `board_string` shows there.
pub open spec fn overlay(bitboard: Bitboard, board_string: Seq<char>, piece_char: char) -> Seq<
    char,
> {
    Seq::new(
        board_string.len(),
        |i: int|
            if has_bit(bitboard, i) {
                piece_char
            } else {
                board_string[i]
            },
    )
}

/// Writes `piece_char` on every square of `bitboard`.
pub fn map_bitboard_to_string(
    mut bitboard: Bitboard,
    mut board_string: Vec<char>,
    piece_char: char,
) -> (mapped: Vec<char>)
    requires
        forall|square: int| has_bit(bitboard, square) ==> square < board_string.len(),
    ensures
        mapped@ == overlay(bitboard, board_string@, piece_char),
{
    let ghost squares = bitboard;
    let ghost picture = board_string@;
    let ghost mut done: int = 0;
    while bitboard > 0
        invariant
            0 <= done <= 64,
            forall|square: int| has_bit(squares, square) ==> square < picture.len(),
            forall|square: int|
                has_bit(bitboard, square) <==> has_bit(squares, square) && square >= done,
            board_string@.len() == picture.len(),
            forall|i: int|
                0 <= i < picture.len() ==> board_string@[i] == if has_bit(squares, i) && i < done {
                    piece_char
                } else {
                    picture[i]
                },
        decreases 64 - done,
    {
        let square_index = bitboard.trailing_zeros() as usize;
        proof {
            lemma_lowest_square(bitboard);
            lemma_has_bit_algebra();
            assert forall|square: int|
                has_bit(bitboard & !(1u64 << square_index), square) <==> has_bit(squares, square)
                    && square >= square_index + 1 by {
                lemma_has_bit_single(square_index as int, square);
            }
        }
        board_string.set(square_index, piece_char);
        bitboard &= !(1u64 << square_index);
        proof {
            done = square_index + 1;
        }
    }
    proof {
        lemma_empty_bitboard(bitboard);
    }
    board_string
}

/// The letter that a picture of the board shows on a square: a capital
/// letter for a white piece, a small one for a black piece, a dot for an
/// empty square. Where the masks give a square to several pieces, the
/// king is shown before the queen, the bishop, the knight, the rook and
/// the pawn, and of one kind the black piece before the white one.
pub open spec fn square_letter(board: Board, square: int) -> char {
    if board.is_black(square) && board.holds(Pieces::Kings, square) {
        'k'
    } else if board.is_white(square) && board.holds(Pieces::Kings, square) {
        'K'
    } else if board.is_black(square) && board.holds(Pieces::Queens, square) {
        'q'
    } else if board.is_white(square) && board.holds(Pieces::Queens, square) {
        'Q'
    } else if board.is_black(square) && board.holds(Pieces::Bishops, square) {
        'b'
    } else if board.is_white(square) && board.holds(Pieces::Bishops, square) {
        'B'
    } else if board.is_black(square) && board.holds(Pieces::Knights, square) {
        'n'
    } else if board.is_white(square) && board.holds(Pieces::Knights, square) {
        'N'
    } else if board.is_black(square) && board.holds(Pieces::Rooks, square) {
        'r'
    } else if board.is_white(square) && board.holds(Pieces::Rooks, square) {
        'R'
    } else if board.is_black(square) && board.holds(Pieces::Pawns, square) {
        'p'
    } else if board.is_white(square) && board.holds(Pieces::Pawns, square) {
        'P'
    } else {
        '.'
    }
}

/// The digit that names a row of the board: 8 for row 0 down to 1 for
/// row 7.
pub open spec fn rank_digit(row: int) -> char {
    if row == 0 {
        '8'
    } else if row == 1 {
        '7'
    } else if row == 2 {
        '6'
    } else if row == 3 {
        '5'
    } else if row == 4 {
        '4'
    } else if row == 5 {
        '3'
    } else if row == 6 {
        '2'
    } else {
        '1'
    }
}

/// The text of one square of the picture: the letter of the square and a
/// blank, the row's digit and a blank before the first square of a row,
/// and a line feed after the last.
pub open spec fn square_text(board: Board, square: int) -> Seq<char> {
    let lead = if square % 8 == 0 {
        seq![rank_digit(square / 8), ' ']
    } else {
        Seq::empty()
    };
    let tail = if square % 8 == 7 {
        seq!['\n']
    } else {
        Seq::empty()
    };
    lead + seq![square_letter(board, square), ' '] + tail
}

/// The text of the first `count` squares of the picture.
pub open spec fn squares_text(board: Board, count: int) -> Seq<char>
    decreases count,
{
    if count <= 0 {
        Seq::empty()
    } else {
        squares_text(board, count - 1) + square_text(board, count - 1)
    }
}

/// The picture of a board: a line that names the columns, then the eight
/// rows from the eighth rank to the first.
pub open spec fn picture(board: Board) -> Seq<char> {
    "  a b c d e f g h\n"@ + squares_text(board, 64)
}

/// `String::push` of the standard library: `c` is added at the end of
/// `text`, and the characters before it stay as they were.
#[verifier::external_body]
fn push_char(text: &mut String, c: char)
    ensures
        final(text)@ == old(text)@.push(c),
{
    text.push(c)
}

/// The digit that names row `row`.
fn digit_of_row(row: usize) -> (digit: char)
    requires
        row < 8,
    ensures
        digit == rank_digit(row as int),
{
    match row {
        0 => '8',
        1 => '7',
        2 => '6',
        3 => '5',
        4 => '4',
        5 => '3',
        6 => '2',
        _ => '1',
    }
}

impl Board {
    /// The picture of the board as text.
    pub fn to_string(&self) -> (text: String)
        ensures
            text@ == picture(*self),
    {
        let white_pawns = self.white_pieces & self.pieces[Pieces::Pawns.index()];
        let black_pawns = self.black_pieces & self.pieces[Pieces::Pawns.index()];
        let white_rooks = self.white_pieces & self.pieces[Pieces::Rooks.index()];
        let black_rooks = self.black_pieces & self.pieces[Pieces::Rooks.index()];
        let white_knights = self.white_pieces & self.pieces[Pieces::Knights.index()];
        let black_knights = self.black_pieces & self.pieces[Pieces::Knights.index()];
        let white_bishops = self.white_pieces & self.pieces[Pieces::Bishops.index()];
        let black_bishops = self.black_pieces & self.pieces[Pieces::Bishops.index()];
        let white_queens = self.white_pieces & self.pieces[Pieces::Queens.index()];
        let black_queens = self.black_pieces & self.pieces[Pieces::Queens.index()];
        let white_king = self.white_pieces & self.pieces[Pieces::Kings.index()];
        let black_king = self.black_pieces & self.pieces[Pieces::Kings.index()];

        let mut board_builder: Vec<char> = Vec::new();
        while board_builder.len() < 64
            invariant
                board_builder.len() <= 64,
                forall|i: int| 0 <= i < board_builder.len() ==> board_builder@[i] == '.',
            decreases 64 - board_builder.len(),
        {
            board_builder.push('.');
        }

        let board_builder = map_bitboard_to_string(white_pawns, board_builder, 'P');
        let board_builder = map_bitboard_to_string(black_pawns, board_builder, 'p');
        let board_builder = map_bitboard_to_string(white_rooks, board_builder, 'R');
        let board_builder = map_bitboard_to_string(black_rooks, board_builder, 'r');
        let board_builder = map_bitboard_to_string(white_knights, board_builder, 'N');
        let board_builder = map_bitboard_to_string(black_knights, board_builder, 'n');
        let board_builder = map_bitboard_to_string(white_bishops, board_builder, 'B');
        let board_builder = map_bitboard_to_string(black_bishops, board_builder, 'b');
        let board_builder = map_bitboard_to_string(white_queens, board_builder, 'Q');
        let board_builder = map_bitboard_to_string(black_queens, board_builder, 'q');
        let board_builder = map_bitboard_to_string(white_king, board_builder, 'K');
        let board_builder = map_bitboard_to_string(black_king, board_builder, 'k');
        proof {
            lemma_has_bit_algebra();
            assert forall|i: int| 0 <= i < 64 implies board_builder@[i] == square_letter(
                *self,
                i,
            ) by {}
        }

        let mut result = String::new();
        result.append("  a b c d e f g h\n");
        let mut i: usize = 0;
        while i < 64
            invariant
                i <= 64,
                board_builder.len() == 64,
                forall|k: int| 0 <= k < 64 ==> board_builder@[k] == square_letter(*self, k),
                result@ == "  a b c d e f g h\n"@ + squares_text(*self, i as int),
            decreases 64 - i,
        {
            if i % 8 == 0 {
                push_char(&mut result, digit_of_row(i / 8));
                push_char(&mut result, ' ');
            }
            push_char(&mut result, board_builder[i]);
            push_char(&mut result, ' ');
            if i % 8 == 7 {
                push_char(&mut result, '\n');
            }
            i += 1;
        }
        result
    }
}

} // verus!
