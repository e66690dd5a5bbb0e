use crate::bitboard::{
    has_bit, lemma_bitboard_extensional, lemma_has_bit_algebra, BitManipulation, Bitboard,
};
use crate::piece::Pieces;
use vstd::prelude::*;

verus! {

/// Which castling moves are still open to each side.
#[derive(Clone, Copy, Debug, PartialEq, Eq, Structural)]
pub struct Castling {
    pub white_queen_side: bool,
    pub white_king_side: bool,
    pub black_queen_side: bool,
    pub black_king_side: bool,
}

/// The part of a position that the placement of the pieces does not show.
#[derive(Clone, Copy, Debug, PartialEq, Eq, Structural)]
pub struct GameState {
    pub white_turn: bool,
    pub en_passant: Option<u32>,
    pub castling: Castling,
    pub half_moves: u32,
    pub full_moves: u32,
}

/// A position: one mask per kind of piece, holding the pieces of both
/// sides, and one mask per side.
pub struct Board {
    pub game_state: GameState,
    pub pieces: [Bitboard; 6],
    pub black_pieces: Bitboard,
    pub white_pieces: Bitboard,
}

/// The kind of piece that a letter of a board diagram stands for, in either
/// case: p, r, n, b, q, k.
pub open spec fn piece_kind(letter: char) -> Option<Pieces> {
    if letter == 'p' || letter == 'P' {
        Some(Pieces::Pawns)
    } else if letter == 'r' || letter == 'R' {
        Some(Pieces::Rooks)
    } else if letter == 'n' || letter == 'N' {
        Some(Pieces::Knights)
    } else if letter == 'b' || letter == 'B' {
        Some(Pieces::Bishops)
    } else if letter == 'q' || letter == 'Q' {
        Some(Pieces::Queens)
    } else if letter == 'k' || letter == 'K' {
        Some(Pieces::Kings)
    } else {
        None
    }
}

/// Whether a letter of a board diagram stands for a white piece: the
/// capital letters do.
pub open spec fn is_white_letter(letter: char) -> bool {
    letter == 'P' || letter == 'R' || letter == 'N' || letter == 'B' || letter == 'Q' || letter
        == 'K'
}

/// The entry of a diagram for `square`: the character listed for it, or a
/// dot, which stands for an empty square, where the diagram ends before it.
pub open spec fn letter_at(diagram: Seq<char>, square: int) -> char {
    if 0 <= square < diagram.len() {
        diagram[square]
    } else {
        '.'
    }
}

/// The kind of piece that a letter stands for, if it stands for one.
pub fn kind_of_letter(letter: char) -> (kind: Option<Pieces>)
    ensures
        kind == piece_kind(letter),
{
    match letter {
        'p' | 'P' => Some(Pieces::Pawns),
        'r' | 'R' => Some(Pieces::Rooks),
        'n' | 'N' => Some(Pieces::Knights),
        'b' | 'B' => Some(Pieces::Bishops),
        'q' | 'Q' => Some(Pieces::Queens),
        'k' | 'K' => Some(Pieces::Kings),
        _ => None,
    }
}

impl Board {
    /// Whether a piece of kind `kind` stands on `square`.
    pub open spec fn holds(&self, kind: Pieces, square: int) -> bool {
        has_bit(self.pieces[kind.slot()], square)
    }

    /// Whether a white piece stands on `square`.
    pub open spec fn is_white(&self, square: int) -> bool {
        has_bit(self.white_pieces, square)
    }

    /// Whether a black piece stands on `square`.
    pub open spec fn is_black(&self, square: int) -> bool {
        has_bit(self.black_pieces, square)
    }

    /// Whether a piece of the side to move stands on `square`.
    pub open spec fn is_own(&self, white_turn: bool, square: int) -> bool {
        if white_turn {
            self.is_white(square)
        } else {
            self.is_black(square)
        }
    }

    /// Whether any piece stands on `square`.
    pub open spec fn is_occupied(&self, square: int) -> bool {
        self.is_white(square) || self.is_black(square)
    }

    /// Whether `square` is a square of the board on which no piece stands.
    pub open spec fn is_empty(&self, square: int) -> bool {
        0 <= square < 64 && !self.is_occupied(square)
    }

    /// The mask of all pieces of both sides.
    pub open spec fn occupied(&self) -> Bitboard {
        self.white_pieces | self.black_pieces
    }

    /// Whether the masks show on `square` what `diagram` lists for it: the
    /// kind and the side of the piece that the letter stands for, or no piece
    /// where the entry is no piece letter.
    pub open spec fn shows_at(&self, diagram: Seq<char>, square: int) -> bool {
        let letter = letter_at(diagram, square);
        &&& forall|kind: Pieces| #[trigger]
            self.holds(kind, square) <==> piece_kind(letter) == Some(kind)
        &&& self.is_white(square) <==> piece_kind(letter) is Some && is_white_letter(letter)
        &&& self.is_black(square) <==> piece_kind(letter) is Some && !is_white_letter(letter)
    }

    /// Whether the masks show the position that `diagram` spells out. A
    /// diagram lists the squares in their order, a piece letter for a piece
    /// and any other character for an empty square; the squares that it does
    /// not list are empty.
    pub open spec fn shows(&self, diagram: Seq<char>) -> bool {
        forall|square: int| 0 <= square < 64 ==> #[trigger] self.shows_at(diagram, square)
    }

    /// The mask of the side to move.
    pub open spec fn own_mask(&self, white_turn: bool) -> Bitboard {
        if white_turn {
            self.white_pieces
        } else {
            self.black_pieces
        }
    }

    /// Whether the masks agree with each other: no square belongs to both
    /// sides, every piece belongs to exactly one side, and no square holds
    /// pieces of two kinds.
    pub open spec fn wf(&self) -> bool {
        &&& forall|square: int| !(self.is_white(square) && #[trigger] self.is_black(square))
        &&& forall|kind: Pieces, square: int| #[trigger]
            self.holds(kind, square) ==> self.is_occupied(square)
        &&& forall|first: Pieces, second: Pieces, square: int|
            #[trigger] self.holds(first, square) && #[trigger] self.holds(second, square)
                ==> first == second
    }

    /// Puts the piece that `piece` stands for on square `index`, or takes it
    /// away if it stands there already: the square is toggled in the mask of
    /// the piece's kind and in the mask of its side, white for a capital
    /// letter and black for a small one. Nothing else changes.
    pub fn add_piece(&mut self, piece: char, index: u8)
        requires
            piece_kind(piece) is Some,
            index < 64,
        ensures
            final(self).game_state == old(self).game_state,
            forall|kind: Pieces|
                #![trigger final(self).pieces[kind.slot()]]
                final(self).pieces[kind.slot()] == if piece_kind(piece) == Some(kind) {
                    old(self).pieces[kind.slot()].toggled(index as int)
                } else {
                    old(self).pieces[kind.slot()]
                },
            final(self).white_pieces == if is_white_letter(piece) {
                old(self).white_pieces.toggled(index as int)
            } else {
                old(self).white_pieces
            },
            final(self).black_pieces == if is_white_letter(piece) {
                old(self).black_pieces
            } else {
                old(self).black_pieces.toggled(index as int)
            },
    {
        let kind = kind_of_letter(piece);
        match kind {
            Some(kind) => {
                let slot = kind.index();
                self.pieces[slot] = self.pieces[slot].toggle_square(index);
            },
            None => {},
        }
        match piece {
            'P' | 'R' | 'N' | 'B' | 'Q' | 'K' => {
                self.white_pieces = self.white_pieces.toggle_square(index);
            },
            _ => {
                self.black_pieces = self.black_pieces.toggle_square(index);
            },
        }
    }

    /// The empty board, white to move, every castling right still open.
    pub fn new() -> (board: Board)
        ensures
            board.wf(),
            board.white_pieces == 0,
            board.black_pieces == 0,
            forall|slot: int| 0 <= slot < 6 ==> board.pieces[slot] == 0,
            board.game_state == (GameState {
                white_turn: true,
                en_passant: None,
                castling: Castling {
                    white_queen_side: true,
                    white_king_side: true,
                    black_queen_side: true,
                    black_king_side: true,
                },
                half_moves: 0,
                full_moves: 0,
            }),
    {
        proof {
            lemma_has_bit_algebra();
        }
        Board {
            game_state: GameState {
                white_turn: true,
                en_passant: None,
                castling: Castling {
                    white_queen_side: true,
                    white_king_side: true,
                    black_queen_side: true,
                    black_king_side: true,
                },
                half_moves: 0,
                full_moves: 0,
            },
            pieces: [0, 0, 0, 0, 0, 0],
            black_pieces: 0,
            white_pieces: 0,
        }
    }
}

/// On a well-formed board no square belongs to both sides, so the squares
/// of either side are the squares of exactly one side.
pub proof fn lemma_occupied_by_one_side(board: Board)
    requires
        board.wf(),
    ensures
        board.occupied() == board.white_pieces ^ board.black_pieces,
        board.white_pieces & board.black_pieces == 0,
{
    lemma_has_bit_algebra();
    assert forall|square: int| 0 <= square < 64 implies (has_bit(board.occupied(), square)
        <==> has_bit(board.white_pieces ^ board.black_pieces, square)) by {
        assert(!(board.is_white(square) && board.is_black(square)));
    }
    lemma_bitboard_extensional(board.occupied(), board.white_pieces ^ board.black_pieces);
    assert forall|square: int| 0 <= square < 64 implies (has_bit(
        board.white_pieces & board.black_pieces,
        square,
    ) <==> has_bit(0, square)) by {
        assert(!(board.is_white(square) && board.is_black(square)));
    }
    lemma_bitboard_extensional(board.white_pieces & board.black_pieces, 0);
}

} // verus!
