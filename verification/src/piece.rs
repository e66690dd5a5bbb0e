use vstd::prelude::*;

verus! {

/// The six kinds of piece. A kind carries no colour: the colour of a piece
/// is read from the two occupancy masks of the board.
#[derive(Clone, Copy, Debug, PartialEq, Eq, Structural)]
pub enum Pieces {
    Pawns,
    Rooks,
    Bishops,
    Knights,
    Kings,
    Queens,
}

impl Pieces {
    /// The position of this kind in the board's array of per-kind masks.
    pub open spec fn slot(self) -> int {
        match self {
            Pieces::Pawns => 0,
            Pieces::Rooks => 1,
            Pieces::Bishops => 2,
            Pieces::Knights => 3,
            Pieces::Kings => 4,
            Pieces::Queens => 5,
        }
    }

    /// The position of this kind in the board's array of per-kind masks.
    pub fn index(self) -> (i: usize)
        ensures
            i == self.slot(),
            i < 6,
    {
        match self {
            Pieces::Pawns => 0,
            Pieces::Rooks => 1,
            Pieces::Bishops => 2,
            Pieces::Knights => 3,
            Pieces::Kings => 4,
            Pieces::Queens => 5,
        }
    }
}

} // verus!
