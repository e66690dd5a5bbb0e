use crate::piece::Pieces;
use vstd::prelude::*;

verus! {

/// One step of a piece of kind `piece` from square `from` to square `to`.
/// A capture is a move whose destination holds a piece of the other side.
#[derive(Clone, Copy, Debug, PartialEq, Eq, Structural)]
pub struct Move {
    pub from: u32,
    pub to: u32,
    pub piece: Pieces,
}

} // verus!
