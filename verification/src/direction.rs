use crate::bitboard::Bitboard;
use vstd::prelude::*;

verus! {

/// The eight compass directions, in the order in which every table of eight
/// rays is laid out.
#[derive(Clone, Copy, Debug, PartialEq, Eq, Structural)]
pub enum Direction {
    North,
    NorthEast,
    East,
    SouthEast,
    South,
    SouthWest,
    West,
    NorthWest,
}

impl Direction {
    /// The position of this direction in a table of eight rays.
    pub open spec fn slot(self) -> int {
        match self {
            Direction::North => 0,
            Direction::NorthEast => 1,
            Direction::East => 2,
            Direction::SouthEast => 3,
            Direction::South => 4,
            Direction::SouthWest => 5,
            Direction::West => 6,
            Direction::NorthWest => 7,
        }
    }

    /// The direction that stands at position `slot` of a table of eight rays.
    pub open spec fn at(slot: int) -> Direction {
        if slot == 0 {
            Direction::North
        } else if slot == 1 {
            Direction::NorthEast
        } else if slot == 2 {
            Direction::East
        } else if slot == 3 {
            Direction::SouthEast
        } else if slot == 4 {
            Direction::South
        } else if slot == 5 {
            Direction::SouthWest
        } else if slot == 6 {
            Direction::West
        } else {
            Direction::NorthWest
        }
    }

    /// The position of this direction in a table of eight rays.
    pub fn index(self) -> (i: usize)
        ensures
            i == self.slot(),
            i < 8,
    {
        match self {
            Direction::North => 0,
            Direction::NorthEast => 1,
            Direction::East => 2,
            Direction::SouthEast => 3,
            Direction::South => 4,
            Direction::SouthWest => 5,
            Direction::West => 6,
            Direction::NorthWest => 7,
        }
    }

    /// The change of column made by one step in this direction.
    pub open spec fn file_step(self) -> int {
        match self {
            Direction::North | Direction::South => 0,
            Direction::NorthEast | Direction::East | Direction::SouthEast => 1,
            Direction::SouthWest | Direction::West | Direction::NorthWest => -1,
        }
    }

    /// The change of row made by one step in this direction. North leads
    /// towards the eighth rank, which is row 0.
    pub open spec fn row_step(self) -> int {
        match self {
            Direction::East | Direction::West => 0,
            Direction::SouthEast | Direction::South | Direction::SouthWest => 1,
            Direction::North | Direction::NorthEast | Direction::NorthWest => -1,
        }
    }

    /// Whether a step in this direction leads to a higher square number.
    pub open spec fn ascends(self) -> bool {
        8 * self.row_step() + self.file_step() > 0
    }
}

impl std::ops::Index<Direction> for Vec<Bitboard> {
    type Output = Bitboard;

    fn index(&self, direction: Direction) -> (ray: &Bitboard)
        ensures
            *ray == self[direction.slot()],
    {
        match direction {
            Direction::North => &self[0],
            Direction::NorthEast => &self[1],
            Direction::East => &self[2],
            Direction::SouthEast => &self[3],
            Direction::South => &self[4],
            Direction::SouthWest => &self[5],
            Direction::West => &self[6],
            Direction::NorthWest => &self[7],
        }
    }
}

impl vstd::std_specs::core::IndexSpecImpl<Direction> for Vec<Bitboard> {
    open spec fn index_req(&self, direction: &Direction) -> bool {
        self.len() >= 8
    }
}

impl std::ops::Index<Direction> for [Bitboard] {
    type Output = Bitboard;

    fn index(&self, direction: Direction) -> (ray: &Bitboard)
        ensures
            *ray == self[direction.slot()],
    {
        match direction {
            Direction::North => &self[0],
            Direction::NorthEast => &self[1],
            Direction::East => &self[2],
            Direction::SouthEast => &self[3],
            Direction::South => &self[4],
            Direction::SouthWest => &self[5],
            Direction::West => &self[6],
            Direction::NorthWest => &self[7],
        }
    }
}

impl vstd::std_specs::core::IndexSpecImpl<Direction> for [Bitboard] {
    open spec fn index_req(&self, direction: &Direction) -> bool {
        self.len() >= 8
    }
}

} // verus!
