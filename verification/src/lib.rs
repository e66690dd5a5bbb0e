//! Pseudo-legal chess move generation over bitboards.
//!
//! Squares are numbered 0..64 row by row, starting at a8 (square 0), running
//! along the eighth rank to h8 (square 7) and ending at h1 (square 63). A
//! bitboard is a `u64` whose bit `i` stands for square `i`.
//!
//! The generators of [`move_generation`] list the moves of one kind of piece
//! of the side to move, without regard to checks. Each of them states the
//! list that it returns, move by move and in order, over the squares that
//! the masks of the [`board::Board`] hold. Sliding pieces read the
//! attack-ray table of [`attack_rays`] and cut each ray at its first
//! blocker, as [`sliding`] describes.

pub mod attack_rays;
pub mod bitboard;
pub mod board;
pub mod chess_move;
pub mod direction;
pub mod fen;
pub mod listing;
pub mod move_generation;
pub mod piece;
pub mod render;
pub mod sliding;
