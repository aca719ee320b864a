//! Exhaustive solver for a nine-slot triangular marble puzzle.
//!
//! The board is two triangles that share a centre slot. Three glass marbles,
//! three metal marbles and one large marble move along the edges of the board
//! into free slots, small and large marbles taking turns. The solver explores
//! every configuration that can be reached from the starting position and
//! reports whether the two small kinds can change sides.

pub mod position;
pub mod board;
pub mod moves;
pub mod discovered;
pub mod explorer;
