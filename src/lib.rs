use vstd::prelude::*;

pub mod coords;
pub mod entities;
pub mod move_list;
pub mod castle_utils;
pub mod board;
pub mod movegen;
pub mod legal;
pub mod ai;

pub use coords::{Coord, Error};
pub use entities::{Piece, Player, Square};
pub use move_list::{MoveDescription, BeforeAfterSquares, MoveSnapshot, MoveList};
pub use castle_utils::CastleUtils;
pub use board::{Board, PlayerState};
pub use legal::CheckThreatTempBuffers;
pub use ai::{Ai, MAX_EVAL, MIN_EVAL};

verus! {

} // verus!
