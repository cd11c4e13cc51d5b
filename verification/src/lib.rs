//! Rules engine for Quoridor: a grid board on which two pawns race to
//! opposite edges while players place walls, subject to the rule that a
//! route to every pawn's goal row must always remain open.
//!
//! `point`, `pawn` and `wall` hold the geometric leaves; `board` the game
//! state and per-move legality; `path_finder` the searches over the board's
//! implicit grid graph; `game` the turn engine layered on top of both.

pub mod board;
pub mod game;
pub mod path_finder;
pub mod pawn;
pub mod point;
pub mod pqueue;
pub mod wall;
