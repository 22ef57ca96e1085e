//! Rules core of a chess engine: move generation, check detection,
//! legality filtering, and move application, with verified contracts.

pub mod board;
pub mod gamestate;
pub mod move_generation;
pub mod laws;

