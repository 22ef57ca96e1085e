//! The game state: board, side to move, and the move counters.

use vstd::prelude::*;
use crate::board::{Board, Color, board_ok, initialize_board, start_square};

verus! {

#[derive(Debug, Clone)]
pub struct GameState {
    pub board: Board,
    pub current_turn: Color,
    /// Plies since the last pawn move or capture (fifty-move-rule counter).
    pub halfmove_clock: u32,
    pub fullmove_number: u32,
}

impl GameState {
    /// The position at game start: standard placement, White to move,
    /// both counters at their initial values.
    pub fn new() -> (gs: GameState)
        ensures
            board_ok(gs.board@),
            forall|sq: int| 0 <= sq < 64 ==> gs.board@[sq] == start_square(sq),
            gs.current_turn == Color::White,
            gs.halfmove_clock == 0,
            gs.fullmove_number == 1,
    {
        GameState {
            board: initialize_board(),
            current_turn: Color::White,
            halfmove_clock: 0,
            fullmove_number: 1,
        }
    }
}

} // verus!
