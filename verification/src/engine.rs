//! The game session state: whose turn it is and which side the automated
//! opponent plays. The interactive loop around it (prompts, rendering,
//! input) lives outside the library and only reads and advances this state.

use vstd::prelude::*;

use crate::board::Board;

verus! {

/// One running game: the board, the player to move, and the side played by
/// the automated opponent.
pub struct Engine {
    pub game_board: Board,
    pub actual_player: usize,
    pub ai_player: usize,
}

impl Engine {
    /// A fresh game. When the human asked to start, the automated opponent
    /// takes the second seat (player 1), else the first (player 0).
    pub fn new(human_starts: bool) -> (e: Engine)
        ensures
            forall|i: int|
                0 <= i < 16 ==> e.game_board.reds()[i] == 2 && e.game_board.blues()[i] == 2,
            e.game_board.attic(0) == 0 && e.game_board.attic(1) == 0,
            e.game_board.total_all() == 64,
            e.game_board.ok(),
            e.actual_player == 0,
            e.ai_player == (if human_starts { 1int } else { 0int }),
    {
        Engine {
            game_board: Board::new(),
            actual_player: 0,
            ai_player: if human_starts { 1 } else { 0 },
        }
    }

    /// Hands the turn to the other player; the board does not change.
    pub fn update_actual_player(&mut self)
        requires
            old(self).actual_player < 2,
        ensures
            final(self).actual_player as int == (old(self).actual_player as int + 1) % 2,
            final(self).game_board == old(self).game_board,
            final(self).ai_player == old(self).ai_player,
    {
        self.actual_player = (self.actual_player + 1) % 2;
    }
}

} // verus!
