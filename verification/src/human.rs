use vstd::prelude::*;

use crate::board::Board;
use crate::board::Cell;

verus! {

/// A human move source: it holds the player's token, and applies a column
/// choice that the surrounding user interface has already read and
/// validated.
pub struct Human {
    pub token: Cell,
    pub player_type: &'static str,
}

impl Human {
    /// A human player is well formed when it holds one of the two tokens.
    pub open spec fn wf(self) -> bool {
        self.token != Cell::Empty
    }

    /// A new human player holding `token`.
    pub fn new(token: Cell) -> (r: Human)
        requires
            token != Cell::Empty,
        ensures
            r.token == token,
            r.player_type@ == "Human"@,
            r.wf(),
    {
        Human { token, player_type: "Human" }
    }

    /// The token this player places.
    pub fn get_token(&self) -> (r: Cell)
        ensures
            r == self.token,
    {
        self.token
    }

    /// The kind of move source this player is.
    pub fn get_type(&self) -> (r: &'static str)
        ensures
            r == self.player_type,
    {
        self.player_type
    }

    /// Plays the player's token in the 1-based column `col`: drops it into
    /// column `col - 1` of the grid, reporting whether the placement
    /// succeeded.  Reading and validating the choice is the caller's
    /// business.
    pub fn play_move(&self, board: &mut Board, col: usize) -> (r: bool)
        requires
            old(board).wf(),
            self.wf(),
            1 <= col <= 7,
        ensures
            final(board).wf(),
            r == (old(board).cursor(col - 1) >= 0),
            !r ==> *final(board) == *old(board),
            r ==> final(board).cells@ == old(board).cells@.update(
                old(board).cursor(col - 1) * 7 + (col - 1),
                self.token,
            ),
            r ==> final(board).next_empty_row@ == old(board).next_empty_row@.update(
                col - 1,
                (old(board).cursor(col - 1) - 1) as i32,
            ),
            r ==> final(board).last_move_row == old(board).cursor(col - 1),
            r ==> final(board).last_move_col == col - 1,
            r ==> final(board).empty_cells == old(board).empty_cells - 1,
    {
        board.put(col - 1, self.token)
    }
}

} // verus!
