use vstd::prelude::*;

use crate::board::Cell;

verus! {

/// The opposing player's token; `Empty` has no opponent and is mapped to
/// itself.
pub open spec fn spec_other_token(t: Cell) -> Cell {
    match t {
        Cell::X => Cell::O,
        Cell::O => Cell::X,
        Cell::Empty => Cell::Empty,
    }
}

/// The token of the other player.
pub fn get_other_token(token: Cell) -> (r: Cell)
    ensures
        r == spec_other_token(token),
{
    match token {
        Cell::X => Cell::O,
        Cell::O => Cell::X,
        Cell::Empty => Cell::Empty,
    }
}

} // verus!
