use vstd::prelude::*;

use crate::board::Board;
use crate::board::Cell;
use crate::board::completes_four;
use crate::board::in_range;
use crate::board::spec_someone_won;
use crate::utils::get_other_token;

verus! {

/// While more than this many cells are empty the search uses the opening
/// depth limit; at or below it, the endgame limit.  A policy constant.
pub const ENDGAME_EMPTY_THRESHOLD: i32 = 27;

/// Depth limit of the top-level search in the opening and middle game.
pub const OPENING_SEARCH_LIMIT: usize = 10;

/// Depth limit of the top-level search in the endgame, where the remaining
/// game tree is small enough for a deeper, near-exhaustive search.
pub const ENDGAME_SEARCH_LIMIT: usize = 15;

/// The computer move source: a depth-limited minimax search with alpha-beta
/// pruning over the shared board, consulting a line-potential heuristic at
/// the depth cutoff.
pub struct Ai {
    pub token: Cell,
    pub player_type: &'static str,
}

/// Heuristic weight of one axis through a cell, keyed by how many further
/// aligned tokens the two runs on that axis already hold.  The values `0`,
/// `10` and `100` for zero, one and two aligned tokens are tuning policy;
/// three or more aligned tokens with room to complete four is an immediate
/// threat and gets a distinct, much larger weight.
pub open spec fn spec_line_weight(n: int) -> int {
    if n <= 0 {
        0
    } else if n == 1 {
        10
    } else if n == 2 {
        100
    } else {
        1000
    }
}

/// The weight `spec_line_weight` assigns to a combined run length.
fn line_weight(n: i32) -> (w: i32)
    ensures
        w == spec_line_weight(n as int),
        0 <= w <= 1000,
{
    if n <= 0 {
        0
    } else if n == 1 {
        10
    } else if n == 2 {
        100
    } else {
        1000
    }
}

/// The number of consecutive cells holding `t`, starting at `(row, col)`
/// inclusive and stepping by `(dr, dc)`, stopping at the first cell that is
/// out of range or holds something else.  `fuel` bounds the recursion and is
/// always passed as `9`, which exceeds every run a 6 x 7 grid can hold.
pub open spec fn run_from(b: Board, row: int, col: int, dr: int, dc: int, t: Cell, fuel: nat) -> int
    decreases fuel,
{
    if fuel == 0 {
        0
    } else if in_range(row, col) && b.spec_cell(row, col) == t {
        1 + run_from(b, row + dr, col + dc, dr, dc, t, (fuel - 1) as nat)
    } else {
        0
    }
}

/// The run of the anchor's own token on one side of the anchor `(row, col)`:
/// the consecutive cells holding `t` starting one step away in direction
/// `(dr, dc)`.
pub open spec fn pair_token(b: Board, row: int, col: int, dr: int, dc: int, t: Cell) -> int {
    run_from(b, row + dr, col + dc, dr, dc, t, 9)
}

/// The reach on one side of the anchor: the run of `t` starting one step
/// away in direction `(dr, dc)`, plus the run of empty cells immediately
/// beyond it — how far a line of `t` could eventually extend on that side.
pub open spec fn pair_reach(b: Board, row: int, col: int, dr: int, dc: int, t: Cell) -> int {
    let tr = pair_token(b, row, col, dr, dc, t);
    tr + run_from(b, row + dr * (1 + tr), col + dc * (1 + tr), dr, dc, Cell::Empty, 9)
}

/// The contribution of one axis through the anchor `(row, col)` holding
/// `t`: when the reach on the two sides of the axis leaves room to complete
/// four in a row, the weight keyed by how many aligned tokens the two sides
/// already hold; otherwise nothing.
pub open spec fn spec_axis_score(b: Board, row: int, col: int, t: Cell, dr: int, dc: int) -> int {
    if pair_reach(b, row, col, dr, dc, t) + pair_reach(b, row, col, -dr, -dc, t) >= 3 {
        spec_line_weight(pair_token(b, row, col, dr, dc, t) + pair_token(b, row, col, -dr, -dc, t))
    } else {
        0
    }
}

/// The heuristic rating of one anchor cell: the sum of its four axis
/// contributions, scaled by `-turn` — zero when it is the searching side's
/// turn (`turn == 0`), the negated sum for the opponent.
pub open spec fn spec_cell_rating(b: Board, row: int, col: int, t: Cell, turn: int) -> int {
    (-turn) * (spec_axis_score(b, row, col, t, 1, 0) + spec_axis_score(b, row, col, t, 1, 1)
        + spec_axis_score(b, row, col, t, 0, 1) + spec_axis_score(b, row, col, t, -1, 1))
}

/// The game is already decided or the depth budget is exhausted: the search
/// scores the position as it stands instead of trying candidate moves.
pub open spec fn search_cut_off(b: Board, depth: int, search_limit: int) -> bool {
    b.empty_cells == 0 || spec_someone_won(b) || depth > search_limit
}

/// The canonical top-level search call: the maximizing side searching with
/// the full score window.
pub open spec fn full_window_max_node(turn: int, alpha: int, beta: int, depth: int) -> bool {
    turn == 0 && alpha == i32::MIN && beta == i32::MAX && depth <= i32::MAX - 3
}

/// The larger of two integers.
pub open spec fn int_max(a: int, b: int) -> int {
    if a >= b {
        a
    } else {
        b
    }
}

/// A visited marking only ever grows: every cell already marked stays
/// marked, and the marking still covers the whole grid.
pub open spec fn marks_grow(before: Seq<bool>, after: Seq<bool>) -> bool {
    &&& after.len() == 42
    &&& forall|idx: int| 0 <= idx < 42 && before[idx] ==> #[trigger] after[idx]
}

/// The visited marking after one counting pass: every cell of the run of `t`
/// that starts at `(row, col)` and steps by `(dr, dc)` is marked in `vis`.
pub open spec fn mark_run(
    b: Board,
    vis: Seq<bool>,
    row: int,
    col: int,
    dr: int,
    dc: int,
    t: Cell,
    fuel: nat,
) -> Seq<bool>
    decreases fuel,
{
    if fuel == 0 {
        vis
    } else if in_range(row, col) && b.spec_cell(row, col) == t {
        mark_run(b, vis.update(row * 7 + col, true), row + dr, col + dc, dr, dc, t, (fuel - 1) as nat)
    } else {
        vis
    }
}

/// The visited marking after measuring one side of the anchor `(row, col)`:
/// first the run of the anchor's token one step away in direction
/// `(dr, dc)`, then the run of empty cells beyond it.
pub open spec fn mark_pair(
    b: Board,
    vis: Seq<bool>,
    row: int,
    col: int,
    dr: int,
    dc: int,
    t: Cell,
) -> Seq<bool> {
    let v1 = mark_run(b, vis, row + dr, col + dc, dr, dc, t, 9);
    let tr = pair_token(b, row, col, dr, dc, t);
    mark_run(b, v1, row + dr * (1 + tr), col + dc * (1 + tr), dr, dc, Cell::Empty, 9)
}

/// The visited marking after rating the anchor `(row, col)`: the marks of
/// the counting passes over both sides of each of the four axes, in the
/// order the rating inspects them.
pub open spec fn mark_rating(b: Board, vis: Seq<bool>, row: int, col: int, t: Cell) -> Seq<bool> {
    let v1 = mark_pair(b, vis, row, col, 1, 0, t);
    let v2 = mark_pair(b, v1, row, col, -1, 0, t);
    let v3 = mark_pair(b, v2, row, col, 1, 1, t);
    let v4 = mark_pair(b, v3, row, col, -1, -1, t);
    let v5 = mark_pair(b, v4, row, col, 0, 1, t);
    let v6 = mark_pair(b, v5, row, col, 0, -1, t);
    let v7 = mark_pair(b, v6, row, col, -1, 1, t);
    mark_pair(b, v7, row, col, 1, -1, t)
}

/// The heuristic walk over the first `k` cells of the grid in row-major
/// order: each occupied cell not yet visited contributes its rating and
/// marks the cells its counting passes inspect; every walked cell is marked.
/// Returns the running total and the visited marking.
pub open spec fn spec_scan(b: Board, turn: int, k: nat) -> (int, Seq<bool>)
    decreases k,
{
    if k == 0 {
        (0, Seq::new(42, |i: int| false))
    } else {
        let (tot, vis) = spec_scan(b, turn, (k - 1) as nat);
        let idx = k - 1;
        let row = idx / 7;
        let col = idx % 7;
        if vis[idx] {
            (tot, vis.update(idx, true))
        } else if b.spec_cell(row, col) != Cell::Empty {
            (
                tot + spec_cell_rating(b, row, col, b.spec_cell(row, col), turn),
                mark_rating(b, vis, row, col, b.spec_cell(row, col)).update(idx, true),
            )
        } else {
            (tot, vis.update(idx, true))
        }
    }
}

/// The value of the line-potential heuristic of the whole position.
pub open spec fn spec_strength(b: Board, turn: int) -> int {
    spec_scan(b, turn, 42).0
}

impl Ai {
    /// A computer player is well formed when it holds one of the two tokens.
    pub open spec fn wf(self) -> bool {
        self.token != Cell::Empty
    }

    /// A new computer player holding `token`.
    pub fn new(token: Cell) -> (r: Ai)
        requires
            token != Cell::Empty,
        ensures
            r.token == token,
            r.player_type@ == "Ai"@,
            r.wf(),
    {
        Ai { token, player_type: "Ai" }
    }

    /// The token this player places.
    pub fn get_token(&self) -> (r: Cell)
        ensures
            r == self.token,
    {
        self.token
    }

    /// The kind of move source this player is.
    pub fn get_type(&self) -> (r: &'static str)
        ensures
            r == self.player_type,
    {
        self.player_type
    }

    /// Starting `count` steps along `(dr, dc)` from `(pos_row, pos_col)`,
    /// counts the further consecutive cells holding `token`, marks each
    /// counted cell as visited, and returns `count` plus that run length.
    pub fn get_length(
        &self,
        pos_row: i32,
        pos_col: i32,
        dr: i32,
        dc: i32,
        token: Cell,
        visited: &mut Vec<bool>,
        count: i32,
        board: &Board,
    ) -> (r: i32)
        requires
            board.wf(),
            old(visited)@.len() == 42,
            -1 <= dr <= 1,
            -1 <= dc <= 1,
            !(dr == 0 && dc == 0),
            -8 <= pos_row <= 8,
            -8 <= pos_col <= 8,
            0 <= count <= 8,
        ensures
            r == count + run_from(
                *board,
                pos_row + dr * count,
                pos_col + dc * count,
                dr as int,
                dc as int,
                token,
                9,
            ),
            count <= r <= count + 7,
            marks_grow(old(visited)@, final(visited)@),
            final(visited)@ == mark_run(
                *board,
                old(visited)@,
                pos_row + dr * count,
                pos_col + dc * count,
                dr as int,
                dc as int,
                token,
                9,
            ),
    {
        proof {
            assert(-8 <= dr * count <= 8 && -8 <= dc * count <= 8) by (nonlinear_arith)
                requires
                    -1 <= dr <= 1,
                    -1 <= dc <= 1,
                    0 <= count <= 8,
            ;
        }
        let start_row: i32 = pos_row + dr * count;
        let start_col: i32 = pos_col + dc * count;
        let mut cur_row: i32 = start_row;
        let mut cur_col: i32 = start_col;
        let mut steps: i32 = 0;
        loop
            invariant_except_break
                board.wf(),
                visited@.len() == 42,
                forall|idx: int| 0 <= idx < 42 && old(visited)@[idx] ==> #[trigger] visited@[idx],
                -1 <= dr <= 1,
                -1 <= dc <= 1,
                !(dr == 0 && dc == 0),
                -16 <= start_row <= 16,
                -16 <= start_col <= 16,
                0 <= steps <= 7,
                cur_row == start_row + dr * steps,
                cur_col == start_col + dc * steps,
                mark_run(
                    *board,
                    visited@,
                    cur_row as int,
                    cur_col as int,
                    dr as int,
                    dc as int,
                    token,
                    (9 - steps) as nat,
                ) == mark_run(
                    *board,
                    old(visited)@,
                    start_row as int,
                    start_col as int,
                    dr as int,
                    dc as int,
                    token,
                    9,
                ),
                forall|j: int|
                    0 <= j < steps ==> in_range(start_row + dr * j, start_col + dc * j)
                        && #[trigger] board.spec_cell(start_row + dr * j, start_col + dc * j)
                        == token,
                run_from(*board, start_row as int, start_col as int, dr as int, dc as int, token, 9)
                    == steps + run_from(
                    *board,
                    cur_row as int,
                    cur_col as int,
                    dr as int,
                    dc as int,
                    token,
                    (9 - steps) as nat,
                ),
            ensures
                visited@.len() == 42,
                forall|idx: int| 0 <= idx < 42 && old(visited)@[idx] ==> #[trigger] visited@[idx],
                visited@ == mark_run(
                    *board,
                    old(visited)@,
                    start_row as int,
                    start_col as int,
                    dr as int,
                    dc as int,
                    token,
                    9,
                ),
                0 <= steps <= 7,
                steps == run_from(
                    *board,
                    start_row as int,
                    start_col as int,
                    dr as int,
                    dc as int,
                    token,
                    9,
                ),
            decreases 8 - steps,
        {
            if cur_row < 0 || cur_row >= 6 || cur_col < 0 || cur_col >= 7 {
                break ;
            }
            let idx = (cur_row as usize) * 7 + (cur_col as usize);
            if board.get(cur_row as usize, cur_col as usize) == token {
                proof {
                    assert(mark_run(
                        *board,
                        visited@,
                        cur_row as int,
                        cur_col as int,
                        dr as int,
                        dc as int,
                        token,
                        (9 - steps) as nat,
                    ) == mark_run(
                        *board,
                        visited@.update(cur_row * 7 + cur_col, true),
                        cur_row + dr,
                        cur_col + dc,
                        dr as int,
                        dc as int,
                        token,
                        (9 - (steps + 1)) as nat,
                    ));
                }
                visited.set(idx, true);
                proof {
                    if steps == 7 {
                        assert(board.spec_cell(start_row + dr * 0, start_col + dc * 0) == token);
                        assert(false);
                    }
                    assert(run_from(
                        *board,
                        cur_row as int,
                        cur_col as int,
                        dr as int,
                        dc as int,
                        token,
                        (9 - steps) as nat,
                    ) == 1 + run_from(
                        *board,
                        cur_row + dr,
                        cur_col + dc,
                        dr as int,
                        dc as int,
                        token,
                        (9 - (steps + 1)) as nat,
                    ));
                    assert(dr * (steps + 1) == dr * steps + dr) by (nonlinear_arith);
                    assert(dc * (steps + 1) == dc * steps + dc) by (nonlinear_arith);
                }
                cur_row = cur_row + dr;
                cur_col = cur_col + dc;
                steps = steps + 1;
            } else {
                break ;
            }
        }
        proof {
            assert(-8 <= dr * count <= 8 && -8 <= dc * count <= 8) by (nonlinear_arith)
                requires
                    -1 <= dr <= 1,
                    -1 <= dc <= 1,
                    0 <= count <= 8,
            ;
        }
        count + steps
    }

    /// The two run lengths on one side of the anchor `(row, col)`: first the
    /// run of the anchor's token starting one step away in direction
    /// `(dr, dc)`, then that run extended by the empty cells immediately
    /// beyond it.  Every inspected cell is marked visited.
    pub fn get_length_pair(
        &self,
        row: i32,
        col: i32,
        dr: i32,
        dc: i32,
        token: Cell,
        visited: &mut Vec<bool>,
        board: &Board,
    ) -> (r: (i32, i32))
        requires
            board.wf(),
            old(visited)@.len() == 42,
            -1 <= dr <= 1,
            -1 <= dc <= 1,
            !(dr == 0 && dc == 0),
            0 <= row <= 5,
            0 <= col <= 6,
        ensures
            r.0 == pair_token(*board, row as int, col as int, dr as int, dc as int, token),
            r.1 == pair_reach(*board, row as int, col as int, dr as int, dc as int, token),
            0 <= r.0 <= 7,
            r.0 <= r.1 <= 14,
            marks_grow(old(visited)@, final(visited)@),
            final(visited)@ == mark_pair(
                *board,
                old(visited)@,
                row as int,
                col as int,
                dr as int,
                dc as int,
                token,
            ),
    {
        let pos_row = row + dr;
        let pos_col = col + dc;
        let player_length = self.get_length(pos_row, pos_col, dr, dc, token, visited, 0, board);
        let possible_length = self.get_length(
            pos_row,
            pos_col,
            dr,
            dc,
            Cell::Empty,
            visited,
            player_length,
            board,
        );
        proof {
            let tr = pair_token(*board, row as int, col as int, dr as int, dc as int, token);
            assert(dr * (1 + tr) == dr + dr * tr) by (nonlinear_arith);
            assert(dc * (1 + tr) == dc + dc * tr) by (nonlinear_arith);
        }
        (player_length, possible_length)
    }

    /// The heuristic rating the anchor cell `(row, col)` holding `token`
    /// contributes: for each of the four axes through it, when the reach on
    /// both sides leaves room to complete four in a row, the weight keyed by
    /// the aligned tokens already on that axis, the whole sum scaled by
    /// `-turn`.  All inspected cells are marked visited.
    pub fn get_rating(
        &self,
        row: i32,
        col: i32,
        token: Cell,
        visited: &mut Vec<bool>,
        board: &Board,
        turn: i32,
    ) -> (r: i32)
        requires
            board.wf(),
            old(visited)@.len() == 42,
            0 <= row <= 5,
            0 <= col <= 6,
            turn == 0 || turn == 1,
        ensures
            r == spec_cell_rating(*board, row as int, col as int, token, turn as int),
            turn == 0 ==> r == 0,
            -4000 <= r <= 0,
            marks_grow(old(visited)@, final(visited)@),
            final(visited)@ == mark_rating(
                *board,
                old(visited)@,
                row as int,
                col as int,
                token,
            ),
    {
        let mut rating: i32 = 0;
        let p0 = self.get_length_pair(row, col, 1, 0, token, visited, board);
        let n0 = self.get_length_pair(row, col, -1, 0, token, visited, board);
        if p0.1 + n0.1 >= 3 {
            rating = rating + (0 - turn) * line_weight(p0.0 + n0.0);
        }
        let p1 = self.get_length_pair(row, col, 1, 1, token, visited, board);
        let n1 = self.get_length_pair(row, col, -1, -1, token, visited, board);
        if p1.1 + n1.1 >= 3 {
            rating = rating + (0 - turn) * line_weight(p1.0 + n1.0);
        }
        let p2 = self.get_length_pair(row, col, 0, 1, token, visited, board);
        let n2 = self.get_length_pair(row, col, 0, -1, token, visited, board);
        if p2.1 + n2.1 >= 3 {
            rating = rating + (0 - turn) * line_weight(p2.0 + n2.0);
        }
        let p3 = self.get_length_pair(row, col, -1, 1, token, visited, board);
        let n3 = self.get_length_pair(row, col, 1, -1, token, visited, board);
        if p3.1 + n3.1 >= 3 {
            rating = rating + (0 - turn) * line_weight(p3.0 + n3.0);
        }
        rating
    }

    /// The line-potential heuristic of the whole position: the sum of the
    /// ratings of every occupied cell not already visited by an earlier
    /// cell's counting passes, walking the grid row by row.  The `-turn`
    /// scaling makes the total `0` whenever it is the searching side's turn
    /// at the cutoff, and non-positive otherwise.
    pub fn linked_row_strength(&self, board: &Board, turn: i32) -> (r: i32)
        requires
            board.wf(),
            turn == 0 || turn == 1,
        ensures
            r == spec_strength(*board, turn as int),
            turn == 0 ==> r == 0,
            -168000 <= r <= 0,
    {
        let mut total: i32 = 0;
        let mut visited: Vec<bool> = Vec::new();
        let mut i: usize = 0;
        while i < 42
            invariant
                i <= 42,
                visited@.len() == i,
                forall|k: int| 0 <= k < i ==> visited@[k] == false,
            decreases 42 - i,
        {
            visited.push(false);
            i = i + 1;
        }
        proof {
            assert(visited@ =~= spec_scan(*board, turn as int, 0).1);
        }
        let mut row: usize = 0;
        while row < 6
            invariant
                board.wf(),
                turn == 0 || turn == 1,
                row <= 6,
                visited@.len() == 42,
                -4000 * 7 * row <= total <= 0,
                turn == 0 ==> total == 0,
                total == spec_scan(*board, turn as int, (row * 7) as nat).0,
                visited@ == spec_scan(*board, turn as int, (row * 7) as nat).1,
            decreases 6 - row,
        {
            let mut col: usize = 0;
            while col < 7
                invariant
                    board.wf(),
                    turn == 0 || turn == 1,
                    row < 6,
                    col <= 7,
                    visited@.len() == 42,
                    -4000 * 7 * row - 4000 * col <= total <= 0,
                    turn == 0 ==> total == 0,
                    total == spec_scan(*board, turn as int, (row * 7 + col) as nat).0,
                    visited@ == spec_scan(*board, turn as int, (row * 7 + col) as nat).1,
                decreases 7 - col,
            {
                proof {
                    assert(-4000 * 7 * (row as int) >= -4000 * 7 * 5) by (nonlinear_arith)
                        requires
                            0 <= row <= 5,
                    ;
                }
                if !visited[row * 7 + col] {
                    let token = board.get(row, col);
                    if token != Cell::Empty {
                        let rating = self.get_rating(
                            row as i32,
                            col as i32,
                            token,
                            &mut visited,
                            board,
                            turn,
                        );
                        total = total + rating;
                    }
                }
                visited.set(row * 7 + col, true);
                proof {
                    let k = (row * 7 + col) as int;
                    assert(k / 7 == row && k % 7 == col) by (nonlinear_arith)
                        requires
                            0 <= col < 7,
                            0 <= row,
                            k == row * 7 + col,
                    ;
                    assert(total == spec_scan(*board, turn as int, (k + 1) as nat).0);
                    assert(visited@ == spec_scan(*board, turn as int, (k + 1) as nat).1);
                }
                col = col + 1;
            }
            proof {
                assert(-4000 * 7 * ((row + 1) as int) == -4000 * 7 * (row as int) - 4000 * 7)
                    by (nonlinear_arith);
            }
            row = row + 1;
        }
        total
    }

    /// Scores the current position for the node at `depth` where side `turn`
    /// is to move, returning the sentinel "no move" marker `-1` and the
    /// score.  A position the opponent of side 0 just won scores very
    /// negatively (less so the deeper), one side 0 just won very positively;
    /// a full board with no winner scores `0`; otherwise the line-potential
    /// heuristic is consulted.
    pub fn evaluate(&self, board: &Board, depth: usize, turn: i32) -> (r: (i32, i32))
        requires
            board.wf(),
            depth <= i32::MAX,
            turn == 0 || turn == 1,
        ensures
            r.0 == -1,
            spec_someone_won(*board) ==> r.1 == if turn == 0 {
                depth - i32::MAX
            } else {
                i32::MAX - depth
            },
            !spec_someone_won(*board) && board.empty_cells == 0 ==> r.1 == 0,
            !spec_someone_won(*board) && board.empty_cells != 0 ==> {
                &&& r.1 == spec_strength(*board, turn as int)
                &&& turn == 0 ==> r.1 == 0
                &&& -168000 <= r.1 <= 0
            },
    {
        if board.someone_won() {
            if turn == 0 {
                return (-1, (depth as i32) - i32::MAX);
            } else {
                return (-1, i32::MAX - (depth as i32));
            }
        }
        if board.is_filled() {
            return (-1, 0);
        }
        (-1, self.linked_row_strength(board, turn))
    }

    /// The position of the first maximal element of `vec`.
    pub fn get_max_index(&self, vec: &Vec<i32>) -> (r: usize)
        requires
            vec@.len() > 0,
        ensures
            r < vec@.len(),
            forall|j: int| 0 <= j < vec@.len() ==> vec@[j] <= vec@[r as int],
            forall|j: int| 0 <= j < r ==> vec@[j] < vec@[r as int],
    {
        let mut max_index: usize = 0;
        let mut index: usize = 1;
        while index < vec.len()
            invariant
                max_index < index <= vec@.len(),
                forall|j: int| 0 <= j < index ==> vec@[j] <= vec@[max_index as int],
                forall|j: int| 0 <= j < max_index ==> vec@[j] < vec@[max_index as int],
            decreases vec@.len() - index,
        {
            if vec[index] > vec[max_index] {
                max_index = index;
            }
            index = index + 1;
        }
        max_index
    }

    /// The position of the first minimal element of `vec`.
    pub fn get_min_index(&self, vec: &Vec<i32>) -> (r: usize)
        requires
            vec@.len() > 0,
        ensures
            r < vec@.len(),
            forall|j: int| 0 <= j < vec@.len() ==> vec@[j] >= vec@[r as int],
            forall|j: int| 0 <= j < r ==> vec@[j] > vec@[r as int],
    {
        let mut min_index: usize = 0;
        let mut index: usize = 1;
        while index < vec.len()
            invariant
                min_index < index <= vec@.len(),
                forall|j: int| 0 <= j < index ==> vec@[j] >= vec@[min_index as int],
                forall|j: int| 0 <= j < min_index ==> vec@[j] > vec@[min_index as int],
            decreases vec@.len() - index,
        {
            if vec[index] < vec[min_index] {
                min_index = index;
            }
            index = index + 1;
        }
        min_index
    }

    /// The best score seen so far and its position: the first maximum of
    /// `scores` for the maximizing side (`turn == 0`), the first minimum for
    /// the minimizing side.
    pub fn get_best_move(&self, scores: &Vec<i32>, turn: i32) -> (r: (i32, usize))
        requires
            scores@.len() > 0,
            turn == 0 || turn == 1,
        ensures
            r.1 < scores@.len(),
            r.0 == scores@[r.1 as int],
            turn == 0 ==> forall|j: int| 0 <= j < scores@.len() ==> scores@[j] <= r.0,
            turn == 1 ==> forall|j: int| 0 <= j < scores@.len() ==> scores@[j] >= r.0,
            turn == 0 ==> forall|j: int| 0 <= j < r.1 ==> scores@[j] < r.0,
            turn == 1 ==> forall|j: int| 0 <= j < r.1 ==> scores@[j] > r.0,
    {
        if turn == 0 {
            let max_index = self.get_max_index(scores);
            (scores[max_index], max_index)
        } else {
            let min_index = self.get_min_index(scores);
            (scores[min_index], min_index)
        }
    }

    /// Depth-limited minimax with alpha-beta pruning over the shared board.
    /// Side 0 places the searching player's token and maximizes, side 1
    /// places the opponent's and minimizes; candidate columns are tried in
    /// center-out order and every placement is undone after its subtree is
    /// scored, so the caller gets its grid, cursors and empty count back
    /// exactly as they were.  Returns the chosen column — at a maximizing
    /// decision node a column that still has room; `-1` elsewhere — and the
    /// bound value reached.  At a full-window maximizing node where some
    /// column would complete four in a row, the search returns such a
    /// column, scored as a win found one move deep.
    #[verifier::rlimit(60)]
    pub fn minimax(
        &self,
        board: &mut Board,
        turn: i32,
        alpha: i32,
        beta: i32,
        depth: usize,
        search_limit: usize,
    ) -> (r: (i32, i32))
        requires
            old(board).wf(),
            self.wf(),
            turn == 0 || turn == 1,
            depth <= i32::MAX,
            search_limit < i32::MAX,
        ensures
            final(board).wf(),
            final(board).cells@ == old(board).cells@,
            final(board).next_empty_row@ == old(board).next_empty_row@,
            final(board).empty_cells == old(board).empty_cells,
            turn == 0 && !search_cut_off(*old(board), depth as int, search_limit as int) ==> 0
                <= r.0 < 7 && old(board).cursor(r.0 as int) >= 0,
            turn == 1 ==> r.0 == -1,
            !search_cut_off(*old(board), depth as int, search_limit as int) ==> (turn == 0
                ==> r.1 >= alpha) && (turn == 1 ==> r.1 <= beta),
            search_cut_off(*old(board), depth as int, search_limit as int) ==> {
                &&& r.0 == -1
                &&& spec_someone_won(*old(board)) ==> r.1 == if turn == 0 {
                    depth - i32::MAX
                } else {
                    i32::MAX - depth
                }
                &&& !spec_someone_won(*old(board)) && old(board).empty_cells == 0 ==> r.1 == 0
                &&& !spec_someone_won(*old(board)) && old(board).empty_cells != 0 ==> r.1 <= 0
            },
            !search_cut_off(*old(board), depth as int, search_limit as int) && turn == 0 ==> r.1
                <= int_max(alpha as int, int_max(0, i32::MAX - depth - 1)),
            !search_cut_off(*old(board), depth as int, search_limit as int) && turn == 1 ==> r.1
                <= int_max(alpha as int, int_max(0, i32::MAX - depth - 2)),
            (!search_cut_off(*old(board), depth as int, search_limit as int)
                && full_window_max_node(turn as int, alpha as int, beta as int, depth as int)
                && (exists|c: int|
                completes_four(*old(board), c, self.token))) ==> r.1 == i32::MAX - depth - 1
                && completes_four(*old(board), r.0 as int, self.token),
        decreases (if depth <= search_limit {
            search_limit + 1 - depth
        } else {
            0
        }),
    {
        let over = board.is_over();
        if over || depth > search_limit {
            return self.evaluate(board, depth, turn);
        }
        let ghost b0 = *board;
        proof {
            crate::board::lemma_wf_empty_count_bounds(b0);
        }
        let available_moves = board.available_moves();
        let mut moves: Vec<usize> = Vec::new();
        let mut scores: Vec<i32> = Vec::new();
        let mut cur_alpha = alpha;
        let mut cur_beta = beta;
        let mut best_move: i32 = -1;
        let mut idx: usize = 0;
        while idx < available_moves.len()
            invariant_except_break
                self.wf(),
                turn == 0 || turn == 1,
                depth <= search_limit,
                search_limit < i32::MAX,
                board.wf(),
                board.cells@ == b0.cells@,
                board.next_empty_row@ == b0.next_empty_row@,
                board.empty_cells == b0.empty_cells,
                b0.wf(),
                idx <= available_moves@.len(),
                forall|i: int|
                    0 <= i < available_moves@.len() ==> (#[trigger] available_moves@[i]) < 7
                        && b0.cursor(available_moves@[i] as int) >= 0,
                scores@.len() == idx,
                moves@.len() == idx,
                forall|i: int|
                    0 <= i < moves@.len() ==> (#[trigger] moves@[i]) < 7 && b0.cursor(
                        moves@[i] as int,
                    ) >= 0,
                turn == 0 && idx > 0 ==> 0 <= best_move < 7 && b0.cursor(best_move as int) >= 0,
                turn == 1 ==> best_move == -1,
                turn == 0 ==> cur_alpha >= alpha,
                turn == 1 ==> cur_beta <= beta,
                turn == 1 ==> cur_alpha == alpha,
                turn == 0 ==> cur_beta == beta,
                turn == 0 ==> cur_alpha <= int_max(
                    alpha as int,
                    int_max(0, i32::MAX - depth - 1),
                ),
                turn == 0 ==> forall|i: int|
                    0 <= i < idx ==> (#[trigger] scores@[i]) <= int_max(
                        alpha as int,
                        int_max(0, i32::MAX - depth - 1),
                    ),
                turn == 1 && idx > 0 ==> scores@[0] <= int_max(
                    alpha as int,
                    int_max(0, i32::MAX - depth - 2),
                ),
                turn == 1 && idx > 0 ==> cur_beta <= int_max(
                    alpha as int,
                    int_max(0, i32::MAX - depth - 2),
                ),
                forall|i: int| 0 <= i < idx ==> #[trigger] moves@[i] == available_moves@[i],
                turn == 0 && idx == 0 ==> cur_alpha == alpha,
                turn == 0 ==> forall|i: int| 0 <= i < idx ==> (#[trigger] scores@[i]) <= cur_alpha,
                turn == 0 && alpha == i32::MIN && idx > 0 ==> exists|i: int|
                    0 <= i < idx && #[trigger] scores@[i] == cur_alpha,
                full_window_max_node(turn as int, alpha as int, beta as int, depth as int)
                    ==> forall|i: int|
                    (0 <= i < idx && (#[trigger] scores@[i]) >= i32::MAX - depth - 1 && (forall|
                        j: int,
                    | 0 <= j < i ==> scores@[j] < scores@[i])) ==> completes_four(
                        b0,
                        moves@[i] as int,
                        self.token,
                    ),
                full_window_max_node(turn as int, alpha as int, beta as int, depth as int)
                    ==> forall|i: int|
                    0 <= i < idx && completes_four(b0, #[trigger] moves@[i] as int, self.token)
                        ==> scores@[i] == i32::MAX - depth - 1,
                full_window_max_node(turn as int, alpha as int, beta as int, depth as int) && idx
                    > 0 ==> exists|i: int|
                    0 <= i < idx && #[trigger] moves@[i] == best_move as usize && scores@[i]
                        == cur_alpha && (forall|j: int| 0 <= j < i ==> scores@[j] < scores@[i]),
            ensures
                board.wf(),
                board.cells@ == b0.cells@,
                board.next_empty_row@ == b0.next_empty_row@,
                board.empty_cells == b0.empty_cells,
                idx <= available_moves@.len(),
                scores@.len() == idx,
                moves@.len() == idx,
                turn == 0 && idx > 0 ==> 0 <= best_move < 7 && b0.cursor(best_move as int) >= 0,
                turn == 1 ==> best_move == -1,
                turn == 0 ==> cur_alpha >= alpha,
                turn == 1 ==> cur_beta <= beta,
                turn == 0 ==> cur_alpha <= int_max(
                    alpha as int,
                    int_max(0, i32::MAX - depth - 1),
                ),
                turn == 1 && idx > 0 ==> cur_beta <= int_max(
                    alpha as int,
                    int_max(0, i32::MAX - depth - 2),
                ),
                forall|i: int| 0 <= i < idx ==> #[trigger] moves@[i] == available_moves@[i],
                turn == 0 ==> forall|i: int| 0 <= i < idx ==> (#[trigger] scores@[i]) <= cur_alpha,
                full_window_max_node(turn as int, alpha as int, beta as int, depth as int)
                    ==> forall|i: int|
                    (0 <= i < idx && (#[trigger] scores@[i]) >= i32::MAX - depth - 1 && (forall|
                        j: int,
                    | 0 <= j < i ==> scores@[j] < scores@[i])) ==> completes_four(
                        b0,
                        moves@[i] as int,
                        self.token,
                    ),
                full_window_max_node(turn as int, alpha as int, beta as int, depth as int)
                    ==> forall|i: int|
                    0 <= i < idx && completes_four(b0, #[trigger] moves@[i] as int, self.token)
                        ==> scores@[i] == i32::MAX - depth - 1,
                full_window_max_node(turn as int, alpha as int, beta as int, depth as int) && idx
                    > 0 ==> exists|i: int|
                    0 <= i < idx && #[trigger] moves@[i] == best_move as usize && scores@[i]
                        == cur_alpha && (forall|j: int| 0 <= j < i ==> scores@[j] < scores@[i]),
                full_window_max_node(turn as int, alpha as int, beta as int, depth as int) ==> idx
                    == available_moves@.len(),
                available_moves@.len() > 0 ==> idx > 0,
            decreases available_moves@.len() - idx,
        {
            let ghost b_pre = *board;
            let col = available_moves[idx];
            let tok = if turn == 0 {
                self.token
            } else {
                get_other_token(self.token)
            };
            let _placed = board.put(col, tok);
            let ghost p_state = *board;
            let ghost alpha_pre = cur_alpha;
            let ghost scores_pre = scores@;
            let rec = self.minimax(board, 1 - turn, cur_alpha, cur_beta, depth + 1, search_limit);
            let score = rec.1;
            moves.push(col);
            scores.push(score);
            proof {
                if full_window_max_node(turn as int, alpha as int, beta as int, depth as int) {
                    crate::board::lemma_drop_win_is_completes_four(b0, p_state, col as int, tok);
                    if completes_four(b0, col as int, self.token) {
                        assert(spec_someone_won(p_state));
                        assert(score == i32::MAX - depth - 1);
                    } else {
                        assert(!spec_someone_won(p_state));
                        if search_cut_off(p_state, depth as int + 1, search_limit as int) {
                            assert(score <= 0);
                        } else {
                            assert(score <= int_max(
                                alpha_pre as int,
                                int_max(0, i32::MAX - depth - 3),
                            ));
                        }
                    }
                }
            }
            if turn == 0 {
                let best = self.get_best_move(&scores, 0);
                best_move = moves[best.1] as i32;
                if best.0 > cur_alpha {
                    cur_alpha = best.0;
                }
                proof {
                    if alpha == i32::MIN {
                        if idx > 0 {
                            let w = choose|i: int|
                                0 <= i < idx && #[trigger] scores_pre[i] == alpha_pre;
                            assert(scores@[w] == scores_pre[w]);
                            assert(scores@[w] <= best.0);
                        }
                        assert(best.0 >= alpha_pre);
                        assert(cur_alpha == best.0);
                        assert(scores@[best.1 as int] == cur_alpha);
                    }
                }
            } else {
                let best = self.get_best_move(&scores, 1);
                if best.0 < cur_beta {
                    cur_beta = best.0;
                }
            }
            proof {
                crate::board::lemma_place_then_undo(b_pre, col as int, tok);
            }
            let _removed = board.remove(col);
            proof {
                assert(board.cells@ == b_pre.cells@);
                assert(board.next_empty_row@ == b_pre.next_empty_row@);
            }
            proof {
                if full_window_max_node(turn as int, alpha as int, beta as int, depth as int) {
                    assert(scores@[idx as int] == score);
                    assert(moves@[idx as int] == col);
                    if score >= i32::MAX - depth - 1 && (forall|j: int|
                        0 <= j < idx ==> scores@[j] < score) {
                        if idx > 0 {
                            let w = choose|i: int|
                                0 <= i < idx && #[trigger] scores_pre[i] == alpha_pre;
                            assert(scores@[w] == scores_pre[w]);
                        }
                        assert(alpha_pre < score);
                        assert(completes_four(b0, col as int, self.token));
                    }
                    assert forall|i: int|
                        (0 <= i < idx + 1 && (#[trigger] scores@[i]) >= i32::MAX - depth - 1 && (
                        forall|j: int|
                            0 <= j < i ==> scores@[j] < scores@[i])) implies completes_four(
                        b0,
                        moves@[i] as int,
                        self.token,
                    ) by {
                        if i < idx {
                            assert(scores_pre[i] == scores@[i] && scores_pre[i] >= i32::MAX - depth
                                - 1);
                            assert forall|j: int| 0 <= j < i implies scores_pre[j] < scores_pre[i] by {
                                assert(scores@[j] == scores_pre[j]);
                            }
                        }
                    }
                }
            }
            idx = idx + 1;
            if cur_alpha >= cur_beta {
                proof {
                    if full_window_max_node(turn as int, alpha as int, beta as int, depth as int) {
                        assert(cur_beta == beta);
                        assert(false);
                    }
                }
                break ;
            }
        }
        proof {
            if full_window_max_node(turn as int, alpha as int, beta as int, depth as int) && (
            exists|c: int| completes_four(b0, c, self.token)) {
                let c = choose|c: int| completes_four(b0, c, self.token);
                assert(available_moves@.contains(c as usize));
                let j = choose|j: int|
                    0 <= j < available_moves@.len() && #[trigger] available_moves@[j] == c
                        as usize;
                assert(completes_four(b0, moves@[j] as int, self.token));
                assert(scores@[j] == i32::MAX - depth - 1);
                assert(cur_alpha == i32::MAX - depth - 1);
                let i = choose|i: int|
                    0 <= i < idx && #[trigger] moves@[i] == best_move as usize && scores@[i]
                        == cur_alpha && (forall|j2: int| 0 <= j2 < i ==> scores@[j2] < scores@[i]);
                assert(completes_four(b0, moves@[i] as int, self.token));
                assert(best_move as int == moves@[i] as int);
            }
        }
        if turn == 0 {
            (best_move, cur_alpha)
        } else {
            (best_move, cur_beta)
        }
    }

    /// Decides and applies the computer's move: searches with the adaptive
    /// depth-limit policy — the opening limit while many cells are empty,
    /// the deeper endgame limit once few are — and drops the searching
    /// player's token in the column the search chose.  The game must not be
    /// over yet; exactly one token is added, at the top of a column that had
    /// room, and whenever some column would complete four in a row for this
    /// player, the move played wins the game on the spot.
    pub fn play_move(&self, board: &mut Board) -> (r: bool)
        requires
            old(board).wf(),
            self.wf(),
            old(board).empty_cells != 0,
            !spec_someone_won(*old(board)),
        ensures
            r == true,
            final(board).wf(),
            final(board).empty_cells == old(board).empty_cells - 1,
            exists|c: int|
                0 <= c < 7 && #[trigger] old(board).cursor(c) >= 0 && final(board).cells@ == old(
                    board,
                ).cells@.update(old(board).cursor(c) * 7 + c, self.token),
            (exists|c: int| completes_four(*old(board), c, self.token)) ==> spec_someone_won(
                *final(board),
            ),
    {
        let best_move: i32;
        if board.num_of_empty_spots() > ENDGAME_EMPTY_THRESHOLD {
            let rec = self.minimax(board, 0, i32::MIN, i32::MAX, 1, OPENING_SEARCH_LIMIT);
            best_move = rec.0;
        } else {
            let rec = self.minimax(board, 0, i32::MIN, i32::MAX, 1, ENDGAME_SEARCH_LIMIT);
            best_move = rec.0;
        }
        let col = best_move as usize;
        let ghost before_put = *board;
        let placed = board.put(col, self.token);
        proof {
            if exists|c: int| completes_four(*old(board), c, self.token) {
                assert(completes_four(*old(board), col as int, self.token));
                assert(completes_four(before_put, col as int, self.token));
                crate::board::lemma_drop_win_is_completes_four(
                    before_put,
                    *board,
                    col as int,
                    self.token,
                );
            }
        }
        proof {
            assert(0 <= (col as int) && (col as int) < 7 && old(board).cursor(col as int) >= 0
                && board.cells@ == old(board).cells@.update(
                old(board).cursor(col as int) * 7 + col as int,
                self.token,
            ));
        }
        placed
    }
}

} // verus!
