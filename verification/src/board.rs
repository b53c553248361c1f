use vstd::prelude::*;

verus! {

/// Number of rows in the grid; row 0 is the top row, row 5 the bottom row.
pub const HEIGHT: usize = 6;
/// Number of columns in the grid.
pub const WIDTH: usize = 7;

/// One cell of the grid: empty, or holding one of the two players' tokens.
#[derive(Clone, Copy, PartialEq, Eq, Structural, Debug)]
pub enum Cell {
    Empty,
    X,
    O,
}

/// The 6 x 7 Connect Four grid with per-column fill cursors, the coordinates
/// of the most recent placement, and an exact count of empty cells.
///
/// The grid is stored row-major: the cell at `(row, col)` lives at index
/// `row * 7 + col`, rows counted from the top.  `next_empty_row[col]` is the
/// row the next token dropped into `col` will land on, or `-1` when the
/// column is full; tokens stack upward from row 5.
pub struct Board {
    pub cells: Vec<Cell>,
    pub next_empty_row: Vec<i32>,
    pub last_move_row: i32,
    pub last_move_col: i32,
    pub empty_cells: i32,
}

pub open spec fn in_range(row: int, col: int) -> bool {
    0 <= row < 6 && 0 <= col < 7
}

/// Total number of empty cells implied by the fill cursors of the first `n`
/// columns: a cursor at row `r` means rows `0..=r` of that column are empty.
pub open spec fn empties_up_to(cursors: Seq<i32>, n: int) -> int
    decreases n,
{
    if n <= 0 {
        0
    } else {
        empties_up_to(cursors, n - 1) + cursors[n - 1] + 1
    }
}

/// True iff the `i`-th cell stepped to from `(row, col)` in direction
/// `(dr, dc)` is inside the grid and holds `t`.
pub open spec fn dir_match(b: Board, row: int, col: int, dr: int, dc: int, t: Cell, i: int) -> bool {
    in_range(row + dr * i, col + dc * i) && b.spec_cell(row + dr * i, col + dc * i) == t
}

/// The number of consecutive cells holding `t` when stepping away from
/// `(row, col)` in direction `(dr, dc)`, capped at four: the run length on
/// one side of an anchor cell.
pub open spec fn run_count(b: Board, row: int, col: int, dr: int, dc: int, t: Cell) -> int {
    if !dir_match(b, row, col, dr, dc, t, 1) {
        0
    } else if !dir_match(b, row, col, dr, dc, t, 2) {
        1
    } else if !dir_match(b, row, col, dr, dc, t, 3) {
        2
    } else if !dir_match(b, row, col, dr, dc, t, 4) {
        3
    } else {
        4
    }
}

/// The horizontal runs of `t` on either side of `(row, col)` span at least
/// three further cells: with the anchor that is four in a row.
pub open spec fn spec_won_by_row(b: Board, row: int, col: int, t: Cell) -> bool {
    run_count(b, row, col, 0, -1, t) + run_count(b, row, col, 0, 1, t) >= 3
}

/// The vertical runs of `t` on either side of `(row, col)` span at least
/// three further cells.
pub open spec fn spec_won_by_col(b: Board, row: int, col: int, t: Cell) -> bool {
    run_count(b, row, col, -1, 0, t) + run_count(b, row, col, 1, 0, t) >= 3
}

/// The runs of `t` along the top-left to bottom-right diagonal through
/// `(row, col)` span at least three further cells.
pub open spec fn spec_won_by_major_diagonal(b: Board, row: int, col: int, t: Cell) -> bool {
    run_count(b, row, col, -1, -1, t) + run_count(b, row, col, 1, 1, t) >= 3
}

/// The runs of `t` along the bottom-left to top-right diagonal through
/// `(row, col)` span at least three further cells.
pub open spec fn spec_won_by_minor_diagonal(b: Board, row: int, col: int, t: Cell) -> bool {
    run_count(b, row, col, -1, 1, t) + run_count(b, row, col, 1, -1, t) >= 3
}

/// A run of four or more equal tokens passes through the recorded last move
/// along one of the four axes.
pub open spec fn spec_someone_won(b: Board) -> bool {
    &&& !(b.last_move_row == -1 || b.last_move_col == -1)
    &&& {
        let row = b.last_move_row as int;
        let col = b.last_move_col as int;
        let t = b.spec_cell(row, col);
        spec_won_by_row(b, row, col, t) || spec_won_by_col(b, row, col, t)
            || spec_won_by_major_diagonal(b, row, col, t) || spec_won_by_minor_diagonal(
            b,
            row,
            col,
            t,
        )
    }
}

/// The column tried at position `k` of the center-out move order: the center
/// column first, then its neighbours alternating outward.
pub open spec fn center_out_col_spec(k: int) -> int {
    if k == 0 {
        3
    } else if k == 1 {
        2
    } else if k == 2 {
        4
    } else if k == 3 {
        1
    } else if k == 4 {
        5
    } else if k == 5 {
        0
    } else {
        6
    }
}

/// The position of column `c` in the center-out move order; the inverse of
/// `center_out_col_spec` on `0..7`.
pub open spec fn center_out_rank(c: int) -> int {
    if c == 3 {
        0
    } else if c == 2 {
        1
    } else if c == 4 {
        2
    } else if c == 1 {
        3
    } else if c == 5 {
        4
    } else if c == 0 {
        5
    } else if c == 6 {
        6
    } else {
        7
    }
}

/// The column tried at position `k` of the center-out move order.
fn center_out_col(k: usize) -> (c: usize)
    requires
        k < 7,
    ensures
        c < 7,
        c as int == center_out_col_spec(k as int),
        center_out_rank(c as int) == k,
{
    if k == 0 {
        3
    } else if k == 1 {
        2
    } else if k == 2 {
        4
    } else if k == 3 {
        1
    } else if k == 4 {
        5
    } else if k == 5 {
        0
    } else {
        6
    }
}

/// Changing one cursor changes the implied number of empty cells by exactly
/// the difference between the new and the old cursor value.
proof fn lemma_empties_update(cursors: Seq<i32>, col: int, v: i32, n: int)
    requires
        0 <= col < cursors.len(),
        0 <= n <= cursors.len(),
    ensures
        empties_up_to(cursors.update(col, v), n) == if col < n {
            empties_up_to(cursors, n) + v - cursors[col]
        } else {
            empties_up_to(cursors, n)
        },
    decreases n,
{
    if n > 0 {
        lemma_empties_update(cursors, col, v, n - 1);
    }
}

/// With every cursor between `-1` and `5`, the implied number of empty cells
/// lies between `0` and `6 * n`, and each column contributes its own share.
proof fn lemma_empties_bounds(cursors: Seq<i32>, n: int)
    requires
        0 <= n <= cursors.len(),
        forall|c: int| 0 <= c < n ==> -1 <= #[trigger] cursors[c] <= 5,
    ensures
        0 <= empties_up_to(cursors, n) <= 6 * n,
        forall|c: int| 0 <= c < n ==> empties_up_to(cursors, n) >= #[trigger] cursors[c] + 1,
    decreases n,
{
    if n > 0 {
        lemma_empties_bounds(cursors, n - 1);
    }
}

/// When the implied number of empty cells is positive, some column has room.
proof fn lemma_empties_positive_open(cursors: Seq<i32>, n: int)
    requires
        0 <= n <= cursors.len(),
        forall|c: int| 0 <= c < n ==> -1 <= #[trigger] cursors[c] <= 5,
        empties_up_to(cursors, n) > 0,
    ensures
        exists|c: int| 0 <= c < n && #[trigger] cursors[c] >= 0,
    decreases n,
{
    if n > 0 && cursors[n - 1] < 0 {
        lemma_empties_positive_open(cursors, n - 1);
    }
}

/// When the implied number of empty cells is zero, every column is full.
proof fn lemma_no_empties_all_full(cursors: Seq<i32>, n: int)
    requires
        0 <= n <= cursors.len(),
        forall|c: int| 0 <= c < n ==> -1 <= #[trigger] cursors[c] <= 5,
        empties_up_to(cursors, n) == 0,
    ensures
        forall|c: int| 0 <= c < n ==> #[trigger] cursors[c] == -1,
    decreases n,
{
    if n > 0 {
        lemma_empties_bounds(cursors, n - 1);
        lemma_no_empties_all_full(cursors, n - 1);
    }
}

impl Board {
    /// The cell at `(row, col)` in the model of the grid.
    pub open spec fn spec_cell(self, row: int, col: int) -> Cell {
        self.cells@[row * 7 + col]
    }

    /// The fill cursor of `col`: the row of the next empty cell counting from
    /// the bottom, `-1` when the column is full.
    pub open spec fn cursor(self, col: int) -> int {
        self.next_empty_row@[col] as int
    }

    /// The recorded last move is either absent (both coordinates `-1`) or a
    /// coordinate pair inside the grid.
    pub open spec fn last_ok(self) -> bool {
        (self.last_move_row == -1 && self.last_move_col == -1)
            || (0 <= self.last_move_row < 6 && 0 <= self.last_move_col < 7)
    }

    /// Well-formedness: in every column the cells at or above the fill cursor
    /// are empty and the cells below it are occupied, and the empty-cell
    /// counter equals the number of empty cells the cursors account for.
    pub open spec fn wf(self) -> bool {
        &&& self.cells@.len() == 42
        &&& self.next_empty_row@.len() == 7
        &&& (forall|c: int| 0 <= c < 7 ==> -1 <= #[trigger] self.cursor(c) <= 5)
        &&& (forall|r: int, c: int|
            in_range(r, c) ==> ((#[trigger] self.spec_cell(r, c)) == Cell::Empty <==> r
                <= self.cursor(c)))
        &&& self.empty_cells == empties_up_to(self.next_empty_row@, 7)
        &&& self.last_ok()
    }

    /// A fresh, empty board.
    pub fn new() -> (b: Board)
        ensures
            b.wf(),
            forall|r: int, c: int| in_range(r, c) ==> b.spec_cell(r, c) == Cell::Empty,
            forall|c: int| 0 <= c < 7 ==> b.cursor(c) == 5,
            b.empty_cells == 42,
            b.last_move_row == -1,
            b.last_move_col == -1,
    {
        let mut cells: Vec<Cell> = Vec::new();
        let mut i: usize = 0;
        while i < 42
            invariant
                i <= 42,
                cells@.len() == i,
                forall|k: int| 0 <= k < i ==> cells@[k] == Cell::Empty,
            decreases 42 - i,
        {
            cells.push(Cell::Empty);
            i = i + 1;
        }
        let mut next_empty_row: Vec<i32> = Vec::new();
        let mut c: usize = 0;
        while c < 7
            invariant
                c <= 7,
                next_empty_row@.len() == c,
                forall|k: int| 0 <= k < c ==> next_empty_row@[k] == 5i32,
            decreases 7 - c,
        {
            next_empty_row.push(5);
            c = c + 1;
        }
        let b = Board {
            cells,
            next_empty_row,
            last_move_row: -1,
            last_move_col: -1,
            empty_cells: 42,
        };
        proof {
            reveal_with_fuel(empties_up_to, 8);
            assert(b.empty_cells == empties_up_to(b.next_empty_row@, 7));
        }
        b
    }

    /// Drops `token` into `col`.  Fails (returning `false`, with no mutation)
    /// when the column is full; otherwise occupies the cursor cell, records
    /// the move, advances the cursor toward the top and decrements the
    /// empty-cell counter.
    pub fn put(&mut self, col: usize, token: Cell) -> (r: bool)
        requires
            old(self).wf(),
            col < 7,
            token != Cell::Empty,
        ensures
            final(self).wf(),
            r == (old(self).cursor(col as int) >= 0),
            !r ==> *final(self) == *old(self),
            r ==> final(self).cells@ == old(self).cells@.update(
                old(self).cursor(col as int) * 7 + col,
                token,
            ),
            r ==> final(self).next_empty_row@ == old(self).next_empty_row@.update(
                col as int,
                (old(self).cursor(col as int) - 1) as i32,
            ),
            r ==> final(self).last_move_row == old(self).cursor(col as int),
            r ==> final(self).last_move_col == col,
            r ==> final(self).empty_cells == old(self).empty_cells - 1,
    {
        let row = self.next_empty_row[col];
        proof {
            assert(-1 <= old(self).cursor(col as int) <= 5);
        }
        if row == -1 {
            return false;
        }
        let idx = (row as usize) * 7 + col;
        self.cells.set(idx, token);
        self.last_move_row = row;
        self.last_move_col = col as i32;
        self.next_empty_row.set(col, row - 1);
        proof {
            assert forall|c: int| 0 <= c < 7 implies -1 <= #[trigger] old(
                self,
            ).next_empty_row@[c] <= 5 by {
                assert(-1 <= old(self).cursor(c) <= 5);
            }
            lemma_empties_bounds(old(self).next_empty_row@, 7);
            lemma_empties_update(old(self).next_empty_row@, col as int, (row - 1) as i32, 7);
        }
        self.empty_cells = self.empty_cells - 1;
        proof {
            assert forall|r: int, c: int| in_range(r, c) implies ((#[trigger] self.spec_cell(
                r,
                c,
            )) == Cell::Empty <==> r <= self.cursor(c)) by {
                assert(old(self).spec_cell(r, c) == Cell::Empty <==> r <= old(self).cursor(c));
            }
        }
        true
    }

    /// Removes the top token of `col`.  Fails (returning `false`) when there
    /// is nothing to remove; otherwise clears the cell just above the cursor,
    /// retreats the cursor and increments the empty-cell counter.  The
    /// recorded last move is left as it is.
    pub fn remove(&mut self, col: usize) -> (r: bool)
        requires
            old(self).wf(),
            col < 7,
        ensures
            final(self).wf(),
            r == (old(self).cursor(col as int) < 5),
            !r ==> *final(self) == *old(self),
            r ==> final(self).cells@ == old(self).cells@.update(
                (old(self).cursor(col as int) + 1) * 7 + col,
                Cell::Empty,
            ),
            r ==> final(self).next_empty_row@ == old(self).next_empty_row@.update(
                col as int,
                (old(self).cursor(col as int) + 1) as i32,
            ),
            r ==> final(self).last_move_row == old(self).last_move_row,
            r ==> final(self).last_move_col == old(self).last_move_col,
            r ==> final(self).empty_cells == old(self).empty_cells + 1,
    {
        proof {
            assert(-1 <= old(self).cursor(col as int) <= 5);
        }
        let row_i = self.next_empty_row[col] + 1;
        if row_i >= 6 {
            return false;
        }
        let row = row_i as usize;
        let idx = row * 7 + col;
        proof {
            assert(old(self).spec_cell(row as int, col as int) != Cell::Empty);
        }
        if self.cells[idx] == Cell::Empty {
            return false;
        }
        self.cells.set(idx, Cell::Empty);
        self.next_empty_row.set(col, row_i);
        proof {
            assert forall|c: int| 0 <= c < 7 implies -1 <= #[trigger] old(
                self,
            ).next_empty_row@[c] <= 5 by {
                assert(-1 <= old(self).cursor(c) <= 5);
            }
            lemma_empties_bounds(old(self).next_empty_row@, 7);
            lemma_empties_update(old(self).next_empty_row@, col as int, row_i as i32, 7);
        }
        self.empty_cells = self.empty_cells + 1;
        proof {
            assert forall|r: int, c: int| in_range(r, c) implies ((#[trigger] self.spec_cell(
                r,
                c,
            )) == Cell::Empty <==> r <= self.cursor(c)) by {
                assert(old(self).spec_cell(r, c) == Cell::Empty <==> r <= old(self).cursor(c));
            }
        }
        true
    }

    /// The cell at `(row, col)`, or `Empty` for any out-of-range coordinate,
    /// so that callers can probe neighbours without bounds checks.
    pub fn get(&self, row: usize, col: usize) -> (r: Cell)
        requires
            self.wf(),
        ensures
            r == if in_range(row as int, col as int) {
                self.spec_cell(row as int, col as int)
            } else {
                Cell::Empty
            },
    {
        if row < HEIGHT && col < WIDTH {
            self.cells[row * 7 + col]
        } else {
            Cell::Empty
        }
    }

    /// Number of empty cells left on the board.
    pub fn num_of_empty_spots(&self) -> (r: i32)
        ensures
            r == self.empty_cells,
    {
        self.empty_cells
    }

    /// The columns with room, in the center-out order in which `k` runs over
    /// `0..7`: every column that still has room appears, once, at the rank
    /// `center_out_rank` gives it.
    pub open spec fn avail_prefix(self, k: int) -> Seq<usize>
        decreases k,
    {
        if k <= 0 {
            Seq::empty()
        } else if self.cursor(center_out_col_spec(k - 1)) >= 0 {
            self.avail_prefix(k - 1) + seq![center_out_col_spec(k - 1) as usize]
        } else {
            self.avail_prefix(k - 1)
        }
    }

    /// The sequence `available_moves` returns: the columns with room, tried
    /// center column first, then alternating outward.
    pub open spec fn spec_available_moves(self) -> Seq<usize> {
        self.avail_prefix(7)
    }

    /// Every element of a center-out prefix is a column with room whose rank
    /// is below `k`, ranks are strictly increasing along the sequence, and
    /// every column with room and rank below `k` occurs in it.
    proof fn lemma_avail_prefix_props(self, k: int)
        requires
            self.wf(),
            0 <= k <= 7,
        ensures
            self.avail_prefix(k).len() <= k,
            forall|i: int|
                0 <= i < self.avail_prefix(k).len() ==> (#[trigger] self.avail_prefix(k)[i]) < 7
                    && self.cursor(self.avail_prefix(k)[i] as int) >= 0 && center_out_rank(
                    self.avail_prefix(k)[i] as int,
                ) < k,
            forall|i: int, j: int|
                0 <= i < j < self.avail_prefix(k).len() ==> center_out_rank(
                    self.avail_prefix(k)[i] as int,
                ) < center_out_rank(self.avail_prefix(k)[j] as int),
            forall|c: usize|
                c < 7 && self.cursor(c as int) >= 0 && center_out_rank(c as int) < k
                    ==> self.avail_prefix(k).contains(c),
        decreases k,
    {
        if k > 0 {
            self.lemma_avail_prefix_props(k - 1);
            assert forall|c: usize|
                c < 7 && self.cursor(c as int) >= 0 && center_out_rank(c as int)
                    < k implies self.avail_prefix(k).contains(c) by {
                if center_out_rank(c as int) < k - 1 {
                    assert(self.avail_prefix(k - 1).contains(c));
                    let i = choose|i: int|
                        0 <= i < self.avail_prefix(k - 1).len() && #[trigger] self.avail_prefix(
                            k - 1,
                        )[i] == c;
                    assert(self.avail_prefix(k - 1)[i] == c);
                    assert(self.avail_prefix(k)[i] == c);
                    assert(0 <= i < self.avail_prefix(k).len());
                } else {
                    assert(c as int == center_out_col_spec(k - 1));
                    assert(self.avail_prefix(k)[self.avail_prefix(k).len() - 1] == c);
                }
            }
        }
    }

    /// The columns that still have room, ordered center column first and then
    /// alternating outward — the strongest candidate moves come first, which
    /// is what makes alpha-beta pruning effective.
    pub fn available_moves(&self) -> (moves: Vec<usize>)
        requires
            self.wf(),
        ensures
            moves@ == self.spec_available_moves(),
            forall|i: int|
                0 <= i < moves@.len() ==> (#[trigger] moves@[i]) < 7 && self.cursor(
                    moves@[i] as int,
                ) >= 0,
            forall|i: int, j: int|
                0 <= i < j < moves@.len() ==> center_out_rank(moves@[i] as int) < center_out_rank(
                    moves@[j] as int,
                ),
            forall|c: usize| c < 7 && self.cursor(c as int) >= 0 ==> moves@.contains(c),
            self.empty_cells > 0 ==> moves@.len() > 0,
    {
        let mut moves: Vec<usize> = Vec::new();
        let mut k: usize = 0;
        while k < 7
            invariant
                self.wf(),
                k <= 7,
                moves@ == self.avail_prefix(k as int),
            decreases 7 - k,
        {
            let col = center_out_col(k);
            let cur = self.next_empty_row[col];
            proof {
                assert(self.cursor(col as int) == cur as int);
            }
            if cur >= 0 {
                moves.push(col);
                proof {
                    assert(moves@ =~= self.avail_prefix(k as int + 1));
                }
            }
            k = k + 1;
        }
        proof {
            self.lemma_avail_prefix_props(7);
            if self.empty_cells > 0 {
                assert forall|c: int| 0 <= c < 7 implies -1 <= #[trigger] self.next_empty_row@[c]
                    <= 5 by {
                    assert(-1 <= self.cursor(c) <= 5);
                }
                lemma_empties_positive_open(self.next_empty_row@, 7);
                let c = choose|c: int| 0 <= c < 7 && self.next_empty_row@[c] >= 0;
                assert(self.cursor(c) >= 0);
                assert(moves@.contains(c as usize));
            }
        }
        moves
    }

    /// Counts how many of the four cells stepped to from `(row, col)` in
    /// direction `(dr, dc)` hold `token`, stopping at the first cell that is
    /// out of range or holds something else — the run length away from the
    /// anchor, capped at four.
    pub fn count_by_direction(&self, row: usize, col: usize, dr: i32, dc: i32, token: Cell) -> (r:
        i32)
        requires
            self.wf(),
            row < 6,
            col < 7,
            -1 <= dr <= 1,
            -1 <= dc <= 1,
        ensures
            r == run_count(*self, row as int, col as int, dr as int, dc as int, token),
            0 <= r <= 4,
    {
        let row_i: i32 = row as i32;
        let col_i: i32 = col as i32;
        let mut count: i32 = 0;
        let mut i: i32 = 1;
        while i <= 4
            invariant_except_break
                self.wf(),
                row < 6,
                col < 7,
                -1 <= dr <= 1,
                -1 <= dc <= 1,
                row_i == row,
                col_i == col,
                1 <= i <= 5,
                count == i - 1,
                forall|j: int|
                    1 <= j < i ==> dir_match(
                        *self,
                        row as int,
                        col as int,
                        dr as int,
                        dc as int,
                        token,
                        j,
                    ),
            ensures
                count == run_count(*self, row as int, col as int, dr as int, dc as int, token),
            decreases 5 - i,
        {
            proof {
                assert(-4 <= dr * i <= 4 && -4 <= dc * i <= 4) by (nonlinear_arith)
                    requires
                        -1 <= dr <= 1,
                        -1 <= dc <= 1,
                        1 <= i <= 4,
                ;
            }
            let mr = row_i + dr * i;
            let mc = col_i + dc * i;
            if mr < 0 || mr >= 6 || mc < 0 || mc >= 7 {
                proof {
                    assert(!dir_match(
                        *self,
                        row as int,
                        col as int,
                        dr as int,
                        dc as int,
                        token,
                        i as int,
                    ));
                }
                break ;
            }
            if self.cells[(mr as usize) * 7 + (mc as usize)] == token {
                count = count + 1;
                i = i + 1;
            } else {
                proof {
                    assert(!dir_match(
                        *self,
                        row as int,
                        col as int,
                        dr as int,
                        dc as int,
                        token,
                        i as int,
                    ));
                }
                break ;
            }
        }
        count
    }

    /// True iff the runs of `token` to the left and to the right of
    /// `(row, col)` together span at least three further cells.
    pub fn won_by_row(&self, row: usize, col: usize, token: Cell) -> (r: bool)
        requires
            self.wf(),
            row < 6,
            col < 7,
        ensures
            r == spec_won_by_row(*self, row as int, col as int, token),
    {
        self.count_by_direction(row, col, 0, -1, token) + self.count_by_direction(
            row,
            col,
            0,
            1,
            token,
        ) >= 3
    }

    /// True iff the runs of `token` below and above `(row, col)` together
    /// span at least three further cells.
    pub fn won_by_col(&self, row: usize, col: usize, token: Cell) -> (r: bool)
        requires
            self.wf(),
            row < 6,
            col < 7,
        ensures
            r == spec_won_by_col(*self, row as int, col as int, token),
    {
        self.count_by_direction(row, col, -1, 0, token) + self.count_by_direction(
            row,
            col,
            1,
            0,
            token,
        ) >= 3
    }

    /// True iff the runs of `token` along the top-left to bottom-right
    /// diagonal through `(row, col)` together span at least three further
    /// cells.
    pub fn won_by_major_diagonal(&self, row: usize, col: usize, token: Cell) -> (r: bool)
        requires
            self.wf(),
            row < 6,
            col < 7,
        ensures
            r == spec_won_by_major_diagonal(*self, row as int, col as int, token),
    {
        self.count_by_direction(row, col, -1, -1, token) + self.count_by_direction(
            row,
            col,
            1,
            1,
            token,
        ) >= 3
    }

    /// True iff the runs of `token` along the bottom-left to top-right
    /// diagonal through `(row, col)` together span at least three further
    /// cells.
    pub fn won_by_minor_diagonal(&self, row: usize, col: usize, token: Cell) -> (r: bool)
        requires
            self.wf(),
            row < 6,
            col < 7,
        ensures
            r == spec_won_by_minor_diagonal(*self, row as int, col as int, token),
    {
        self.count_by_direction(row, col, -1, 1, token) + self.count_by_direction(
            row,
            col,
            1,
            -1,
            token,
        ) >= 3
    }

    /// True iff the most recent placement completed a run of four or more
    /// equal tokens through its cell along one of the four axes.  False when
    /// no last move is recorded.  Win detection is anchored at the last move,
    /// so it is meaningful only while the recorded last move is the cell most
    /// recently placed.
    pub fn someone_won(&self) -> (r: bool)
        requires
            self.wf(),
        ensures
            r == spec_someone_won(*self),
    {
        if self.last_move_row == -1 || self.last_move_col == -1 {
            return false;
        }
        let row = self.last_move_row as usize;
        let col = self.last_move_col as usize;
        let token = self.cells[row * 7 + col];
        self.won_by_row(row, col, token) || self.won_by_col(row, col, token)
            || self.won_by_major_diagonal(row, col, token) || self.won_by_minor_diagonal(
            row,
            col,
            token,
        )
    }

    /// True iff the game is finished: the board is full or the last placement
    /// won.
    pub fn is_over(&self) -> (r: bool)
        requires
            self.wf(),
        ensures
            r == (self.empty_cells == 0 || spec_someone_won(*self)),
    {
        self.is_filled() || self.someone_won()
    }

    /// True iff every cell is occupied.
    pub fn is_filled(&self) -> (r: bool)
        ensures
            r == (self.empty_cells == 0),
    {
        self.empty_cells == 0
    }
}

/// True iff `(dr, dc)` is one of the four axes in its canonical orientation:
/// rightward, downward, down-right, down-left.
pub open spec fn axis_dir(dr: int, dc: int) -> bool {
    (dr == 0 && dc == 1) || (dr == 1 && dc == 0) || (dr == 1 && dc == 1) || (dr == 1 && dc == -1)
}

/// Four consecutive cells starting at `(row, col)` in direction `(dr, dc)`
/// are inside the grid and hold the same token.
pub open spec fn four_run_at(b: Board, row: int, col: int, dr: int, dc: int) -> bool {
    &&& b.spec_cell(row, col) != Cell::Empty
    &&& in_range(row, col)
    &&& forall|i: int|
        0 <= i < 4 ==> in_range(row + dr * i, col + dc * i) && #[trigger] b.spec_cell(
            row + dr * i,
            col + dc * i,
        ) == b.spec_cell(row, col)
}

/// Somewhere on the board four consecutive cells along one axis hold the
/// same token.
pub open spec fn has_four_run(b: Board) -> bool {
    exists|row: int, col: int, dr: int, dc: int|
        axis_dir(dr, dc) && #[trigger] four_run_at(b, row, col, dr, dc)
}

/// Inverse law: placing a token in a column with room and then removing the
/// top token of that column restores the exact prior grid, cursor array and
/// empty-cell count.  The conclusions spell out, over the state `put` leaves
/// behind, that `remove` succeeds and hands back the original board.
pub proof fn lemma_place_then_undo(b: Board, col: int, t: Cell)
    requires
        b.wf(),
        0 <= col < 7,
        b.cursor(col) >= 0,
        t != Cell::Empty,
    ensures
        ({
            let row = b.cursor(col);
            let cells_after_put = b.cells@.update(row * 7 + col, t);
            let cursors_after_put = b.next_empty_row@.update(col, (row - 1) as i32);
            &&& cursors_after_put[col] < 5
            &&& cells_after_put.update((cursors_after_put[col] + 1) * 7 + col, Cell::Empty)
                == b.cells@
            &&& cursors_after_put.update(col, (cursors_after_put[col] + 1) as i32)
                == b.next_empty_row@
        }),
{
    let row = b.cursor(col);
    let cells_after_put = b.cells@.update(row * 7 + col, t);
    let cursors_after_put = b.next_empty_row@.update(col, (row - 1) as i32);
    assert(b.spec_cell(row, col) == Cell::Empty);
    assert(cells_after_put.update(row * 7 + col, Cell::Empty) =~= b.cells@);
    assert(cursors_after_put.update(col, row as i32) =~= b.next_empty_row@);
}

/// A run of four through the recorded last move is detected: when four
/// consecutive cells along an axis hold one token and the last move is the
/// `k`-th of them, `someone_won` reports a win.
pub proof fn lemma_four_run_through_last_move_wins(b: Board, row: int, col: int, dr: int, dc: int, k: int)
    requires
        b.wf(),
        axis_dir(dr, dc),
        four_run_at(b, row, col, dr, dc),
        0 <= k < 4,
        b.last_move_row == row + dr * k,
        b.last_move_col == col + dc * k,
    ensures
        spec_someone_won(b),
{
    let lr = row + dr * k;
    let lc = col + dc * k;
    let t = b.spec_cell(row, col);
    assert(b.spec_cell(lr, lc) == t);
    assert forall|j: int| 1 <= j <= k implies #[trigger] dir_match(b, lr, lc, -dr, -dc, t, j) by {
        assert(b.spec_cell(row + dr * (k - j), col + dc * (k - j)) == t);
        assert(dr * (k - j) == dr * k - dr * j && (-dr) * j == -(dr * j)) by (nonlinear_arith);
        assert(dc * (k - j) == dc * k - dc * j && (-dc) * j == -(dc * j)) by (nonlinear_arith);
        assert(lr + (-dr) * j == row + dr * (k - j));
        assert(lc + (-dc) * j == col + dc * (k - j));
    }
    assert forall|j: int| 1 <= j <= 3 - k implies #[trigger] dir_match(b, lr, lc, dr, dc, t, j) by {
        assert(b.spec_cell(row + dr * (k + j), col + dc * (k + j)) == t);
        assert(dr * (k + j) == dr * k + dr * j) by (nonlinear_arith);
        assert(dc * (k + j) == dc * k + dc * j) by (nonlinear_arith);
        assert(lr + dr * j == row + dr * (k + j));
        assert(lc + dc * j == col + dc * (k + j));
    }
    assert(run_count(b, lr, lc, -dr, -dc, t) >= k);
    assert(run_count(b, lr, lc, dr, dc, t) >= 3 - k);
}

/// A detected win exhibits a run of four: when `someone_won` holds and the
/// cell of the last move is occupied, four consecutive equal cells lie along
/// one of the axes.
pub proof fn lemma_win_has_four_run(b: Board)
    requires
        b.wf(),
        spec_someone_won(b),
        b.spec_cell(b.last_move_row as int, b.last_move_col as int) != Cell::Empty,
    ensures
        has_four_run(b),
{
    let lr = b.last_move_row as int;
    let lc = b.last_move_col as int;
    let t = b.spec_cell(lr, lc);
    if spec_won_by_row(b, lr, lc, t) {
        lemma_runs_form_four_run(b, lr, lc, 0, 1, t);
    } else if spec_won_by_col(b, lr, lc, t) {
        lemma_runs_form_four_run(b, lr, lc, 1, 0, t);
    } else if spec_won_by_major_diagonal(b, lr, lc, t) {
        lemma_runs_form_four_run(b, lr, lc, 1, 1, t);
    } else {
        lemma_runs_form_four_run(b, lr, lc, 1, -1, t);
    }
}

/// When the runs on the two sides of an occupied anchor along one axis span
/// at least three further cells, a run of four consecutive equal cells
/// starts at the far end of the back run.
proof fn lemma_runs_form_four_run(b: Board, row: int, col: int, dr: int, dc: int, t: Cell)
    requires
        b.wf(),
        axis_dir(dr, dc),
        in_range(row, col),
        b.spec_cell(row, col) == t,
        t != Cell::Empty,
        run_count(b, row, col, -dr, -dc, t) + run_count(b, row, col, dr, dc, t) >= 3,
    ensures
        has_four_run(b),
{
    let nl = run_count(b, row, col, -dr, -dc, t);
    let start_r = row - dr * (if nl <= 3 { nl } else { 3 });
    let start_c = col - dc * (if nl <= 3 { nl } else { 3 });
    let m = if nl <= 3 { nl } else { 3 };
    assert forall|i: int| 0 <= i < 4 implies in_range(start_r + dr * i, start_c + dc * i)
        && #[trigger] b.spec_cell(start_r + dr * i, start_c + dc * i) == t by {
        assert(dr * (m - i) == dr * m - dr * i && (-dr) * (m - i) == -(dr * (m - i)))
            by (nonlinear_arith);
        assert(dc * (m - i) == dc * m - dc * i && (-dc) * (m - i) == -(dc * (m - i)))
            by (nonlinear_arith);
        assert(dr * (i - m) == dr * i - dr * m) by (nonlinear_arith);
        assert(dc * (i - m) == dc * i - dc * m) by (nonlinear_arith);
        if i < m {
            assert(dir_match(b, row, col, -dr, -dc, t, m - i));
            assert(start_r + dr * i == row + (-dr) * (m - i));
            assert(start_c + dc * i == col + (-dc) * (m - i));
        } else if i == m {
            assert(start_r + dr * i == row);
            assert(start_c + dc * i == col);
        } else {
            assert(dir_match(b, row, col, dr, dc, t, i - m));
            assert(start_r + dr * i == row + dr * (i - m));
            assert(start_c + dc * i == col + dc * (i - m));
        }
    }
    assert(b.spec_cell(start_r, start_c) == t) by {
        assert(start_r + dr * 0 == start_r && start_c + dc * 0 == start_c);
    }
    assert(four_run_at(b, start_r, start_c, dr, dc));
}

/// The number of empty cells in rows `0..r` of column `c` of the grid.
pub open spec fn col_empty_cells(b: Board, c: int, r: int) -> int
    decreases r,
{
    if r <= 0 {
        0
    } else {
        col_empty_cells(b, c, r - 1) + if b.spec_cell(r - 1, c) == Cell::Empty {
            1int
        } else {
            0int
        }
    }
}

/// The number of empty cells in the first `n` columns of the grid.
pub open spec fn grid_empty_cells(b: Board, n: int) -> int
    decreases n,
{
    if n <= 0 {
        0
    } else {
        grid_empty_cells(b, n - 1) + col_empty_cells(b, n - 1, 6)
    }
}

/// In a well-formed column the empty cells of the rows walked so far are
/// exactly those at or above the fill cursor.
proof fn lemma_col_empty_cells(b: Board, c: int, r: int)
    requires
        b.wf(),
        0 <= c < 7,
        0 <= r <= 6,
    ensures
        col_empty_cells(b, c, r) == if r <= b.cursor(c) + 1 {
            r
        } else {
            b.cursor(c) + 1
        },
    decreases r,
{
    if r > 0 {
        lemma_col_empty_cells(b, c, r - 1);
        assert(b.spec_cell(r - 1, c) == Cell::Empty <==> r - 1 <= b.cursor(c));
    }
}

/// The counter invariant, stated over the grid itself: on a well-formed
/// board the empty-cell counter equals the number of `Empty` cells.
pub proof fn lemma_empty_count_counts_grid(b: Board)
    requires
        b.wf(),
    ensures
        b.empty_cells == grid_empty_cells(b, 7),
{
    lemma_grid_empty_cells(b, 7);
}

/// Column by column, the grid's empty cells add up to what the cursors
/// imply.
proof fn lemma_grid_empty_cells(b: Board, n: int)
    requires
        b.wf(),
        0 <= n <= 7,
    ensures
        grid_empty_cells(b, n) == empties_up_to(b.next_empty_row@, n),
    decreases n,
{
    if n > 0 {
        lemma_grid_empty_cells(b, n - 1);
        lemma_col_empty_cells(b, n - 1, 6);
        assert(-1 <= b.cursor(n - 1) <= 5);
    }
}

/// On a well-formed board the empty-cell counter always lies between 0 and
/// 42: it counts exactly the placements still outstanding.
pub proof fn lemma_wf_empty_count_bounds(b: Board)
    requires
        b.wf(),
    ensures
        0 <= b.empty_cells <= 42,
{
    assert forall|c: int| 0 <= c < 7 implies -1 <= #[trigger] b.next_empty_row@[c] <= 5 by {
        assert(-1 <= b.cursor(c) <= 5);
    }
    lemma_empties_bounds(b.next_empty_row@, 7);
}

/// On a full well-formed board every cell is occupied.
pub proof fn lemma_filled_no_empty_cell(b: Board)
    requires
        b.wf(),
        b.empty_cells == 0,
    ensures
        forall|r: int, c: int| in_range(r, c) ==> #[trigger] b.spec_cell(r, c) != Cell::Empty,
{
    assert forall|c: int| 0 <= c < 7 implies -1 <= #[trigger] b.next_empty_row@[c] <= 5 by {
        assert(-1 <= b.cursor(c) <= 5);
    }
    lemma_no_empties_all_full(b.next_empty_row@, 7);
    assert forall|r: int, c: int| in_range(r, c) implies #[trigger] b.spec_cell(r, c)
        != Cell::Empty by {
        assert(b.next_empty_row@[c] == -1);
        assert(b.cursor(c) == -1);
    }
}

/// Dropping `t` into `col` would land on the fill cursor row and complete a
/// run of four through that cell along some axis.  The runs are measured on
/// the board as it stands: they never pass through the still-empty landing
/// cell, so they are the same before and after the drop.
pub open spec fn completes_four(b: Board, col: int, t: Cell) -> bool {
    &&& 0 <= col < 7
    &&& b.cursor(col) >= 0
    &&& {
        let row = b.cursor(col);
        spec_won_by_row(b, row, col, t) || spec_won_by_col(b, row, col, t)
            || spec_won_by_major_diagonal(b, row, col, t) || spec_won_by_minor_diagonal(
            b,
            row,
            col,
            t,
        )
    }
}

/// A run count away from `(row, col)` reads no cell at `(row, col)` itself,
/// so it is unchanged by an update of that one cell.
proof fn lemma_run_count_same(b: Board, after: Board, row: int, col: int, dr: int, dc: int, t: Cell)
    requires
        b.cells@.len() == 42,
        in_range(row, col),
        after.cells@ == b.cells@.update(row * 7 + col, t),
        -1 <= dr <= 1,
        -1 <= dc <= 1,
        !(dr == 0 && dc == 0),
    ensures
        run_count(after, row, col, dr, dc, t) == run_count(b, row, col, dr, dc, t),
{
    assert forall|i: int| 1 <= i <= 4 implies (dir_match(after, row, col, dr, dc, t, i)
        == dir_match(b, row, col, dr, dc, t, i)) by {
        assert(-4 <= dr * i <= 4 && -4 <= dc * i <= 4 && (dr != 0 ==> dr * i != 0) && (dc != 0
            ==> dc * i != 0)) by (nonlinear_arith)
            requires
                -1 <= dr <= 1,
                -1 <= dc <= 1,
                1 <= i <= 4,
        ;
        if in_range(row + dr * i, col + dc * i) {
            assert((row + dr * i) * 7 + (col + dc * i) != row * 7 + col);
        }
    }
}

/// What win detection sees right after a drop: the board after dropping `t`
/// into `col` reports a win exactly when the drop completed a run of four.
pub proof fn lemma_drop_win_is_completes_four(b: Board, after: Board, col: int, t: Cell)
    requires
        b.wf(),
        0 <= col < 7,
        b.cursor(col) >= 0,
        t != Cell::Empty,
        after.cells@ == b.cells@.update(b.cursor(col) * 7 + col, t),
        after.last_move_row == b.cursor(col),
        after.last_move_col == col,
    ensures
        spec_someone_won(after) == completes_four(b, col, t),
{
    let row = b.cursor(col);
    assert(after.spec_cell(row, col) == t);
    lemma_run_count_same(b, after, row, col, 0, -1, t);
    lemma_run_count_same(b, after, row, col, 0, 1, t);
    lemma_run_count_same(b, after, row, col, -1, 0, t);
    lemma_run_count_same(b, after, row, col, 1, 0, t);
    lemma_run_count_same(b, after, row, col, -1, -1, t);
    lemma_run_count_same(b, after, row, col, 1, 1, t);
    lemma_run_count_same(b, after, row, col, -1, 1, t);
    lemma_run_count_same(b, after, row, col, 1, -1, t);
}

/// Draw: a fully filled board with no run of four anywhere is over without a
/// winner, so scoring it at any depth falls to the no-winner case and yields
/// exactly zero.
pub proof fn lemma_full_board_no_four_run_is_draw(b: Board)
    requires
        b.wf(),
        b.empty_cells == 0,
        !has_four_run(b),
    ensures
        !spec_someone_won(b),
        b.empty_cells == 0 || spec_someone_won(b),
{
    if spec_someone_won(b) {
        lemma_filled_no_empty_cell(b);
        lemma_win_has_four_run(b);
    }
}

} // verus!
