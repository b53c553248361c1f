use connect_four::ai::Ai;
use connect_four::board::{Board, Cell};
use connect_four::utils::get_other_token;

fn cell_at(r: usize, c: usize) -> Cell {
    let group = r == 2 || r == 3;
    let even = c % 2 == 0;
    if group == even {
        Cell::O
    } else {
        Cell::X
    }
}

fn draw_board() -> Board {
    let mut b = Board::new();
    for c in 0..7 {
        for r in [5, 4, 3, 2, 1, 0] {
            assert!(b.put(c, cell_at(r, c)));
        }
    }
    b
}

#[test]
fn other_token_swaps_the_players() {
    assert_eq!(get_other_token(Cell::X), Cell::O);
    assert_eq!(get_other_token(Cell::O), Cell::X);
}

#[test]
fn ai_construction() {
    let ai = Ai::new(Cell::X);
    assert_eq!(ai.get_token(), Cell::X);
    assert_eq!(ai.get_type(), "Ai");
}

#[test]
fn max_and_min_index_pick_the_first_extremum() {
    let ai = Ai::new(Cell::X);
    let v = vec![3, 9, 2, 9, 1];
    assert_eq!(ai.get_max_index(&v), 1);
    assert_eq!(ai.get_min_index(&v), 4);
    let best_max = ai.get_best_move(&v, 0);
    assert_eq!(best_max, (9, 1));
    let best_min = ai.get_best_move(&v, 1);
    assert_eq!(best_min, (1, 4));
}

#[test]
fn evaluate_scores_a_win_by_depth() {
    let mut b = Board::new();
    for _ in 0..3 {
        assert!(b.put(0, Cell::X));
        assert!(b.put(1, Cell::O));
    }
    assert!(b.put(0, Cell::X));
    assert!(b.someone_won());
    let ai = Ai::new(Cell::X);
    assert_eq!(ai.evaluate(&b, 5, 1), (-1, i32::MAX - 5));
    assert_eq!(ai.evaluate(&b, 5, 0), (-1, 5 - i32::MAX));
}

#[test]
fn evaluate_scores_a_full_drawn_board_zero_at_any_depth() {
    let b = draw_board();
    let ai = Ai::new(Cell::X);
    assert_eq!(ai.evaluate(&b, 1, 0), (-1, 0));
    assert_eq!(ai.evaluate(&b, 1, 1), (-1, 0));
    assert_eq!(ai.evaluate(&b, 9, 0), (-1, 0));
    assert_eq!(ai.evaluate(&b, 14, 1), (-1, 0));
}

#[test]
fn heuristic_rates_a_pair_exactly() {
    // Two adjacent tokens on the bottom row: one axis holds one further
    // aligned token (weight 10); every other open axis holds none (weight 0).
    // The second cell is visited by the first cell's counting pass, so the
    // total is 10, scaled by -turn.
    let mut b = Board::new();
    assert!(b.put(3, Cell::X));
    assert!(b.put(4, Cell::X));
    let ai = Ai::new(Cell::X);
    assert_eq!(ai.linked_row_strength(&b, 1), -10);
    assert_eq!(ai.linked_row_strength(&b, 0), 0);
}

#[test]
fn evaluate_uses_heuristic_at_cutoff() {
    let mut b = Board::new();
    assert!(b.put(3, Cell::X));
    assert!(b.put(4, Cell::X));
    let ai = Ai::new(Cell::X);
    assert_eq!(ai.evaluate(&b, 2, 1), (-1, -10));
    assert_eq!(ai.evaluate(&b, 2, 0), (-1, 0));
}

#[test]
fn heuristic_weighs_a_standing_threat() {
    // Four X in a row reached the board through placements, but the recorded
    // last move is the lone O, so no win is reported and the heuristic runs.
    // The X line contributes the distinct threat weight for three or more
    // further aligned tokens; every other open axis holds none.
    let mut b = Board::new();
    assert!(b.put(0, Cell::X));
    assert!(b.put(1, Cell::X));
    assert!(b.put(2, Cell::X));
    assert!(b.put(3, Cell::X));
    assert!(b.put(6, Cell::O));
    assert!(!b.someone_won());
    let ai = Ai::new(Cell::X);
    assert_eq!(ai.evaluate(&b, 2, 1), (-1, -1000));
    assert_eq!(ai.evaluate(&b, 2, 0), (-1, 0));
}

#[test]
fn get_length_pair_measures_runs_and_room() {
    let mut b = Board::new();
    assert!(b.put(3, Cell::X));
    assert!(b.put(4, Cell::X));
    let ai = Ai::new(Cell::X);
    let mut visited = vec![false; 42];
    // From the anchor (5, 3) rightward: one X, then two empty cells to the wall.
    let pair = ai.get_length_pair(5, 3, 0, 1, Cell::X, &mut visited, &b);
    assert_eq!(pair, (1, 3));
    assert!(visited[5 * 7 + 4]);
    assert!(visited[5 * 7 + 5]);
    assert!(visited[5 * 7 + 6]);
    // Leftward: no X, three empty cells to the wall.
    let pair = ai.get_length_pair(5, 3, 0, -1, Cell::X, &mut visited, &b);
    assert_eq!(pair, (0, 3));
}

#[test]
fn search_takes_a_forced_win() {
    // Side 0 (X) has three in a row with both open ends; the search must
    // complete the line and report a win found one move deep.
    let mut b = Board::new();
    assert!(b.put(2, Cell::X));
    assert!(b.put(0, Cell::O));
    assert!(b.put(3, Cell::X));
    assert!(b.put(0, Cell::O));
    assert!(b.put(4, Cell::X));
    let ai = Ai::new(Cell::X);
    let (best, score) = ai.minimax(&mut b, 0, i32::MIN, i32::MAX, 1, 2);
    assert!(best == 1 || best == 5);
    assert_eq!(score, i32::MAX - 2);
    // The search left the grid exactly as it found it.
    assert_eq!(b.num_of_empty_spots(), 37);
    for (r, c, t) in [(5, 2, Cell::X), (5, 3, Cell::X), (5, 4, Cell::X), (5, 0, Cell::O)] {
        assert_eq!(b.get(r, c), t);
    }
}

#[test]
fn search_leaves_the_board_unchanged() {
    let mut b = Board::new();
    assert!(b.put(3, Cell::X));
    assert!(b.put(2, Cell::O));
    let before: Vec<Cell> = (0..42).map(|i| b.get(i / 7, i % 7)).collect();
    let ai = Ai::new(Cell::X);
    let _ = ai.minimax(&mut b, 0, i32::MIN, i32::MAX, 1, 4);
    let after: Vec<Cell> = (0..42).map(|i| b.get(i / 7, i % 7)).collect();
    assert_eq!(before, after);
    assert_eq!(b.num_of_empty_spots(), 40);
}

#[test]
fn minimizing_node_reports_no_move() {
    // The chosen column is meaningful only at a maximizing decision node;
    // a minimizing node keeps the sentinel and propagates its bound.  On an
    // empty board with the cutoff right below, every leaf rates 0 for the
    // side-0 cutoff, so the bound comes back as 0.
    let mut b = Board::new();
    let ai = Ai::new(Cell::X);
    let (best, score) = ai.minimax(&mut b, 1, i32::MIN, i32::MAX, 1, 1);
    assert_eq!(best, -1);
    assert_eq!(score, 0);
    assert_eq!(b.num_of_empty_spots(), 42);
}

#[test]
fn play_move_takes_an_immediate_win() {
    // Three right-side columns carry the drawn pattern so that few cells are
    // empty; X has three in a row on the bottom with the completing column
    // open, so the move the search applies must win on the spot.
    let mut b = Board::new();
    for c in [4, 5, 6] {
        for r in [5, 4, 3, 2, 1, 0] {
            assert!(b.put(c, cell_at(r, c)));
        }
    }
    for c in [0, 1, 2] {
        assert!(b.put(c, Cell::X));
        assert!(b.put(c, Cell::O));
    }
    assert!(!b.someone_won());
    assert_eq!(b.num_of_empty_spots(), 18);
    let ai = Ai::new(Cell::X);
    assert!(ai.play_move(&mut b));
    assert_eq!(b.get(5, 3), Cell::X);
    assert!(b.someone_won());
    assert!(b.is_over());
}

#[test]
fn play_move_places_one_token_in_the_endgame() {
    // The drawn-pattern board with the top three cells of the last column
    // still open: few empty cells, so the deeper endgame limit applies.
    let mut b = Board::new();
    for c in 0..6 {
        for r in [5, 4, 3, 2, 1, 0] {
            assert!(b.put(c, cell_at(r, c)));
        }
    }
    for r in [5, 4, 3] {
        assert!(b.put(6, cell_at(r, 6)));
    }
    assert_eq!(b.num_of_empty_spots(), 3);
    assert!(!b.is_over());
    let ai = Ai::new(Cell::X);
    assert!(ai.play_move(&mut b));
    assert_eq!(b.num_of_empty_spots(), 2);
    assert_eq!(b.get(2, 6), Cell::X);
}
