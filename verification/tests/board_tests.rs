use connect_four::board::{Board, Cell};

fn cell_at(r: usize, c: usize) -> Cell {
    // A full-board pattern with no run of four anywhere: rows 2 and 3 take one
    // parity, the other rows the opposite one.
    let group = r == 2 || r == 3;
    let even = c % 2 == 0;
    if group == even {
        Cell::O
    } else {
        Cell::X
    }
}

fn draw_board() -> Board {
    let mut b = Board::new();
    for c in 0..7 {
        for r in [5, 4, 3, 2, 1, 0] {
            assert!(b.put(c, cell_at(r, c)));
        }
    }
    b
}

#[test]
fn new_board_is_empty() {
    let b = Board::new();
    assert_eq!(b.num_of_empty_spots(), 42);
    assert!(!b.is_filled());
    assert!(!b.is_over());
    assert!(!b.someone_won());
    for r in 0..6 {
        for c in 0..7 {
            assert_eq!(b.get(r, c), Cell::Empty);
        }
    }
}

#[test]
fn get_out_of_range_is_empty() {
    let mut b = Board::new();
    assert!(b.put(0, Cell::X));
    assert_eq!(b.get(6, 0), Cell::Empty);
    assert_eq!(b.get(0, 7), Cell::Empty);
    assert_eq!(b.get(100, 100), Cell::Empty);
}

#[test]
fn put_stacks_from_the_bottom() {
    let mut b = Board::new();
    assert!(b.put(2, Cell::X));
    assert_eq!(b.get(5, 2), Cell::X);
    assert!(b.put(2, Cell::O));
    assert_eq!(b.get(4, 2), Cell::O);
    assert_eq!(b.num_of_empty_spots(), 40);
}

#[test]
fn put_fails_on_full_column() {
    let mut b = Board::new();
    for i in 0..6 {
        let t = if i % 2 == 0 { Cell::X } else { Cell::O };
        assert!(b.put(3, t));
    }
    assert!(!b.put(3, Cell::X));
    assert_eq!(b.num_of_empty_spots(), 36);
}

#[test]
fn remove_fails_on_empty_column() {
    let mut b = Board::new();
    assert!(!b.remove(4));
    assert_eq!(b.num_of_empty_spots(), 42);
}

#[test]
fn place_then_undo_restores_the_board() {
    let mut b = Board::new();
    assert!(b.put(1, Cell::X));
    assert!(b.put(2, Cell::O));
    let before: Vec<Cell> = (0..42).map(|i| b.get(i / 7, i % 7)).collect();
    let empties = b.num_of_empty_spots();
    let moves = b.available_moves();

    assert!(b.put(2, Cell::X));
    assert!(b.remove(2));

    let after: Vec<Cell> = (0..42).map(|i| b.get(i / 7, i % 7)).collect();
    assert_eq!(before, after);
    assert_eq!(b.num_of_empty_spots(), empties);
    assert_eq!(b.available_moves(), moves);
}

#[test]
fn empty_count_tracks_placements() {
    let mut b = Board::new();
    let mut placed = 0;
    for c in 0..7 {
        assert!(b.put(c, Cell::X));
        placed += 1;
        assert_eq!(b.num_of_empty_spots(), 42 - placed);
    }
    assert!(b.remove(0));
    assert_eq!(b.num_of_empty_spots(), 42 - placed + 1);
}

#[test]
fn available_moves_is_center_out_on_empty_board() {
    let b = Board::new();
    assert_eq!(b.available_moves(), vec![3, 2, 4, 1, 5, 0, 6]);
}

#[test]
fn available_moves_skips_full_columns() {
    let mut b = Board::new();
    for i in 0..6 {
        let t = if i % 2 == 0 { Cell::X } else { Cell::O };
        assert!(b.put(3, t));
    }
    assert_eq!(b.available_moves(), vec![2, 4, 1, 5, 0, 6]);
}

#[test]
fn horizontal_win_detected_only_after_fourth_token() {
    let mut b = Board::new();
    assert!(b.put(0, Cell::X));
    assert!(b.put(0, Cell::O));
    assert!(b.put(1, Cell::X));
    assert!(b.put(1, Cell::O));
    assert!(b.put(2, Cell::X));
    assert!(b.put(2, Cell::O));
    assert!(!b.someone_won());
    assert!(!b.is_over());
    assert!(b.put(3, Cell::X));
    assert!(b.someone_won());
    assert!(b.is_over());
}

#[test]
fn vertical_win_detected() {
    let mut b = Board::new();
    assert!(b.put(5, Cell::O));
    assert!(b.put(5, Cell::O));
    assert!(b.put(5, Cell::O));
    assert!(!b.someone_won());
    assert!(b.put(5, Cell::O));
    assert!(b.someone_won());
}

#[test]
fn diagonal_win_detected() {
    let mut b = Board::new();
    // Stairs: X on the up-right diagonal from (5, 0), O as filler below.
    assert!(b.put(0, Cell::X));
    assert!(b.put(1, Cell::O));
    assert!(b.put(1, Cell::X));
    assert!(b.put(2, Cell::O));
    assert!(b.put(2, Cell::O));
    assert!(b.put(2, Cell::X));
    assert!(b.put(3, Cell::O));
    assert!(b.put(3, Cell::O));
    assert!(b.put(3, Cell::O));
    assert!(!b.someone_won());
    assert!(b.put(3, Cell::X));
    assert!(b.someone_won());
}

#[test]
fn full_board_without_four_run_is_a_draw() {
    let b = draw_board();
    assert_eq!(b.num_of_empty_spots(), 0);
    assert!(b.is_filled());
    assert!(!b.someone_won());
    assert!(b.is_over());
    assert_eq!(b.available_moves(), Vec::<usize>::new());
}
