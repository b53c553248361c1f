use connect_four::board::{Board, Cell};
use connect_four::human::Human;

#[test]
fn human_construction() {
    let h = Human::new(Cell::O);
    assert_eq!(h.get_token(), Cell::O);
    assert_eq!(h.get_type(), "Human");
}

#[test]
fn human_plays_a_one_based_column() {
    let mut b = Board::new();
    let h = Human::new(Cell::O);
    assert!(h.play_move(&mut b, 3));
    assert_eq!(b.get(5, 2), Cell::O);
    assert_eq!(b.num_of_empty_spots(), 41);
}

#[test]
fn human_move_fails_on_full_column() {
    let mut b = Board::new();
    let h = Human::new(Cell::O);
    for _ in 0..6 {
        assert!(h.play_move(&mut b, 1));
    }
    assert!(!h.play_move(&mut b, 1));
    assert_eq!(b.num_of_empty_spots(), 36);
}
