use tictactoe::game_board::GameBoard;
use tictactoe::types::{BoardError, Symbol};

const X: Symbol = Symbol('X');
const O: Symbol = Symbol('O');

fn board_with(size: usize, marks: &[((usize, usize), Symbol)]) -> GameBoard {
    let mut b = GameBoard::new(size);
    for &(pos, m) in marks {
        b.apply_move(pos, m).unwrap();
    }
    b
}

fn snapshot(b: &GameBoard) -> Vec<Option<Symbol>> {
    let mut cells = Vec::new();
    for r in 0..b.size() {
        for c in 0..b.size() {
            cells.push(b.get_cell((r, c)));
        }
    }
    cells
}

#[test]
fn empty_board_has_no_streak_of_any_length() {
    for size in 1..=6 {
        let b = GameBoard::new(size);
        for len in 1..=size {
            assert_eq!(b.has_winning_streak(len), None);
        }
    }
}

#[test]
fn streak_longer_than_board_never_matches() {
    let b = board_with(2, &[((0, 0), X), ((0, 1), X), ((1, 0), X), ((1, 1), X)]);
    assert_eq!(b.has_winning_streak(3), None);
    assert_eq!(b.has_winning_streak(2), Some((0, 0)));
}

#[test]
fn horizontal_streak_reports_its_anchor() {
    let b = board_with(5, &[((2, 1), X), ((2, 2), X), ((2, 3), X)]);
    assert_eq!(b.has_winning_streak(3), Some((2, 1)));
}

#[test]
fn vertical_streak_reports_its_anchor() {
    let b = board_with(5, &[((1, 3), X), ((2, 3), X), ((3, 3), X)]);
    assert_eq!(b.has_winning_streak(3), Some((1, 3)));
}

#[test]
fn diagonal_streak_reports_its_anchor() {
    let b = board_with(5, &[((0, 1), O), ((1, 2), O), ((2, 3), O)]);
    assert_eq!(b.has_winning_streak(3), Some((0, 1)));
}

#[test]
fn anti_diagonal_streak_reports_its_anchor() {
    let b = board_with(5, &[((1, 3), O), ((2, 2), O), ((3, 1), O)]);
    assert_eq!(b.has_winning_streak(3), Some((1, 3)));
}

#[test]
fn horizontal_streak_takes_priority_over_earlier_vertical_one() {
    let b = board_with(
        5,
        &[((0, 0), X), ((1, 0), X), ((2, 0), X), ((4, 2), O), ((4, 3), O), ((4, 4), O)],
    );
    assert_eq!(b.has_winning_streak(3), Some((4, 2)));
}

#[test]
fn vertical_streaks_are_scanned_rows_first() {
    let b = board_with(
        5,
        &[((1, 0), X), ((2, 0), X), ((3, 0), X), ((0, 4), O), ((1, 4), O), ((2, 4), O)],
    );
    assert_eq!(b.has_winning_streak(3), Some((0, 4)));
}

#[test]
fn mixed_marks_make_no_streak() {
    let b = board_with(3, &[((0, 0), X), ((0, 1), O), ((0, 2), X)]);
    assert_eq!(b.has_winning_streak(3), None);
    assert_eq!(b.has_winning_streak(1), Some((0, 0)));
}

#[test]
fn place_then_undo_restores_the_board() {
    let mut b = board_with(4, &[((0, 0), X), ((3, 2), O)]);
    let before = snapshot(&b);
    assert_eq!(b.apply_move((1, 2), X), Ok(()));
    assert_eq!(b.get_cell((1, 2)), Some(X));
    assert_eq!(b.undo_move((1, 2)), Ok(()));
    assert_eq!(snapshot(&b), before);
}

#[test]
fn placing_on_an_occupied_cell_changes_nothing() {
    let mut b = board_with(3, &[((1, 1), X)]);
    let before = snapshot(&b);
    assert_eq!(b.apply_move((1, 1), O), Err(BoardError::CellOccupied));
    assert_eq!(b.record_move((1, 1), O), Err(BoardError::CellOccupied));
    assert_eq!(snapshot(&b), before);
}

#[test]
fn out_of_bounds_moves_are_rejected() {
    let mut b = GameBoard::new(3);
    assert_eq!(b.apply_move((3, 0), X), Err(BoardError::OutOfBounds));
    assert_eq!(b.record_move((0, 3), X), Err(BoardError::OutOfBounds));
    assert_eq!(b.undo_move((5, 5)), Err(BoardError::OutOfBounds));
    assert_eq!(b.get_cell((7, 1)), None);
    assert_eq!(b.empty_positions().len(), 9);
}

#[test]
fn undo_clears_whatever_the_cell_held() {
    let mut b = board_with(3, &[((2, 2), O)]);
    assert_eq!(b.undo_move((2, 2)), Ok(()));
    assert_eq!(b.get_cell((2, 2)), None);
    assert_eq!(b.undo_move((0, 0)), Ok(()));
    assert_eq!(b.get_cell((0, 0)), None);
}

#[test]
fn record_move_places_a_mark() {
    let mut b = GameBoard::new(3);
    assert_eq!(b.record_move((2, 1), O), Ok(()));
    assert_eq!(b.get_cell((2, 1)), Some(O));
}

#[test]
fn empty_positions_are_row_major() {
    let b = board_with(2, &[((0, 1), X)]);
    assert_eq!(b.empty_positions(), vec![(0, 0), (1, 0), (1, 1)]);
    assert_eq!(b.get_available_positions(), vec![(0, 0), (1, 0), (1, 1)]);
}

#[test]
fn full_board_is_full() {
    let b = board_with(2, &[((0, 0), X), ((0, 1), O), ((1, 0), O), ((1, 1), X)]);
    assert!(b.is_full());
    assert!(b.empty_positions().is_empty());
    assert!(!GameBoard::new(2).is_full());
    assert!(GameBoard::new(0).is_full());
}

#[test]
fn all_symbols_lists_each_mark_once() {
    let b = board_with(3, &[((0, 0), X), ((0, 1), O), ((1, 1), X), ((2, 2), O)]);
    let syms = b.get_all_symbols();
    assert_eq!(syms.len(), 2);
    assert!(syms.contains(&X));
    assert!(syms.contains(&O));
    assert!(GameBoard::new(3).get_all_symbols().is_empty());
}

#[test]
fn winning_positions_are_found_and_board_is_kept() {
    let mut b = board_with(3, &[((0, 0), X), ((0, 1), X), ((1, 0), X)]);
    let before = snapshot(&b);
    assert_eq!(b.get_winning_positions(X), vec![(0, 2), (2, 0)]);
    assert_eq!(b.get_winning_positions(O), Vec::<(usize, usize)>::new());
    assert_eq!(snapshot(&b), before);
}

#[test]
fn evaluate_scores_the_streak_owner() {
    let x_wins = board_with(3, &[((1, 0), X), ((1, 1), X), ((1, 2), X)]);
    assert_eq!(x_wins.evaluate(X, O), 10);
    assert_eq!(x_wins.evaluate(O, X), -10);
    assert_eq!(x_wins.evaluate(O, Symbol('Z')), 0);
    assert_eq!(GameBoard::new(3).evaluate(X, O), 0);
}

#[test]
fn size_is_kept() {
    assert_eq!(GameBoard::new(7).size(), 7);
}
