use tictactoe::board::Board;

#[test]
fn new_board_is_blank() {
    let b = Board::new(3);
    assert_eq!(b.game_state, vec![vec!['_'; 3]; 3]);
    assert_eq!(b.get_empty_coordinates().len(), 9);
    assert_eq!(b.get_winning_row(), None);
}

#[test]
fn marking_uses_column_then_row() {
    let mut b = Board::new(3);
    b.receive_marking(2, 0, 'X');
    assert_eq!(b.game_state[0][2], 'X');
    let empties = b.get_empty_coordinates();
    assert!(!empties.contains(&(0, 2)));
    assert_eq!(empties[0], (0, 0));
    assert_eq!(empties[2], (1, 0));
}

#[test]
fn winning_row_is_the_first_uniform_row() {
    let mut b = Board::new(3);
    for x in 0..3 {
        b.receive_marking(x, 2, 'O');
        b.receive_marking(x, 1, 'X');
    }
    assert_eq!(b.get_winning_row(), Some('X'));
    let mut c = Board::new(3);
    c.receive_marking(0, 0, 'X');
    c.receive_marking(1, 0, 'O');
    c.receive_marking(2, 0, 'X');
    assert_eq!(c.get_winning_row(), None);
}
