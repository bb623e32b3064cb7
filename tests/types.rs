use tictactoe::player::Player;
use tictactoe::types::{BoardError, Difficulty, GameError, PlayerError, Symbol};

#[test]
fn next_symbol_walks_the_cycle() {
    assert_eq!(Symbol::next_symbol(&Symbol('🦁')), Symbol('🐯'));
    assert_eq!(Symbol::next_symbol(&Symbol('🐸')), Symbol('🦊'));
    assert_eq!(Symbol::next_symbol(&Symbol('🐶')), Symbol('🦁'));
    assert_eq!(Symbol::next_symbol(&Symbol('X')), Symbol('🐯'));
}

#[test]
fn random_unique_avoids_used_marks() {
    let mut used: Vec<Symbol> = Vec::new();
    for _ in 0..12 {
        let s = Symbol::random_unique(&used).unwrap();
        assert!(!used.contains(&s));
        used.push(s);
    }
    assert_eq!(Symbol::random_unique(&used), None);
}

#[test]
fn board_errors_convert_into_game_errors() {
    assert_eq!(GameError::from(BoardError::OutOfBounds), GameError::BoardError(BoardError::OutOfBounds));
}

#[test]
fn players_keep_their_settings() {
    let human = Player::new("Ann".to_string(), Symbol('X'), true, Some(Difficulty::Hard));
    assert!(!human.is_ai());
    assert_eq!(human.name(), "Ann");
    let computer = Player::new("Cpu".to_string(), Symbol('O'), false, None);
    assert!(computer.is_ai());
    assert_eq!(computer.symbol(), Symbol('O'));
    let copy = computer.clone();
    assert_eq!(copy.name(), "Cpu");
    assert!(matches!(Player::load(3), Err(PlayerError::NotFound)));
}

#[test]
fn computer_player_moves_on_an_empty_cell() {
    let mut board = tictactoe::game_board::GameBoard::new(3);
    board.apply_move((1, 1), Symbol('X')).unwrap();
    let computer = Player::new("Cpu".to_string(), Symbol('O'), false, Some(Difficulty::Hard));
    assert_eq!(computer.get_ai_move(&board), (0, 0));
}
