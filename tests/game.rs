use tictactoe::game::Game;
use tictactoe::player::Player;
use tictactoe::types::{BoardError, GameError, Symbol};

fn two_player_game(size: usize) -> Game {
    let mut game = Game::new(size, 2);
    game.add_player(&Player::new("Ann".to_string(), Symbol('X'), true, None)).unwrap();
    game.add_player(&Player::new("Bob".to_string(), Symbol('O'), true, None)).unwrap();
    game
}

#[test]
fn winner_is_the_owner_of_the_streak() {
    let mut game = two_player_game(5);
    let moves = [(0, 0), (1, 0), (0, 1), (1, 1), (0, 2)];
    for pos in moves {
        assert!(!game.is_over());
        game.make_move(pos).unwrap();
    }
    assert!(game.is_over());
    assert_eq!(game.board().has_winning_streak(3), Some((0, 0)));
    let winner = game.winner().unwrap();
    assert_eq!(winner.name(), "Ann");
    assert_eq!(winner.symbol(), Symbol('X'));
}

#[test]
fn full_board_without_streak_is_a_draw() {
    let mut game = two_player_game(3);
    let moves = [(0, 0), (0, 1), (0, 2), (1, 1), (1, 0), (1, 2), (2, 1), (2, 0), (2, 2)];
    for pos in moves {
        game.make_move(pos).unwrap();
    }
    assert!(game.board().is_full());
    assert!(game.is_over());
    assert!(game.winner().is_none());
}

#[test]
fn roster_has_a_limit() {
    let mut game = two_player_game(3);
    let extra = Player::new("Cy".to_string(), Symbol('Z'), true, None);
    assert_eq!(game.add_player(&extra), Err(GameError::MaxPlayersReached));
    assert_eq!(game.players().len(), 2);
}

#[test]
fn move_without_players_is_invalid() {
    let mut game = Game::new(3, 2);
    assert!(game.current_player().is_none());
    assert_eq!(game.make_move((0, 0)), Err(GameError::InvalidMove));
    assert!(!game.is_move_valid((0, 0)));
}

#[test]
fn moves_pass_the_turn_and_report_board_errors() {
    let mut game = two_player_game(3);
    assert_eq!(game.current_player().unwrap().name(), "Ann");
    game.make_move((1, 1)).unwrap();
    assert_eq!(game.current_player().unwrap().name(), "Bob");
    assert_eq!(game.make_move((1, 1)), Err(GameError::BoardError(BoardError::CellOccupied)));
    assert_eq!(game.make_move((3, 1)), Err(GameError::BoardError(BoardError::OutOfBounds)));
    assert_eq!(game.current_player().unwrap().name(), "Bob");
    game.make_move((0, 0)).unwrap();
    assert_eq!(game.current_player().unwrap().name(), "Ann");
    assert_eq!(game.board().get_cell((0, 0)), Some(Symbol('O')));
}

#[test]
fn move_validity_checks_bounds_and_occupancy() {
    let mut game = two_player_game(3);
    game.make_move((2, 2)).unwrap();
    assert!(!game.is_move_valid((2, 2)));
    assert!(!game.is_move_valid((3, 0)));
    assert!(game.is_move_valid((0, 0)));
}

#[test]
fn next_round_clears_the_board_and_keeps_the_roster() {
    let mut game = two_player_game(4);
    game.make_move((0, 0)).unwrap();
    game.prepare_next_round();
    assert_eq!(game.board().size(), 4);
    assert_eq!(game.board().empty_positions().len(), 16);
    assert_eq!(game.players().len(), 2);
    assert!(game.current_player().is_some());
}

#[test]
fn randomized_turn_is_a_roster_index() {
    let mut game = two_player_game(3);
    for _ in 0..20 {
        game.randomize_turn();
        let name = game.current_player().unwrap().name().to_string();
        assert!(name == "Ann" || name == "Bob");
    }
    let mut empty = Game::new(3, 2);
    empty.randomize_turn();
    assert!(empty.current_player().is_none());
}
