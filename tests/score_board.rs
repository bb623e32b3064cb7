use tictactoe::player::Player;
use tictactoe::score_board::{PlayerStats, ScoreBoard};
use tictactoe::types::{GameResult, Symbol};

#[test]
fn stats_count_each_result() {
    let mut s = PlayerStats::new();
    s.add_result(GameResult::Win);
    s.add_result(GameResult::Loss);
    s.add_result(GameResult::Draw);
    s.add_result(GameResult::Win);
    assert_eq!(s.total_games(), 4);
    assert_eq!(s.wins(), 2);
}

#[test]
fn scoreboard_keeps_one_record_per_name() {
    let ann = Player::new("Ann".to_string(), Symbol('X'), true, None);
    let bob = Player::new("Bob".to_string(), Symbol('O'), true, None);
    let mut board = ScoreBoard::new();
    assert!(board.get_stats(&ann).is_none());
    board.record_result(&ann, GameResult::Win);
    board.record_result(&ann, GameResult::Draw);
    board.record_result(&bob, GameResult::Loss);
    assert_eq!(board.get_stats(&ann).unwrap().total_games(), 2);
    assert_eq!(board.get_stats(&ann).unwrap().wins(), 1);
    assert_eq!(board.get_stats(&bob).unwrap().total_games(), 1);
    assert_eq!(board.get_stats(&bob).unwrap().wins(), 0);
}
