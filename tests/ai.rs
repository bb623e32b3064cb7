use tictactoe::ai::AI;
use tictactoe::game_board::GameBoard;
use tictactoe::types::{Difficulty, Symbol};

const M: Symbol = Symbol('M');
const O: Symbol = Symbol('O');

fn board_with(size: usize, marks: &[((usize, usize), Symbol)]) -> GameBoard {
    let mut b = GameBoard::new(size);
    for &(pos, m) in marks {
        b.apply_move(pos, m).unwrap();
    }
    b
}

#[test]
fn high_tier_takes_the_center_of_an_empty_board() {
    let ai = AI::new(Difficulty::Hard, M);
    assert_eq!(ai.decide_move(&GameBoard::new(3)), (1, 1));
}

#[test]
fn high_tier_blocks_the_opponent() {
    let b = board_with(3, &[((0, 0), O), ((0, 1), O), ((1, 1), M), ((2, 2), M)]);
    let ai = AI::new(Difficulty::Hard, M);
    assert_eq!(ai.decide_move(&b), (0, 2));
}

#[test]
fn high_tier_prefers_winning_to_blocking() {
    let b = board_with(3, &[((0, 0), M), ((0, 1), M), ((1, 1), O), ((1, 0), O)]);
    let ai = AI::new(Difficulty::Hard, M);
    assert_eq!(ai.decide_move(&b), (0, 2));
    assert_eq!(ai.heuristic_move(&b), Some((0, 2)));
}

#[test]
fn high_tier_creates_a_fork() {
    let b = board_with(3, &[((1, 1), O), ((0, 0), M), ((2, 2), M)]);
    let ai = AI::new(Difficulty::Hard, M);
    assert_eq!(ai.heuristic_move(&b), Some((0, 2)));
}

#[test]
fn high_tier_falls_back_to_a_corner() {
    let b = board_with(3, &[((1, 1), O)]);
    let ai = AI::new(Difficulty::Hard, M);
    assert_eq!(ai.heuristic_move(&b), Some((0, 0)));
    let b = board_with(3, &[((1, 1), O), ((0, 0), O), ((2, 2), M)]);
    assert_eq!(ai.heuristic_move(&b), Some((0, 2)));
}

#[test]
fn heuristic_has_no_rule_when_nothing_applies() {
    let x = Symbol('X');
    let b = board_with(
        3,
        &[((0, 0), x), ((0, 1), O), ((0, 2), x), ((1, 0), O), ((1, 1), x), ((2, 0), O), ((2, 1), x), ((2, 2), O)],
    );
    let ai = AI::new(Difficulty::Hard, M);
    assert_eq!(ai.heuristic_move(&b), None);
    assert_eq!(ai.choose_move(&b, 0, 0), (1, 2));
    assert_eq!(ai.decide_move(&b), (1, 2));
}

#[test]
fn choose_move_follows_the_tier_and_the_roll() {
    let b = GameBoard::new(3);
    let easy = AI::new(Difficulty::Easy, M);
    assert_eq!(easy.choose_move(&b, 0, 0), (0, 0));
    assert_eq!(easy.choose_move(&b, 0, 5), (1, 2));
    let medium = AI::new(Difficulty::Medium, M);
    assert_eq!(medium.choose_move(&b, 6, 0), (1, 1));
    assert_eq!(medium.choose_move(&b, 7, 0), (0, 0));
    let hard = AI::new(Difficulty::Hard, M);
    assert_eq!(hard.choose_move(&b, 9, 8), (1, 1));
}

#[test]
fn adjusted_difficulty_is_used() {
    let mut ai = AI::new(Difficulty::Easy, M);
    ai.adjust_difficulty(Difficulty::Hard);
    assert_eq!(ai.choose_move(&GameBoard::new(3), 9, 0), (1, 1));
}

#[test]
fn engine_never_picks_an_occupied_cell() {
    let tiers = [Difficulty::Easy, Difficulty::Medium, Difficulty::Hard];
    for size in 1..=5 {
        for tier in tiers {
            for round in 0..5 {
                let mut b = GameBoard::new(size);
                let mut turn = round;
                while !b.is_full() && b.has_winning_streak(3).is_none() {
                    let mark = if turn % 2 == 0 { M } else { O };
                    let ai = AI::new(tier, mark);
                    let (r, c) = ai.decide_move(&b);
                    assert_eq!(b.get_cell((r, c)), None);
                    assert!(r < size && c < size);
                    b.apply_move((r, c), mark).unwrap();
                    turn += 1;
                }
            }
        }
    }
}
