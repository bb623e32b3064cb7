//! A generalized tic-tac-toe: a square board of any size with streak
//! detection, a layered move heuristic for computer players, and the match
//! bookkeeping around them.

pub mod ai;
pub mod board;
pub mod chance;
pub mod game;
pub mod game_board;
pub mod player;
pub mod score_board;
pub mod types;
pub mod ui;
