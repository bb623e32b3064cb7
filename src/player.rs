//! A participant: a name, a mark, and a decision engine when the computer
//! plays for it.

use crate::ai::{free_cell, heuristic_choice, planned_move, AI};
use crate::game_board::{empty_cells, GameBoard};
use crate::types::{Difficulty, PlayerError, Symbol};
use vstd::prelude::*;

verus! {

/// A participant of a match.
#[derive(Debug)]
pub struct Player {
    pub name: String,
    symbol: Symbol,
    pub ai: Option<AI>,
}

impl Clone for Player {
    fn clone(&self) -> (r: Player)
        ensures
            r == *self,
    {
        Player { name: self.name.clone(), symbol: self.symbol, ai: self.ai }
    }
}

impl Player {
    /// The participant's name.
    pub closed spec fn spec_name(&self) -> String {
        self.name
    }

    /// The participant's decision engine, when the computer plays for it.
    pub closed spec fn spec_ai(&self) -> Option<AI> {
        self.ai
    }

    /// The mark this participant places.
    pub closed spec fn spec_symbol(&self) -> Symbol {
        self.symbol
    }

    /// A participant named `name` with mark `symbol`. A computer player gets
    /// a decision engine at `difficulty`, Medium when none is given.
    pub fn new(name: String, symbol: Symbol, is_human: bool, difficulty: Option<Difficulty>) -> (r: Player)
        ensures
            r.spec_name() == name,
            r.spec_symbol() == symbol,
            r.spec_ai().is_none() <==> is_human,
            r.spec_ai() matches Some(a) ==> a.spec_symbol() == symbol && a.spec_difficulty() == match difficulty {
                Some(d) => d,
                None => Difficulty::Medium,
            },
    {
        let ai = if !is_human {
            let level = match difficulty {
                Some(d) => d,
                None => Difficulty::Medium,
            };
            Some(AI::new(level, symbol))
        } else {
            None
        };
        Player { name, symbol, ai }
    }

    /// Stored participants are not kept, so loading always fails.
    pub fn load(_id: usize) -> (r: Result<Player, PlayerError>)
        ensures
            r matches Err(e) && e == PlayerError::NotFound,
    {
        Err(PlayerError::NotFound)
    }

    /// The participant's name.
    pub fn name(&self) -> (r: &str)
        ensures
            r@ == self.spec_name()@,
    {
        self.name.as_str()
    }

    /// The participant's mark.
    pub fn symbol(&self) -> (r: Symbol)
        ensures
            r == self.spec_symbol(),
    {
        self.symbol
    }

    /// Whether the computer plays for this participant.
    pub fn is_ai(&self) -> (r: bool)
        ensures
            r == self.spec_ai().is_some(),
    {
        self.ai.is_some()
    }

    /// The move of this computer player on a board with an empty cell.
    pub fn get_ai_move(&self, board: &GameBoard) -> (r: (usize, usize))
        requires
            self.spec_ai().is_some(),
            board.wf(),
            empty_cells(board@).len() > 0,
        ensures
            free_cell(board@, r.0 as int, r.1 as int),
            exists|roll: int, pick: int|
                0 <= roll < 10 && 0 <= pick < empty_cells(board@).len() && r == planned_move(
                    board@,
                    self.spec_ai()->0.spec_symbol(),
                    self.spec_ai()->0.spec_difficulty(),
                    roll,
                    pick,
                ),
            self.spec_ai()->0.spec_difficulty() == Difficulty::Hard ==> (heuristic_choice(
                board@,
                self.spec_ai()->0.spec_symbol(),
            ) matches Some(p) ==> r == p),
    {
        match &self.ai {
            Some(ai) => ai.decide_move(board),
            None => (0, 0),
        }
    }
}

} // verus!
