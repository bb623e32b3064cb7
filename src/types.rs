//! Marks, tiers, outcomes and the error types shared by the library.

use crate::chance::random_index;
use vstd::prelude::*;

verus! {

/// The mark that a participant leaves on the board.
#[derive(Debug, Clone, Copy, PartialEq, Eq, Structural)]
pub struct Symbol(pub char);

/// The twelve marks that `Symbol::random_unique` hands out.
pub open spec fn symbol_pool() -> Seq<char> {
    seq!['🐱', '🐶', '🦊', '🐰', '🐼', '🐨', '🦁', '🐯', '🐸', '🦉', '🦄', '🐙']
}

/// The cycle that `Symbol::next_symbol` walks.
pub open spec fn symbol_cycle() -> Seq<char> {
    seq!['🦁', '🐯', '🐨', '🐼', '🐸', '🦊', '🐱', '🐶']
}

/// The marks of the pool that `used` does not hold, in pool order.
pub open spec fn unused_pool(used: Seq<Symbol>) -> Seq<char> {
    symbol_pool().filter(|c: char| !used.contains(Symbol(c)))
}

impl Symbol {
    /// A mark of the pool that none of `used` holds, drawn at random; `None`
    /// when every mark of the pool is taken.
    pub fn random_unique(used_symbols: &[Symbol]) -> (r: Option<Symbol>)
        ensures
            r.is_none() <==> unused_pool(used_symbols@).len() == 0,
            r matches Some(s) ==> unused_pool(used_symbols@).contains(s.0),
            r matches Some(s) ==> symbol_pool().contains(s.0) && !used_symbols@.contains(s),
    {
        let pool: [char; 12] = ['🐱', '🐶', '🦊', '🐰', '🐼', '🐨', '🦁', '🐯', '🐸', '🦉', '🦄', '🐙'];
        proof {
            assert(pool@ =~= symbol_pool());
        }
        let ghost pred = |c: char| !used_symbols@.contains(Symbol(c));
        let mut available: Vec<char> = Vec::new();
        let mut i: usize = 0;
        while i < 12
            invariant
                i <= 12,
                pool@ == symbol_pool(),
                pred == (|c: char| !used_symbols@.contains(Symbol(c))),
                available@ == symbol_pool().take(i as int).filter(pred),
            decreases 12 - i,
        {
            let c = pool[i];
            let mut taken = false;
            let mut j: usize = 0;
            while j < used_symbols.len()
                invariant
                    j <= used_symbols@.len(),
                    taken <==> exists|k: int| 0 <= k < j && used_symbols@[k] == Symbol(c),
                decreases used_symbols@.len() - j,
            {
                if used_symbols[j] == Symbol(c) {
                    taken = true;
                }
                j += 1;
            }
            proof {
                assert(taken <==> used_symbols@.contains(Symbol(c)));
                assert(symbol_pool().take(i + 1) =~= symbol_pool().take(i as int).push(c));
                symbol_pool().take(i as int).lemma_filter_push(c, pred);
            }
            if !taken {
                available.push(c);
            }
            i += 1;
        }
        proof {
            assert(symbol_pool().take(12) =~= symbol_pool());
        }
        if available.len() == 0 {
            None
        } else {
            let k = random_index(available.len());
            proof {
                symbol_pool().lemma_filter_pred(pred, k as int);
                assert(symbol_pool().filter(pred).contains(available@[k as int]));
                symbol_pool().lemma_filter_contains_rev(pred, available@[k as int]);
            }
            Some(Symbol(available[k]))
        }
    }

    /// The mark after `current` in the fixed cycle, wrapping at its end; a
    /// mark outside the cycle counts as its first one.
    pub fn next_symbol(current: &Symbol) -> (r: Symbol)
        ensures
            forall|i: int|
                0 <= i < 8 && #[trigger] symbol_cycle()[i] == current.0 && (forall|k: int|
                    0 <= k < i ==> symbol_cycle()[k] != current.0) ==> r.0 == symbol_cycle()[(i + 1) % 8],
            (forall|i: int| 0 <= i < 8 ==> symbol_cycle()[i] != current.0) ==> r.0 == symbol_cycle()[1],
    {
        let symbols: [char; 8] = ['🦁', '🐯', '🐨', '🐼', '🐸', '🦊', '🐱', '🐶'];
        proof {
            assert(symbols@ =~= symbol_cycle());
        }
        let current_char = current.0;
        let mut current_idx: usize = 0;
        let mut i: usize = 0;
        while i < 8
            invariant_except_break
                i <= 8,
                current_idx == 0,
                forall|k: int| 0 <= k < i ==> symbols@[k] != current_char,
            invariant
                symbols@ == symbol_cycle(),
            ensures
                current_idx < 8,
                (current_idx == 0 && forall|k: int| 0 <= k < 8 ==> symbols@[k] != current_char) || (
                symbols@[current_idx as int] == current_char && forall|k: int|
                    0 <= k < current_idx ==> symbols@[k] != current_char),
            decreases 8 - i,
        {
            if symbols[i] == current_char {
                current_idx = i;
                break;
            }
            i += 1;
        }
        let next_idx = (current_idx + 1) % 8;
        Symbol(symbols[next_idx])
    }
}

/// Where a match stands.
#[derive(Debug)]
pub enum GameStatus {
    InProgress,
    Win(String),
    Draw,
}

/// The outcome of a finished match for one participant.
#[derive(Debug, Clone, Copy, PartialEq, Eq, Structural)]
pub enum GameResult {
    Win,
    Loss,
    Draw,
}

/// How hard a computer player tries.
#[derive(Debug, Clone, Copy, PartialEq, Eq, Structural)]
pub enum Difficulty {
    Easy,
    Medium,
    Hard,
}

/// Why the board refused an operation.
#[derive(Debug, Clone, Copy, PartialEq, Eq, Structural)]
pub enum BoardError {
    InvalidPosition,
    CellOccupied,
    OutOfBounds,
}

/// Why a match refused an operation.
#[derive(Debug, Clone, Copy, PartialEq, Eq, Structural)]
pub enum GameError {
    InvalidMove,
    MaxPlayersReached,
    GameOver,
    OutOfTurn,
    BoardError(BoardError),
}

impl From<BoardError> for GameError {
    fn from(err: BoardError) -> (r: GameError)
        ensures
            r == GameError::BoardError(err),
    {
        GameError::BoardError(err)
    }
}

impl vstd::std_specs::convert::FromSpecImpl<BoardError> for GameError {
    open spec fn obeys_from_spec() -> bool {
        true
    }

    open spec fn from_spec(err: BoardError) -> GameError {
        GameError::BoardError(err)
    }
}

/// Why a participant could not be loaded.
#[derive(Debug, Clone, Copy, PartialEq, Eq, Structural)]
pub enum PlayerError {
    NotFound,
    InvalidData,
}

} // verus!
