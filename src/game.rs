//! A match: the board, the roster of participants and whose turn it is.

use crate::chance::random_index;
use crate::game_board::{
    cell_of, empty_cells, empty_grid, in_bounds, lemma_streak_iff_run, place, streak_anchor,
    GameBoard,
};
use crate::player::Player;
use crate::types::{BoardError, GameError, Symbol};
use vstd::prelude::*;

verus! {

/// Every mark on the board belongs to some participant of `players`.
pub open spec fn marks_owned(board: GameBoard, players: Seq<Player>) -> bool {
    forall|r: int, c: int|
        #[trigger] cell_of(board@, r, c) is Some ==> exists|i: int|
            0 <= i < players.len() && players[i].spec_symbol() == cell_of(board@, r, c)->0
}

/// The index of the first participant of `players` whose mark is `m`, if any.
pub open spec fn owner_index(players: Seq<Player>, m: Symbol, i: int) -> bool {
    0 <= i < players.len() && players[i].spec_symbol() == m && forall|j: int|
        0 <= j < i ==> players[j].spec_symbol() != m
}

/// A match of several participants on one board.
pub struct Game {
    board: GameBoard,
    players: Vec<Player>,
    current_player_idx: usize,
    max_players: usize,
}

impl Game {
    /// The board of the match.
    pub closed spec fn spec_board(&self) -> GameBoard {
        self.board
    }

    /// The roster, in the order of joining.
    pub closed spec fn spec_players(&self) -> Seq<Player> {
        self.players@
    }

    /// The index of the participant whose turn it is.
    pub closed spec fn spec_turn(&self) -> usize {
        self.current_player_idx
    }

    /// The most participants the roster takes.
    pub closed spec fn spec_max_players(&self) -> usize {
        self.max_players
    }

    /// The board is well formed, the turn indexes the roster when the roster
    /// is not empty, and every mark on the board is a participant's.
    pub open spec fn wf(&self) -> bool {
        &&& self.spec_board().wf()
        &&& (self.spec_players().len() > 0 ==> self.spec_turn() < self.spec_players().len())
        &&& (self.spec_players().len() == 0 ==> self.spec_turn() == 0)
        &&& marks_owned(self.spec_board(), self.spec_players())
    }

    /// A match on an empty board of side `board_size` for at most
    /// `max_players` participants, with none yet.
    pub fn new(board_size: usize, max_players: usize) -> (r: Game)
        ensures
            r.wf(),
            r.spec_board().spec_size() == board_size,
            r.spec_board()@ == empty_grid(board_size as nat),
            r.spec_players().len() == 0,
            r.spec_max_players() == max_players,
    {
        Game { board: GameBoard::new(board_size), players: Vec::new(), current_player_idx: 0, max_players }
    }

    /// Adds a copy of `player` to the roster, unless the roster is full.
    pub fn add_player(&mut self, player: &Player) -> (r: Result<(), GameError>)
        requires
            old(self).wf(),
        ensures
            final(self).wf(),
            final(self).spec_board() == old(self).spec_board(),
            final(self).spec_turn() == old(self).spec_turn(),
            final(self).spec_max_players() == old(self).spec_max_players(),
            r.is_err() <==> old(self).spec_players().len() >= old(self).spec_max_players(),
            r.is_err() ==> r == Err::<(), GameError>(GameError::MaxPlayersReached)
                && final(self).spec_players() == old(self).spec_players(),
            r.is_ok() ==> final(self).spec_players() == old(self).spec_players().push(*player),
    {
        if self.players.len() >= self.max_players {
            return Err(GameError::MaxPlayersReached);
        }
        self.players.push(player.clone());
        proof {
            assert forall|r: int, c: int|
                #[trigger] cell_of(self.board@, r, c) is Some implies exists|i: int|
                    0 <= i < self.players@.len() && self.players@[i].spec_symbol() == cell_of(self.board@, r, c)->0 by {
                let m = cell_of(self.board@, r, c)->0;
                let i = choose|i: int| 0 <= i < old(self).players@.len() && old(self).players@[i].spec_symbol() == m;
                assert(self.players@[i] == old(self).players@[i]);
            }
        }
        Ok(())
    }

    /// The participant whose turn it is; `None` when the roster is empty.
    pub fn current_player(&self) -> (r: Option<&Player>)
        requires
            self.wf(),
        ensures
            r.is_none() <==> self.spec_players().len() == 0,
            r matches Some(p) ==> *p == self.spec_players()[self.spec_turn() as int],
    {
        if self.players.len() == 0 {
            None
        } else {
            Some(&self.players[self.current_player_idx])
        }
    }

    /// The participant owning the mark of the first streak of three, if any.
    pub fn winner(&self) -> (r: Option<&Player>)
        requires
            self.wf(),
        ensures
            r.is_none() <==> streak_anchor(self.spec_board()@, 3).is_none(),
            r matches Some(p) ==> ({
                let a = streak_anchor(self.spec_board()@, 3)->0;
                exists|i: int|
                    owner_index(self.spec_players(), cell_of(self.spec_board()@, a.0, a.1)->0, i)
                        && *p == self.spec_players()[i]
            }),
    {
        let ghost g = self.board@;
        match self.board.has_winning_streak(3) {
            None => None,
            Some((row, col)) => {
                proof {
                    lemma_streak_iff_run(g, 3);
                }
                let symbol = match self.board.get_cell((row, col)) {
                    Some(s) => s,
                    None => {
                        return None;
                    },
                };
                let mut i: usize = 0;
                while i < self.players.len()
                    invariant
                        self.wf(),
                        g == self.board@,
                        cell_of(g, row as int, col as int) == Some(symbol),
                        streak_anchor(g, 3) == Some((row as int, col as int)),
                        i <= self.players@.len(),
                        forall|j: int| 0 <= j < i ==> self.players@[j].spec_symbol() != symbol,
                    decreases self.players@.len() - i,
                {
                    if self.players[i].symbol() == symbol {
                        proof {
                            assert(owner_index(self.players@, symbol, i as int));
                        }
                        return Some(&self.players[i]);
                    }
                    i += 1;
                }
                proof {
                    assert(cell_of(g, row as int, col as int) is Some);
                    let k = choose|k: int| 0 <= k < self.players@.len() && self.players@[k].spec_symbol() == symbol;
                    assert(self.players@[k].spec_symbol() != symbol);
                }
                None
            },
        }
    }

    /// Whether the match has ended: a streak of three is on the board, or no
    /// cell is empty.
    pub fn is_over(&self) -> (r: bool)
        requires
            self.wf(),
        ensures
            r == (streak_anchor(self.spec_board()@, 3).is_some() || empty_cells(self.spec_board()@).len() == 0),
    {
        self.board.has_winning_streak(3).is_some() || self.board.is_full()
    }

    /// Gives the turn to a participant drawn uniformly at random; nothing
    /// changes when the roster is empty.
    pub fn randomize_turn(&mut self)
        requires
            old(self).wf(),
        ensures
            final(self).wf(),
            final(self).spec_board() == old(self).spec_board(),
            final(self).spec_players() == old(self).spec_players(),
            final(self).spec_max_players() == old(self).spec_max_players(),
            old(self).spec_players().len() == 0 ==> final(self).spec_turn() == old(self).spec_turn(),
    {
        if self.players.len() > 0 {
            self.current_player_idx = random_index(self.players.len());
        }
    }

    /// Starts a new round: an empty board of the same size and a random turn.
    pub fn prepare_next_round(&mut self)
        requires
            old(self).wf(),
        ensures
            final(self).wf(),
            final(self).spec_board().spec_size() == old(self).spec_board().spec_size(),
            final(self).spec_board()@ == empty_grid(old(self).spec_board().spec_size() as nat),
            final(self).spec_players() == old(self).spec_players(),
            final(self).spec_max_players() == old(self).spec_max_players(),
    {
        self.board = GameBoard::new(self.board.size());
        self.randomize_turn();
    }

    /// The board of the match.
    pub fn board(&self) -> (r: &GameBoard)
        ensures
            *r == self.spec_board(),
    {
        &self.board
    }

    /// Places the current participant's mark at `pos` and passes the turn to
    /// the next participant. Fails with `InvalidMove` when the roster is
    /// empty, and with the board's error when the cell is off the board or
    /// taken; a failure changes nothing.
    pub fn make_move(&mut self, pos: (usize, usize)) -> (r: Result<(), GameError>)
        requires
            old(self).wf(),
        ensures
            final(self).wf(),
            final(self).spec_players() == old(self).spec_players(),
            final(self).spec_max_players() == old(self).spec_max_players(),
            final(self).spec_board().spec_size() == old(self).spec_board().spec_size(),
            old(self).spec_players().len() == 0 ==> r == Err::<(), GameError>(GameError::InvalidMove),
            old(self).spec_players().len() > 0 && !in_bounds(old(self).spec_board()@, pos.0 as int, pos.1 as int)
                ==> r == Err::<(), GameError>(GameError::BoardError(BoardError::OutOfBounds)),
            old(self).spec_players().len() > 0 && in_bounds(old(self).spec_board()@, pos.0 as int, pos.1 as int)
                && cell_of(old(self).spec_board()@, pos.0 as int, pos.1 as int).is_some()
                ==> r == Err::<(), GameError>(GameError::BoardError(BoardError::CellOccupied)),
            r.is_err() ==> final(self).spec_board()@ == old(self).spec_board()@ && final(self).spec_turn()
                == old(self).spec_turn(),
            r.is_ok() <==> old(self).spec_players().len() > 0 && in_bounds(old(self).spec_board()@, pos.0 as int, pos.1 as int)
                && cell_of(old(self).spec_board()@, pos.0 as int, pos.1 as int).is_none(),
            r.is_ok() ==> final(self).spec_board()@ == place(
                old(self).spec_board()@,
                pos.0 as int,
                pos.1 as int,
                old(self).spec_players()[old(self).spec_turn() as int].spec_symbol(),
            ),
            r.is_ok() ==> final(self).spec_turn() == (old(self).spec_turn() + 1) % (old(self).spec_players().len() as int),
    {
        if self.players.len() == 0 {
            return Err(GameError::InvalidMove);
        }
        let symbol = self.players[self.current_player_idx].symbol();
        match self.board.apply_move(pos, symbol) {
            Err(e) => {
                return Err(GameError::from(e));
            },
            Ok(()) => {},
        }
        self.current_player_idx = (self.current_player_idx + 1) % self.players.len();
        proof {
            let turn = old(self).current_player_idx as int;
            assert forall|r: int, c: int|
                #[trigger] cell_of(self.board@, r, c) is Some implies exists|i: int|
                    0 <= i < self.players@.len() && self.players@[i].spec_symbol() == cell_of(self.board@, r, c)->0 by {
                if r == pos.0 && c == pos.1 {
                    assert(self.players@[turn].spec_symbol() == symbol);
                } else {
                    assert(cell_of(self.board@, r, c) == cell_of(old(self).board@, r, c));
                }
            }
        }
        Ok(())
    }

    /// Whether the current participant may move at `pos`: the roster is not
    /// empty and the cell is on the board and empty.
    pub fn is_move_valid(&self, pos: (usize, usize)) -> (r: bool)
        requires
            self.wf(),
        ensures
            r == (self.spec_players().len() > 0 && in_bounds(self.spec_board()@, pos.0 as int, pos.1 as int)
                && cell_of(self.spec_board()@, pos.0 as int, pos.1 as int).is_none()),
    {
        if self.current_player().is_some() {
            self.board.get_cell(pos).is_none() && pos.0 < self.board.size() && pos.1 < self.board.size()
        } else {
            false
        }
    }

    /// The roster, in the order of joining.
    pub fn players(&self) -> (r: &Vec<Player>)
        ensures
            r@ == self.spec_players(),
    {
        &self.players
    }
}

} // verus!
