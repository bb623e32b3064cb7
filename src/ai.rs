//! The decision engine of computer players: a layered heuristic (center,
//! immediate win, block, fork, corner) with a uniformly random fallback.

use crate::chance::random_index;
use crate::game_board::{
    cell_of, empty_cells, in_bounds, lemma_empty_cells, lemma_place_then_clear, on_board, place,
    win_cells, wins_at, GameBoard, Grid,
};
use crate::types::{Difficulty, Symbol};
use vstd::prelude::*;

verus! {

/// `(r, c)` lies on the board and is empty.
pub open spec fn free_cell(g: Grid, r: int, c: int) -> bool {
    in_bounds(g, r, c) && cell_of(g, r, c).is_none()
}

/// Putting some other mark that is on the board at `p` would complete a
/// streak of three.
pub open spec fn blocks_at(g: Grid, p: (usize, usize), m: Symbol) -> bool {
    exists|o: Symbol| o != m && on_board(g, o) && wins_at(g, p, o)
}

/// The empty cells that stop an opponent's immediate win, in row-major order.
pub open spec fn block_cells(g: Grid, m: Symbol) -> Seq<(usize, usize)> {
    empty_cells(g).filter(|p: (usize, usize)| blocks_at(g, p, m))
}

/// The empty cells after which `m` has two or more winning continuations, in
/// row-major order.
pub open spec fn fork_cells(g: Grid, m: Symbol) -> Seq<(usize, usize)> {
    empty_cells(g).filter(|p: (usize, usize)| win_cells(place(g, p.0 as int, p.1 as int, m), m).len() >= 2)
}

/// The first empty corner: top-left, top-right, bottom-left, bottom-right.
pub open spec fn corner_choice(g: Grid) -> Option<(usize, usize)> {
    let last = g.len() - 1;
    if free_cell(g, 0, 0) {
        Some((0, 0))
    } else if free_cell(g, 0, last) {
        Some((0, last as usize))
    } else if free_cell(g, last, 0) {
        Some((last as usize, 0))
    } else if free_cell(g, last, last) {
        Some((last as usize, last as usize))
    } else {
        None
    }
}

/// The layered heuristic for mark `m`: the center, else the first winning
/// cell, else the first blocking cell, else the first forking cell, else the
/// first empty corner; `None` when no rule applies.
pub open spec fn heuristic_choice(g: Grid, m: Symbol) -> Option<(usize, usize)> {
    let mid = (g.len() / 2) as int;
    if free_cell(g, mid, mid) {
        Some((mid as usize, mid as usize))
    } else if win_cells(g, m).len() > 0 {
        Some(win_cells(g, m)[0])
    } else if block_cells(g, m).len() > 0 {
        Some(block_cells(g, m)[0])
    } else if fork_cells(g, m).len() > 0 {
        Some(fork_cells(g, m)[0])
    } else {
        corner_choice(g)
    }
}

/// The move made at `level` given a roll in `0..10` and a pick among the
/// empty cells: Easy takes the picked cell; Hard takes the heuristic's cell,
/// or the picked one when no rule applies; Medium plays as Hard on rolls
/// below 7 and as Easy otherwise.
pub open spec fn planned_move(g: Grid, m: Symbol, level: Difficulty, roll: int, pick: int) -> (usize, usize) {
    let fallback = empty_cells(g)[pick];
    let smart = match heuristic_choice(g, m) {
        Some(p) => p,
        None => fallback,
    };
    match level {
        Difficulty::Easy => fallback,
        Difficulty::Medium => if roll < 7 {
            smart
        } else {
            fallback
        },
        Difficulty::Hard => smart,
    }
}

proof fn lemma_filter_first_upto<A>(s: Seq<A>, f: spec_fn(A) -> bool, k: int, j: int)
    requires
        0 <= k < j <= s.len(),
        s.take(k).filter(f).len() == 0,
        f(s[k]),
    ensures
        s.take(j).filter(f).len() > 0,
        s.take(j).filter(f)[0] == s[k],
    decreases j - k,
{
    assert(s.take(j) =~= s.take(j - 1).push(s[j - 1]));
    s.take(j - 1).lemma_filter_push(s[j - 1], f);
    if j > k + 1 {
        lemma_filter_first_upto(s, f, k, j - 1);
    }
}

/// When nothing before index `k` passes `f` and `s[k]` does, `s[k]` is the
/// first element that passes.
proof fn lemma_filter_first<A>(s: Seq<A>, f: spec_fn(A) -> bool, k: int)
    requires
        0 <= k < s.len(),
        s.take(k).filter(f).len() == 0,
        f(s[k]),
    ensures
        s.filter(f).len() > 0,
        s.filter(f)[0] == s[k],
{
    lemma_filter_first_upto(s, f, k, s.len() as int);
    assert(s.take(s.len() as int) =~= s);
}

/// A cell that the heuristic picks is empty and on the board.
pub proof fn lemma_heuristic_choice_is_free(g: Grid, m: Symbol)
    requires
        g.len() <= usize::MAX,
    ensures
        heuristic_choice(g, m) matches Some(p) ==> free_cell(g, p.0 as int, p.1 as int),
{
    lemma_empty_cells(g);
    let mid = (g.len() / 2) as int;
    if free_cell(g, mid, mid) {
    } else if win_cells(g, m).len() > 0 {
        let f = |p: (usize, usize)| wins_at(g, p, m);
        empty_cells(g).lemma_filter_contains_rev(f, win_cells(g, m)[0]);
        assert(win_cells(g, m).contains(win_cells(g, m)[0]));
    } else if block_cells(g, m).len() > 0 {
        let f = |p: (usize, usize)| blocks_at(g, p, m);
        assert(block_cells(g, m).contains(block_cells(g, m)[0]));
        empty_cells(g).lemma_filter_contains_rev(f, block_cells(g, m)[0]);
    } else if fork_cells(g, m).len() > 0 {
        let f = |p: (usize, usize)| win_cells(place(g, p.0 as int, p.1 as int, m), m).len() >= 2;
        assert(fork_cells(g, m).contains(fork_cells(g, m)[0]));
        empty_cells(g).lemma_filter_contains_rev(f, fork_cells(g, m)[0]);
    }
}

/// Whatever the level, roll and pick, the engine's move is an empty cell of
/// the board.
pub proof fn lemma_planned_move_is_free(g: Grid, m: Symbol, level: Difficulty, roll: int, pick: int)
    requires
        g.len() <= usize::MAX,
        0 <= pick < empty_cells(g).len(),
    ensures
        ({
            let p = planned_move(g, m, level, roll, pick);
            free_cell(g, p.0 as int, p.1 as int)
        }),
{
    lemma_empty_cells(g);
    lemma_heuristic_choice_is_free(g, m);
    assert(free_cell(g, empty_cells(g)[pick].0 as int, empty_cells(g)[pick].1 as int));
}

/// When the center is taken and `m` can complete a streak of three with one
/// move, the Hard engine plays such a move, the first in row-major order,
/// ahead of any block or fork.
pub proof fn lemma_hard_takes_the_win(g: Grid, m: Symbol, roll: int, pick: int, r: int, c: int)
    requires
        g.len() <= usize::MAX,
        !free_cell(g, (g.len() / 2) as int, (g.len() / 2) as int),
        free_cell(g, r, c),
        wins_at(g, (r as usize, c as usize), m),
    ensures
        win_cells(g, m).len() > 0,
        planned_move(g, m, Difficulty::Hard, roll, pick) == win_cells(g, m)[0],
        wins_at(g, planned_move(g, m, Difficulty::Hard, roll, pick), m),
{
    lemma_empty_cells(g);
    let f = |p: (usize, usize)| wins_at(g, p, m);
    assert(empty_cells(g).contains((r as usize, c as usize)));
    let k = choose|k: int| 0 <= k < empty_cells(g).len() && empty_cells(g)[k] == (r as usize, c as usize);
    empty_cells(g).lemma_filter_contains(f, k);
    assert(win_cells(g, m).contains((r as usize, c as usize)));
    empty_cells(g).lemma_filter_pred(f, 0);
}

/// A computer player: a difficulty and the mark it plays.
#[derive(Debug, Clone, Copy)]
pub struct AI {
    difficulty: Difficulty,
    symbol: Symbol,
}

impl AI {
    /// The difficulty this player plays at.
    pub closed spec fn spec_difficulty(&self) -> Difficulty {
        self.difficulty
    }

    /// The mark this player places.
    pub closed spec fn spec_symbol(&self) -> Symbol {
        self.symbol
    }

    /// A player of `difficulty` that places `symbol`.
    pub fn new(difficulty: Difficulty, symbol: Symbol) -> (r: AI)
        ensures
            r.spec_difficulty() == difficulty,
            r.spec_symbol() == symbol,
    {
        AI { difficulty, symbol }
    }

    /// The cell that the layered heuristic picks for this player's mark, or
    /// `None` when no rule applies. Trial moves are made on a private copy of
    /// the board and cleared after each trial.
    pub fn heuristic_move(&self, board: &GameBoard) -> (r: Option<(usize, usize)>)
        requires
            board.wf(),
        ensures
            r == heuristic_choice(board@, self.spec_symbol()),
    {
        let ghost g = board@;
        let n = board.size();
        let m = self.symbol;
        let center = n / 2;
        if center < n && board.get_cell((center, center)).is_none() {
            return Some((center, center));
        }
        let ghost mid = (g.len() / 2) as int;
        proof {
            assert(!free_cell(g, mid, mid));
        }
        if n == 0 {
            proof {
                assert(empty_cells(g) =~= Seq::<(usize, usize)>::empty());
            }
            return None;
        }
        let empties = board.empty_positions();
        proof {
            lemma_empty_cells(g);
        }
        let mut work = board.duplicate();
        let wins = work.get_winning_positions(m);
        if wins.len() > 0 {
            return Some(wins[0]);
        }
        let syms = board.get_all_symbols();
        let ghost bf = |p: (usize, usize)| blocks_at(g, p, m);
        for k in 0..empties.len()
            invariant
                board.wf(),
                g == board@,
                m == self.spec_symbol(),
                work.wf(),
                work@ == g,
                work.spec_size() == g.len(),
                empties@ == empty_cells(g),
                forall|t: int|
                    0 <= t < empty_cells(g).len() ==> {
                        let p = #[trigger] empty_cells(g)[t];
                        in_bounds(g, p.0 as int, p.1 as int) && cell_of(g, p.0 as int, p.1 as int).is_none()
                    },
                forall|o: Symbol| #[trigger] syms@.contains(o) <==> on_board(g, o),
                bf == (|p: (usize, usize)| blocks_at(g, p, m)),
                empties@.take(k as int).filter(bf).len() == 0,
                !free_cell(g, mid, mid),
                mid == (g.len() / 2) as int,
                win_cells(g, m).len() == 0,
        {
            let pos = empties[k];
            proof {
                assert(empty_cells(g)[k as int] == pos);
            }
            let mut j: usize = 0;
            while j < syms.len()
                invariant
                    board.wf(),
                    g == board@,
                    m == self.spec_symbol(),
                    work.wf(),
                    work@ == g,
                    work.spec_size() == g.len(),
                    empties@ == empty_cells(g),
                    0 <= k < empties@.len(),
                    pos == empties@[k as int],
                    in_bounds(g, pos.0 as int, pos.1 as int),
                    cell_of(g, pos.0 as int, pos.1 as int).is_none(),
                    forall|o: Symbol| #[trigger] syms@.contains(o) <==> on_board(g, o),
                    bf == (|p: (usize, usize)| blocks_at(g, p, m)),
                    empties@.take(k as int).filter(bf).len() == 0,
                    !free_cell(g, mid, mid),
                    mid == (g.len() / 2) as int,
                    win_cells(g, m).len() == 0,
                    j <= syms@.len(),
                    forall|t: int| 0 <= t < j ==> !(syms@[t] != m && #[trigger] wins_at(g, pos, syms@[t])),
                decreases syms@.len() - j,
            {
                let o = syms[j];
                if o != m {
                    let _ = work.apply_move(pos, o);
                    let hit = work.has_winning_streak(3).is_some();
                    let _ = work.undo_move(pos);
                    proof {
                        lemma_place_then_clear(g, pos.0 as int, pos.1 as int, o);
                        assert(hit == wins_at(g, pos, o));
                    }
                    if hit {
                        proof {
                            assert(syms@.contains(o));
                            assert(blocks_at(g, pos, m));
                            lemma_filter_first(empties@, bf, k as int);
                        }
                        return Some(pos);
                    }
                }
                j += 1;
            }
            proof {
                if blocks_at(g, pos, m) {
                    let o = choose|o: Symbol| o != m && on_board(g, o) && wins_at(g, pos, o);
                    assert(syms@.contains(o));
                    let t = choose|t: int| 0 <= t < syms@.len() && syms@[t] == o;
                    assert(!(syms@[t] != m && wins_at(g, pos, syms@[t])));
                }
                assert(empties@.take(k + 1) =~= empties@.take(k as int).push(pos));
                empties@.take(k as int).lemma_filter_push(pos, bf);
            }
        }
        proof {
            assert(empties@.take(empties@.len() as int) =~= empties@);
        }
        let ghost ff = |p: (usize, usize)| win_cells(place(g, p.0 as int, p.1 as int, m), m).len() >= 2;
        for k in 0..empties.len()
            invariant
                board.wf(),
                g == board@,
                m == self.spec_symbol(),
                work.wf(),
                work@ == g,
                work.spec_size() == g.len(),
                empties@ == empty_cells(g),
                forall|t: int|
                    0 <= t < empty_cells(g).len() ==> {
                        let p = #[trigger] empty_cells(g)[t];
                        in_bounds(g, p.0 as int, p.1 as int) && cell_of(g, p.0 as int, p.1 as int).is_none()
                    },
                ff == (|p: (usize, usize)| win_cells(place(g, p.0 as int, p.1 as int, m), m).len() >= 2),
                empties@.take(k as int).filter(ff).len() == 0,
                !free_cell(g, mid, mid),
                mid == (g.len() / 2) as int,
                win_cells(g, m).len() == 0,
                block_cells(g, m).len() == 0,
        {
            let pos = empties[k];
            proof {
                assert(empty_cells(g)[k as int] == pos);
            }
            let _ = work.apply_move(pos, m);
            let next = work.get_winning_positions(m);
            let _ = work.undo_move(pos);
            proof {
                lemma_place_then_clear(g, pos.0 as int, pos.1 as int, m);
            }
            if next.len() >= 2 {
                proof {
                    lemma_filter_first(empties@, ff, k as int);
                }
                return Some(pos);
            }
            proof {
                assert(empties@.take(k + 1) =~= empties@.take(k as int).push(pos));
                empties@.take(k as int).lemma_filter_push(pos, ff);
            }
        }
        proof {
            assert(empties@.take(empties@.len() as int) =~= empties@);
        }
        let last = n - 1;
        if board.get_cell((0, 0)).is_none() {
            return Some((0, 0));
        }
        if board.get_cell((0, last)).is_none() {
            return Some((0, last));
        }
        if board.get_cell((last, 0)).is_none() {
            return Some((last, 0));
        }
        if board.get_cell((last, last)).is_none() {
            return Some((last, last));
        }
        None
    }

    /// The empty cell at index `pick` of the row-major list of empty cells.
    fn random_move(&self, board: &GameBoard, pick: usize) -> (r: (usize, usize))
        requires
            board.wf(),
            pick < empty_cells(board@).len(),
        ensures
            r == empty_cells(board@)[pick as int],
    {
        let empty_positions = board.empty_positions();
        empty_positions[pick]
    }

    /// The heuristic's cell, or the picked empty cell when no rule applies.
    fn smart_move(&self, board: &GameBoard, pick: usize) -> (r: (usize, usize))
        requires
            board.wf(),
            pick < empty_cells(board@).len(),
        ensures
            r == planned_move(board@, self.spec_symbol(), Difficulty::Hard, 0, pick as int),
    {
        match self.heuristic_move(board) {
            Some(p) => p,
            None => self.random_move(board, pick),
        }
    }

    /// The move this player makes for a `roll` (drawn from `0..10`) and a
    /// `pick` among the empty cells in row-major order.
    pub fn choose_move(&self, board: &GameBoard, roll: usize, pick: usize) -> (r: (usize, usize))
        requires
            board.wf(),
            pick < empty_cells(board@).len(),
        ensures
            r == planned_move(board@, self.spec_symbol(), self.spec_difficulty(), roll as int, pick as int),
    {
        match self.difficulty {
            Difficulty::Easy => self.random_move(board, pick),
            Difficulty::Medium => {
                if roll < 7 {
                    self.smart_move(board, pick)
                } else {
                    self.random_move(board, pick)
                }
            },
            Difficulty::Hard => self.smart_move(board, pick),
        }
    }

    /// The move this player makes on a board with an empty cell: Easy picks
    /// an empty cell uniformly at random, Hard follows the heuristic, and
    /// Medium follows it seven times in ten.
    pub fn decide_move(&self, board: &GameBoard) -> (r: (usize, usize))
        requires
            board.wf(),
            empty_cells(board@).len() > 0,
        ensures
            free_cell(board@, r.0 as int, r.1 as int),
            exists|roll: int, pick: int|
                0 <= roll < 10 && 0 <= pick < empty_cells(board@).len() && r == planned_move(
                    board@,
                    self.spec_symbol(),
                    self.spec_difficulty(),
                    roll,
                    pick,
                ),
            self.spec_difficulty() == Difficulty::Hard ==> (heuristic_choice(board@, self.spec_symbol()) matches Some(p) ==> r == p),
    {
        let count = board.empty_positions().len();
        let roll = random_index(10);
        let pick = random_index(count);
        let r = self.choose_move(board, roll, pick);
        proof {
            lemma_planned_move_is_free(board@, self.symbol, self.difficulty, roll as int, pick as int);
            assert(0 <= roll < 10 && 0 <= pick < empty_cells(board@).len());
        }
        r
    }

    /// Makes this player play at `difficulty`.
    pub fn adjust_difficulty(&mut self, difficulty: Difficulty)
        ensures
            final(self).spec_difficulty() == difficulty,
            final(self).spec_symbol() == old(self).spec_symbol(),
    {
        self.difficulty = difficulty;
    }
}

} // verus!
