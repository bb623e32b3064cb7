//! The square board: cells that are empty or hold a mark, the operations that
//! place and clear marks, and the detection of streaks in four directions.

use crate::types::{BoardError, Symbol};
use vstd::prelude::*;

verus! {

/// The contents of a board, rows first.
pub type Grid = Seq<Seq<Option<Symbol>>>;

/// A cell of a board with `g.len()` rows and as many columns.
pub open spec fn in_bounds(g: Grid, r: int, c: int) -> bool {
    0 <= r < g.len() && 0 <= c < g.len()
}

/// The occupant of a cell; outside the board, no mark.
pub open spec fn cell_of(g: Grid, r: int, c: int) -> Option<Symbol> {
    if in_bounds(g, r, c) && c < g[r].len() {
        g[r][c]
    } else {
        None
    }
}

/// Every row is as long as the board is tall.
pub open spec fn is_square(g: Grid) -> bool {
    forall|r: int| 0 <= r < g.len() ==> #[trigger] g[r].len() == g.len()
}

/// The board of side `n` with every cell empty.
pub open spec fn empty_grid(n: nat) -> Grid {
    Seq::new(n, |r: int| Seq::new(n, |c: int| None::<Symbol>))
}

/// `g` with mark `m` at `(r, c)`.
pub open spec fn place(g: Grid, r: int, c: int, m: Symbol) -> Grid {
    g.update(r, g[r].update(c, Some(m)))
}

/// `g` with `(r, c)` empty.
pub open spec fn clear(g: Grid, r: int, c: int) -> Grid {
    g.update(r, g[r].update(c, None))
}

/// The empty cells of row `r` left of column `c`, left to right.
pub open spec fn row_empties(g: Grid, r: int, c: int) -> Seq<(usize, usize)>
    decreases c,
{
    if c <= 0 {
        Seq::empty()
    } else if cell_of(g, r, c - 1).is_none() {
        row_empties(g, r, c - 1).push((r as usize, (c - 1) as usize))
    } else {
        row_empties(g, r, c - 1)
    }
}

/// The empty cells of the rows above row `r`, in row-major order.
pub open spec fn empties_above(g: Grid, r: int) -> Seq<(usize, usize)>
    decreases r,
{
    if r <= 0 {
        Seq::empty()
    } else {
        empties_above(g, r - 1) + row_empties(g, r - 1, g.len() as int)
    }
}

/// All empty cells of the board, in row-major order.
pub open spec fn empty_cells(g: Grid) -> Seq<(usize, usize)> {
    empties_above(g, g.len() as int)
}

proof fn lemma_row_empties(g: Grid, r: int, c: int)
    requires
        0 <= r < g.len() <= usize::MAX,
        0 <= c <= g.len(),
    ensures
        forall|k: int|
            0 <= k < row_empties(g, r, c).len() ==> {
                let p = #[trigger] row_empties(g, r, c)[k];
                p.0 == r && p.1 < c && cell_of(g, p.0 as int, p.1 as int).is_none()
            },
        forall|cc: int|
            0 <= cc < c && cell_of(g, r, cc).is_none() ==> #[trigger] row_empties(g, r, c).contains(
                (r as usize, cc as usize),
            ),
    decreases c,
{
    if c > 0 {
        lemma_row_empties(g, r, c - 1);
        let prev = row_empties(g, r, c - 1);
        if cell_of(g, r, c - 1).is_none() {
            let cur = prev.push((r as usize, (c - 1) as usize));
            assert forall|cc: int|
                0 <= cc < c && cell_of(g, r, cc).is_none() implies #[trigger] cur.contains(
                (r as usize, cc as usize),
            ) by {
                if cc < c - 1 {
                    assert(prev.contains((r as usize, cc as usize)));
                    let k = choose|k: int| 0 <= k < prev.len() && prev[k] == (r as usize, cc as usize);
                    assert(cur[k] == prev[k]);
                } else {
                    assert(cur[prev.len() as int] == (r as usize, cc as usize));
                }
            }
        }
    }
}

/// The empty cells of the board are exactly its empty in-bounds cells.
pub proof fn lemma_empty_cells(g: Grid)
    requires
        g.len() <= usize::MAX,
    ensures
        forall|k: int|
            0 <= k < empty_cells(g).len() ==> {
                let p = #[trigger] empty_cells(g)[k];
                in_bounds(g, p.0 as int, p.1 as int) && cell_of(g, p.0 as int, p.1 as int).is_none()
            },
        forall|r: int, c: int|
            in_bounds(g, r, c) && cell_of(g, r, c).is_none() ==> #[trigger] empty_cells(g).contains(
                (r as usize, c as usize),
            ),
{
    lemma_empties_above(g, g.len() as int);
}

proof fn lemma_empties_above(g: Grid, r: int)
    requires
        0 <= r <= g.len() <= usize::MAX,
    ensures
        forall|k: int|
            0 <= k < empties_above(g, r).len() ==> {
                let p = #[trigger] empties_above(g, r)[k];
                p.0 < r && in_bounds(g, p.0 as int, p.1 as int) && cell_of(
                    g,
                    p.0 as int,
                    p.1 as int,
                ).is_none()
            },
        forall|rr: int, c: int|
            0 <= rr < r && in_bounds(g, rr, c) && cell_of(g, rr, c).is_none()
                ==> #[trigger] empties_above(g, r).contains((rr as usize, c as usize)),
    decreases r,
{
    if r > 0 {
        lemma_empties_above(g, r - 1);
        lemma_row_empties(g, r - 1, g.len() as int);
        let a = empties_above(g, r - 1);
        let b = row_empties(g, r - 1, g.len() as int);
        let s = a + b;
        assert forall|k: int| 0 <= k < s.len() implies {
            let p = #[trigger] s[k];
            p.0 < r && in_bounds(g, p.0 as int, p.1 as int) && cell_of(
                g,
                p.0 as int,
                p.1 as int,
            ).is_none()
        } by {
            if k >= a.len() {
                assert(s[k] == b[k - a.len()]);
            }
        }
        assert forall|rr: int, c: int|
            0 <= rr < r && in_bounds(g, rr, c) && cell_of(g, rr, c).is_none() implies #[trigger] s.contains(
            (rr as usize, c as usize),
        ) by {
            if rr < r - 1 {
                assert(a.contains((rr as usize, c as usize)));
                let k = choose|k: int| 0 <= k < a.len() && a[k] == (rr as usize, c as usize);
                assert(s[k] == a[k]);
            } else {
                assert(b.contains((rr as usize, c as usize)));
                let k = choose|k: int| 0 <= k < b.len() && b[k] == (rr as usize, c as usize);
                assert(s[a.len() + k] == b[k]);
            }
        }
    }
}

/// The cell `i` steps from `(r, c)` in direction `d`: 0 is rightwards, 1
/// downwards, 2 down and to the right, 3 down and to the left.
pub open spec fn step_from(d: int, r: int, c: int, i: int) -> (int, int) {
    if d == 0 {
        (r, c + i)
    } else if d == 1 {
        (r + i, c)
    } else if d == 2 {
        (r + i, c + i)
    } else {
        (r + i, c - i)
    }
}

/// The occupant of the cell `i` steps from `(r, c)` in direction `d`.
pub open spec fn run_cell(g: Grid, d: int, r: int, c: int, i: int) -> Option<Symbol> {
    cell_of(g, step_from(d, r, c, i).0, step_from(d, r, c, i).1)
}

/// `len` cells from `(r, c)` in direction `d` all hold the same mark.
pub open spec fn is_run(g: Grid, len: int, d: int, r: int, c: int) -> bool {
    &&& len >= 1
    &&& 0 <= d < 4
    &&& cell_of(g, r, c).is_some()
    &&& forall|i: int| 0 <= i < len ==> #[trigger] run_cell(g, d, r, c, i) == cell_of(g, r, c)
}

/// `(d1, r1, c1)` comes no later than `(d2, r2, c2)`: directions first, then
/// rows, then columns.
pub open spec fn lex_le(d1: int, r1: int, c1: int, d2: int, r2: int, c2: int) -> bool {
    d1 < d2 || (d1 == d2 && (r1 < r2 || (r1 == r2 && c1 <= c2)))
}

/// The first anchor of a run of `len`, scanning from direction `d`, row `r`,
/// column `c` onwards: directions in their fixed order, and within a
/// direction the anchors in row-major order.
pub open spec fn scan_from(g: Grid, len: int, d: int, r: int, c: int) -> Option<(int, int)>
    decreases 4 - d, g.len() - r, g.len() - c,
{
    if d >= 4 {
        None
    } else if r >= g.len() {
        scan_from(g, len, d + 1, 0, 0)
    } else if c >= g.len() {
        scan_from(g, len, d, r + 1, 0)
    } else if is_run(g, len, d, r, c) {
        Some((r, c))
    } else {
        scan_from(g, len, d, r, c + 1)
    }
}

/// The anchor that streak detection reports for runs of `len`.
pub open spec fn streak_anchor(g: Grid, len: int) -> Option<(int, int)> {
    scan_from(g, len, 0, 0, 0)
}

/// Some run of `len` identical marks lies on the board.
pub open spec fn has_run(g: Grid, len: int) -> bool {
    exists|d: int, r: int, c: int| is_run(g, len, d, r, c)
}

proof fn lemma_scan_found(g: Grid, len: int, d0: int, r0: int, c0: int) -> (d: int)
    requires
        scan_from(g, len, d0, r0, c0) is Some,
    ensures
        ({
            let p = scan_from(g, len, d0, r0, c0)->0;
            is_run(g, len, d, p.0, p.1)
        }),
    decreases 4 - d0, g.len() - r0, g.len() - c0,
{
    if d0 >= 4 {
        0
    } else if r0 >= g.len() {
        lemma_scan_found(g, len, d0 + 1, 0, 0)
    } else if c0 >= g.len() {
        lemma_scan_found(g, len, d0, r0 + 1, 0)
    } else if is_run(g, len, d0, r0, c0) {
        d0
    } else {
        lemma_scan_found(g, len, d0, r0, c0 + 1)
    }
}

proof fn lemma_scan_reaches(g: Grid, len: int, d0: int, r0: int, c0: int, d: int, r: int, c: int)
    requires
        0 <= r0,
        0 <= c0,
        lex_le(d0, r0, c0, d, r, c),
        is_run(g, len, d, r, c),
    ensures
        scan_from(g, len, d0, r0, c0).is_some(),
        (forall|d1: int, r1: int, c1: int|
            lex_le(d0, r0, c0, d1, r1, c1) && !lex_le(d, r, c, d1, r1, c1) ==> !is_run(g, len, d1, r1, c1))
            ==> scan_from(g, len, d0, r0, c0) == Some((r, c)),
    decreases 4 - d0, g.len() - r0, g.len() - c0,
{
    if d0 >= 4 {
    } else if r0 >= g.len() {
        lemma_scan_reaches(g, len, d0 + 1, 0, 0, d, r, c);
    } else if c0 >= g.len() {
        lemma_scan_reaches(g, len, d0, r0 + 1, 0, d, r, c);
    } else if is_run(g, len, d0, r0, c0) {
    } else {
        lemma_scan_reaches(g, len, d0, r0, c0 + 1, d, r, c);
    }
}

/// Streak detection reports an anchor exactly when some run of `len`
/// identical marks lies on the board, and then a run begins at that anchor.
pub proof fn lemma_streak_iff_run(g: Grid, len: int)
    ensures
        streak_anchor(g, len).is_some() <==> has_run(g, len),
        streak_anchor(g, len) matches Some(p) ==> exists|d: int| is_run(g, len, d, p.0, p.1),
{
    if streak_anchor(g, len) is Some {
        let d = lemma_scan_found(g, len, 0, 0, 0);
        let p = streak_anchor(g, len)->0;
        assert(is_run(g, len, d, p.0, p.1));
    }
    if has_run(g, len) {
        let (d, r, c) = choose|d: int, r: int, c: int| is_run(g, len, d, r, c);
        lemma_scan_reaches(g, len, 0, 0, 0, d, r, c);
    }
}

/// A board with every cell empty has no streak of any length.
pub proof fn lemma_empty_board_has_no_streak(n: nat, len: int)
    ensures
        streak_anchor(empty_grid(n), len).is_none(),
{
    lemma_streak_iff_run(empty_grid(n), len);
}

/// A run longer than the side of the board never fits on it, so no streak
/// of that length is reported.
pub proof fn lemma_long_streak_never_matches(g: Grid, len: int)
    requires
        len > g.len(),
    ensures
        streak_anchor(g, len).is_none(),
{
    assert forall|d: int, r: int, c: int| !#[trigger] is_run(g, len, d, r, c) by {
        if is_run(g, len, d, r, c) {
            assert(run_cell(g, d, r, c, len - 1) == cell_of(g, r, c));
        }
    }
    lemma_streak_iff_run(g, len);
}

/// A run of `len` identical marks beginning at `(r, c)` in direction `d` is
/// reported, by its anchor, when no run comes before it in the order of
/// detection: an earlier direction anywhere, or the same direction at an
/// earlier cell in row-major order.
pub proof fn lemma_run_is_reported(g: Grid, len: int, d: int, r: int, c: int)
    requires
        is_run(g, len, d, r, c),
        forall|d1: int, r1: int, c1: int|
            #[trigger] is_run(g, len, d1, r1, c1) ==> lex_le(d, r, c, d1, r1, c1),
    ensures
        streak_anchor(g, len) == Some((r, c)),
{
    lemma_scan_reaches(g, len, 0, 0, 0, d, r, c);
}

/// Mark `m` occupies some cell of the board.
pub open spec fn on_board(g: Grid, m: Symbol) -> bool {
    exists|r: int, c: int| cell_of(g, r, c) == Some(m)
}

/// Putting `m` at `p` leaves a streak of three on the board.
pub open spec fn wins_at(g: Grid, p: (usize, usize), m: Symbol) -> bool {
    streak_anchor(place(g, p.0 as int, p.1 as int, m), 3).is_some()
}

/// The empty cells at which `m` would complete a streak of three, in
/// row-major order.
pub open spec fn win_cells(g: Grid, m: Symbol) -> Seq<(usize, usize)> {
    empty_cells(g).filter(|p: (usize, usize)| wins_at(g, p, m))
}

/// The score of a board for `ai` against `player`: 10 when the reported
/// streak of three is `ai`'s, -10 when it is `player`'s, 0 otherwise.
pub open spec fn evaluation(g: Grid, ai: Symbol, player: Symbol) -> int {
    match streak_anchor(g, 3) {
        Some(p) => if cell_of(g, p.0, p.1) == Some(ai) {
            10
        } else if cell_of(g, p.0, p.1) == Some(player) {
            -10
        } else {
            0
        },
        None => 0,
    }
}

/// Placing a mark on an empty cell and then clearing that cell gives back
/// the board as it was.
pub proof fn lemma_place_then_clear(g: Grid, r: int, c: int, m: Symbol)
    requires
        is_square(g),
        in_bounds(g, r, c),
        cell_of(g, r, c).is_none(),
    ensures
        clear(place(g, r, c, m), r, c) == g,
{
    assert(clear(place(g, r, c, m), r, c)[r] =~= g[r]);
    assert(clear(place(g, r, c, m), r, c) =~= g);
}

/// A board: `size` rows of `size` cells, each empty or holding a mark.
#[derive(Debug, Clone)]
pub struct GameBoard {
    cells: Vec<Vec<Option<Symbol>>>,
    size: usize,
}

impl View for GameBoard {
    type V = Grid;

    closed spec fn view(&self) -> Grid {
        self.cells@.map_values(|row: Vec<Option<Symbol>>| row@)
    }
}

impl GameBoard {
    /// The side length of the board.
    pub closed spec fn spec_size(&self) -> usize {
        self.size
    }

    /// The grid is `size` by `size`.
    pub open spec fn wf(&self) -> bool {
        self@.len() == self.spec_size() && is_square(self@)
    }

    /// An empty board of side `size`.
    pub fn new(size: usize) -> (r: GameBoard)
        ensures
            r.wf(),
            r.spec_size() == size,
            r@ == empty_grid(size as nat),
    {
        let mut cells: Vec<Vec<Option<Symbol>>> = Vec::new();
        let mut i: usize = 0;
        while i < size
            invariant
                i <= size,
                cells@.len() == i,
                forall|k: int| 0 <= k < i ==> (#[trigger] cells@[k])@ == Seq::new(size as nat, |c: int| None::<Symbol>),
            decreases size - i,
        {
            let mut row: Vec<Option<Symbol>> = Vec::new();
            let mut j: usize = 0;
            while j < size
                invariant
                    j <= size,
                    row@ == Seq::new(j as nat, |c: int| None::<Symbol>),
                decreases size - j,
            {
                row.push(None);
                j += 1;
                proof {
                    assert(row@ =~= Seq::new(j as nat, |c: int| None::<Symbol>));
                }
            }
            cells.push(row);
            i += 1;
        }
        let r = GameBoard { cells, size };
        proof {
            assert(r@ =~= empty_grid(size as nat));
        }
        r
    }

    /// The side length of the board.
    pub fn size(&self) -> (r: usize)
        ensures
            r == self.spec_size(),
    {
        self.size
    }

    /// Whether `pos` lies on the board.
    fn is_valid_position(&self, pos: (usize, usize)) -> (r: bool)
        requires
            self.wf(),
        ensures
            r == in_bounds(self@, pos.0 as int, pos.1 as int),
    {
        let (row, col) = pos;
        row < self.size && col < self.size
    }

    /// The occupant of `position`; `None` when it is empty or off the board.
    pub fn get_cell(&self, position: (usize, usize)) -> (r: Option<Symbol>)
        requires
            self.wf(),
        ensures
            r == cell_of(self@, position.0 as int, position.1 as int),
    {
        if !self.is_valid_position(position) {
            None
        } else {
            let (row, col) = position;
            self.cells[row][col]
        }
    }

    /// Puts `symbol` at `pos` when that cell is on the board and empty.
    pub fn apply_move(&mut self, pos: (usize, usize), symbol: Symbol) -> (r: Result<(), BoardError>)
        requires
            old(self).wf(),
        ensures
            final(self).wf(),
            final(self).spec_size() == old(self).spec_size(),
            !in_bounds(old(self)@, pos.0 as int, pos.1 as int) ==> r == Err::<(), BoardError>(BoardError::OutOfBounds),
            in_bounds(old(self)@, pos.0 as int, pos.1 as int) && cell_of(old(self)@, pos.0 as int, pos.1 as int).is_some()
                ==> r == Err::<(), BoardError>(BoardError::CellOccupied),
            r.is_ok() <==> in_bounds(old(self)@, pos.0 as int, pos.1 as int) && cell_of(old(self)@, pos.0 as int, pos.1 as int).is_none(),
            r.is_ok() ==> final(self)@ == place(old(self)@, pos.0 as int, pos.1 as int, symbol),
            r.is_err() ==> final(self)@ == old(self)@,
    {
        if !self.is_valid_position(pos) {
            return Err(BoardError::OutOfBounds);
        }
        let (row, col) = pos;
        if self.cells[row][col].is_some() {
            return Err(BoardError::CellOccupied);
        }
        self.cells[row][col] = Some(symbol);
        proof {
            assert(self@ =~= place(old(self)@, row as int, col as int, symbol));
        }
        Ok(())
    }

    /// Puts `symbol` at `position` when that cell is on the board and empty.
    pub fn record_move(&mut self, position: (usize, usize), symbol: Symbol) -> (r: Result<(), BoardError>)
        requires
            old(self).wf(),
        ensures
            final(self).wf(),
            final(self).spec_size() == old(self).spec_size(),
            !in_bounds(old(self)@, position.0 as int, position.1 as int) ==> r == Err::<(), BoardError>(BoardError::OutOfBounds),
            in_bounds(old(self)@, position.0 as int, position.1 as int) && cell_of(old(self)@, position.0 as int, position.1 as int).is_some()
                ==> r == Err::<(), BoardError>(BoardError::CellOccupied),
            r.is_ok() <==> in_bounds(old(self)@, position.0 as int, position.1 as int) && cell_of(old(self)@, position.0 as int, position.1 as int).is_none(),
            r.is_ok() ==> final(self)@ == place(old(self)@, position.0 as int, position.1 as int, symbol),
            r.is_err() ==> final(self)@ == old(self)@,
    {
        let (row, col) = position;
        if row >= self.size || col >= self.size {
            return Err(BoardError::OutOfBounds);
        }
        if self.cells[row][col].is_some() {
            return Err(BoardError::CellOccupied);
        }
        self.cells[row][col] = Some(symbol);
        proof {
            assert(self@ =~= place(old(self)@, row as int, col as int, symbol));
        }
        Ok(())
    }

    /// Empties `pos`, whatever it held, when it is on the board.
    pub fn undo_move(&mut self, pos: (usize, usize)) -> (r: Result<(), BoardError>)
        requires
            old(self).wf(),
        ensures
            final(self).wf(),
            final(self).spec_size() == old(self).spec_size(),
            r.is_ok() <==> in_bounds(old(self)@, pos.0 as int, pos.1 as int),
            r.is_err() ==> r == Err::<(), BoardError>(BoardError::OutOfBounds) && final(self)@ == old(self)@,
            r.is_ok() ==> final(self)@ == clear(old(self)@, pos.0 as int, pos.1 as int),
    {
        if !self.is_valid_position(pos) {
            return Err(BoardError::OutOfBounds);
        }
        let (row, col) = pos;
        proof {
            assert(self.cells@[row as int]@ == self@[row as int]);
        }
        self.cells[row][col] = None;
        proof {
            assert(self@ =~= clear(old(self)@, row as int, col as int));
        }
        Ok(())
    }

    /// Whether `len` cells from `(r, c)` in direction `d` hold one mark.
    fn run_at(&self, len: usize, d: usize, r: usize, c: usize) -> (res: bool)
        requires
            self.wf(),
            len >= 1,
            d < 4,
            r < self.spec_size(),
            c < self.spec_size(),
        ensures
            res == is_run(self@, len as int, d as int, r as int, c as int),
    {
        let n = self.size;
        let ghost g = self@;
        let m = match self.cells[r][c] {
            None => {
                return false;
            },
            Some(m) => m,
        };
        proof {
            assert(self.cells@[r as int]@ == g[r as int]);
            assert(cell_of(g, r as int, c as int) == Some(m));
        }
        let fits = if d == 0 {
            len - 1 < n - c
        } else if d == 1 {
            len - 1 < n - r
        } else if d == 2 {
            len - 1 < n - r && len - 1 < n - c
        } else {
            len - 1 < n - r && len - 1 <= c
        };
        if !fits {
            proof {
                assert(run_cell(g, d as int, r as int, c as int, len - 1) != cell_of(g, r as int, c as int));
            }
            return false;
        }
        let mut i: usize = 1;
        while i < len
            invariant
                self.wf(),
                g == self@,
                n == self.spec_size(),
                1 <= i <= len,
                d < 4,
                r < n,
                c < n,
                cell_of(g, r as int, c as int) == Some(m),
                d == 0 ==> len - 1 < n - c,
                d == 1 ==> len - 1 < n - r,
                d == 2 ==> len - 1 < n - r && len - 1 < n - c,
                d == 3 ==> len - 1 < n - r && len - 1 <= c,
                forall|k: int| 0 <= k < i ==> #[trigger] run_cell(g, d as int, r as int, c as int, k) == Some(m),
            decreases len - i,
        {
            let (rr, cc) = if d == 0 {
                (r, c + i)
            } else if d == 1 {
                (r + i, c)
            } else if d == 2 {
                (r + i, c + i)
            } else {
                (r + i, c - i)
            };
            proof {
                assert(step_from(d as int, r as int, c as int, i as int) == (rr as int, cc as int));
                assert(self.cells@[rr as int]@ == g[rr as int]);
            }
            let same = match self.cells[rr][cc] {
                Some(x) => x == m,
                None => false,
            };
            if !same {
                proof {
                    assert(run_cell(g, d as int, r as int, c as int, i as int) != cell_of(g, r as int, c as int));
                }
                return false;
            }
            i += 1;
        }
        proof {
            assert forall|k: int| 0 <= k < len implies #[trigger] run_cell(g, d as int, r as int, c as int, k) == cell_of(g, r as int, c as int) by {
                if k == 0 {
                    assert(step_from(d as int, r as int, c as int, 0) == (r as int, c as int));
                }
            }
        }
        true
    }

    /// The anchor of the first run of `streak_length` identical marks:
    /// horizontal runs first, then vertical, then down-right, then down-left,
    /// and within each direction the anchors in row-major order. `None` when
    /// there is no such run, in particular when `streak_length` exceeds the
    /// side of the board.
    pub fn has_winning_streak(&self, streak_length: usize) -> (res: Option<(usize, usize)>)
        requires
            self.wf(),
        ensures
            res.is_none() <==> streak_anchor(self@, streak_length as int).is_none(),
            res matches Some(p) ==> streak_anchor(self@, streak_length as int) == Some((p.0 as int, p.1 as int)),
    {
        let n = self.size;
        let ghost g = self@;
        let ghost len = streak_length as int;
        if streak_length == 0 {
            proof {
                lemma_streak_iff_run(g, len);
            }
            return None;
        }
        let mut d: usize = 0;
        while d < 4
            invariant
                self.wf(),
                g == self@,
                n == self.spec_size(),
                streak_length >= 1,
                len == streak_length as int,
                d <= 4,
                streak_anchor(g, len) == scan_from(g, len, d as int, 0, 0),
            decreases 4 - d,
        {
            let mut r: usize = 0;
            while r < n
                invariant
                    self.wf(),
                    g == self@,
                    n == self.spec_size(),
                    streak_length >= 1,
                    len == streak_length as int,
                len == streak_length as int,
                    d < 4,
                    r <= n,
                    streak_anchor(g, len) == scan_from(g, len, d as int, r as int, 0),
                decreases n - r,
            {
                let mut c: usize = 0;
                while c < n
                    invariant
                        self.wf(),
                        g == self@,
                        n == self.spec_size(),
                        streak_length >= 1,
                        len == streak_length as int,
                    len == streak_length as int,
                len == streak_length as int,
                        d < 4,
                        r < n,
                        c <= n,
                        streak_anchor(g, len) == scan_from(g, len, d as int, r as int, c as int),
                    decreases n - c,
                {
                    let found = self.run_at(streak_length, d, r, c);
                    proof {
                        assert(g.len() == n);
                        assert(scan_from(g, len, d as int, r as int, c as int) == if found {
                            Some((r as int, c as int))
                        } else {
                            scan_from(g, len, d as int, r as int, c + 1)
                        });
                    }
                    if found {
                        return Some((r, c));
                    }
                    c += 1;
                }
                r += 1;
            }
            d += 1;
        }
        None
    }

    /// The empty cells, in row-major order.
    pub fn empty_positions(&self) -> (r: Vec<(usize, usize)>)
        requires
            self.wf(),
        ensures
            r@ == empty_cells(self@),
    {
        let mut positions: Vec<(usize, usize)> = Vec::new();
        let n = self.size;
        for i in 0..n
            invariant
                self.wf(),
                n == self.spec_size(),
                positions@ == empties_above(self@, i as int),
        {
            let mut j: usize = 0;
            while j < n
                invariant
                    self.wf(),
                    n == self.spec_size(),
                    0 <= i < n,
                    j <= n,
                    positions@ == empties_above(self@, i as int) + row_empties(self@, i as int, j as int),
                decreases n - j,
            {
                if self.cells[i][j].is_none() {
                    positions.push((i, j));
                }
                j += 1;
            }
            proof {
                assert(positions@ =~= empties_above(self@, i + 1));
            }
        }
        positions
    }

    /// The empty cells, in row-major order.
    pub fn get_available_positions(&self) -> (r: Vec<(usize, usize)>)
        requires
            self.wf(),
        ensures
            r@ == empty_cells(self@),
    {
        self.empty_positions()
    }

    /// A board with the same cells.
    pub(crate) fn duplicate(&self) -> (r: GameBoard)
        requires
            self.wf(),
        ensures
            r.wf(),
            r@ == self@,
            r.spec_size() == self.spec_size(),
    {
        let n = self.size;
        let mut cells: Vec<Vec<Option<Symbol>>> = Vec::new();
        for i in 0..n
            invariant
                self.wf(),
                n == self.spec_size(),
                cells@.len() == i,
                forall|k: int| 0 <= k < i ==> (#[trigger] cells@[k])@ == self@[k],
        {
            let mut row: Vec<Option<Symbol>> = Vec::new();
            for j in 0..n
                invariant
                    self.wf(),
                    n == self.spec_size(),
                    0 <= i < n,
                    row@ == self@[i as int].take(j as int),
            {
                proof {
                    assert(self.cells@[i as int]@ == self@[i as int]);
                }
                row.push(self.cells[i][j]);
                proof {
                    assert(row@ =~= self@[i as int].take(j + 1));
                }
            }
            proof {
                assert(row@ =~= self@[i as int]);
            }
            cells.push(row);
        }
        let r = GameBoard { cells, size: n };
        proof {
            assert(r@ =~= self@);
        }
        r
    }

    /// The marks on the board, each once.
    pub fn get_all_symbols(&self) -> (r: Vec<Symbol>)
        requires
            self.wf(),
        ensures
            r@.no_duplicates(),
            forall|m: Symbol| #[trigger] r@.contains(m) <==> on_board(self@, m),
    {
        let n = self.size;
        let ghost g = self@;
        let mut symbols: Vec<Symbol> = Vec::new();
        for i in 0..n
            invariant
                self.wf(),
                g == self@,
                n == self.spec_size(),
                symbols@.no_duplicates(),
                forall|m: Symbol|
                    #[trigger] symbols@.contains(m) <==> exists|r: int, c: int|
                        0 <= r < i && cell_of(g, r, c) == Some(m),
        {
            for j in 0..n
                invariant
                    self.wf(),
                    g == self@,
                    n == self.spec_size(),
                    0 <= i < n,
                    symbols@.no_duplicates(),
                    forall|m: Symbol|
                        #[trigger] symbols@.contains(m) <==> exists|r: int, c: int|
                            (0 <= r < i || (r == i && c < j)) && cell_of(g, r, c) == Some(m),
            {
                proof {
                    assert(self.cells@[i as int]@ == g[i as int]);
                }
                if let Some(m) = self.cells[i][j] {
                    let ghost before = symbols@;
                    let mut present = false;
                    let mut k: usize = 0;
                    while k < symbols.len()
                        invariant
                            k <= symbols@.len(),
                            present <==> exists|t: int| 0 <= t < k && symbols@[t] == m,
                        decreases symbols@.len() - k,
                    {
                        if symbols[k] == m {
                            present = true;
                        }
                        k += 1;
                    }
                    if !present {
                        symbols.push(m);
                    }
                    proof {
                        assert(cell_of(g, i as int, j as int) == Some(m));
                        assert(present <==> before.contains(m));
                        assert forall|m2: Symbol|
                            #[trigger] symbols@.contains(m2) <==> exists|r: int, c: int|
                                (0 <= r < i || (r == i && c < j + 1)) && cell_of(g, r, c) == Some(m2) by {
                            if !present {
                                assert(symbols@ == before.push(m));
                                if before.contains(m2) {
                                    let t = choose|t: int| 0 <= t < before.len() && before[t] == m2;
                                    assert(symbols@[t] == m2);
                                }
                                if symbols@.contains(m2) && m2 != m {
                                    let t = choose|t: int| 0 <= t < symbols@.len() && symbols@[t] == m2;
                                    assert(before[t] == m2);
                                }
                                if m2 == m {
                                    assert(symbols@[before.len() as int] == m);
                                }
                            }
                            if m2 == m {
                                assert(cell_of(g, i as int, j as int) == Some(m2));
                            }
                        }
                    }
                } else {
                    proof {
                        assert(cell_of(g, i as int, j as int).is_none());
                    }
                }
            }
        }
        proof {
            assert forall|m: Symbol| #[trigger] symbols@.contains(m) <==> on_board(g, m) by {
                if on_board(g, m) {
                    let (r, c) = choose|r: int, c: int| cell_of(g, r, c) == Some(m);
                    assert(0 <= r < n);
                }
            }
        }
        symbols
    }

    /// The empty cells at which `symbol` would complete a streak of three, in
    /// row-major order; each is tried on the board itself and cleared again.
    pub fn get_winning_positions(&mut self, symbol: Symbol) -> (r: Vec<(usize, usize)>)
        requires
            old(self).wf(),
        ensures
            final(self).wf(),
            final(self)@ == old(self)@,
            final(self).spec_size() == old(self).spec_size(),
            r@ == win_cells(old(self)@, symbol),
    {
        let ghost g = self@;
        let ghost f = |p: (usize, usize)| wins_at(g, p, symbol);
        let empties = self.empty_positions();
        proof {
            lemma_empty_cells(g);
        }
        let mut positions: Vec<(usize, usize)> = Vec::new();
        for k in 0..empties.len()
            invariant
                self.wf(),
                self@ == g,
                self.spec_size() == g.len(),
                empties@ == empty_cells(g),
                f == (|p: (usize, usize)| wins_at(g, p, symbol)),
                forall|t: int|
                    0 <= t < empty_cells(g).len() ==> {
                        let p = #[trigger] empty_cells(g)[t];
                        in_bounds(g, p.0 as int, p.1 as int) && cell_of(g, p.0 as int, p.1 as int).is_none()
                    },
                positions@ == empties@.take(k as int).filter(f),
        {
            let pos = empties[k];
            proof {
                assert(empty_cells(g)[k as int] == pos);
            }
            let _ = self.apply_move(pos, symbol);
            let wins = self.has_winning_streak(3).is_some();
            let _ = self.undo_move(pos);
            proof {
                lemma_place_then_clear(g, pos.0 as int, pos.1 as int, symbol);
                assert(empties@.take(k + 1) =~= empties@.take(k as int).push(pos));
                empties@.take(k as int).lemma_filter_push(pos, f);
            }
            if wins {
                positions.push(pos);
            }
        }
        proof {
            assert(empties@.take(empties@.len() as int) =~= empties@);
        }
        positions
    }

    /// 10 when the first streak of three belongs to `ai_symbol`, -10 when it
    /// belongs to `player_symbol`, 0 otherwise.
    pub fn evaluate(&self, ai_symbol: Symbol, player_symbol: Symbol) -> (r: i32)
        requires
            self.wf(),
        ensures
            r as int == evaluation(self@, ai_symbol, player_symbol),
    {
        if let Some((row, col)) = self.has_winning_streak(3) {
            if let Some(winner) = self.get_cell((row, col)) {
                if winner == ai_symbol {
                    return 10;
                } else if winner == player_symbol {
                    return -10;
                }
            }
        }
        0
    }

    /// Whether no cell is empty.
    pub fn is_full(&self) -> (r: bool)
        requires
            self.wf(),
        ensures
            r == (empty_cells(self@).len() == 0),
    {
        self.empty_positions().len() == 0
    }
}

} // verus!
