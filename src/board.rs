//! A plain board of characters in which `'_'` marks an empty cell.

use vstd::prelude::*;

verus! {

/// The rows of a character board as sequences.
pub open spec fn char_rows(state: Seq<Vec<char>>) -> Seq<Seq<char>> {
    state.map_values(|row: Vec<char>| row@)
}

/// The blank cells of row `y` left of column `x`, as `(row, column)`.
pub open spec fn row_blanks(g: Seq<Seq<char>>, y: int, x: int) -> Seq<(u32, u32)>
    decreases x,
{
    if x <= 0 {
        Seq::empty()
    } else if g[y][x - 1] == '_' {
        row_blanks(g, y, x - 1).push((y as u32, (x - 1) as u32))
    } else {
        row_blanks(g, y, x - 1)
    }
}

/// The blank cells of the rows above row `y`, in row-major order.
pub open spec fn blanks_above(g: Seq<Seq<char>>, y: int) -> Seq<(u32, u32)>
    decreases y,
{
    if y <= 0 {
        Seq::empty()
    } else {
        blanks_above(g, y - 1) + row_blanks(g, y - 1, g.len() as int)
    }
}

/// A non-empty row whose cells all hold the same character other than `'_'`.
pub open spec fn uniform_row(row: Seq<char>) -> bool {
    row.len() > 0 && row[0] != '_' && forall|x: int| 0 <= x < row.len() ==> #[trigger] row[x] == row[0]
}

/// The character of the first uniform row at or below row `y`.
pub open spec fn first_uniform_row(g: Seq<Seq<char>>, y: int) -> Option<char>
    decreases g.len() - y,
{
    if y < 0 || y >= g.len() {
        None
    } else if uniform_row(g[y]) {
        Some(g[y][0])
    } else {
        first_uniform_row(g, y + 1)
    }
}

/// A square board of characters.
#[derive(Clone)]
pub struct Board {
    pub game_state: Vec<Vec<char>>,
}

impl Board {
    /// Every row is as long as the board is tall.
    pub open spec fn wf(&self) -> bool {
        forall|y: int| 0 <= y < self.game_state@.len() ==> #[trigger] self.game_state@[y]@.len() == self.game_state@.len()
    }

    /// A board of side `board_size` with every cell `'_'`.
    pub fn new(board_size: u32) -> (r: Board)
        ensures
            r.wf(),
            r.game_state@.len() == board_size,
            forall|y: int| 0 <= y < board_size ==> #[trigger] r.game_state@[y]@ == Seq::new(board_size as nat, |x: int| '_'),
    {
        let mut game_state: Vec<Vec<char>> = Vec::new();
        let mut i: u32 = 0;
        while i < board_size
            invariant
                i <= board_size,
                game_state@.len() == i,
                forall|y: int| 0 <= y < i ==> #[trigger] game_state@[y]@ == Seq::new(board_size as nat, |x: int| '_'),
            decreases board_size - i,
        {
            let mut row: Vec<char> = Vec::new();
            let mut j: u32 = 0;
            while j < board_size
                invariant
                    j <= board_size,
                    row@ == Seq::new(j as nat, |x: int| '_'),
                decreases board_size - j,
            {
                row.push('_');
                j += 1;
                proof {
                    assert(row@ =~= Seq::new(j as nat, |x: int| '_'));
                }
            }
            game_state.push(row);
            i += 1;
        }
        Board { game_state }
    }

    /// Writes `symbol` at column `x` of row `y`.
    pub fn receive_marking(&mut self, x: u32, y: u32, symbol: char)
        requires
            y < old(self).game_state@.len(),
            x < old(self).game_state@[y as int]@.len(),
        ensures
            char_rows(final(self).game_state@) == char_rows(old(self).game_state@).update(
                y as int,
                old(self).game_state@[y as int]@.update(x as int, symbol),
            ),
    {
        self.game_state[y as usize][x as usize] = symbol;
        proof {
            assert(char_rows(self.game_state@) =~= char_rows(old(self).game_state@).update(
                y as int,
                old(self).game_state@[y as int]@.update(x as int, symbol),
            ));
        }
    }

    /// The cells holding `'_'`, as `(row, column)` in row-major order.
    pub fn get_empty_coordinates(&self) -> (r: Vec<(u32, u32)>)
        requires
            self.wf(),
            self.game_state@.len() <= u32::MAX,
        ensures
            r@ == blanks_above(char_rows(self.game_state@), self.game_state@.len() as int),
    {
        let ghost g = char_rows(self.game_state@);
        let n = self.game_state.len();
        let mut empty_coordinates: Vec<(u32, u32)> = Vec::new();
        for i in 0..n
            invariant
                self.wf(),
                n == self.game_state@.len(),
                n <= u32::MAX,
                g == char_rows(self.game_state@),
                empty_coordinates@ == blanks_above(g, i as int),
        {
            let mut j: usize = 0;
            while j < n
                invariant
                    self.wf(),
                    n == self.game_state@.len(),
                    n <= u32::MAX,
                    g == char_rows(self.game_state@),
                    0 <= i < n,
                    j <= n,
                    empty_coordinates@ == blanks_above(g, i as int) + row_blanks(g, i as int, j as int),
                decreases n - j,
            {
                proof {
                    assert(g[i as int] == self.game_state@[i as int]@);
                }
                if self.game_state[i][j] == '_' {
                    empty_coordinates.push((i as u32, j as u32));
                }
                j += 1;
            }
            proof {
                assert(empty_coordinates@ =~= blanks_above(g, i + 1));
            }
        }
        empty_coordinates
    }

    /// The character of the first row, from the top, whose cells all hold
    /// one character other than `'_'`.
    pub fn get_winning_row(&self) -> (r: Option<char>)
        requires
            self.wf(),
        ensures
            r == first_uniform_row(char_rows(self.game_state@), 0),
    {
        let ghost g = char_rows(self.game_state@);
        let n = self.game_state.len();
        let mut y: usize = 0;
        while y < n
            invariant
                self.wf(),
                n == self.game_state@.len(),
                g == char_rows(self.game_state@),
                y <= n,
                first_uniform_row(g, 0) == first_uniform_row(g, y as int),
            decreases n - y,
        {
            let row = &self.game_state[y];
            proof {
                assert(g[y as int] == row@);
            }
            let symbol_to_check = row[0];
            let mut uniform = symbol_to_check != '_';
            let mut x: usize = 1;
            while x < row.len()
                invariant
                    row@.len() == n,
                    1 <= x <= n,
                    symbol_to_check == row@[0],
                    uniform <==> (symbol_to_check != '_' && forall|k: int| 0 <= k < x ==> #[trigger] row@[k] == symbol_to_check),
                decreases n - x,
            {
                if row[x] != symbol_to_check {
                    uniform = false;
                }
                x += 1;
            }
            if uniform {
                return Some(symbol_to_check);
            }
            y += 1;
        }
        None
    }
}

} // verus!
