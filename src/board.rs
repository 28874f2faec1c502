//! The game board: a 6 by 7 grid in which pieces fall to the lowest empty
//! cell of a column.

use array2d::Array2D;
use vstd::prelude::*;
use crate::grid::{grid_copy, grid_columns, grid_filled, grid_get, grid_of, grid_rows, grid_set, column_of, rectangular};

verus! {

/// The number of rows; row 0 is the top.
pub const ROWS: usize = 6;
/// The number of columns.
pub const COLUMNS: usize = 7;
/// The content of a cell that holds no piece.
pub const EMPTY: char = ' ';

/// The board's grid has 6 rows of 7 cells.
pub open spec fn shaped(g: Seq<Seq<char>>) -> bool {
    g.len() == ROWS && rectangular(g, COLUMNS as int)
}

/// No piece floats: a piece's cell has a piece under it.
pub open spec fn settled(g: Seq<Seq<char>>) -> bool {
    forall|r: int, c: int|
        0 <= r < ROWS - 1 && 0 <= c < COLUMNS && #[trigger] g[r][c] != EMPTY ==> g[r + 1][c] != EMPTY
}

/// Whether a piece can still be dropped into column `c`.
pub open spec fn open_column(g: Seq<Seq<char>>, c: int) -> bool {
    g[0][c] == EMPTY
}

/// The lowest empty cell of column `c` at or above row `r`, or -1.
pub open spec fn lowest_empty_from(g: Seq<Seq<char>>, c: int, r: int) -> int
    decreases r + 1,
{
    if r < 0 {
        -1
    } else if g[r][c] == EMPTY {
        r
    } else {
        lowest_empty_from(g, c, r - 1)
    }
}

/// The row in which a piece dropped into column `c` comes to rest.
pub open spec fn landing_row(g: Seq<Seq<char>>, c: int) -> int {
    lowest_empty_from(g, c, ROWS - 1)
}

/// The grid after `p` is dropped into column `c`; a full column leaves it
/// as it is.
pub open spec fn dropped(g: Seq<Seq<char>>, c: int, p: char) -> Seq<Seq<char>> {
    if open_column(g, c) {
        let r = landing_row(g, c);
        g.update(r, g[r].update(c, p))
    } else {
        g
    }
}

/// The open columns among the first `n`, in ascending order.
pub open spec fn open_columns_below(g: Seq<Seq<char>>, n: int) -> Seq<usize>
    decreases n,
{
    if n <= 0 {
        Seq::empty()
    } else if open_column(g, n - 1) {
        open_columns_below(g, n - 1).push((n - 1) as usize)
    } else {
        open_columns_below(g, n - 1)
    }
}

/// The open columns of the board, in ascending order.
pub open spec fn open_columns(g: Seq<Seq<char>>) -> Seq<usize> {
    open_columns_below(g, COLUMNS as int)
}

/// Four cells from `(r, c)` on, each a step of `(dr, dc)` from the last.
pub open spec fn run_cells(g: Seq<Seq<char>>, r: int, c: int, dr: int, dc: int) -> Seq<char> {
    seq![g[r][c], g[r + dr][c + dc], g[r + dr + dr][c + dc + dc], g[r + dr + dr + dr][c + dc + dc + dc]]
}

/// The four cells from `(r, c)` in the direction `(dr, dc)` all hold `p`.
pub open spec fn run_at(g: Seq<Seq<char>>, p: char, r: int, c: int, dr: int, dc: int) -> bool {
    g[r][c] == p && g[r + dr][c + dc] == p && g[r + dr + dr][c + dc + dc] == p
        && g[r + dr + dr + dr][c + dc + dc + dc] == p
}

/// Some run in direction `(dr, dc)` of `p` starts at a row in `[r_lo, r_hi)`
/// and a column in `[0, c_hi)`.
pub open spec fn run_in(
    g: Seq<Seq<char>>,
    p: char,
    r_lo: int,
    r_hi: int,
    c_hi: int,
    dr: int,
    dc: int,
) -> bool {
    exists|r: int, c: int| r_lo <= r < r_hi && 0 <= c < c_hi && #[trigger] run_at(g, p, r, c, dr, dc)
}

/// `p` is a piece with four in a row: down a column, along a row, or along
/// either diagonal.
pub open spec fn won(g: Seq<Seq<char>>, p: char) -> bool {
    p != EMPTY && (run_in(g, p, 0, 3, 7, 1, 0) || run_in(g, p, 0, 6, 4, 0, 1) || run_in(g, p, 0, 3, 4, 1, 1)
        || run_in(g, p, 3, 6, 4, -1, 1))
}

/// The bounds under which every run that `run_in` names lies on the board.
pub open spec fn runs_fit(r_lo: int, r_hi: int, c_hi: int, dr: int, dc: int) -> bool {
    -1 <= dr <= 1 && 0 <= dc <= 1 && 0 <= r_lo && r_hi <= ROWS && 0 <= r_lo + 3 * dr && r_hi + 3 * dr
        <= ROWS && 0 <= c_hi && c_hi + 3 * dc <= COLUMNS
}

/// On a board without floating pieces, the cells above an empty cell are
/// empty.
proof fn lemma_empty_above(g: Seq<Seq<char>>, c: int, r: int, k: int)
    requires
        shaped(g),
        settled(g),
        0 <= c < COLUMNS,
        0 <= k <= r < ROWS,
        g[r][c] == EMPTY,
    ensures
        g[k][c] == EMPTY,
    decreases r - k,
{
    if k < r {
        lemma_empty_above(g, c, r, k + 1);
    }
}

/// The open columns below `n` are exactly the columns below `n` whose top
/// cell is empty, each listed once, in ascending order.
pub proof fn lemma_open_columns_below(g: Seq<Seq<char>>, n: int)
    requires
        0 <= n <= COLUMNS,
    ensures
        forall|c: usize| #[trigger] open_columns_below(g, n).contains(c) <==> (c < n && open_column(g, c as int)),
        forall|i: int, j: int|
            0 <= i < j < open_columns_below(g, n).len() ==> open_columns_below(g, n)[i] < open_columns_below(g, n)[j],
        forall|i: int|
            0 <= i < open_columns_below(g, n).len() ==> #[trigger] open_columns_below(g, n)[i] < n,
    decreases n,
{
    if n > 0 {
        lemma_open_columns_below(g, n - 1);
        let s = open_columns_below(g, n - 1);
        if open_column(g, n - 1) {
            assert forall|c: usize| #[trigger] open_columns_below(g, n).contains(c) <==> (c < n && open_column(g, c as int)) by {
                if c == (n - 1) as usize {
                    assert(open_columns_below(g, n)[s.len() as int] == c);
                }
                if open_columns_below(g, n).contains(c) && c != (n - 1) as usize {
                    let i = choose|i: int| 0 <= i < open_columns_below(g, n).len() && open_columns_below(g, n)[i] == c;
                    assert(s[i] == c);
                }
                if s.contains(c) {
                    let i = choose|i: int| 0 <= i < s.len() && s[i] == c;
                    assert(open_columns_below(g, n)[i] == c);
                }
            }
        }
    }
}

/// A column is open exactly when the board lists it among its open columns.
pub proof fn lemma_open_columns(g: Seq<Seq<char>>, c: usize)
    ensures
        open_columns(g).contains(c) <==> (c < COLUMNS && open_column(g, c as int)),
{
    lemma_open_columns_below(g, COLUMNS as int);
}

/// Below an empty top cell, the scan for the lowest empty cell from row `r`
/// stops at a row between 0 and `r`.
proof fn lemma_lowest_empty_range(g: Seq<Seq<char>>, c: int, r: int)
    requires
        0 <= r,
        g[0][c] == EMPTY,
    ensures
        0 <= lowest_empty_from(g, c, r) <= r,
        g[lowest_empty_from(g, c, r)][c] == EMPTY,
    decreases r,
{
    if r > 0 && g[r][c] != EMPTY {
        lemma_lowest_empty_range(g, c, r - 1);
    }
}

/// Dropping a piece keeps the number of rows.
pub proof fn lemma_dropped_len(g: Seq<Seq<char>>, c: int, p: char)
    requires
        g.len() == ROWS,
    ensures
        dropped(g, c, p).len() == ROWS,
{
    if open_column(g, c) {
        lemma_lowest_empty_range(g, c, ROWS - 1);
    }
}

/// A drop changes one cell at most: an empty cell of the chosen column. A
/// drop into a full column changes nothing, however often it is repeated.
pub proof fn lemma_drop_fills_one_empty_cell(g: Seq<Seq<char>>, c: int, p: char, q: char)
    requires
        shaped(g),
        0 <= c < COLUMNS,
    ensures
        shaped(dropped(g, c, p)),
        forall|r: int, j: int|
            0 <= r < ROWS && 0 <= j < COLUMNS && #[trigger] dropped(g, c, p)[r][j] != g[r][j] ==> j == c && g[r][j] == EMPTY
                && dropped(g, c, p)[r][j] == p,
        !open_column(g, c) ==> dropped(g, c, p) == g && dropped(dropped(g, c, p), c, q) == g,
{
    if open_column(g, c) {
        lemma_lowest_empty_range(g, c, ROWS - 1);
        let d = dropped(g, c, p);
        assert forall|r: int| 0 <= r < d.len() implies #[trigger] d[r].len() == COLUMNS by {
            assert(g[r].len() == COLUMNS);
        }
    }
}

/// The grid after each piece of `ps`, in order, is dropped into column `c`.
pub open spec fn dropped_each(g: Seq<Seq<char>>, c: int, ps: Seq<char>) -> Seq<Seq<char>>
    decreases ps.len(),
{
    if ps.len() == 0 {
        g
    } else {
        dropped(dropped_each(g, c, ps.drop_last()), c, ps.last())
    }
}

/// Any number of drops into a full column fail, each of them, and leave the
/// grid as it was.
pub proof fn lemma_full_column_drops_fail(g: Seq<Seq<char>>, c: int, ps: Seq<char>)
    requires
        !open_column(g, c),
    ensures
        dropped_each(g, c, ps) == g,
        forall|i: int| 0 <= i <= ps.len() ==> !open_column(#[trigger] dropped_each(g, c, ps.take(i)), c),
    decreases ps.len(),
{
    if ps.len() > 0 {
        lemma_full_column_drops_fail(g, c, ps.drop_last());
        assert forall|i: int| 0 <= i <= ps.len() implies !open_column(#[trigger] dropped_each(g, c, ps.take(i)), c) by {
            if i < ps.len() {
                assert(ps.take(i) =~= ps.drop_last().take(i));
            } else {
                assert(ps.take(i) =~= ps);
            }
        }
    } else {
        assert forall|i: int| 0 <= i <= ps.len() implies !open_column(#[trigger] dropped_each(g, c, ps.take(i)), c) by {
            assert(ps.take(i) =~= ps);
        }
    }
}

/// Where every cell of `g1` that holds `p` holds `p` in `g2` too, a run of
/// `p` in `g1` is one in `g2`.
proof fn lemma_run_transfer(
    g1: Seq<Seq<char>>,
    g2: Seq<Seq<char>>,
    p: char,
    r_lo: int,
    r_hi: int,
    c_hi: int,
    dr: int,
    dc: int,
)
    requires
        runs_fit(r_lo, r_hi, c_hi, dr, dc),
        forall|r: int, j: int| 0 <= r < ROWS && 0 <= j < COLUMNS && #[trigger] g1[r][j] == p ==> g2[r][j] == p,
    ensures
        run_in(g1, p, r_lo, r_hi, c_hi, dr, dc) ==> run_in(g2, p, r_lo, r_hi, c_hi, dr, dc),
{
    if run_in(g1, p, r_lo, r_hi, c_hi, dr, dc) {
        let (r, c) = choose|r: int, c: int| r_lo <= r < r_hi && 0 <= c < c_hi && #[trigger] run_at(g1, p, r, c, dr, dc);
        assert(g1[r][c] == p);
        assert(g1[r + dr][c + dc] == p);
        assert(g1[r + dr + dr][c + dc + dc] == p);
        assert(g1[r + dr + dr + dr][c + dc + dc + dc] == p);
        assert(run_at(g2, p, r, c, dr, dc));
    }
}

/// Where every cell of `g1` that holds `p` holds `p` in `g2` too, a win of
/// `p` in `g1` is one in `g2`.
pub proof fn lemma_won_transfer(g1: Seq<Seq<char>>, g2: Seq<Seq<char>>, p: char)
    requires
        forall|r: int, j: int| 0 <= r < ROWS && 0 <= j < COLUMNS && #[trigger] g1[r][j] == p ==> g2[r][j] == p,
    ensures
        won(g1, p) ==> won(g2, p),
{
    lemma_run_transfer(g1, g2, p, 0, 3, 7, 1, 0);
    lemma_run_transfer(g1, g2, p, 0, 6, 4, 0, 1);
    lemma_run_transfer(g1, g2, p, 0, 3, 4, 1, 1);
    lemma_run_transfer(g1, g2, p, 3, 6, 4, -1, 1);
}

/// A drop of `q` gives no other piece a win.
pub proof fn lemma_drop_wins_only_for_itself(g: Seq<Seq<char>>, c: int, q: char, p: char)
    requires
        shaped(g),
        0 <= c < COLUMNS,
        p != q,
    ensures
        won(dropped(g, c, q), p) ==> won(g, p),
{
    lemma_drop_fills_one_empty_cell(g, c, q, q);
    lemma_won_transfer(dropped(g, c, q), g, p);
}

/// Grids that agree on column `c` have the same landing row there.
proof fn lemma_landing_same_column(g: Seq<Seq<char>>, h: Seq<Seq<char>>, c: int, r: int)
    requires
        r < ROWS,
        forall|i: int| 0 <= i < ROWS ==> #[trigger] g[i][c] == h[i][c],
    ensures
        lowest_empty_from(g, c, r) == lowest_empty_from(h, c, r),
    decreases r + 1,
{
    if r >= 0 {
        lemma_landing_same_column(g, h, c, r - 1);
    }
}

/// A drop into another column leaves a winning drop of `q` into column `b`
/// winning.
pub proof fn lemma_threat_survives_other_drop(g: Seq<Seq<char>>, b: int, q: char, c: int, p: char)
    requires
        shaped(g),
        0 <= b < COLUMNS,
        0 <= c < COLUMNS,
        b != c,
        q != EMPTY,
        open_column(g, b),
    ensures
        open_column(dropped(g, c, p), b),
        won(dropped(g, b, q), q) ==> won(dropped(dropped(g, c, p), b, q), q),
{
    let h = dropped(g, c, p);
    let g1 = dropped(g, b, q);
    let g2 = dropped(h, b, q);
    lemma_drop_fills_one_empty_cell(g, c, p, p);
    lemma_drop_fills_one_empty_cell(g, b, q, q);
    assert(h[0][b] == g[0][b]);
    assert forall|i: int| 0 <= i < ROWS implies #[trigger] g[i][b] == h[i][b] by {
        assert(h[i][b] == g[i][b]);
    }
    lemma_landing_same_column(g, h, b, ROWS - 1);
    lemma_lowest_empty_range(g, b, ROWS - 1);
    let lb = landing_row(g, b);
    assert forall|r: int, j: int| 0 <= r < ROWS && 0 <= j < COLUMNS && #[trigger] g1[r][j] == q implies g2[r][j] == q by {
        if r == lb && j == b {
            assert(g2[r][j] == q);
        } else {
            assert(g1[r][j] == g[r][j]);
            assert(g2[r][j] == h[r][j]);
            assert(h[r][j] == g[r][j]);
        }
    }
    lemma_won_transfer(g1, g2, q);
}

pub struct Board {
    cells: Array2D<char>,
}

impl Board {
    /// The board's cells, row by row.
    pub closed spec fn grid(&self) -> Seq<Seq<char>> {
        grid_of(self.cells)
    }

    /// The board has its shape and no floating piece.
    pub open spec fn wf(&self) -> bool {
        shaped(self.grid()) && settled(self.grid())
    }

    /// An empty board.
    pub fn new() -> (r: Board)
        ensures
            r.wf(),
            forall|i: int, j: int| 0 <= i < ROWS && 0 <= j < COLUMNS ==> #[trigger] r.grid()[i][j] == EMPTY,
    {
        Board { cells: grid_filled(EMPTY, ROWS, COLUMNS) }
    }

}

impl Default for Board {
    /// An empty board.
    fn default() -> (r: Board)
        ensures
            r.wf(),
            forall|i: int, j: int| 0 <= i < ROWS && 0 <= j < COLUMNS ==> #[trigger] r.grid()[i][j] == EMPTY,
    {
        Board::new()
    }
}

impl Board {
    /// The content of the cell at `(row, column)`.
    pub fn cell(&self, row: usize, column: usize) -> (r: char)
        requires
            self.wf(),
            row < ROWS,
            column < COLUMNS,
        ensures
            r == self.grid()[row as int][column as int],
    {
        grid_get(&self.cells, row, column)
    }

    /// Drops `piece` into `column`: it lands in the lowest empty cell. A full
    /// column is left as it is, and the result is then false.
    pub fn place(&mut self, column: usize, piece: char) -> (r: bool)
        requires
            old(self).wf(),
            column < COLUMNS,
        ensures
            final(self).wf(),
            r == open_column(old(self).grid(), column as int),
            final(self).grid() == dropped(old(self).grid(), column as int, piece),
    {
        if grid_get(&self.cells, 0, column) != EMPTY {
            false
        } else {
            let ghost g = self.grid();
            let mut row: usize = ROWS - 1;
            assert(landing_row(g, column as int) == lowest_empty_from(g, column as int, row as int));
            while grid_get(&self.cells, row, column) != EMPTY
                invariant
                    self.grid() == g,
                    shaped(g),
                    column < COLUMNS,
                    row < ROWS,
                    g[0][column as int] == EMPTY,
                    landing_row(g, column as int) == lowest_empty_from(g, column as int, row as int),
                    forall|k: int| row < k < ROWS ==> #[trigger] g[k][column as int] != EMPTY,
                decreases row,
            {
                row = row - 1;
            }
            assert(landing_row(g, column as int) == row as int);
            grid_set(&mut self.cells, row, column, piece);
            assert forall|r: int, c: int|
                0 <= r < ROWS - 1 && 0 <= c < COLUMNS && #[trigger] self.grid()[r][c] != EMPTY implies
                    self.grid()[r + 1][c] != EMPTY by {
                if c == column && r < row {
                    assert(g[r][c] != EMPTY);
                    lemma_empty_above(g, c, row as int, r);
                }
            }
            true
        }
    }

    /// The rows, each as an independent vector.
    pub fn rows(&self) -> (r: Vec<Vec<char>>)
        requires
            self.wf(),
        ensures
            r@.len() == ROWS,
            forall|i: int| 0 <= i < ROWS ==> (#[trigger] r@[i])@ == self.grid()[i],
    {
        assert(self.grid()[0].len() == COLUMNS);
        grid_rows(&self.cells)
    }

    /// The columns, each as an independent vector, top to bottom.
    pub fn columns(&self) -> (r: Vec<Vec<char>>)
        requires
            self.wf(),
        ensures
            r@.len() == COLUMNS,
            forall|j: int| 0 <= j < COLUMNS ==> (#[trigger] r@[j])@ == column_of(self.grid(), j),
    {
        grid_columns(&self.cells)
    }

    /// An independent copy of the board.
    pub fn clone(&self) -> (r: Board)
        requires
            self.wf(),
        ensures
            r.wf(),
            r.grid() == self.grid(),
    {
        Board { cells: grid_copy(&self.cells) }
    }

    /// The columns that are not full, in ascending order.
    pub fn get_valid_columns(&self) -> (r: Vec<usize>)
        requires
            self.wf(),
        ensures
            r@ == open_columns(self.grid()),
    {
        let mut columns: Vec<usize> = Vec::new();
        let mut c: usize = 0;
        while c < COLUMNS
            invariant
                self.wf(),
                c <= COLUMNS,
                columns@ == open_columns_below(self.grid(), c as int),
            decreases COLUMNS - c,
        {
            if grid_get(&self.cells, 0, c) == EMPTY {
                columns.push(c);
            }
            c = c + 1;
        }
        columns
    }

    /// Whether the four cells from `(r, c)` in the direction `(dr, dc)` all
    /// hold `p`.
    fn run_from(&self, p: char, r: i64, c: i64, dr: i64, dc: i64) -> (b: bool)
        requires
            self.wf(),
            0 <= r < ROWS,
            0 <= c < COLUMNS,
            0 <= r + 3 * dr < ROWS,
            0 <= c + 3 * dc < COLUMNS,
            -1 <= dr <= 1,
            0 <= dc <= 1,
        ensures
            b == run_at(self.grid(), p, r as int, c as int, dr as int, dc as int),
    {
        grid_get(&self.cells, r as usize, c as usize) == p
            && grid_get(&self.cells, (r + dr) as usize, (c + dc) as usize) == p
            && grid_get(&self.cells, (r + dr + dr) as usize, (c + dc + dc) as usize) == p
            && grid_get(&self.cells, (r + dr + dr + dr) as usize, (c + dc + dc + dc) as usize) == p
    }

    /// Whether a run of `p` in the direction `(dr, dc)` starts at a row in
    /// `[r_lo, r_hi)` and a column in `[0, c_hi)`.
    fn has_run(&self, p: char, r_lo: i64, r_hi: i64, c_hi: i64, dr: i64, dc: i64) -> (b: bool)
        requires
            self.wf(),
            runs_fit(r_lo as int, r_hi as int, c_hi as int, dr as int, dc as int),
        ensures
            b == run_in(self.grid(), p, r_lo as int, r_hi as int, c_hi as int, dr as int, dc as int),
    {
        let mut i: i64 = r_lo;
        while i < r_hi
            invariant
                self.wf(),
                runs_fit(r_lo as int, r_hi as int, c_hi as int, dr as int, dc as int),
                r_lo <= i <= r_hi || (r_hi <= r_lo && i == r_lo),
                forall|r: int, c: int|
                    r_lo <= r < i && 0 <= c < c_hi ==> !#[trigger] run_at(self.grid(), p, r, c, dr as int, dc as int),
            decreases r_hi - i,
        {
            let mut j: i64 = 0;
            while j < c_hi
                invariant
                    self.wf(),
                    runs_fit(r_lo as int, r_hi as int, c_hi as int, dr as int, dc as int),
                    r_lo <= i < r_hi,
                    0 <= j <= c_hi,
                    forall|r: int, c: int|
                        r_lo <= r < i && 0 <= c < c_hi ==> !#[trigger] run_at(self.grid(), p, r, c, dr as int, dc as int),
                    forall|c: int| 0 <= c < j ==> !#[trigger] run_at(self.grid(), p, i as int, c, dr as int, dc as int),
                decreases c_hi - j,
            {
                if self.run_from(p, i, j, dr, dc) {
                    assert(run_at(self.grid(), p, i as int, j as int, dr as int, dc as int));
                    return true;
                }
                j = j + 1;
            }
            i = i + 1;
        }
        false
    }

    /// Whether `piece` has four in a row in any direction.
    pub fn has_won(&self, piece: char) -> (r: bool)
        requires
            self.wf(),
        ensures
            r == won(self.grid(), piece),
    {
        piece != EMPTY && (self.has_run(piece, 0, 3, 7, 1, 0) || self.has_run(piece, 0, 6, 4, 0, 1)
            || self.has_run(piece, 0, 3, 4, 1, 1) || self.has_run(piece, 3, 6, 4, -1, 1))
    }
}

} // verus!
