//! The positional heuristic: a score for a piece, summed over every window
//! of four adjacent cells on the board.

use vstd::prelude::*;
use crate::ai::Ai;
use crate::board::{Board, COLUMNS, EMPTY, ROWS, run_cells};
use crate::grid::column_of;

verus! {

/// One of the two pieces.
pub const PIECE_X: char = 'X';
/// The other piece.
pub const PIECE_O: char = 'O';

/// The piece that plays against `p`.
pub open spec fn opponent_of(p: char) -> char {
    if p == PIECE_X {
        PIECE_O
    } else {
        PIECE_X
    }
}

/// How many elements of `s` are `x`.
pub open spec fn count(s: Seq<char>, x: char) -> nat
    decreases s.len(),
{
    if s.len() == 0 {
        0
    } else {
        count(s.drop_last(), x) + if s.last() == x {
            1nat
        } else {
            0nat
        }
    }
}

/// What a window is worth to `p`: 100 for four of `p`; 5 for three and an
/// empty cell; 2 for two and two empty cells; and 4 less where the opponent
/// has three and an empty cell.
pub open spec fn slice_score(s: Seq<char>, p: char) -> int {
    let own = count(s, p);
    let empty = count(s, EMPTY);
    let theirs = count(s, opponent_of(p));
    (if own == 4 {
        100int
    } else if own == 3 && empty == 1 {
        5int
    } else if own == 2 && empty == 2 {
        2int
    } else {
        0int
    }) + (if theirs == 3 && empty == 1 {
        -4int
    } else {
        0int
    })
}

/// The windows in direction `(dr, dc)` that start in row `r` and in the
/// first `k` columns, summed.
pub open spec fn line_score(g: Seq<Seq<char>>, p: char, r: int, dr: int, dc: int, k: int) -> int
    decreases k,
{
    if k <= 0 {
        0
    } else {
        line_score(g, p, r, dr, dc, k - 1) + slice_score(run_cells(g, r, k - 1, dr, dc), p)
    }
}

/// The windows in direction `(dr, dc)` that start in the `k` rows from `r0`
/// and in the first `nc` columns, summed.
pub open spec fn band_score(g: Seq<Seq<char>>, p: char, r0: int, dr: int, dc: int, nc: int, k: int) -> int
    decreases k,
{
    if k <= 0 {
        0
    } else {
        band_score(g, p, r0, dr, dc, nc, k - 1) + line_score(g, p, r0 + k - 1, dr, dc, nc)
    }
}

/// How good the grid is for `p`: 3 for each of its pieces in the centre
/// column, and the score of every horizontal, vertical and diagonal window.
pub open spec fn position_score(g: Seq<Seq<char>>, p: char) -> int {
    3 * count(column_of(g, 3), p) + band_score(g, p, 0, 0, 1, 4, 6) + band_score(g, p, 0, 1, 0, 7, 3)
        + band_score(g, p, 0, 1, 1, 4, 3) + band_score(g, p, 3, -1, 1, 4, 3)
}

proof fn lemma_count_bound(s: Seq<char>, x: char)
    ensures
        count(s, x) <= s.len(),
    decreases s.len(),
{
    if s.len() > 0 {
        lemma_count_bound(s.drop_last(), x);
    }
}

proof fn lemma_line_bound(g: Seq<Seq<char>>, p: char, r: int, dr: int, dc: int, k: int)
    requires
        k >= 0,
    ensures
        -4 * k <= line_score(g, p, r, dr, dc, k) <= 100 * k,
    decreases k,
{
    if k > 0 {
        lemma_line_bound(g, p, r, dr, dc, k - 1);
    }
}

proof fn lemma_band_bound(g: Seq<Seq<char>>, p: char, r0: int, dr: int, dc: int, nc: int, k: int)
    requires
        k >= 0,
        0 <= nc <= COLUMNS,
    ensures
        -28 * k <= band_score(g, p, r0, dr, dc, nc, k) <= 700 * k,
    decreases k,
{
    if k > 0 {
        lemma_band_bound(g, p, r0, dr, dc, nc, k - 1);
        lemma_line_bound(g, p, r0 + k - 1, dr, dc, nc);
        assert(-4 * nc >= -28 && 100 * nc <= 700);
    }
}

/// The positional score of a grid of 6 rows fits easily in 32 bits.
pub proof fn lemma_position_score_bound(g: Seq<Seq<char>>, p: char)
    requires
        g.len() == ROWS,
    ensures
        -100_000 <= position_score(g, p) <= 100_000,
{
    lemma_count_bound(column_of(g, 3), p);
    lemma_band_bound(g, p, 0, 0, 1, 4, 6);
    lemma_band_bound(g, p, 0, 1, 0, 7, 3);
    lemma_band_bound(g, p, 0, 1, 1, 4, 3);
    lemma_band_bound(g, p, 3, -1, 1, 4, 3);
}

proof fn lemma_count4(a: char, b: char, c: char, d: char, x: char)
    ensures
        count(seq![a, b, c, d], x) == (if a == x { 1nat } else { 0nat }) + (if b == x { 1nat } else { 0nat })
            + (if c == x { 1nat } else { 0nat }) + (if d == x { 1nat } else { 0nat }),
{
    assert(seq![a, b, c, d].drop_last() =~= seq![a, b, c]);
    assert(seq![a, b, c].drop_last() =~= seq![a, b]);
    assert(seq![a, b].drop_last() =~= seq![a]);
    assert(seq![a].drop_last() =~= Seq::<char>::empty());
    reveal_with_fuel(count, 5);
}

/// A window of four of a piece is worth 100 to it; three and an empty cell,
/// 5; two and two empty cells, 2; and three of its opponent's with an empty
/// cell cost it 4.
pub proof fn lemma_slice_values(p: char)
    requires
        p != EMPTY,
    ensures
        slice_score(seq![p, p, p, p], p) == 100,
        slice_score(seq![p, p, p, EMPTY], p) == 5,
        slice_score(seq![p, p, EMPTY, EMPTY], p) == 2,
        slice_score(seq![opponent_of(p), opponent_of(p), opponent_of(p), EMPTY], p) == -4,
{
    let o = opponent_of(p);
    lemma_count4(p, p, p, p, p);
    lemma_count4(p, p, p, p, EMPTY);
    lemma_count4(p, p, p, p, o);
    lemma_count4(p, p, p, EMPTY, p);
    lemma_count4(p, p, p, EMPTY, EMPTY);
    lemma_count4(p, p, p, EMPTY, o);
    lemma_count4(p, p, EMPTY, EMPTY, p);
    lemma_count4(p, p, EMPTY, EMPTY, EMPTY);
    lemma_count4(p, p, EMPTY, EMPTY, o);
    lemma_count4(o, o, o, EMPTY, p);
    lemma_count4(o, o, o, EMPTY, EMPTY);
    lemma_count4(o, o, o, EMPTY, o);
}

/// How many elements of `s` are `x`.
fn count_of(s: &Vec<char>, x: char) -> (n: usize)
    ensures
        n == count(s@, x),
{
    let mut n: usize = 0;
    let mut i: usize = 0;
    while i < s.len()
        invariant
            i <= s@.len(),
            n == count(s@.take(i as int), x),
            n <= i,
        decreases s@.len() - i,
    {
        assert(s@.take(i as int + 1).drop_last() =~= s@.take(i as int));
        if s[i] == x {
            n = n + 1;
        }
        i = i + 1;
    }
    assert(s@.take(i as int) =~= s@);
    n
}

/// The four cells from `(r, c)`, each a step of `(dr, dc)` from the last.
fn window(board: &Board, r: i64, c: i64, dr: i64, dc: i64) -> (w: Vec<char>)
    requires
        board.wf(),
        0 <= r < ROWS,
        0 <= c < COLUMNS,
        0 <= r + 3 * dr < ROWS,
        0 <= c + 3 * dc < COLUMNS,
        -1 <= dr <= 1,
        0 <= dc <= 1,
    ensures
        w@ == run_cells(board.grid(), r as int, c as int, dr as int, dc as int),
{
    let mut w: Vec<char> = Vec::new();
    w.push(board.cell(r as usize, c as usize));
    w.push(board.cell((r + dr) as usize, (c + dc) as usize));
    w.push(board.cell((r + dr + dr) as usize, (c + dc + dc) as usize));
    w.push(board.cell((r + dr + dr + dr) as usize, (c + dc + dc + dc) as usize));
    assert(w@ =~= run_cells(board.grid(), r as int, c as int, dr as int, dc as int));
    w
}

impl Ai {
    /// What the window `slice` is worth to `piece`.
    pub fn evaluate_slice(&self, slice: Vec<char>, piece: char) -> (r: i32)
        ensures
            r == slice_score(slice@, piece),
    {
        let own = count_of(&slice, piece);
        let empty = count_of(&slice, EMPTY);
        let theirs = count_of(&slice, if piece == PIECE_X { PIECE_O } else { PIECE_X });
        let mut score: i32 = 0;
        if own == 4 {
            score = score + 100;
        } else if own == 3 && empty == 1 {
            score = score + 5;
        } else if own == 2 && empty == 2 {
            score = score + 2;
        }
        if theirs == 3 && empty == 1 {
            score = score - 4;
        }
        score
    }

    /// The windows in direction `(dr, dc)` that start in the `nr` rows from
    /// `r0` and in the first `nc` columns, summed.
    fn score_band(&self, board: &Board, piece: char, r0: i64, dr: i64, dc: i64, nc: i64, nr: i64) -> (s: i32)
        requires
            board.wf(),
            0 <= r0,
            0 <= nr,
            r0 + nr <= ROWS,
            0 <= r0 + 3 * dr,
            r0 + nr + 3 * dr <= ROWS,
            0 <= nc,
            nc + 3 * dc <= COLUMNS,
            -1 <= dr <= 1,
            0 <= dc <= 1,
        ensures
            s == band_score(board.grid(), piece, r0 as int, dr as int, dc as int, nc as int, nr as int),
    {
        let mut s: i32 = 0;
        let mut i: i64 = 0;
        while i < nr
            invariant
                board.wf(),
                0 <= r0,
                r0 + nr <= ROWS,
                0 <= r0 + 3 * dr,
                r0 + nr + 3 * dr <= ROWS,
                0 <= nc,
                nc + 3 * dc <= COLUMNS,
                -1 <= dr <= 1,
                0 <= dc <= 1,
                0 <= i <= nr,
                s == band_score(board.grid(), piece, r0 as int, dr as int, dc as int, nc as int, i as int),
            decreases nr - i,
        {
            let mut line: i32 = 0;
            let mut j: i64 = 0;
            proof {
                lemma_band_bound(board.grid(), piece, r0 as int, dr as int, dc as int, nc as int, i as int);
            }
            while j < nc
                invariant
                    board.wf(),
                    0 <= r0,
                    r0 + nr <= ROWS,
                    0 <= r0 + 3 * dr,
                    r0 + nr + 3 * dr <= ROWS,
                    0 <= nc,
                    nc + 3 * dc <= COLUMNS,
                    -1 <= dr <= 1,
                    0 <= dc <= 1,
                    0 <= i < nr,
                    0 <= j <= nc,
                    line == line_score(board.grid(), piece, (r0 + i) as int, dr as int, dc as int, j as int),
                decreases nc - j,
            {
                proof {
                    lemma_line_bound(board.grid(), piece, (r0 + i) as int, dr as int, dc as int, j as int);
                }
                let w = window(board, r0 + i, j, dr, dc);
                line = line + self.evaluate_slice(w, piece);
                j = j + 1;
            }
            proof {
                lemma_line_bound(board.grid(), piece, (r0 + i) as int, dr as int, dc as int, nc as int);
            }
            s = s + line;
            i = i + 1;
        }
        s
    }

    /// How good the board is for `piece`.
    pub fn score_position(&self, board: &Board, piece: char) -> (r: i32)
        requires
            board.wf(),
        ensures
            r == position_score(board.grid(), piece),
    {
        let columns = board.columns();
        let center = count_of(&columns[3], piece);
        proof {
            lemma_count_bound(column_of(board.grid(), 3), piece);
        }
        let mut score: i32 = (center as i32) * 3;
        let g = Ghost(board.grid());
        proof {
            lemma_band_bound(g@, piece, 0, 0, 1, 4, 6);
            lemma_band_bound(g@, piece, 0, 1, 0, 7, 3);
            lemma_band_bound(g@, piece, 0, 1, 1, 4, 3);
            lemma_band_bound(g@, piece, 3, -1, 1, 4, 3);
        }
        score = score + self.score_band(board, piece, 0, 0, 1, 4, 6);
        score = score + self.score_band(board, piece, 0, 1, 0, 7, 3);
        score = score + self.score_band(board, piece, 0, 1, 1, 4, 3);
        score = score + self.score_band(board, piece, 3, -1, 1, 4, 3);
        score
    }
}

} // verus!
