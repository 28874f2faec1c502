//! The computer player: a depth-limited minimax search with alpha-beta
//! pruning over the moves of both sides.

use rand::seq::SliceRandom;
use vstd::prelude::*;
use crate::board::{
    Board, COLUMNS, ROWS, dropped, lemma_drop_fills_one_empty_cell, lemma_drop_wins_only_for_itself, lemma_dropped_len,
    lemma_open_columns, lemma_open_columns_below, lemma_threat_survives_other_drop, open_column, open_columns, shaped, won,
};
use crate::eval::{PIECE_O, PIECE_X, lemma_position_score_bound, opponent_of, position_score};

verus! {

/// How far ahead the computer player looks.
#[derive(PartialEq, Eq, Structural)]
pub enum Difficulty {
    Easy,
    Medium,
    Hard,
}

/// The number of plies searched at difficulty `d`.
pub open spec fn depth_of(d: Difficulty) -> nat {
    match d {
        Difficulty::Easy => 2,
        Difficulty::Medium => 4,
        Difficulty::Hard => 5,
    }
}

impl Difficulty {
    /// The number of plies searched at this difficulty.
    pub fn depth(&self) -> (r: usize)
        ensures
            r == depth_of(*self),
    {
        match self {
            Difficulty::Easy => 2,
            Difficulty::Medium => 4,
            Difficulty::Hard => 5,
        }
    }
}

/// The value of a position that the searching side has won.
pub open spec fn win_value() -> int {
    i128::MAX as int
}

/// The value of a position that the searching side has lost.
pub open spec fn loss_value() -> int {
    i128::MIN as int
}

/// The piece that moves next: the searching side's `ai` when maximizing,
/// its opponent otherwise.
pub open spec fn mover(maximizing: bool, ai: char) -> char {
    if maximizing {
        ai
    } else {
        opponent_of(ai)
    }
}

/// The minimax value of the grid `g` for the side playing `ai`, looking
/// `depth` plies ahead, with every branch explored.
pub open spec fn search_value(g: Seq<Seq<char>>, depth: nat, maximizing: bool, ai: char) -> int
    decreases 2 * depth + 1, 0nat,
{
    if won(g, ai) {
        win_value()
    } else if won(g, opponent_of(ai)) {
        loss_value()
    } else if depth == 0 || open_columns(g).len() == 0 {
        position_score(g, ai)
    } else {
        best_child(g, open_columns(g), depth, maximizing, ai)
    }
}

/// The best value, for the side to move, among the moves into the columns
/// `cols` of the grid `g`: the greatest when maximizing, the least
/// otherwise, and the worst possible value when there is no move.
pub open spec fn best_child(g: Seq<Seq<char>>, cols: Seq<usize>, depth: nat, maximizing: bool, ai: char) -> int
    decreases 2 * depth, cols.len(),
{
    if depth == 0 {
        0
    } else if cols.len() == 0 {
        if maximizing {
            loss_value()
        } else {
            win_value()
        }
    } else {
        let prev = best_child(g, cols.drop_last(), depth, maximizing, ai);
        let child = search_value(
            dropped(g, cols.last() as int, mover(maximizing, ai)),
            (depth - 1) as nat,
            !maximizing,
            ai,
        );
        if maximizing {
            if child > prev {
                child
            } else {
                prev
            }
        } else {
            if child < prev {
                child
            } else {
                prev
            }
        }
    }
}

/// The value that a side's search starts from before it has seen a move.
pub open spec fn sentinel(maximizing: bool) -> int {
    if maximizing {
        loss_value()
    } else {
        win_value()
    }
}

/// The full minimax value of the move into column `c` of the grid `g`.
pub open spec fn child_value(g: Seq<Seq<char>>, c: usize, depth: nat, maximizing: bool, ai: char) -> int {
    search_value(dropped(g, c as int, mover(maximizing, ai)), (depth - 1) as nat, !maximizing, ai)
}

/// `r` is what an alpha-beta search in the window `(alpha, beta)` may return
/// for a position of value `v`: `v` itself when it lies inside the window,
/// and otherwise a value between `v` and the bound that it passes.
pub open spec fn within_window(v: int, r: int, alpha: int, beta: int) -> bool {
    &&& (v <= alpha ==> v <= r <= alpha)
    &&& (beta <= v ==> beta <= r <= v)
    &&& (alpha < v < beta ==> r == v)
}

/// Whether a search window `(alpha, beta)` is closed once the side to move
/// has reached `v`: no further move can change the outcome.
pub open spec fn closes(v: int, maximizing: bool, alpha: int, beta: int) -> bool {
    if maximizing {
        (if alpha > v { alpha } else { v }) >= beta
    } else {
        alpha >= (if beta < v { beta } else { v })
    }
}

/// The value that the pruned search returns for the grid `g`: as
/// `search_value`, but every move is searched in the window `(alpha, beta)`
/// and the moves after the one that closes the window are skipped.
pub open spec fn pruned_value(g: Seq<Seq<char>>, depth: nat, maximizing: bool, ai: char, alpha: int, beta: int) -> int
    decreases 2 * depth + 1, 0nat,
{
    if won(g, ai) {
        win_value()
    } else if won(g, opponent_of(ai)) {
        loss_value()
    } else if depth == 0 || open_columns(g).len() == 0 {
        position_score(g, ai)
    } else {
        pruned_best(g, open_columns(g), depth, maximizing, ai, alpha, beta)
    }
}

/// The pruned search's best value among the moves into the columns `cols`,
/// taken in order until the window closes.
pub open spec fn pruned_best(
    g: Seq<Seq<char>>,
    cols: Seq<usize>,
    depth: nat,
    maximizing: bool,
    ai: char,
    alpha: int,
    beta: int,
) -> int
    decreases 2 * depth, cols.len(),
{
    if depth == 0 {
        0
    } else if cols.len() == 0 {
        sentinel(maximizing)
    } else {
        let prev = pruned_best(g, cols.drop_last(), depth, maximizing, ai, alpha, beta);
        if closes(prev, maximizing, alpha, beta) {
            prev
        } else {
            let child = pruned_value(
                dropped(g, cols.last() as int, mover(maximizing, ai)),
                (depth - 1) as nat,
                !maximizing,
                ai,
                alpha,
                beta,
            );
            if maximizing {
                if child > prev {
                    child
                } else {
                    prev
                }
            } else {
                if child < prev {
                    child
                } else {
                    prev
                }
            }
        }
    }
}

/// The pruned search's value of the move into column `c` of the grid `g`.
pub open spec fn pruned_child(g: Seq<Seq<char>>, c: usize, depth: nat, maximizing: bool, ai: char, alpha: int, beta: int) -> int {
    pruned_value(dropped(g, c as int, mover(maximizing, ai)), (depth - 1) as nat, !maximizing, ai, alpha, beta)
}

/// `v` is strictly better than `w` for the side to move.
pub open spec fn better(v: int, w: int, maximizing: bool) -> bool {
    if maximizing {
        v > w
    } else {
        v < w
    }
}

/// Once the window has closed, the moves after it change nothing.
proof fn lemma_closed_prefix(
    g: Seq<Seq<char>>,
    cols: Seq<usize>,
    depth: nat,
    maximizing: bool,
    ai: char,
    alpha: int,
    beta: int,
    k: int,
)
    requires
        depth > 0,
        0 <= k <= cols.len(),
        closes(pruned_best(g, cols.take(k), depth, maximizing, ai, alpha, beta), maximizing, alpha, beta),
    ensures
        pruned_best(g, cols, depth, maximizing, ai, alpha, beta) == pruned_best(g, cols.take(k), depth, maximizing, ai, alpha, beta),
    decreases cols.len() - k,
{
    if k == cols.len() {
        assert(cols.take(k) =~= cols);
    } else {
        assert(cols.take(k + 1).drop_last() =~= cols.take(k));
        lemma_closed_prefix(g, cols, depth, maximizing, ai, alpha, beta, k + 1);
    }
}

/// `c` is the move that a search of `depth` plies for `ai` picks: the first
/// open column whose value is the position's value.
pub open spec fn search_choice(g: Seq<Seq<char>>, depth: nat, ai: char, c: usize) -> bool {
    &&& child_value(g, c, depth, true, ai) == search_value(g, depth, true, ai)
    &&& forall|c2: usize|
        open_columns(g).contains(c2) && c2 < c ==> #[trigger] child_value(g, c2, depth, true, ai) < search_value(
            g,
            depth,
            true,
            ai,
        )
}

/// Whether the search stops at `g` without looking at any move: a side has
/// won, no ply is left, or no column is open.
pub open spec fn is_leaf(g: Seq<Seq<char>>, depth: nat, ai: char) -> bool {
    won(g, ai) || won(g, opponent_of(ai)) || depth == 0 || open_columns(g).len() == 0
}

/// A longer prefix of the moves never does worse for the side to move.
proof fn lemma_prefix_bound(g: Seq<Seq<char>>, cols: Seq<usize>, depth: nat, maximizing: bool, ai: char, j: int)
    requires
        depth > 0,
        0 <= j <= cols.len(),
    ensures
        maximizing ==> best_child(g, cols.take(j), depth, maximizing, ai) <= best_child(g, cols, depth, maximizing, ai),
        !maximizing ==> best_child(g, cols.take(j), depth, maximizing, ai) >= best_child(g, cols, depth, maximizing, ai),
    decreases cols.len() - j,
{
    if j == cols.len() {
        assert(cols.take(j) =~= cols);
    } else {
        lemma_prefix_bound(g, cols, depth, maximizing, ai, j + 1);
        assert(cols.take(j + 1).drop_last() =~= cols.take(j));
    }
}

/// Every search value lies between the values of a loss and of a win.
proof fn lemma_value_range(g: Seq<Seq<char>>, depth: nat, maximizing: bool, ai: char)
    requires
        g.len() == ROWS,
    ensures
        loss_value() <= search_value(g, depth, maximizing, ai) <= win_value(),
    decreases 2 * depth + 1, 0nat,
{
    if !won(g, ai) && !won(g, opponent_of(ai)) {
        if depth == 0 || open_columns(g).len() == 0 {
            lemma_position_score_bound(g, ai);
        } else {
            lemma_best_range(g, open_columns(g), depth, maximizing, ai);
        }
    }
}

proof fn lemma_best_range(g: Seq<Seq<char>>, cols: Seq<usize>, depth: nat, maximizing: bool, ai: char)
    requires
        g.len() == ROWS,
    ensures
        loss_value() <= best_child(g, cols, depth, maximizing, ai) <= win_value(),
    decreases 2 * depth, cols.len(),
{
    if depth > 0 && cols.len() > 0 {
        lemma_best_range(g, cols.drop_last(), depth, maximizing, ai);
        lemma_dropped_len(g, cols.last() as int, mover(maximizing, ai));
        lemma_value_range(dropped(g, cols.last() as int, mover(maximizing, ai)), (depth - 1) as nat, !maximizing, ai);
    }
}

/// The best value for the side to move is at least as good for it as the
/// value of each of its moves.
proof fn lemma_best_bounds_member(g: Seq<Seq<char>>, cols: Seq<usize>, depth: nat, maximizing: bool, ai: char, i: int)
    requires
        depth > 0,
        0 <= i < cols.len(),
    ensures
        maximizing ==> child_value(g, cols[i], depth, maximizing, ai) <= best_child(g, cols, depth, maximizing, ai),
        !maximizing ==> child_value(g, cols[i], depth, maximizing, ai) >= best_child(g, cols, depth, maximizing, ai),
    decreases cols.len(),
{
    if i < cols.len() - 1 {
        lemma_best_bounds_member(g, cols.drop_last(), depth, maximizing, ai, i);
    }
}

/// Where `c` is an open column, the value of the position for the side to
/// move is at least as good for it as the value of the drop into `c`.
proof fn lemma_value_bounds_move(g: Seq<Seq<char>>, depth: nat, maximizing: bool, ai: char, c: usize)
    requires
        depth > 0,
        !won(g, ai),
        !won(g, opponent_of(ai)),
        c < COLUMNS,
        open_column(g, c as int),
    ensures
        maximizing ==> child_value(g, c, depth, maximizing, ai) <= search_value(g, depth, maximizing, ai),
        !maximizing ==> child_value(g, c, depth, maximizing, ai) >= search_value(g, depth, maximizing, ai),
{
    lemma_open_columns(g, c);
    let i = choose|i: int| 0 <= i < open_columns(g).len() && open_columns(g)[i] == c;
    lemma_best_bounds_member(g, open_columns(g), depth, maximizing, ai, i);
}

/// Where the side playing `ai` wins with one drop into column `w`, a search
/// of one ply or more values the position as a win.
pub proof fn lemma_immediate_win_is_found(g: Seq<Seq<char>>, depth: nat, ai: char, w: usize)
    requires
        shaped(g),
        depth >= 1,
        !won(g, ai),
        !won(g, opponent_of(ai)),
        w < COLUMNS,
        open_column(g, w as int),
        won(dropped(g, w as int, ai), ai),
    ensures
        search_value(g, depth, true, ai) == win_value(),
{
    lemma_value_bounds_move(g, depth, true, ai, w);
    lemma_value_range(g, depth, true, ai);
}

/// A position that a search with no ply left values as a win is won.
pub proof fn lemma_leaf_win_is_won(g: Seq<Seq<char>>, maximizing: bool, ai: char)
    requires
        g.len() == ROWS,
        search_value(g, 0, maximizing, ai) == win_value(),
    ensures
        won(g, ai),
{
    if !won(g, ai) && !won(g, opponent_of(ai)) {
        lemma_position_score_bound(g, ai);
    }
}

/// Where the opponent of `ai` threatens to win with one drop into column
/// `b`, and the drop of `ai` into another open column `c` wins nothing, a
/// search of two plies or more values that drop as a loss.
pub proof fn lemma_unblocked_threat_loses(g: Seq<Seq<char>>, depth: nat, ai: char, b: usize, c: usize)
    requires
        shaped(g),
        depth >= 2,
        !won(g, ai),
        !won(g, opponent_of(ai)),
        b < COLUMNS,
        c < COLUMNS,
        b != c,
        open_column(g, b as int),
        open_column(g, c as int),
        won(dropped(g, b as int, opponent_of(ai)), opponent_of(ai)),
        !won(dropped(g, c as int, ai), ai),
    ensures
        child_value(g, c, depth, true, ai) == loss_value(),
{
    let opp = opponent_of(ai);
    let h = dropped(g, c as int, ai);
    lemma_drop_fills_one_empty_cell(g, c as int, ai, ai);
    lemma_drop_wins_only_for_itself(g, c as int, ai, opp);
    lemma_threat_survives_other_drop(g, b as int, opp, c as int, ai);
    let h2 = dropped(h, b as int, opp);
    lemma_drop_wins_only_for_itself(h, b as int, opp, ai);
    assert(won(h2, opp));
    assert(!won(h2, ai));
    assert(child_value(h, b, (depth - 1) as nat, false, ai) == loss_value());
    lemma_value_bounds_move(h, (depth - 1) as nat, false, ai, b);
    lemma_dropped_len(g, c as int, ai);
    lemma_value_range(h, (depth - 1) as nat, false, ai);
}

/// Where the opponent of `ai` threatens to win with one drop into column
/// `b`, no drop of `ai` wins at once, and the block into `b` does not lose,
/// a search of two plies or more values the position above a loss, and every
/// other open column below it: the block is the only move that reaches the
/// position's value.
pub proof fn lemma_only_block_keeps_value(g: Seq<Seq<char>>, depth: nat, ai: char, b: usize)
    requires
        shaped(g),
        depth >= 2,
        !won(g, ai),
        !won(g, opponent_of(ai)),
        b < COLUMNS,
        open_column(g, b as int),
        won(dropped(g, b as int, opponent_of(ai)), opponent_of(ai)),
        forall|c: usize| c < COLUMNS && open_column(g, c as int) ==> !won(#[trigger] dropped(g, c as int, ai), ai),
        child_value(g, b, depth, true, ai) > loss_value(),
    ensures
        search_value(g, depth, true, ai) > loss_value(),
        forall|c: usize|
            c < COLUMNS && open_column(g, c as int) && c != b ==> #[trigger] child_value(g, c, depth, true, ai)
                < search_value(g, depth, true, ai),
{
    lemma_value_bounds_move(g, depth, true, ai, b);
    assert forall|c: usize|
        c < COLUMNS && open_column(g, c as int) && c != b implies #[trigger] child_value(g, c, depth, true, ai)
            < search_value(g, depth, true, ai) by {
        assert(!won(dropped(g, c as int, ai), ai));
        lemma_unblocked_threat_loses(g, depth, ai, b, c);
    }
}

/// Relies on `SliceRandom::choose` with the thread's generator: some element
/// of `v`, or nothing when `v` is empty.
#[verifier::external_body]
fn pick_random(v: &Vec<usize>) -> (r: Option<usize>)
    ensures
        r.is_some() == (v@.len() > 0),
        r matches Some(x) ==> v@.contains(x),
{
    v.choose(&mut rand::thread_rng()).copied()
}

/// The computer player.
pub struct Ai {}

impl Ai {
    /// A computer player.
    pub fn new() -> (r: Ai) {
        Ai {}
    }

    /// Whether either side has won on `board`.
    fn is_terminal_node(&self, board: &Board, piece: char) -> (r: bool)
        requires
            board.wf(),
        ensures
            r == (won(board.grid(), piece) || won(board.grid(), opponent_of(piece))),
    {
        board.has_won(if piece == PIECE_X { PIECE_O } else { PIECE_X }) || board.has_won(piece)
    }

    /// Searches `depth` plies ahead for the side playing `piece`, which
    /// moves next when `maximizing_player` holds, and returns the column to
    /// play with the value of the position. The value lies within the window
    /// `(alpha, beta)` as an alpha-beta search's does, and is the full
    /// minimax value when the window is the widest. No column is returned
    /// where the search stops at once. Every move is searched in the same
    /// window, in ascending column order; a move replaces the chosen one only
    /// when it is strictly better, and the remaining moves are skipped once
    /// the window closes.
    pub fn minimax(
        &self,
        board: &Board,
        depth: usize,
        alpha: i128,
        beta: i128,
        maximizing_player: bool,
        piece: char,
    ) -> (r: (Option<usize>, i128))
        requires
            board.wf(),
            alpha < beta,
        ensures
            within_window(search_value(board.grid(), depth as nat, maximizing_player, piece), r.1 as int, alpha as int, beta as int),
            alpha == i128::MIN && beta == i128::MAX ==> r.1 == search_value(board.grid(), depth as nat, maximizing_player, piece),
            r.0.is_none() == is_leaf(board.grid(), depth as nat, piece),
            r.0 matches Some(c) ==> open_columns(board.grid()).contains(c),
            r.1 == pruned_value(board.grid(), depth as nat, maximizing_player, piece, alpha as int, beta as int),
            is_leaf(board.grid(), depth as nat, piece) ==> r.1 == search_value(board.grid(), depth as nat, maximizing_player, piece),
            r.0 matches Some(c) ==> r.1 != sentinel(maximizing_player) ==> {
                &&& pruned_child(board.grid(), c, depth as nat, maximizing_player, piece, alpha as int, beta as int) == r.1
                &&& forall|c2: usize|
                    open_columns(board.grid()).contains(c2) && c2 < c ==> better(
                        r.1 as int,
                        #[trigger] pruned_child(board.grid(), c2, depth as nat, maximizing_player, piece, alpha as int, beta as int),
                        maximizing_player,
                    )
            },
            r.0 matches Some(c) ==> r.1 != sentinel(maximizing_player) && alpha == i128::MIN && beta == i128::MAX ==> {
                &&& child_value(board.grid(), c, depth as nat, maximizing_player, piece) == r.1
                &&& forall|c2: usize|
                    open_columns(board.grid()).contains(c2) && c2 < c ==> better(
                        r.1 as int,
                        #[trigger] child_value(board.grid(), c2, depth as nat, maximizing_player, piece),
                        maximizing_player,
                    )
            },
        decreases depth,
    {
        let ghost g = board.grid();
        let opponent = if piece == PIECE_X { PIECE_O } else { PIECE_X };
        let valid_locations = board.get_valid_columns();
        let is_terminal = self.is_terminal_node(board, piece);
        if depth == 0 || is_terminal || valid_locations.len() == 0 {
            if board.has_won(piece) {
                return (None, i128::MAX);
            } else if board.has_won(opponent) {
                return (None, i128::MIN);
            } else {
                return (None, self.score_position(board, piece) as i128);
            }
        }
        let ghost cols = valid_locations@;
        let to_move = if maximizing_player { piece } else { opponent };
        let mut value: i128 = if maximizing_player { i128::MIN } else { i128::MAX };
        let mut column_to_use: usize = pick_random(&valid_locations).unwrap();
        proof {
            assert(cols.take(0) =~= Seq::<usize>::empty());
        }
        let mut cut = false;
        let mut k: usize = 0;
        let ghost mut m: int = 0;
        let ghost full = alpha == i128::MIN && beta == i128::MAX;
        while k < valid_locations.len() && !cut
            invariant
                board.wf(),
                g == board.grid(),
                cols == valid_locations@,
                cols == open_columns(g),
                depth > 0,
                alpha < beta,
                k <= cols.len(),
                to_move == mover(maximizing_player, piece),
                cols.contains(column_to_use),
                value == pruned_best(g, cols.take(k as int), depth as nat, maximizing_player, piece, alpha as int, beta as int),
                full == (alpha == i128::MIN && beta == i128::MAX),
                cut == closes(value as int, maximizing_player, alpha as int, beta as int),
                forall|j: int|
                    0 <= j < k ==> !better(
                        #[trigger] pruned_child(g, cols[j], depth as nat, maximizing_player, piece, alpha as int, beta as int),
                        value as int,
                        maximizing_player,
                    ),
                full ==> forall|j: int|
                    0 <= j < k ==> !better(
                        #[trigger] child_value(g, cols[j], depth as nat, maximizing_player, piece),
                        value as int,
                        maximizing_player,
                    ),
                value != sentinel(maximizing_player) ==> {
                    &&& 0 <= m < k
                    &&& cols[m] == column_to_use
                    &&& pruned_child(g, column_to_use, depth as nat, maximizing_player, piece, alpha as int, beta as int) == value
                    &&& forall|j: int|
                        0 <= j < m ==> better(
                            value as int,
                            #[trigger] pruned_child(g, cols[j], depth as nat, maximizing_player, piece, alpha as int, beta as int),
                            maximizing_player,
                        )
                },
                value != sentinel(maximizing_player) && full ==> {
                    &&& child_value(g, column_to_use, depth as nat, maximizing_player, piece) == value
                    &&& forall|j: int|
                        0 <= j < m ==> better(
                            value as int,
                            #[trigger] child_value(g, cols[j], depth as nat, maximizing_player, piece),
                            maximizing_player,
                        )
                },
                cut ==> within_window(best_child(g, cols, depth as nat, maximizing_player, piece), value as int, alpha as int, beta as int),
                !cut && maximizing_player ==> ({
                    let v = best_child(g, cols.take(k as int), depth as nat, maximizing_player, piece);
                    &&& v <= alpha ==> v <= value <= alpha
                    &&& alpha < v ==> value == v
                    &&& v < beta
                }),
                !cut && !maximizing_player ==> ({
                    let v = best_child(g, cols.take(k as int), depth as nat, maximizing_player, piece);
                    &&& beta <= v ==> beta <= value <= v
                    &&& v < beta ==> value == v
                    &&& alpha < v
                }),
            decreases cols.len() - k,
        {
            let column = valid_locations[k];
            proof {
                assert(cols.contains(column));
                lemma_open_columns(g, column);
            }
            let mut board_copy = board.clone();
            board_copy.place(column, to_move);
            let new_score = self.minimax(&board_copy, depth - 1, alpha, beta, !maximizing_player, piece).1;
            proof {
                if full {
                    assert(new_score == child_value(g, column, depth as nat, maximizing_player, piece));
                }
                assert(cols.take(k + 1).drop_last() =~= cols.take(k as int));
                assert(cols.take(k + 1).last() == column);
                lemma_prefix_bound(g, cols, depth as nat, maximizing_player, piece, k + 1);
            }
            if maximizing_player {
                if new_score > value {
                    value = new_score;
                    column_to_use = column;
                    proof {
                        m = k as int;
                    }
                }
                let a = if alpha > value { alpha } else { value };
                if a >= beta {
                    cut = true;
                }
            } else {
                if new_score < value {
                    value = new_score;
                    column_to_use = column;
                    proof {
                        m = k as int;
                    }
                }
                let b = if beta < value { beta } else { value };
                if alpha >= b {
                    cut = true;
                }
            }
            k = k + 1;
        }
        proof {
            if !cut {
                assert(cols.take(k as int) =~= cols);
            } else {
                lemma_closed_prefix(g, cols, depth as nat, maximizing_player, piece, alpha as int, beta as int, k as int);
            }
            lemma_value_range(g, depth as nat, maximizing_player, piece);
            lemma_open_columns_below(g, COLUMNS as int);
            if value != sentinel(maximizing_player) {
                assert forall|c2: usize| cols.contains(c2) && c2 < column_to_use implies better(
                    value as int,
                    #[trigger] pruned_child(g, c2, depth as nat, maximizing_player, piece, alpha as int, beta as int),
                    maximizing_player,
                ) && (full ==> better(value as int, child_value(g, c2, depth as nat, maximizing_player, piece), maximizing_player)) by {
                    let j = choose|j: int| 0 <= j < cols.len() && cols[j] == c2;
                    assert(j < m);
                }
            }
        }
        (Some(column_to_use), value)
    }

    /// The column that the side playing `piece` plays after searching
    /// `depth` plies ahead: an open column, if there is one. Where the search
    /// names none, a random open column is taken.
    pub fn choose_column(&self, board: &Board, depth: usize, piece: char) -> (r: Option<usize>)
        requires
            board.wf(),
        ensures
            r.is_some() == (open_columns(board.grid()).len() > 0),
            r matches Some(c) ==> open_columns(board.grid()).contains(c),
            r matches Some(c) ==> search_value(board.grid(), depth as nat, true, piece) > loss_value() && !is_leaf(
                board.grid(),
                depth as nat,
                piece,
            ) ==> search_choice(board.grid(), depth as nat, piece, c),
    {
        let (col, _) = self.minimax(board, depth, i128::MIN, i128::MAX, true, piece);
        match col {
            Some(c) => Some(c),
            None => {
                let cols = board.get_valid_columns();
                pick_random(&cols)
            },
        }
    }

    /// Plays `piece` on `board` at `difficulty`: drops it into the column
    /// that the search of the difficulty's depth chooses, which is the first
    /// column that reaches the position's value unless every move loses or
    /// the search stops at once. A full board is left as it is.
    pub fn think(&mut self, board: &mut Board, difficulty: &Difficulty, piece: char)
        requires
            old(board).wf(),
        ensures
            final(board).wf(),
            open_columns(old(board).grid()).len() == 0 ==> final(board).grid() == old(board).grid(),
            open_columns(old(board).grid()).len() > 0 ==> exists|c: usize|
                {
                    &&& open_columns(old(board).grid()).contains(c)
                    &&& final(board).grid() == dropped(old(board).grid(), c as int, piece)
                    &&& search_value(old(board).grid(), depth_of(*difficulty), true, piece) > loss_value() && !is_leaf(
                        old(board).grid(),
                        depth_of(*difficulty),
                        piece,
                    ) ==> search_choice(old(board).grid(), depth_of(*difficulty), piece, c)
                },
    {
        let ghost g = board.grid();
        let col = self.choose_column(board, difficulty.depth(), piece);
        if let Some(c) = col {
            proof {
                lemma_open_columns(board.grid(), c);
            }
            board.place(c, piece);
            assert(open_columns(g).contains(c) && board.grid() == dropped(g, c as int, piece));
        }
    }
}

impl Default for Ai {
    fn default() -> (r: Ai) {
        Ai::new()
    }
}

} // verus!
