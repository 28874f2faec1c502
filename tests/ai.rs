use match4::ai::{Ai, Difficulty};
use match4::board::{Board, COLUMNS, EMPTY, ROWS};

fn board_with(moves: &[(usize, char)]) -> Board {
    let mut b = Board::new();
    for &(c, p) in moves {
        assert!(b.place(c, p));
    }
    b
}

fn opponent(p: char) -> char {
    if p == 'X' {
        'O'
    } else {
        'X'
    }
}

/// Minimax over every branch, with no pruning.
fn full_minimax(ai: &Ai, b: &Board, depth: usize, maximizing: bool, piece: char) -> i128 {
    if b.has_won(piece) {
        return i128::MAX;
    }
    if b.has_won(opponent(piece)) {
        return i128::MIN;
    }
    let cols = b.get_valid_columns();
    if depth == 0 || cols.is_empty() {
        return ai.score_position(b, piece) as i128;
    }
    let mover = if maximizing { piece } else { opponent(piece) };
    let mut best = if maximizing { i128::MIN } else { i128::MAX };
    for c in cols {
        let mut copy = b.clone();
        copy.place(c, mover);
        let v = full_minimax(ai, &copy, depth - 1, !maximizing, piece);
        if (maximizing && v > best) || (!maximizing && v < best) {
            best = v;
        }
    }
    best
}

fn changed_cells(before: &Board, after: &Board) -> Vec<(usize, usize)> {
    let mut out = Vec::new();
    for r in 0..ROWS {
        for c in 0..COLUMNS {
            if before.cell(r, c) != after.cell(r, c) {
                out.push((r, c));
            }
        }
    }
    out
}

#[test]
fn slice_values() {
    let ai = Ai::new();
    assert_eq!(ai.evaluate_slice(vec!['X', 'X', 'X', 'X'], 'X'), 100);
    assert_eq!(ai.evaluate_slice(vec!['X', 'X', 'X', ' '], 'X'), 5);
    assert_eq!(ai.evaluate_slice(vec!['X', ' ', 'X', 'X'], 'X'), 5);
    assert_eq!(ai.evaluate_slice(vec!['X', 'X', ' ', ' '], 'X'), 2);
    assert_eq!(ai.evaluate_slice(vec!['O', 'O', 'O', ' '], 'X'), -4);
    assert_eq!(ai.evaluate_slice(vec!['X', 'X', 'X', ' '], 'O'), -4);
    assert_eq!(ai.evaluate_slice(vec!['O', 'O', 'O', 'O'], 'O'), 100);
}

#[test]
fn slice_values_that_score_nothing() {
    let ai = Ai::new();
    assert_eq!(ai.evaluate_slice(vec![' ', ' ', ' ', ' '], 'X'), 0);
    assert_eq!(ai.evaluate_slice(vec!['X', ' ', ' ', ' '], 'X'), 0);
    assert_eq!(ai.evaluate_slice(vec!['X', 'X', 'X', 'O'], 'X'), 0);
    assert_eq!(ai.evaluate_slice(vec!['X', 'X', 'O', ' '], 'X'), 0);
    assert_eq!(ai.evaluate_slice(vec!['O', 'O', 'O', 'X'], 'X'), 0);
}

#[test]
fn score_of_empty_board_is_zero() {
    let ai = Ai::new();
    let b = Board::new();
    assert_eq!(ai.score_position(&b, 'X'), 0);
    assert_eq!(ai.score_position(&b, 'O'), 0);
}

#[test]
fn score_counts_centre_column_and_windows() {
    let ai = Ai::new();
    let one = board_with(&[(3, 'X')]);
    assert_eq!(ai.score_position(&one, 'X'), 3);
    let two = board_with(&[(3, 'X'), (2, 'X')]);
    // centre 3, three horizontal windows with two X and two empty cells
    assert_eq!(ai.score_position(&two, 'X'), 9);
    assert_eq!(ai.score_position(&two, 'O'), 0);
}

#[test]
fn score_penalises_opponent_threes() {
    let ai = Ai::new();
    let b = board_with(&[(0, 'O'), (1, 'O'), (2, 'O')]);
    // window at columns 0..3 of the bottom row holds three O and an empty cell
    assert_eq!(ai.score_position(&b, 'X'), -4);
    // for O: windows 0..3 gives 5, 1..4 gives 2 (two O, two empty), and no centre piece
    assert_eq!(ai.score_position(&b, 'O'), 7);
}

#[test]
fn difficulty_depths() {
    assert_eq!(Difficulty::Easy.depth(), 2);
    assert_eq!(Difficulty::Medium.depth(), 4);
    assert_eq!(Difficulty::Hard.depth(), 5);
}

#[test]
fn search_takes_an_immediate_win() {
    let ai = Ai::new();
    let b = board_with(&[(0, 'X'), (0, 'O'), (1, 'X'), (1, 'O'), (2, 'X'), (6, 'O')]);
    for depth in 1..5 {
        let (col, value) = ai.minimax(&b, depth, i128::MIN, i128::MAX, true, 'X');
        assert_eq!(col, Some(3));
        assert_eq!(value, i128::MAX);
        assert_eq!(ai.choose_column(&b, depth, 'X'), Some(3));
    }
}

#[test]
fn search_blocks_the_opponents_three() {
    let ai = Ai::new();
    let b = board_with(&[(0, 'O'), (0, 'X'), (1, 'O'), (6, 'X'), (2, 'O')]);
    for depth in 2..5 {
        assert_eq!(ai.choose_column(&b, depth, 'X'), Some(3));
    }
    let mut real = b.clone();
    let mut player = Ai::new();
    player.think(&mut real, &Difficulty::Medium, 'X');
    assert_eq!(real.cell(5, 3), 'X');
}

#[test]
fn pruned_search_matches_full_minimax() {
    let ai = Ai::new();
    let boards = vec![
        Board::new(),
        board_with(&[(3, 'X'), (3, 'O'), (2, 'X')]),
        board_with(&[(0, 'O'), (0, 'X'), (1, 'O'), (6, 'X'), (2, 'O')]),
        board_with(&[(3, 'X'), (4, 'O'), (4, 'X'), (5, 'O'), (5, 'X'), (6, 'O'), (5, 'X')]),
    ];
    for b in &boards {
        for depth in 0..4 {
            for &maximizing in &[true, false] {
                let (_, v) = ai.minimax(b, depth, i128::MIN, i128::MAX, maximizing, 'X');
                assert_eq!(v, full_minimax(&ai, b, depth, maximizing, 'X'));
            }
        }
    }
}

#[test]
fn narrow_window_stays_on_the_right_side() {
    let ai = Ai::new();
    let b = board_with(&[(3, 'X'), (3, 'O'), (2, 'X')]);
    let v = full_minimax(&ai, &b, 2, true, 'X');
    assert!(v > -1000 && v < 1000);
    let (_, low) = ai.minimax(&b, 2, v + 1, v + 100, true, 'X');
    assert!(low <= v + 1);
    assert!(low >= v);
    let (_, high) = ai.minimax(&b, 2, v - 100, v - 1, true, 'X');
    assert!(high >= v - 1);
    assert!(high <= v);
    let (_, inside) = ai.minimax(&b, 2, v - 1, v + 1, true, 'X');
    assert_eq!(inside, v);
}

#[test]
fn forced_win_two_moves_ahead_is_found() {
    // X on the bottom row at columns 2 and 3: a third at column 4 leaves two open ends
    let ai = Ai::new();
    let b = board_with(&[(3, 'X'), (3, 'O'), (2, 'X')]);
    assert_eq!(full_minimax(&ai, &b, 3, true, 'X'), i128::MAX);
    let (col, value) = ai.minimax(&b, 3, i128::MIN, i128::MAX, true, 'X');
    assert_eq!(value, i128::MAX);
    let mut after = b.clone();
    assert!(after.place(col.unwrap(), 'X'));
    assert_eq!(full_minimax(&ai, &after, 2, false, 'X'), i128::MAX);
}

#[test]
fn search_stops_at_leaves() {
    let ai = Ai::new();
    let b = board_with(&[(3, 'X')]);
    assert_eq!(ai.minimax(&b, 0, i128::MIN, i128::MAX, true, 'X'), (None, 3));
    let won = board_with(&[(1, 'O'), (1, 'O'), (1, 'O'), (1, 'O')]);
    assert_eq!(ai.minimax(&won, 3, i128::MIN, i128::MAX, true, 'X'), (None, i128::MIN));
    assert_eq!(ai.minimax(&won, 3, i128::MIN, i128::MAX, true, 'O'), (None, i128::MAX));
}

#[test]
fn think_plays_a_valid_column() {
    let positions = vec![
        Board::new(),
        board_with(&[(3, 'X'), (3, 'O'), (2, 'X')]),
        board_with(&[(0, 'X'), (0, 'O'), (0, 'X'), (0, 'O'), (0, 'X'), (0, 'O')]),
    ];
    for b in &positions {
        for d in [Difficulty::Easy, Difficulty::Medium] {
            let valid = b.get_valid_columns();
            let mut after = b.clone();
            let mut player = Ai::new();
            player.think(&mut after, &d, 'O');
            let changed = changed_cells(b, &after);
            assert_eq!(changed.len(), 1);
            let (r, c) = changed[0];
            assert!(valid.contains(&c));
            assert_eq!(b.cell(r, c), EMPTY);
            assert_eq!(after.cell(r, c), 'O');
        }
    }
}

#[test]
fn full_board_has_no_move() {
    let mut b = Board::new();
    for c in 0..COLUMNS {
        for i in 0..ROWS {
            assert!(b.place(c, if (i + c / 2) % 2 == 0 { 'X' } else { 'O' }));
        }
    }
    assert!(b.get_valid_columns().is_empty());
    let ai = Ai::new();
    assert_eq!(ai.choose_column(&b, 2, 'X'), None);
    let before = b.clone();
    let mut player = Ai::new();
    player.think(&mut b, &Difficulty::Easy, 'X');
    assert!(changed_cells(&before, &b).is_empty());
}

#[test]
fn opening_move_on_empty_board_is_the_centre() {
    for depth in 1..3 {
        let ai = Ai::new();
        let col = ai.choose_column(&Board::new(), depth, 'X');
        assert_eq!(col, Some(3));
    }
    let mut b = Board::new();
    let mut player = Ai::new();
    player.think(&mut b, &Difficulty::Easy, 'X');
    let valid: Vec<usize> = (0..COLUMNS).collect();
    let placed: Vec<usize> = (0..COLUMNS).filter(|&c| b.cell(5, c) == 'X').collect();
    assert_eq!(placed.len(), 1);
    assert!(valid.contains(&placed[0]));
    assert_eq!(b.cell(5, 3), 'X');
}

#[test]
fn think_takes_an_immediate_win() {
    let b = board_with(&[(0, 'O'), (6, 'X'), (1, 'O'), (6, 'X'), (2, 'O'), (5, 'X')]);
    for d in [Difficulty::Easy, Difficulty::Medium] {
        let mut after = b.clone();
        let mut player = Ai::new();
        player.think(&mut after, &d, 'O');
        assert!(after.has_won('O'));
        assert_eq!(after.cell(5, 3), 'O');
    }
}

#[test]
fn repeated_searches_agree() {
    let ai = Ai::new();
    let b = board_with(&[(3, 'X'), (4, 'O'), (4, 'X'), (5, 'O')]);
    for depth in 1..4 {
        for &(alpha, beta) in &[(i128::MIN, i128::MAX), (-10, 10), (0, 1), (5, 100)] {
            let first = ai.minimax(&b, depth, alpha, beta, true, 'X');
            let second = ai.minimax(&b, depth, alpha, beta, true, 'X');
            assert_eq!(first.1, second.1);
            if first.1 != i128::MIN {
                assert_eq!(first.0, second.0);
            }
        }
    }
}

#[test]
fn ties_keep_the_first_column() {
    // every column is worth the same to X at one ply except the centre
    let ai = Ai::new();
    let b = Board::new();
    let (col, value) = ai.minimax(&b, 1, i128::MIN, i128::MAX, false, 'X');
    // O to move: each drop leaves X's score at 0, so the first column is kept
    assert_eq!(value, 0);
    assert_eq!(col, Some(0));
}
