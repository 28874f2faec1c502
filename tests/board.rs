use match4::board::{Board, COLUMNS, EMPTY, ROWS};

fn grid(board: &Board) -> Vec<Vec<char>> {
    let mut g = Vec::new();
    for r in 0..ROWS {
        let mut row = Vec::new();
        for c in 0..COLUMNS {
            row.push(board.cell(r, c));
        }
        g.push(row);
    }
    g
}

fn board_with(moves: &[(usize, char)]) -> Board {
    let mut b = Board::new();
    for &(c, p) in moves {
        assert!(b.place(c, p));
    }
    b
}

#[test]
fn new_board_is_empty_with_every_column_open() {
    let b = Board::new();
    for r in 0..ROWS {
        for c in 0..COLUMNS {
            assert_eq!(b.cell(r, c), EMPTY);
        }
    }
    assert_eq!(b.get_valid_columns(), vec![0, 1, 2, 3, 4, 5, 6]);
    assert!(!b.has_won('X'));
    assert!(!b.has_won('O'));
}

#[test]
fn place_lands_in_lowest_empty_cell_and_stacks() {
    let mut b = Board::new();
    assert!(b.place(2, 'X'));
    assert_eq!(b.cell(5, 2), 'X');
    assert!(b.place(2, 'O'));
    assert_eq!(b.cell(4, 2), 'O');
    assert_eq!(b.cell(5, 2), 'X');
    assert_eq!(b.cell(3, 2), EMPTY);
    for c in 0..COLUMNS {
        if c != 2 {
            assert_eq!(b.cell(5, c), EMPTY);
        }
    }
}

#[test]
fn place_into_full_column_fails_and_changes_nothing() {
    let mut b = Board::new();
    for i in 0..ROWS {
        assert!(b.place(4, if i % 2 == 0 { 'X' } else { 'O' }));
    }
    assert_eq!(b.get_valid_columns(), vec![0, 1, 2, 3, 5, 6]);
    let before = grid(&b);
    assert!(!b.place(4, 'X'));
    assert_eq!(grid(&b), before);
    assert!(!b.place(4, 'O'));
    assert_eq!(grid(&b), before);
}

#[test]
fn each_placement_changes_one_empty_cell_of_its_column() {
    let mut b = Board::new();
    let moves = [3usize, 3, 4, 0, 6, 3, 2, 2, 5, 1];
    for (i, &c) in moves.iter().enumerate() {
        let before = grid(&b);
        let p = if i % 2 == 0 { 'X' } else { 'O' };
        assert!(b.place(c, p));
        let after = grid(&b);
        let mut changed = Vec::new();
        for r in 0..ROWS {
            for j in 0..COLUMNS {
                if before[r][j] != after[r][j] {
                    changed.push((r, j));
                }
            }
        }
        assert_eq!(changed.len(), 1);
        let (r, j) = changed[0];
        assert_eq!(j, c);
        assert_eq!(before[r][j], EMPTY);
        assert_eq!(after[r][j], p);
    }
}

#[test]
fn vertical_four_wins() {
    let b = board_with(&[(1, 'X'), (1, 'X'), (1, 'X'), (1, 'X')]);
    assert!(b.has_won('X'));
    assert!(!b.has_won('O'));
}

#[test]
fn horizontal_four_wins() {
    let b = board_with(&[(3, 'O'), (4, 'O'), (5, 'O'), (6, 'O')]);
    assert!(b.has_won('O'));
    assert!(!b.has_won('X'));
}

#[test]
fn three_in_a_row_does_not_win() {
    let b = board_with(&[(0, 'X'), (1, 'X'), (2, 'X'), (4, 'X')]);
    assert!(!b.has_won('X'));
}

#[test]
fn rising_diagonal_wins() {
    // X at (5,0), (4,1), (3,2), (2,3)
    let b = board_with(&[
        (0, 'X'),
        (1, 'O'),
        (1, 'X'),
        (2, 'O'),
        (2, 'O'),
        (2, 'X'),
        (3, 'O'),
        (3, 'O'),
        (3, 'O'),
        (3, 'X'),
    ]);
    assert!(b.has_won('X'));
    assert!(!b.has_won('O'));
}

#[test]
fn falling_diagonal_wins() {
    // O at (2,0), (3,1), (4,2), (5,3)
    let b = board_with(&[
        (0, 'X'),
        (0, 'X'),
        (0, 'X'),
        (0, 'O'),
        (1, 'X'),
        (1, 'X'),
        (1, 'O'),
        (2, 'X'),
        (2, 'O'),
        (3, 'O'),
    ]);
    assert!(b.has_won('O'));
    assert!(!b.has_won('X'));
}

#[test]
fn empty_cells_never_win() {
    let b = Board::new();
    assert!(!b.has_won(EMPTY));
}

#[test]
fn snapshots_are_independent_of_the_board() {
    let mut b = board_with(&[(0, 'X'), (6, 'O')]);
    let mut rows = b.rows();
    let mut cols = b.columns();
    assert_eq!(rows.len(), ROWS);
    assert_eq!(cols.len(), COLUMNS);
    assert_eq!(rows[5], vec!['X', ' ', ' ', ' ', ' ', ' ', 'O']);
    assert_eq!(cols[6], vec![' ', ' ', ' ', ' ', ' ', 'O']);
    rows[0][0] = 'O';
    cols[3][5] = 'X';
    assert_eq!(b.cell(0, 0), EMPTY);
    assert_eq!(b.cell(5, 3), EMPTY);
    assert!(b.place(0, 'O'));
    assert_eq!(rows[4][0], EMPTY);
}

#[test]
fn clone_is_independent() {
    let b = board_with(&[(2, 'X')]);
    let mut copy = b.clone();
    assert_eq!(grid(&copy), grid(&b));
    assert!(copy.place(2, 'O'));
    assert_eq!(b.cell(4, 2), EMPTY);
    assert_eq!(copy.cell(4, 2), 'O');
}
