use sudoku::board::{changed_tiles, Board, BoardError, Tile};

fn empty_rows() -> Vec<Vec<Tile>> {
    vec![vec![None; 9]; 9]
}

fn sample_rows() -> Vec<Vec<Tile>> {
    let mut rows = empty_rows();
    rows[0][0] = Some(5);
    rows[0][1] = Some(3);
    rows[4][8] = Some(1);
    rows[8][8] = Some(9);
    rows
}

#[test]
fn new_rejects_too_few_rows() {
    let rows = vec![vec![None; 9]; 8];
    assert_eq!(Board::new(rows).err(), Some(BoardError::WrongRowCount));
}

#[test]
fn new_rejects_too_many_rows() {
    let rows = vec![vec![None; 9]; 10];
    assert_eq!(Board::new(rows).err(), Some(BoardError::WrongRowCount));
}

#[test]
fn new_rejects_no_rows() {
    assert_eq!(Board::new(Vec::new()).err(), Some(BoardError::WrongRowCount));
}

#[test]
fn new_rejects_short_row() {
    let mut rows = empty_rows();
    rows[3].pop();
    assert_eq!(Board::new(rows).err(), Some(BoardError::WrongColumnCount));
}

#[test]
fn new_rejects_long_last_row() {
    let mut rows = empty_rows();
    rows[8].push(None);
    assert_eq!(Board::new(rows).err(), Some(BoardError::WrongColumnCount));
}

#[test]
fn row_count_is_checked_before_columns() {
    let rows = vec![vec![None; 4]; 3];
    assert_eq!(Board::new(rows).err(), Some(BoardError::WrongRowCount));
}

#[test]
fn new_accepts_duplicate_digits() {
    let mut rows = empty_rows();
    rows[0][0] = Some(7);
    rows[0][5] = Some(7);
    let board = Board::new(rows).unwrap();
    assert_eq!(board.get_tile((0, 0)), Some(7));
    assert_eq!(board.get_tile((5, 0)), Some(7));
}

#[test]
fn new_copies_cells() {
    let board = Board::new(sample_rows()).unwrap();
    assert_eq!(board.get_tile((0, 0)), Some(5));
    assert_eq!(board.get_tile((1, 0)), Some(3));
    assert_eq!(board.get_tile((8, 4)), Some(1));
    assert_eq!(board.get_tile((4, 8)), None);
    assert_eq!(board.get_tile((8, 8)), Some(9));
}

#[test]
fn set_tile_changes_one_cell() {
    let mut board = Board::new(sample_rows()).unwrap();
    board.set_tile((2, 6), Some(4));
    assert_eq!(board.get_tile((2, 6)), Some(4));
    assert_eq!(board.get_tile((6, 2)), None);
    board.set_tile((0, 0), None);
    assert_eq!(board.get_tile((0, 0)), None);
    assert_eq!(board.get_tile((1, 0)), Some(3));
}

#[test]
fn clone_is_independent() {
    let board = Board::new(sample_rows()).unwrap();
    let mut copy = board.clone();
    copy.set_tile((3, 3), Some(8));
    assert_eq!(copy.get_tile((3, 3)), Some(8));
    assert_eq!(board.get_tile((3, 3)), None);
    assert_eq!(copy.get_tile((0, 0)), Some(5));
}

#[test]
fn render_empty_board() {
    let board = Board::new(empty_rows()).unwrap();
    assert_eq!(board.render(), "---------\n".repeat(9));
}

#[test]
fn render_shows_digits_in_place() {
    let board = Board::new(sample_rows()).unwrap();
    let expected = "53-------\n---------\n---------\n---------\n--------1\n---------\n---------\n---------\n--------9\n";
    assert_eq!(board.render(), expected);
}

#[test]
fn error_messages() {
    assert_eq!(BoardError::WrongRowCount.message(), "Invalid row count");
    assert_eq!(BoardError::WrongColumnCount.message(), "Invalid columns count");
}

#[test]
fn changed_tiles_marks_differences() {
    let board = Board::new(sample_rows()).unwrap();
    let mut other = board.clone();
    other.set_tile((2, 0), Some(4));
    other.set_tile((8, 8), Some(2));
    let changed = changed_tiles(&board, &other);
    assert_eq!(changed.len(), 9);
    assert!(changed[0][2]);
    assert!(changed[8][8]);
    assert!(!changed[0][0]);
    assert!(!changed[0][1]);
    let count: usize = changed.iter().map(|r| r.iter().filter(|c| **c).count()).sum();
    assert_eq!(count, 2);
}
