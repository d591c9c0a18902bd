use sudoku::board::BoardError;
use sudoku::parse::parse_board;

const PUZZLE: &str = "53--7----\n6--195---\n-98----6-\n8---6---3\n4--8-3--1\n7---2---6\n-6----28-\n---419--5\n----8--79";

#[test]
fn parse_reads_digits_and_dashes() {
    let board = parse_board(PUZZLE).unwrap();
    assert_eq!(board.get_tile((0, 0)), Some(5));
    assert_eq!(board.get_tile((1, 0)), Some(3));
    assert_eq!(board.get_tile((2, 0)), None);
    assert_eq!(board.get_tile((4, 0)), Some(7));
    assert_eq!(board.get_tile((8, 8)), Some(9));
    assert_eq!(board.get_tile((0, 8)), None);
}

#[test]
fn parse_accepts_one_trailing_newline() {
    let text = format!("{}\n", PUZZLE);
    let board = parse_board(&text).unwrap();
    assert_eq!(board.get_tile((7, 8)), Some(7));
}

#[test]
fn parse_rejects_blank_line_at_end() {
    let text = format!("{}\n\n", PUZZLE);
    assert_eq!(parse_board(&text).err(), Some(BoardError::WrongRowCount));
}

#[test]
fn parse_rejects_blank_line_at_start() {
    let text = format!("\n{}", PUZZLE);
    assert_eq!(parse_board(&text).err(), Some(BoardError::WrongRowCount));
}

#[test]
fn parse_rejects_empty_text() {
    assert_eq!(parse_board("").err(), Some(BoardError::WrongRowCount));
}

#[test]
fn parse_rejects_short_line() {
    let text = PUZZLE.replacen("53--7----", "53--7---", 1);
    assert_eq!(parse_board(&text).err(), Some(BoardError::WrongColumnCount));
}

#[test]
fn parse_reads_zero_and_other_characters_as_empty() {
    let text = PUZZLE.replacen("53--7----", "50x.7 ---", 1);
    let board = parse_board(&text).unwrap();
    assert_eq!(board.get_tile((0, 0)), Some(5));
    assert_eq!(board.get_tile((1, 0)), None);
    assert_eq!(board.get_tile((2, 0)), None);
    assert_eq!(board.get_tile((3, 0)), None);
    assert_eq!(board.get_tile((5, 0)), None);
}

#[test]
fn render_then_parse_round_trips() {
    let board = parse_board(PUZZLE).unwrap();
    let text = board.render();
    assert_eq!(text, format!("{}\n", PUZZLE));
    let again = parse_board(&text).unwrap();
    assert_eq!(again.render(), text);
}
