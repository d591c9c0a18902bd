use sudoku::board::Board;
use sudoku::parse::parse_board;
use sudoku::solver::{is_valid, solve, solve_loop, SolveError};

const PUZZLE: &str = "53--7----\n6--195---\n-98----6-\n8---6---3\n4--8-3--1\n7---2---6\n-6----28-\n---419--5\n----8--79";
const SOLUTION: &str = "534678912\n672195348\n198342567\n859761423\n426853791\n713924856\n961537284\n287419635\n345286179\n";

fn board(text: &str) -> Board {
    parse_board(text).unwrap()
}

fn empty_board() -> Board {
    board(&"---------\n".repeat(9))
}

fn assert_complete_and_valid(b: &Board) {
    for y in 0..9 {
        let mut seen = [false; 10];
        for x in 0..9 {
            let d = b.get_tile((x, y)).expect("cell left empty") as usize;
            assert!(1 <= d && d <= 9);
            assert!(!seen[d], "digit {} twice in row {}", d, y);
            seen[d] = true;
        }
    }
    for x in 0..9 {
        let mut seen = [false; 10];
        for y in 0..9 {
            let d = b.get_tile((x, y)).unwrap() as usize;
            assert!(!seen[d], "digit {} twice in column {}", d, x);
            seen[d] = true;
        }
    }
    for bx in 0..3 {
        for by in 0..3 {
            let mut seen = [false; 10];
            for x in 3 * bx..3 * bx + 3 {
                for y in 3 * by..3 * by + 3 {
                    let d = b.get_tile((x, y)).unwrap() as usize;
                    assert!(!seen[d], "digit {} twice in a box", d);
                    seen[d] = true;
                }
            }
        }
    }
}

#[test]
fn is_valid_accepts_a_fresh_digit() {
    let b = board(PUZZLE);
    let mut b2 = b.clone();
    b2.set_tile((2, 0), Some(4));
    assert!(is_valid(&b2, &(2, 0)));
}

#[test]
fn is_valid_rejects_row_clash() {
    let mut b = board(PUZZLE);
    b.set_tile((2, 0), Some(7));
    assert!(!is_valid(&b, &(2, 0)));
}

#[test]
fn is_valid_rejects_column_clash() {
    let mut b = board(PUZZLE);
    b.set_tile((0, 2), Some(8));
    assert!(!is_valid(&b, &(0, 2)));
}

#[test]
fn is_valid_rejects_box_clash() {
    let mut b = board(PUZZLE);
    b.set_tile((1, 1), Some(8));
    assert!(!is_valid(&b, &(1, 1)));
}

#[test]
fn is_valid_ignores_other_groups() {
    let mut b = empty_board();
    b.set_tile((0, 0), Some(1));
    b.set_tile((4, 4), Some(1));
    assert!(is_valid(&b, &(0, 0)));
    assert!(is_valid(&b, &(4, 4)));
}

#[test]
fn solves_known_puzzle() {
    let b = board(PUZZLE);
    let solved = solve(&b).unwrap();
    assert_eq!(solved.render(), SOLUTION);
    assert_eq!(b.render(), format!("{}\n", PUZZLE));
}

#[test]
fn solution_keeps_given_cells() {
    let b = board(PUZZLE);
    let solved = solve(&b).unwrap();
    for y in 0..9 {
        for x in 0..9 {
            if let Some(d) = b.get_tile((x, y)) {
                assert_eq!(solved.get_tile((x, y)), Some(d));
            }
        }
    }
    assert_complete_and_valid(&solved);
}

#[test]
fn empty_board_solves_to_valid_grid() {
    let solved = solve(&empty_board()).unwrap();
    assert_complete_and_valid(&solved);
    assert_eq!(&solved.render()[..10], "123456789\n");
}

#[test]
fn solving_twice_gives_same_board() {
    let first = solve(&empty_board()).unwrap();
    let second = solve(&empty_board()).unwrap();
    assert_eq!(first.render(), second.render());
    let a = solve(&board(PUZZLE)).unwrap();
    let b = solve(&board(PUZZLE)).unwrap();
    assert_eq!(a.render(), b.render());
}

#[test]
fn single_empty_cell_gets_missing_digit() {
    let text = SOLUTION.replacen("853791", "8-3791", 1);
    let b = board(&text);
    assert_eq!(b.get_tile((4, 4)), None);
    let solved = solve(&b).unwrap();
    assert_eq!(solved.get_tile((4, 4)), Some(5));
    assert_eq!(solved.render(), SOLUTION);
}

#[test]
fn full_board_with_clash_is_returned_unchanged() {
    let text = SOLUTION.replacen("534678912", "534678913", 1);
    let b = board(&text);
    let solved = solve(&b).unwrap();
    assert_eq!(solved.render(), text);
}

#[test]
fn cell_without_candidate_is_unsolvable() {
    let text = "-12345678\n9--------\n---------\n---------\n---------\n---------\n---------\n---------\n---------";
    assert_eq!(solve(&board(text)).err(), Some(SolveError::Unsolvable));
}

#[test]
fn row_clash_with_forced_cell_is_unsolvable() {
    let text = "11-345678\n--2------\n--9------\n---------\n---------\n---------\n---------\n---------\n---------";
    assert_eq!(solve(&board(text)).err(), Some(SolveError::Unsolvable));
}

#[test]
fn solve_loop_fills_from_index() {
    let text = SOLUTION.replacen("853791", "8-3791", 1).replacen("961537", "96-537", 1);
    let mut b = board(&text);
    let empties = vec![(4, 4), (2, 6)];
    assert!(solve_loop(&mut b, &empties, 0));
    assert_eq!(b.get_tile((4, 4)), Some(5));
    assert_eq!(b.get_tile((2, 6)), Some(1));
}

#[test]
fn solve_loop_restores_board_on_failure() {
    let text = "-12345678\n9--------\n---------\n---------\n---------\n---------\n---------\n---------\n---------";
    let mut b = board(text);
    let empties = vec![(0, 0), (1, 1)];
    assert!(!solve_loop(&mut b, &empties, 0));
    assert_eq!(b.render(), board(text).render());
}
