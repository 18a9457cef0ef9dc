use sudoku::{PuzzleError, Sudoku};

const EASY: &str = "003020600900305001001806400008102900700000008006708200002609500800203009005010300";
const EASY_SOLUTION: &str =
    "483921657967345821251876493548132976729564138136798245372689514814253769695417382";

#[test]
fn solves_easy_grid_to_known_completion() {
    let s = Sudoku::new();
    let out = s.solve(EASY).unwrap();
    assert_eq!(out, EASY_SOLUTION);
    assert_eq!(out.len(), 81);
    assert!(out.chars().all(|c| ('1'..='9').contains(&c)));
}

#[test]
fn solved_accepts_the_solution() {
    let s = Sudoku::new();
    let out = s.solve(EASY).unwrap();
    let board = s.parse_grid(&out).unwrap();
    assert!(s.solved(&board));
}

#[test]
fn solving_twice_round_trips() {
    let s = Sudoku::new();
    let out = s.solve(EASY).unwrap();
    // A solved grid is its own unique completion.
    let again = s.solve(&out).unwrap();
    assert_eq!(again, out);
}

#[test]
fn solved_rejects_an_unsolved_board() {
    let s = Sudoku::new();
    // All candidates open everywhere: no unit is a permutation.
    let board = sudoku::Board::full();
    assert!(!s.solved(&board));
    // A hard grid: propagation alone leaves cells ambiguous, so the
    // parsed board is not yet solved.
    let hard = "4.....8.5.3..........7......2.....6.....8.4......1.......6.3.7.5..2.....1.4......";
    let board = s.parse_grid(hard).unwrap();
    assert!(!s.solved(&board));
}

#[test]
fn eighty_characters_is_an_invalid_grid() {
    let s = Sudoku::new();
    let short: String = EASY.chars().take(80).collect();
    assert!(matches!(s.solve(&short), Err(PuzzleError::InvalidGrid)));
}

#[test]
fn non_grid_characters_are_ignored_when_scanning() {
    let s = Sudoku::new();
    let spaced: String = EASY
        .chars()
        .flat_map(|c| [c, ' '])
        .collect();
    let out = s.solve(&spaced).unwrap();
    assert_eq!(out, EASY_SOLUTION);
}

#[test]
fn two_equal_digits_in_a_row_contradict() {
    let s = Sudoku::new();
    let mut grid = String::from("55");
    grid.push_str(&".".repeat(79));
    assert!(matches!(s.solve(&grid), Err(PuzzleError::Contradiction)));
}

#[test]
fn two_equal_digits_in_a_box_contradict() {
    let s = Sudoku::new();
    // 5 at A1 and 5 at B2 share the top-left box.
    let mut grid = String::from("5........");
    grid.push_str(".5.......");
    grid.push_str(&".".repeat(63));
    assert!(matches!(s.solve(&grid), Err(PuzzleError::Contradiction)));
}

#[test]
fn all_blank_grid_is_solvable_and_reproducible() {
    let s = Sudoku::new();
    let blank = ".".repeat(81);
    let out = s.solve(&blank).unwrap();
    assert_eq!(out.len(), 81);
    let board = s.parse_grid(&out).unwrap();
    assert!(s.solved(&board));
    // The search tie-break is deterministic, so a second run agrees.
    let out2 = s.solve(&blank).unwrap();
    assert_eq!(out, out2);
}

#[test]
fn solution_respects_the_givens() {
    let s = Sudoku::new();
    let out = s.solve(EASY).unwrap();
    for (given, solved) in EASY.chars().zip(out.chars()) {
        if given != '0' && given != '.' {
            assert_eq!(given, solved);
        }
    }
}
