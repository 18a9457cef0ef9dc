use sudoku::{PuzzleError, Sudoku};

const EASY: &str = "003020600900305001001806400008102900700000008006708200002609500800203009005010300";

#[test]
fn display_renders_eleven_lines() {
    let lines = Sudoku::display(EASY).unwrap();
    assert_eq!(lines.len(), 11);
    assert_eq!(lines[0], "0 0 3 |0 2 0 |6 0 0 ");
    assert_eq!(lines[1], "9 0 0 |3 0 5 |0 0 1 ");
    assert_eq!(lines[2], "0 0 1 |8 0 6 |4 0 0 ");
    assert_eq!(lines[3], "------+------+------");
    assert_eq!(lines[4], "0 0 8 |1 0 2 |9 0 0 ");
    assert_eq!(lines[7], "------+------+------");
    assert_eq!(lines[10], "0 0 5 |0 1 0 |3 0 0 ");
}

#[test]
fn display_shows_blanks_as_written() {
    let blank = ".".repeat(81);
    let lines = Sudoku::display(&blank).unwrap();
    assert_eq!(lines[0], ". . . |. . . |. . . ");
}

#[test]
fn display_rejects_short_input() {
    let short = ".".repeat(80);
    assert!(matches!(
        Sudoku::display(&short),
        Err(PuzzleError::InvalidGrid)
    ));
}

#[test]
fn error_messages() {
    assert_eq!(
        PuzzleError::InvalidGrid.message(),
        "Invalid Grid.  Provide a string of 81 digits with 0 or . for empties."
    );
    assert_eq!(
        PuzzleError::Contradiction.message(),
        "A contradiction occured. The puzzle is unsolvable."
    );
    assert_eq!(PuzzleError::Unsolved.message(), "The puzzle is unsolvable.");
}
