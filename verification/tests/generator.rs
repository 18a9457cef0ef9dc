use std::collections::HashSet;
use sudoku::Sudoku;

fn check_puzzle(p: &str, at_least: usize) {
    assert_eq!(p.chars().count(), 81);
    assert!(p.chars().all(|c| c == '.' || ('1'..='9').contains(&c)));
    let givens: Vec<char> = p.chars().filter(|c| *c != '.').collect();
    assert!(givens.len() >= at_least);
    let distinct: HashSet<char> = givens.iter().copied().collect();
    assert!(distinct.len() >= 8);
    // No unit of the puzzle names one digit twice.
    let cells: Vec<char> = p.chars().collect();
    for c in 0..81 {
        for p2 in 0..81 {
            let same_unit = c / 9 == p2 / 9 || c % 9 == p2 % 9 || (c / 27 == p2 / 27 && (c % 9)
                / 3 == (p2 % 9) / 3);
            if c != p2 && same_unit && cells[c] != '.' {
                assert_ne!(cells[c], cells[p2]);
            }
        }
    }
}

#[test]
fn random_puzzle_has_enough_givens() {
    let s = Sudoku::new();
    let mut rng = rand::thread_rng();
    for _ in 0..10 {
        let p = s.random_puzzle(17, &mut rng);
        check_puzzle(&p, 17);
    }
}

#[test]
fn random_puzzle_honors_larger_goals() {
    let s = Sudoku::new();
    let mut rng = rand::thread_rng();
    let p = s.random_puzzle(25, &mut rng);
    check_puzzle(&p, 25);
}

#[test]
fn random_puzzles_vary() {
    let s = Sudoku::new();
    let mut rng = rand::thread_rng();
    let a = s.random_puzzle(17, &mut rng);
    let b = s.random_puzzle(17, &mut rng);
    let c = s.random_puzzle(17, &mut rng);
    // Three independent draws agreeing would mean the randomness is not
    // reaching the generator at all.
    assert!(a != b || b != c);
}

#[test]
fn random_puzzle_is_usually_solvable() {
    let s = Sudoku::new();
    let mut rng = rand::thread_rng();
    let mut solved = 0;
    for _ in 0..5 {
        let p = s.random_puzzle(17, &mut rng);
        if let Ok(out) = s.solve(&p) {
            let board = s.parse_grid(&out).unwrap();
            assert!(s.solved(&board));
            solved += 1;
        }
    }
    // Almost all generated puzzles are solvable; all five failing would
    // point at the generator, not at luck.
    assert!(solved >= 1);
}
