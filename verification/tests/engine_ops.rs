use sudoku::{Board, Sudoku};

fn candidates(b: &Board) -> Vec<u16> {
    (0..81).map(|c| b.get(c)).collect()
}

#[test]
fn eliminate_removes_one_digit() {
    let s = Sudoku::new();
    let mut b = Board::full();
    assert!(s.eliminate(&mut b, 0, 5));
    assert_eq!(b.get(0), 0x1ff & !(1u16 << 4));
    assert_eq!(b.get(1), 0x1ff);
}

#[test]
fn eliminate_is_idempotent() {
    let s = Sudoku::new();
    let mut b = Board::full();
    assert!(s.eliminate(&mut b, 40, 7));
    let after_once = candidates(&b);
    assert!(s.eliminate(&mut b, 40, 7));
    let after_twice = candidates(&b);
    assert_eq!(after_once, after_twice);
}

#[test]
fn assign_pins_a_cell_and_clears_its_peers() {
    let s = Sudoku::new();
    let mut b = Board::full();
    assert!(s.assign(&mut b, 0, 7));
    assert_eq!(b.get(0), 1u16 << 6);
    // Every peer of the cell has lost digit 7.
    for &p in &s.peers[0] {
        assert_eq!(b.get(p as usize) & (1u16 << 6), 0);
    }
    // An unrelated cell is untouched.
    assert_eq!(b.get(80), 0x1ff);
}

#[test]
fn assigning_last_place_in_a_unit_fails() {
    let s = Sudoku::new();
    let mut b = Board::full();
    // Pin digits 1 through 8 along the first row, then eliminate 9 from
    // the last cell: no place is left for 9 in that row.
    for c in 0..8 {
        assert!(s.assign(&mut b, c, (c + 1) as u8));
    }
    assert!(!s.eliminate(&mut b, 8, 9));
}
