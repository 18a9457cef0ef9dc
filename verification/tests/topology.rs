use sudoku::Sudoku;

// Cell C2 in row-letter/column-digit naming is row 2, column 1: index 19.
const C2: usize = 19;

#[test]
fn topology_counts() {
    let s = Sudoku::new();
    assert_eq!(s.squares.len(), 81);
    assert_eq!(s.unitlist.len(), 27);
    for unit in &s.unitlist {
        assert_eq!(unit.len(), 9);
    }
    for c in 0..81 {
        assert_eq!(s.units[c].len(), 3);
        assert_eq!(s.peers[c].len(), 20);
    }
}

#[test]
fn units_of_c2() {
    let s = Sudoku::new();
    let unit_cells: Vec<Vec<u8>> = s.units[C2]
        .iter()
        .map(|&u| s.unitlist[u as usize].clone())
        .collect();
    // Column unit: A2 B2 C2 D2 E2 F2 G2 H2 I2.
    assert_eq!(unit_cells[0], vec![1, 10, 19, 28, 37, 46, 55, 64, 73]);
    // Row unit: C1 through C9.
    assert_eq!(unit_cells[1], vec![18, 19, 20, 21, 22, 23, 24, 25, 26]);
    // Box unit: A1 A2 A3 B1 B2 B3 C1 C2 C3.
    assert_eq!(unit_cells[2], vec![0, 1, 2, 9, 10, 11, 18, 19, 20]);
}

#[test]
fn peers_of_c2() {
    let s = Sudoku::new();
    let mut expected: Vec<u8> = vec![
        1, 10, 28, 37, 46, 55, 64, 73, // rest of the column
        18, 20, 21, 22, 23, 24, 25, 26, // rest of the row
        0, 2, 9, 11, // rest of the box
    ];
    expected.sort();
    assert_eq!(s.peers[C2], expected);
}

#[test]
fn squares_are_in_order() {
    let s = Sudoku::new();
    for (i, &sq) in s.squares.iter().enumerate() {
        assert_eq!(sq as usize, i);
    }
}
