//! Rendering a grid string as a 9x9 box with separators.

use vstd::prelude::*;

use crate::board::PuzzleError;
use crate::grid::{filtered, grid_char};
use crate::topology::Sudoku;
use vstd::string::StringExecFns;

verus! {

/// The separator drawn between bands of three rows.
pub open spec fn sep_line() -> Seq<char> {
    "------+------+------"@
}

/// The rendering of row `r` of a grid `g` of 81 significant characters:
/// each cell followed by a space, with a bar before each new stack of
/// three columns.
pub open spec fn row_line(g: Seq<char>, r: int) -> Seq<char> {
    seq![
        g[9 * r + 0],
        ' ',
        g[9 * r + 1],
        ' ',
        g[9 * r + 2],
        ' ',
        '|',
        g[9 * r + 3],
        ' ',
        g[9 * r + 4],
        ' ',
        g[9 * r + 5],
        ' ',
        '|',
        g[9 * r + 6],
        ' ',
        g[9 * r + 7],
        ' ',
        g[9 * r + 8],
        ' ',
    ]
}

/// The two-character rendering of one cell: the cell's character and a
/// space.
fn cell_text(ch: char) -> (s: &'static str)
    requires
        grid_char(ch),
    ensures
        s@.len() == 2,
        s@[0] == ch,
        s@[1] == ' ',
{
    if ch == '1' {
        proof {
            reveal_strlit("1 ");
        }
        "1 "
    } else if ch == '2' {
        proof {
            reveal_strlit("2 ");
        }
        "2 "
    } else if ch == '3' {
        proof {
            reveal_strlit("3 ");
        }
        "3 "
    } else if ch == '4' {
        proof {
            reveal_strlit("4 ");
        }
        "4 "
    } else if ch == '5' {
        proof {
            reveal_strlit("5 ");
        }
        "5 "
    } else if ch == '6' {
        proof {
            reveal_strlit("6 ");
        }
        "6 "
    } else if ch == '7' {
        proof {
            reveal_strlit("7 ");
        }
        "7 "
    } else if ch == '8' {
        proof {
            reveal_strlit("8 ");
        }
        "8 "
    } else if ch == '9' {
        proof {
            reveal_strlit("9 ");
        }
        "9 "
    } else if ch == '0' {
        proof {
            reveal_strlit("0 ");
        }
        "0 "
    } else {
        proof {
            reveal_strlit(". ");
        }
        ". "
    }
}

impl Sudoku {
    /// Render a grid string of 81 significant characters as eleven lines:
    /// nine cell rows with bars between column stacks, and a separator
    /// between bands of rows. Rejects any other text as an invalid grid.
    #[verifier::loop_isolation(false)]
    #[verifier::rlimit(30)]
    pub fn display(grid: &str) -> (r: Result<Vec<String>, PuzzleError>)
        ensures
            match r {
                Ok(lines) => {
                    &&& filtered(grid@).len() == 81
                    &&& lines@.len() == 11
                    &&& forall|row: int|
                        0 <= row < 9 ==> (#[trigger] lines@[row + row / 3])@ == row_line(
                            filtered(grid@),
                            row,
                        )
                    &&& lines@[3]@ == sep_line()
                    &&& lines@[7]@ == sep_line()
                },
                Err(e) => e == PuzzleError::InvalidGrid && filtered(grid@).len() != 81,
            },
    {
        let n = grid.unicode_len();
        let mut chars: Vec<char> = Vec::new();
        let mut i: usize = 0;
        proof {
            assert(grid@.take(0) =~= Seq::<char>::empty());
            assert(chars@ =~= filtered(grid@.take(0)));
        }
        while i < n
            invariant
                i <= n,
                chars@ == filtered(grid@.take(i as int)),
                chars@.len() <= i,
            decreases n - i,
        {
            let ch = grid.get_char(i);
            let ghost prefix = grid@.take(i as int);
            proof {
                assert(grid@.take(i + 1) =~= prefix.push(ch));
                prefix.lemma_filter_push(ch, |c: char| grid_char(c));
            }
            if crate::grid::is_grid_char(ch) {
                chars.push(ch);
            }
            i = i + 1;
        }
        proof {
            assert(grid@.take(n as int) =~= grid@);
        }
        if chars.len() != 81 {
            return Err(PuzzleError::InvalidGrid);
        }
        let ghost g = filtered(grid@);
        let mut lines: Vec<String> = Vec::new();
        let mut row: usize = 0;
        while row < 9
            invariant
                row <= 9,
                lines@.len() == row + (if row > 2 {
                    1int
                } else {
                    0int
                }) + (if row > 5 {
                    1int
                } else {
                    0int
                }),
                forall|rr: int|
                    0 <= rr < row ==> (#[trigger] lines@[rr + rr / 3])@ == row_line(g, rr),
                row > 2 ==> lines@[3]@ == sep_line(),
                row > 5 ==> lines@[7]@ == sep_line(),
            decreases 9 - row,
        {
            let mut line = String::new();
            let mut col: usize = 0;
            proof {
                assert(line@ =~= row_line(g, row as int).take(0));
            }
            while col < 9
                invariant
                    col <= 9,
                    row < 9,
                    line@ == row_line(g, row as int).take(
                        2 * col + (if col > 3 {
                            1int
                        } else {
                            0int
                        }) + (if col > 6 {
                            1int
                        } else {
                            0int
                        }),
                    ),
                decreases 9 - col,
            {
                let ghost len0 = line@.len();
                if col == 3 || col == 6 {
                    proof {
                        reveal_strlit("|");
                    }
                    line.append("|");
                    proof {
                        assert(row_line(g, row as int)[len0 as int] == '|');
                        assert(line@ =~= row_line(g, row as int).take(len0 as int + 1));
                    }
                }
                let ghost len1 = line@.len();
                let ch = chars[row * 9 + col];
                proof {
                    assert(g[9 * (row as int) + (col as int)] == ch);
                }
                line.append(cell_text(ch));
                proof {
                    assert(row_line(g, row as int)[len1 as int] == ch);
                    assert(row_line(g, row as int)[len1 as int + 1] == ' ');
                    assert(line@ =~= row_line(g, row as int).take(len1 as int + 2));
                }
                col = col + 1;
            }
            proof {
                assert(line@ =~= row_line(g, row as int));
            }
            lines.push(line);
            if row == 2 || row == 5 {
                lines.push(String::from_str("------+------+------"));
            }
            row = row + 1;
        }
        Ok(lines)
    }
}

} // verus!
