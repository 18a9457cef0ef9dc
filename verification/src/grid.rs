//! Grid text: scanning the 81 significant characters and seeding a board
//! from the given digits.

use vstd::prelude::*;

use crate::board::{
    admits, all_nonempty, all_places, lemma_full_board_admits, sol_valid, unit_digit_below,
    unit_mask_has, Board, PuzzleError,
};
use crate::cells::{lemma_unit_cell_fields, unit_cell, unit_ok};
use crate::masks::{digit_ok, dmask, lemma_full_mask, lemma_singleton_sub, mask_sub, mem};
use crate::topology::Sudoku;

verus! {

/// The digit a character stands for: 1 through 9 for the digit
/// characters, 0 for everything else (blanks included).
pub open spec fn char_digit(ch: char) -> u8 {
    if ch == '1' {
        1
    } else if ch == '2' {
        2
    } else if ch == '3' {
        3
    } else if ch == '4' {
        4
    } else if ch == '5' {
        5
    } else if ch == '6' {
        6
    } else if ch == '7' {
        7
    } else if ch == '8' {
        8
    } else if ch == '9' {
        9
    } else {
        0
    }
}

/// A character standing for a given digit.
pub open spec fn is_digit_char(ch: char) -> bool {
    char_digit(ch) != 0
}

/// A character the grid scanner keeps: a digit, or a blank written as
/// `0` or `.`. Everything else (newlines, spaces) is ignored.
pub open spec fn grid_char(ch: char) -> bool {
    ch == '0' || ch == '.' || is_digit_char(ch)
}

/// The significant characters of a grid text, in order.
pub open spec fn filtered(text: Seq<char>) -> Seq<char> {
    text.filter(|ch: char| grid_char(ch))
}

/// The given digits of a grid text: one entry per significant character,
/// 0 for a blank.
pub open spec fn givens_of(text: Seq<char>) -> Seq<u8> {
    filtered(text).map_values(|ch: char| char_digit(ch))
}

/// The solution digit each of the first 81 characters of a grid text
/// stands for.
pub open spec fn grid_digits(text: Seq<char>) -> Seq<u8> {
    Seq::new(81, |i: int| char_digit(text[i]))
}

/// `sol` agrees with every given digit of `g`.
pub open spec fn matches_givens(sol: Seq<u8>, g: Seq<u8>) -> bool {
    forall|c: int| 0 <= c < 81 && g[c] != 0 ==> #[trigger] sol[c] == g[c]
}

/// `sol` is a valid completed grid that extends the givens of the text.
pub open spec fn grid_solution(sol: Seq<u8>, text: Seq<char>) -> bool {
    sol_valid(sol) && matches_givens(sol, givens_of(text))
}

/// The digit a character stands for, executably.
fn char_digit_at(ch: char) -> (d: u8)
    ensures
        d == char_digit(ch),
{
    if ch == '1' {
        1
    } else if ch == '2' {
        2
    } else if ch == '3' {
        3
    } else if ch == '4' {
        4
    } else if ch == '5' {
        5
    } else if ch == '6' {
        6
    } else if ch == '7' {
        7
    } else if ch == '8' {
        8
    } else if ch == '9' {
        9
    } else {
        0
    }
}

/// A grid text of 81 digit characters is kept whole by the scanner.
proof fn lemma_filter_all_kept(text: Seq<char>)
    requires
        forall|i: int| 0 <= i < text.len() ==> grid_char(#[trigger] text[i]),
    ensures
        filtered(text) == text,
    decreases text.len(),
{
    if text.len() == 0 {
        assert(filtered(text) =~= text) by {
            reveal(Seq::filter);
        }
    } else {
        let head = text.drop_last();
        lemma_filter_all_kept(head);
        head.lemma_filter_push(text.last(), |c: char| grid_char(c));
        assert(head.push(text.last()) =~= text);
        assert(filtered(text) =~= text);
    }
}

/// A fully written-out solved grid is a puzzle whose own digits solve it:
/// every character is a given, so any valid reading of the text extends
/// its givens. Re-solving such a text can therefore never report a
/// contradiction, and checking its digits again accepts them.
pub proof fn lemma_solution_round_trip(text: Seq<char>)
    requires
        text.len() == 81,
        forall|i: int| 0 <= i < 81 ==> is_digit_char(#[trigger] text[i]),
        sol_valid(grid_digits(text)),
    ensures
        grid_solution(grid_digits(text), text),
{
    lemma_filter_all_kept(text);
    assert(givens_of(text) =~= grid_digits(text));
}

/// A grid text with no givens at all — such as one of 81 blanks — is
/// always solvable: some valid completed grid exists, and it extends the
/// empty set of givens, so `solve` succeeds on such a text by its
/// success-exactly-when-solvable contract.
pub proof fn lemma_blank_grid_solvable(text: Seq<char>)
    requires
        forall|c: int| 0 <= c < 81 ==> #[trigger] givens_of(text)[c] == 0,
    ensures
        exists|sol: Seq<u8>| #[trigger] grid_solution(sol, text),
{
    crate::board::lemma_complete_grid_exists();
    let sol = choose|sol: Seq<u8>| sol_valid(sol);
    assert(grid_solution(sol, text));
}

/// A grid that gives the same digit to two cells of one unit has no
/// solution: any valid completed grid keeps peers distinct, so `solve`
/// reports exactly a contradiction on such input.
pub proof fn lemma_duplicate_given_unsolvable(text: Seq<char>, a: int, b: int)
    requires
        crate::cells::is_peer(a, b),
        givens_of(text)[a] != 0,
        givens_of(text)[a] == givens_of(text)[b],
    ensures
        forall|sol: Seq<u8>| !#[trigger] grid_solution(sol, text),
{
    assert forall|sol: Seq<u8>| !#[trigger] grid_solution(sol, text) by {
        if grid_solution(sol, text) {
            assert(sol[a] == givens_of(text)[a]);
            assert(sol[b] == givens_of(text)[b]);
            assert(sol[a] != sol[b]);
        }
    }
}

/// Whether the scanner keeps this character, executably.
pub(crate) fn is_grid_char(ch: char) -> (r: bool)
    ensures
        r == grid_char(ch),
{
    ch == '0' || ch == '.' || char_digit_at(ch) != 0
}

impl Sudoku {
    /// Scan the grid text into its 81 given digits, one per significant
    /// character and 0 for a blank, rejecting any text whose count of
    /// significant characters is not exactly 81.
    #[verifier::loop_isolation(false)]
    pub fn grid_values(&self, grid: &str) -> (r: Result<Vec<u8>, PuzzleError>)
        ensures
            match r {
                Ok(v) => v@ == givens_of(grid@) && filtered(grid@).len() == 81,
                Err(e) => e == PuzzleError::InvalidGrid && filtered(grid@).len() != 81,
            },
    {
        let n = grid.unicode_len();
        let mut v: Vec<u8> = Vec::new();
        let mut i: usize = 0;
        proof {
            assert(grid@.take(0) =~= Seq::<char>::empty());
            assert(filtered(grid@.take(0)) =~= Seq::<char>::empty());
            assert(v@ =~= givens_of(grid@.take(0)));
        }
        while i < n
            invariant
                i <= n,
                v@ == givens_of(grid@.take(i as int)),
                v@.len() == filtered(grid@.take(i as int)).len(),
                v@.len() <= i,
            decreases n - i,
        {
            let ch = grid.get_char(i);
            let d = char_digit_at(ch);
            let ghost prefix = grid@.take(i as int);
            proof {
                assert(grid@.take(i + 1) =~= prefix.push(ch));
                prefix.lemma_filter_push(ch, |c: char| grid_char(c));
                if grid_char(ch) {
                    assert(filtered(prefix.push(ch)) =~= filtered(prefix).push(ch));
                    assert(givens_of(prefix.push(ch)) =~= givens_of(prefix).push(char_digit(ch)));
                } else {
                    assert(filtered(prefix.push(ch)) =~= filtered(prefix));
                    assert(givens_of(prefix.push(ch)) =~= givens_of(prefix));
                }
            }
            if d != 0 || ch == '0' || ch == '.' {
                v.push(d);
            }
            i = i + 1;
        }
        proof {
            assert(grid@.take(n as int) =~= grid@);
        }
        if v.len() == 81 {
            Ok(v)
        } else {
            Err(PuzzleError::InvalidGrid)
        }
    }

    /// Seed a fresh board with every digit open, then commit each given
    /// digit with `assign`, propagating as it goes. Rejects a malformed
    /// text, and reports a contradiction exactly when no valid completed
    /// grid extends the givens.
    #[verifier::loop_isolation(false)]
    pub fn parse_grid(&self, grid: &str) -> (r: Result<Board, PuzzleError>)
        requires
            self.wf(),
        ensures
            match r {
                Ok(b) => {
                    &&& b.wf()
                    &&& all_nonempty(b@)
                    &&& all_places(b@)
                    &&& filtered(grid@).len() == 81
                    &&& forall|c: int|
                        0 <= c < 81 && givens_of(grid@)[c] != 0 ==> #[trigger] b@[c] == dmask(
                            givens_of(grid@)[c],
                        )
                    &&& forall|sol: Seq<u8>|
                        #[trigger] grid_solution(sol, grid@) ==> admits(b@, sol)
                },
                Err(PuzzleError::InvalidGrid) => filtered(grid@).len() != 81,
                Err(PuzzleError::Contradiction) => filtered(grid@).len() == 81 && forall|
                    sol: Seq<u8>,
                |
                    !#[trigger] grid_solution(sol, grid@),
                Err(PuzzleError::Unsolved) => false,
            },
    {
        let gv = match self.grid_values(grid) {
            Ok(v) => v,
            Err(e) => {
                return Err(e);
            },
        };
        let ghost givens = givens_of(grid@);
        let mut b = Board::full();
        proof {
            assert forall|sol: Seq<u8>| #[trigger] grid_solution(sol, grid@) implies admits(
                b@,
                sol,
            ) by {
                lemma_full_board_admits(b@, sol);
            }
            assert forall|u: int, dd: u8|
                unit_ok(u) && digit_ok(dd) implies #[trigger] unit_mask_has(b@, u, dd) by {
                lemma_unit_cell_fields(u, 0);
                lemma_full_mask(dd);
                assert(mem(b@[unit_cell(u, 0)], dd));
                assert(unit_digit_below(b@, u, dd, 9));
            }
        }
        let mut c: usize = 0;
        while c < 81
            invariant
                c <= 81,
                b.wf(),
                all_nonempty(b@),
                all_places(b@),
                forall|q: int| 0 <= q < c && givens[q] != 0 ==> #[trigger] b@[q] == dmask(
                    givens[q],
                ),
                forall|sol: Seq<u8>| #[trigger] grid_solution(sol, grid@) ==> admits(b@, sol),
            decreases 81 - c,
        {
            let d = gv[c];
            if d != 0 {
                let ghost bp = b@;
                let ok = self.assign(&mut b, c, d);
                if !ok {
                    proof {
                        assert forall|sol: Seq<u8>| !#[trigger] grid_solution(sol, grid@) by {
                            if grid_solution(sol, grid@) {
                                assert(admits(bp, sol));
                                assert(sol[c as int] == d);
                            }
                        }
                    }
                    return Err(PuzzleError::Contradiction);
                }
                proof {
                    assert forall|q: int| 0 <= q < 81 implies #[trigger] b@[q] != 0 by {
                        assert(bp[q] != 0);
                    }
                    assert forall|u: int, dd: u8|
                        unit_ok(u) && digit_ok(dd) implies #[trigger] unit_mask_has(
                        b@,
                        u,
                        dd,
                    ) by {
                        assert(unit_mask_has(bp, u, dd));
                    }
                    assert forall|q: int| 0 <= q < c + 1 && givens[q] != 0 implies #[trigger] b@[q]
                        == dmask(givens[q]) by {
                        if q < c {
                            assert(bp[q] == dmask(givens[q]));
                            assert(mask_sub(b@[q], bp[q]));
                            lemma_singleton_sub(b@[q], givens[q]);
                        }
                    }
                    assert forall|sol: Seq<u8>|
                        #[trigger] grid_solution(sol, grid@) implies admits(b@, sol) by {
                        assert(admits(bp, sol));
                        assert(sol[c as int] == d);
                    }
                }
            }
            c = c + 1;
        }
        Ok(b)
    }
}

} // verus!
