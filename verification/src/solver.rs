//! Backtracking search over the ambiguity propagation left behind, and
//! the final unit-permutation check.

use vstd::prelude::*;

use crate::board::{
    admits, all_nonempty, all_places, board_sub, is_solved, lemma_board_sub_refl,
    lemma_board_sub_trans, lemma_pinned_places_solved, lemma_total_bounds, lemma_total_sub, total,
    unit_digit_below, unit_mask_has, Board, PuzzleError,
};
use crate::cells::{
    cell_unit, col_of, is_peer, lemma_cell_fields, lemma_cell_in_units, lemma_unit_cell_fields,
    unit_cell, unit_ok,
};
use crate::masks::{
    digit_ok, dmask, has_digit, lemma_and_mem, lemma_dmask, lemma_full_mask, lemma_or_digit,
    lemma_popcnt_bounds, lemma_shared_digit, mask_count, mask_ok, mem, popcnt, some_digit,
    some_missing_digit, ALL_DIGITS,
};
use crate::grid::{
    char_digit, filtered, givens_of, grid_digits, grid_solution, is_digit_char,
};
use crate::topology::Sudoku;
use vstd::string::StringExecFns;

verus! {

/// The one-character text of a digit.
pub(crate) fn digit_literal(d: u8) -> (s: &'static str)
    requires
        digit_ok(d),
    ensures
        s@.len() == 1,
        char_digit(s@[0]) == d,
{
    if d == 1 {
        proof {
            reveal_strlit("1");
        }
        "1"
    } else if d == 2 {
        proof {
            reveal_strlit("2");
        }
        "2"
    } else if d == 3 {
        proof {
            reveal_strlit("3");
        }
        "3"
    } else if d == 4 {
        proof {
            reveal_strlit("4");
        }
        "4"
    } else if d == 5 {
        proof {
            reveal_strlit("5");
        }
        "5"
    } else if d == 6 {
        proof {
            reveal_strlit("6");
        }
        "6"
    } else if d == 7 {
        proof {
            reveal_strlit("7");
        }
        "7"
    } else if d == 8 {
        proof {
            reveal_strlit("8");
        }
        "8"
    } else {
        proof {
            reveal_strlit("9");
        }
        "9"
    }
}

impl Sudoku {
    /// Depth-first search with constraint propagation. Picks an unsolved
    /// cell with the fewest candidates, tries each of its digits on its
    /// own copy of the board, and returns the first fully determined
    /// board found. An error means no admitted solution existed at all,
    /// so a board that does admit one is always solved.
    #[verifier::loop_isolation(false)]
    #[verifier::rlimit(60)]
    pub fn search(&self, b: Board) -> (res: Result<Board, PuzzleError>)
        requires
            self.wf(),
            b.wf(),
            all_nonempty(b@),
            all_places(b@),
        ensures
            match res {
                Ok(b2) => {
                    &&& b2.wf()
                    &&& board_sub(b2@, b@)
                    &&& all_nonempty(b2@)
                    &&& forall|c: int| 0 <= c < 81 ==> popcnt(#[trigger] b2@[c]) == 1
                    &&& is_solved(b2@)
                },
                Err(e) => e == PuzzleError::Contradiction && forall|sol: Seq<u8>|
                    !#[trigger] admits(b@, sol),
            },
        decreases total(b@),
    {
        proof {
            lemma_total_bounds(b@);
        }
        // Choose the unfilled cell with the fewest candidates.
        let mut best: usize = 0;
        let mut best_count: u8 = 10;
        let mut c: usize = 0;
        while c < 81
            invariant
                c <= 81,
                best_count == 10 || (2 <= best_count <= 9),
                best_count == 10 ==> forall|q: int| 0 <= q < c ==> popcnt(#[trigger] b@[q]) <= 1,
                best_count < 10 ==> best < 81 && popcnt(b@[best as int]) == best_count,
            decreases 81 - c,
        {
            let n = mask_count(b.get(c));
            if n >= 2 && n < best_count {
                best_count = n;
                best = c;
            }
            proof {
                if best_count == 10 {
                    lemma_popcnt_bounds(b@[c as int]);
                }
            }
            c = c + 1;
        }
        if best_count == 10 {
            // Every cell has exactly one candidate left: solved.
            proof {
                lemma_board_sub_refl(b@);
                assert forall|q: int| 0 <= q < 81 implies popcnt(#[trigger] b@[q]) == 1 by {
                    lemma_popcnt_bounds(b@[q]);
                }
                lemma_pinned_places_solved(b@);
            }
            return Ok(b);
        }
        // Try each candidate digit of that cell on a fresh copy.
        let mut d: u8 = 1;
        while d <= 9
            invariant
                1 <= d <= 10,
                best < 81,
                popcnt(b@[best as int]) == best_count,
                2 <= best_count <= 9,
                forall|sol: Seq<u8>| #[trigger] admits(b@, sol) ==> sol[best as int] >= d,
            decreases 10 - d,
        {
            if has_digit(b.get(best), d) {
                let mut b2 = b.duplicate();
                let assigned = self.assign(&mut b2, best, d);
                if assigned {
                    proof {
                        lemma_dmask(d);
                        assert(b2@[best as int] == dmask(d));
                        assert(b2@[best as int] != b@[best as int]);
                        lemma_total_sub(b2@, b@);
                        lemma_total_bounds(b2@);
                        assert forall|q: int| 0 <= q < 81 implies #[trigger] b2@[q] != 0 by {
                            assert(b@[q] != 0);
                        }
                        assert forall|u: int, dd: u8|
                            unit_ok(u) && digit_ok(dd) implies #[trigger] unit_mask_has(
                            b2@,
                            u,
                            dd,
                        ) by {
                            assert(unit_mask_has(b@, u, dd));
                        }
                    }
                    match self.search(b2) {
                        Ok(done) => {
                            proof {
                                lemma_board_sub_trans(done@, b2@, b@);
                            }
                            return Ok(done);
                        },
                        Err(_) => {
                            proof {
                                assert forall|sol: Seq<u8>| #[trigger] admits(b@, sol)
                                    implies sol[best as int] >= d + 1 by {
                                    if sol[best as int] == d {
                                        assert(admits(b2@, sol));
                                    }
                                }
                            }
                        },
                    }
                } else {
                    proof {
                        assert forall|sol: Seq<u8>| #[trigger] admits(b@, sol)
                            implies sol[best as int] >= d + 1 by {}
                    }
                }
            } else {
                proof {
                    assert forall|sol: Seq<u8>| #[trigger] admits(b@, sol) implies sol[best as int]
                        >= d + 1 by {
                        assert(mem(b@[best as int], sol[best as int]));
                    }
                }
            }
            d = d + 1;
        }
        proof {
            assert forall|sol: Seq<u8>| !#[trigger] admits(b@, sol) by {
                if admits(b@, sol) {
                    assert(digit_ok(sol[best as int]));
                }
            }
        }
        Err(PuzzleError::Contradiction)
    }

    /// Whether the board is solved: every cell down to one candidate and
    /// every unit a permutation of the digits 1 through 9. This is the
    /// acceptance check that distinguishes fully determined from fully
    /// determined and valid.
    #[verifier::loop_isolation(false)]
    #[verifier::rlimit(60)]
    pub fn solved(&self, b: &Board) -> (r: bool)
        requires
            self.wf(),
            b.wf(),
        ensures
            r == is_solved(b@),
    {
        let mut u: usize = 0;
        while u < 27
            invariant
                u <= 27,
                forall|uu: int, kk: int|
                    0 <= uu < u && 0 <= kk < 9 ==> popcnt(#[trigger] b@[unit_cell(uu, kk)]) == 1,
                forall|uu: int, k1: int, k2: int|
                    0 <= uu < u && 0 <= k1 < 9 && 0 <= k2 < 9 && k1 != k2 ==> #[trigger] b@[
                        unit_cell(uu, k1)
                    ] & #[trigger] b@[unit_cell(uu, k2)] == 0,
                forall|uu: int, dd: u8|
                    0 <= uu < u && digit_ok(dd) ==> #[trigger] unit_mask_has(b@, uu, dd),
            decreases 27 - u,
        {
            let mut seen: u16 = 0;
            let mut k: usize = 0;
            proof {
                assert forall|dd: u8| !(#[trigger] mem(seen, dd)) by {
                    crate::masks::lemma_empty_mem(dd);
                }
            }
            while k < 9
                invariant
                    k <= 9,
                    mask_ok(seen),
                    forall|dd: u8| #[trigger] mem(seen, dd) <==> unit_digit_below(
                        b@,
                        u as int,
                        dd,
                        k as int,
                    ),
                    forall|kk: int|
                        0 <= kk < k ==> popcnt(#[trigger] b@[unit_cell(u as int, kk)]) == 1,
                    forall|k1: int, k2: int|
                        0 <= k1 < k && 0 <= k2 < k && k1 != k2 ==> #[trigger] b@[
                            unit_cell(u as int, k1)
                        ] & #[trigger] b@[unit_cell(u as int, k2)] == 0,
                decreases 9 - k,
            {
                let cell = self.unitlist[u][k] as usize;
                proof {
                    lemma_unit_cell_fields(u as int, k as int);
                }
                let m = b.get(cell);
                if mask_count(m) != 1 {
                    return false;
                }
                if seen & m != 0 {
                    // Two cells of this unit share a digit.
                    proof {
                        lemma_and_mem(seen, m, 1u8);
                        let shared = some_digit(seen & m);
                        lemma_and_mem(seen, m, shared);
                        let kk = choose|kk: int|
                            0 <= kk < k && mem(#[trigger] b@[unit_cell(u as int, kk)], shared);
                        if is_solved(b@) {
                            lemma_shared_digit(
                                b@[unit_cell(u as int, kk)],
                                b@[unit_cell(u as int, k as int)],
                                shared,
                            );
                        }
                    }
                    return false;
                }
                let ghost seen0 = seen;
                seen = seen | m;
                proof {
                    lemma_or_digit(seen0, m, 1u8);
                    assert forall|dd: u8| #[trigger] mem(seen, dd) <==> unit_digit_below(
                        b@,
                        u as int,
                        dd,
                        k as int + 1,
                    ) by {
                        lemma_or_digit(seen0, m, dd);
                        if mem(seen, dd) {
                            if mem(m, dd) {
                                assert(mem(b@[unit_cell(u as int, k as int)], dd));
                            }
                        }
                        if unit_digit_below(b@, u as int, dd, k as int + 1) {
                            let kk = choose|kk: int|
                                0 <= kk < k + 1 && mem(#[trigger] b@[unit_cell(u as int, kk)], dd);
                            if kk < k {
                                assert(unit_digit_below(b@, u as int, dd, k as int));
                            }
                        }
                    }
                    assert forall|k1: int, k2: int|
                        0 <= k1 < k + 1 && 0 <= k2 < k + 1 && k1 != k2 implies #[trigger] b@[
                        unit_cell(u as int, k1)
                    ] & #[trigger] b@[unit_cell(u as int, k2)] == 0 by {
                        if k1 == k as int || k2 == k as int {
                            let x1 = b@[unit_cell(u as int, k1)];
                            let x2 = b@[unit_cell(u as int, k2)];
                            if x1 & x2 != 0 {
                                lemma_unit_cell_fields(u as int, k1);
                                lemma_unit_cell_fields(u as int, k2);
                                lemma_and_mem(x1, x2, 1u8);
                                let shared = some_digit(x1 & x2);
                                lemma_and_mem(x1, x2, shared);
                                let kk = if k1 == k as int {
                                    k2
                                } else {
                                    k1
                                };
                                assert(mem(b@[unit_cell(u as int, kk)], shared));
                                assert(unit_digit_below(b@, u as int, shared, k as int));
                                assert(mem(seen0, shared));
                                assert(mem(m, shared));
                                lemma_shared_digit(seen0, m, shared);
                            }
                        }
                    }
                }
                k = k + 1;
            }
            if seen != ALL_DIGITS {
                // Some digit has no place left in this unit.
                proof {
                    let missing = some_missing_digit(seen);
                    assert(!unit_mask_has(b@, u as int, missing));
                }
                return false;
            }
            proof {
                assert forall|dd: u8| digit_ok(dd) implies #[trigger] unit_mask_has(
                    b@,
                    u as int,
                    dd,
                ) by {
                    lemma_full_mask(dd);
                }
            }
            u = u + 1;
        }
        proof {
            assert forall|cc: int| 0 <= cc < 81 implies popcnt(#[trigger] b@[cc]) == 1 by {
                lemma_cell_fields(cc);
                lemma_cell_in_units(cc);
                assert(unit_cell(cell_unit(cc, 1), col_of(cc)) == cc);
            }
        }
        true
    }
}

impl Sudoku {
    /// Solve a puzzle: parse the 81 significant characters, propagate the
    /// givens, search, and verify the result against the unit-permutation
    /// check. On success the returned 81 digit characters form a valid
    /// completed grid that extends the givens. Success comes exactly on
    /// the well-formed texts whose givens some valid completed grid
    /// extends; `InvalidGrid` comes exactly when the text is malformed,
    /// and `Contradiction` exactly when no completion exists, so the
    /// defensive `Unsolved` outcome is never returned.
    #[verifier::loop_isolation(false)]
    #[verifier::rlimit(60)]
    pub fn solve(&self, grid: &str) -> (r: Result<String, PuzzleError>)
        requires
            self.wf(),
        ensures
            match r {
                Ok(out) => {
                    &&& out@.len() == 81
                    &&& forall|i: int| 0 <= i < 81 ==> is_digit_char(#[trigger] out@[i])
                    &&& grid_solution(grid_digits(out@), grid@)
                    &&& filtered(grid@).len() == 81
                },
                Err(PuzzleError::InvalidGrid) => filtered(grid@).len() != 81,
                Err(PuzzleError::Contradiction) => filtered(grid@).len() == 81 && forall|
                    sol: Seq<u8>,
                |
                    !#[trigger] grid_solution(sol, grid@),
                Err(PuzzleError::Unsolved) => false,
            },
            r is Ok <==> filtered(grid@).len() == 81 && exists|sol: Seq<u8>|
                #[trigger] grid_solution(sol, grid@),
    {
        let parsed = match self.parse_grid(grid) {
            Ok(b) => b,
            Err(e) => {
                return Err(e);
            },
        };
        let ghost bp = parsed@;
        let done = match self.search(parsed) {
            Ok(b2) => b2,
            Err(_) => {
                proof {
                    assert forall|sol: Seq<u8>| !#[trigger] grid_solution(sol, grid@) by {
                        if grid_solution(sol, grid@) {
                            assert(admits(bp, sol));
                        }
                    }
                }
                return Err(PuzzleError::Contradiction);
            },
        };
        if !self.solved(&done) {
            return Err(PuzzleError::Unsolved);
        }
        let mut out = String::new();
        let mut c: usize = 0;
        while c < 81
            invariant
                c <= 81,
                out@.len() == c,
                forall|i: int| 0 <= i < c ==> is_digit_char(#[trigger] out@[i]),
                forall|i: int| 0 <= i < c ==> mem(done@[i], char_digit(#[trigger] out@[i])),
            decreases 81 - c,
        {
            let m = done.get(c);
            let dg = crate::masks::lowest_digit(m);
            let lit = digit_literal(dg);
            out.append(lit);
            c = c + 1;
        }
        let ghost sol = grid_digits(out@);
        proof {
            // The output digits form a valid solution: the solved board
            // pins every cell to exactly the digit written out.
            assert forall|cc: int| 0 <= cc < 81 implies digit_ok(#[trigger] sol[cc]) by {}
            assert forall|a: int, bb: int| is_peer(a, bb) implies #[trigger] sol[a] != #[trigger] sol[bb] by {
                let w = crate::cells::shared_unit(a, bb);
                assert(done@[unit_cell(w.0, w.1)] & done@[unit_cell(w.0, w.2)] == 0);
                if sol[a] == sol[bb] {
                    lemma_shared_digit(done@[a], done@[bb], sol[a]);
                }
            }
            assert forall|u: int, d: u8| unit_ok(u) && digit_ok(d) implies #[trigger] crate::board::unit_has_digit(sol, u, d) by {
                assert(unit_mask_has(done@, u, d));
                let kk = choose|kk: int| 0 <= kk < 9 && mem(#[trigger] done@[unit_cell(u, kk)], d);
                lemma_unit_cell_fields(u, kk);
                let cc = unit_cell(u, kk);
                assert(mem(done@[cc], sol[cc]));
                crate::masks::lemma_singleton(done@[cc], d);
                if sol[cc] != d {
                    crate::masks::lemma_dmask_other(d, sol[cc]);
                }
                assert(sol[unit_cell(u, kk)] == d);
            }
            // And it extends the givens: each given cell was pinned to its
            // digit before search, and search only narrows.
            assert forall|cc: int| 0 <= cc < 81 && givens_of(grid@)[cc] != 0 implies #[trigger] sol[cc]
                == givens_of(grid@)[cc] by {
                let g = givens_of(grid@)[cc];
                assert(bp[cc] == dmask(g));
                assert(mem(done@[cc], sol[cc]));
                crate::masks::lemma_sub_has(done@[cc], bp[cc], sol[cc]);
                if sol[cc] != g {
                    crate::masks::lemma_dmask_other(g, sol[cc]);
                }
            }
            assert(grid_solution(sol, grid@));
        }
        Ok(out)
    }
}

} // verus!
