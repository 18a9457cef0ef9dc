//! Random puzzle generation: assign random digits to randomly ordered
//! cells through the propagation engine until enough cells are pinned.

use vstd::prelude::*;

use rand::rngs::ThreadRng;
use rand::seq::SliceRandom;

use crate::board::{all_nonempty, Board};
use crate::cells::{is_peer, lemma_shift_pattern_distinct, shift_pattern};
use crate::grid::{char_digit, is_digit_char};
use crate::masks::{
    dmask, lemma_full_of_digits, lemma_or_digit, lemma_popcnt_bounds, lemma_singleton, mask_count,
    mask_digits, mask_ok, mem, popcnt,
};
use crate::topology::Sudoku;
use vstd::arithmetic::div_mod::{lemma_fundamental_div_mod_converse, lemma_mod_bound};
use vstd::string::StringExecFns;

verus! {

broadcast use vstd::seq_lib::group_to_multiset_ensures;

/// Declares rand's `ThreadRng` so its values can be threaded through the
/// generator; nothing is assumed about them.
#[verifier::external_type_specification]
#[verifier::external_body]
pub struct ExThreadRng(ThreadRng);

/// A character a generated puzzle may hold: a digit or a blank.
pub open spec fn puzzle_char(ch: char) -> bool {
    is_digit_char(ch) || ch == '.'
}

/// How many of the first `n` characters are given digits.
pub open spec fn nonblank_below(text: Seq<char>, n: int) -> int
    decreases n,
{
    if n <= 0 {
        0
    } else {
        nonblank_below(text, n - 1) + (if is_digit_char(text[n - 1]) {
            1int
        } else {
            0int
        })
    }
}

/// The set of digit values among the first `n` characters, as a mask.
pub open spec fn digits_mask_below(text: Seq<char>, n: int) -> u16
    decreases n,
{
    if n <= 0 {
        0u16
    } else {
        digits_mask_below(text, n - 1) | (if is_digit_char(text[n - 1]) {
            dmask(char_digit(text[n - 1]))
        } else {
            0u16
        })
    }
}

/// How many of the first `n` cells are pinned to a single candidate.
pub open spec fn singles_below(b: Seq<u16>, n: int) -> int
    decreases n,
{
    if n <= 0 {
        0
    } else {
        singles_below(b, n - 1) + (if popcnt(b[n - 1]) == 1 {
            1int
        } else {
            0int
        })
    }
}

/// The set of digits pinned among the first `n` cells, as a mask.
pub open spec fn singles_mask_below(b: Seq<u16>, n: int) -> u16
    decreases n,
{
    if n <= 0 {
        0u16
    } else {
        singles_mask_below(b, n - 1) | (if popcnt(b[n - 1]) == 1 {
            b[n - 1]
        } else {
            0u16
        })
    }
}

/// Relies on rand's `SliceRandom::shuffle`: a Fisher-Yates shuffle that
/// permutes the slice in place by swaps, so the contents are preserved as
/// a multiset.
#[verifier::external_body]
fn shuffle_cells(v: &mut Vec<u8>, rng: &mut ThreadRng)
    ensures
        final(v)@.to_multiset() == old(v)@.to_multiset(),
{
    v.shuffle(rng);
}

/// Relies on rand's `SliceRandom::choose`: `Some` of an element of the
/// slice, `None` exactly when the slice is empty.
#[verifier::external_body]
fn choose_one(v: &Vec<u8>, rng: &mut ThreadRng) -> (r: Option<u8>)
    ensures
        match r {
            Some(d) => v@.contains(d),
            None => v@.len() == 0,
        },
{
    v.choose(rng).copied()
}

/// A fixed fully solved grid, used only if every random attempt failed:
/// row `r` is the first row rotated left by three columns per row band
/// step, which satisfies every unit.
#[verifier::loop_isolation(false)]
fn fallback_grid() -> (out: String)
    ensures
        out@.len() == 81,
        forall|i: int| 0 <= i < 81 ==> puzzle_char(#[trigger] out@[i]),
        nonblank_below(out@, 81) == 81,
        popcnt(digits_mask_below(out@, 81)) == 9,
        forall|a: int, b: int|
            is_peer(a, b) && is_digit_char(#[trigger] out@[a]) ==> out@[a] != #[trigger] out@[b],
{
    let mut out = String::new();
    let mut i: usize = 0;
    while i < 81
        invariant
            i <= 81,
            out@.len() == i,
            forall|j: int| 0 <= j < i ==> puzzle_char(#[trigger] out@[j]),
            nonblank_below(out@, i as int) == i,
            mask_ok(digits_mask_below(out@, i as int)),
            forall|dd: u8|
                1 <= dd <= i && dd <= 9 ==> mem(digits_mask_below(out@, i as int), dd),
            forall|j: int| 0 <= j < i ==> char_digit(#[trigger] out@[j]) == shift_pattern(j),
        decreases 81 - i,
    {
        let r = i / 9;
        let c = i % 9;
        proof {
            lemma_mod_bound(i as int, 9);
            lemma_mod_bound((3 * (r as int) + (r as int) / 3 + (c as int)) as int, 9);
        }
        let d = (((3 * r + r / 3 + c) % 9) + 1) as u8;
        let ghost prev = out@;
        let lit = crate::solver::digit_literal(d);
        out.append(lit);
        proof {
            assert(out@ =~= prev.push(lit@[0]));
            assert(d == shift_pattern(i as int));
            let n1 = i as int + 1;
            assert(nonblank_below(out@, i as int) == nonblank_below(prev, i as int)) by {
                lemma_prefix_nonblank(out@, prev, i as int);
            }
            assert(digits_mask_below(out@, i as int) == digits_mask_below(prev, i as int)) by {
                lemma_prefix_digits_mask(out@, prev, i as int);
            }
            let m0 = digits_mask_below(out@, i as int);
            crate::masks::lemma_dmask(d);
            lemma_or_digit(m0, dmask(d), d);
            assert forall|dd: u8| 1 <= dd <= n1 && dd <= 9 implies mem(
                digits_mask_below(out@, n1),
                dd,
            ) by {
                lemma_or_digit(m0, dmask(d), dd);
                if dd == i + 1 && i < 9 {
                    lemma_fundamental_div_mod_converse(i as int, 9, 0, i as int);
                    assert(d == i + 1);
                    crate::masks::lemma_dmask(d);
                }
            }
        }
        i = i + 1;
    }
    proof {
        lemma_full_of_digits(digits_mask_below(out@, 81));
        assert forall|a: int, b: int|
            is_peer(a, b) && is_digit_char(#[trigger] out@[a]) implies out@[a]
            != #[trigger] out@[b] by {
            lemma_shift_pattern_distinct(a, b);
        }
    }
    out
}

/// Totals of given digits agree on agreeing prefixes.
proof fn lemma_prefix_nonblank(t1: Seq<char>, t2: Seq<char>, n: int)
    requires
        forall|j: int| 0 <= j < n ==> t1[j] == t2[j],
    ensures
        nonblank_below(t1, n) == nonblank_below(t2, n),
    decreases n,
{
    if n > 0 {
        lemma_prefix_nonblank(t1, t2, n - 1);
    }
}

/// Digit masks agree on agreeing prefixes.
proof fn lemma_prefix_digits_mask(t1: Seq<char>, t2: Seq<char>, n: int)
    requires
        forall|j: int| 0 <= j < n ==> t1[j] == t2[j],
    ensures
        digits_mask_below(t1, n) == digits_mask_below(t2, n),
    decreases n,
{
    if n > 0 {
        lemma_prefix_digits_mask(t1, t2, n - 1);
    }
}

impl Sudoku {
    /// One attempt: assign a random candidate to each cell in a random
    /// order, stopping early on a contradiction, and return the grid once
    /// at least `n` cells are pinned covering at least eight distinct
    /// digits.
    #[verifier::loop_isolation(false)]
    #[verifier::rlimit(60)]
    fn try_puzzle(&self, n: usize, rng: &mut ThreadRng) -> (r: Option<String>)
        requires
            self.wf(),
        ensures
            match r {
                Some(s) => {
                    &&& s@.len() == 81
                    &&& forall|i: int| 0 <= i < 81 ==> puzzle_char(#[trigger] s@[i])
                    &&& nonblank_below(s@, 81) >= n
                    &&& popcnt(digits_mask_below(s@, 81)) >= 8
                    &&& forall|a: int, b: int|
                        is_peer(a, b) && is_digit_char(#[trigger] s@[a]) ==> s@[a]
                            != #[trigger] s@[b]
                },
                None => true,
            },
    {
        let mut b = Board::full();
        let mut order: Vec<u8> = Vec::new();
        let mut i: usize = 0;
        while i < 81
            invariant
                i <= 81,
                order@.len() == i,
                forall|j: int| 0 <= j < i ==> #[trigger] order@[j] < 81,
            decreases 81 - i,
        {
            order.push(self.squares[i]);
            i = i + 1;
        }
        let ghost before = order@;
        shuffle_cells(&mut order, rng);
        proof {
            assert(order@.to_multiset().len() == before.to_multiset().len());
            assert(order@.len() == before.len());
            assert forall|j: int| 0 <= j < order@.len() implies #[trigger] order@[j] < 81 by {
                assert(order@.contains(order@[j]));
                assert(order@.to_multiset().count(order@[j]) > 0);
                assert(before.contains(order@[j]));
                let w = choose|w: int| 0 <= w < before.len() && before[w] == order@[j];
                assert(before[w] < 81);
            }
        }
        let mut idx: usize = 0;
        while idx < 81
            invariant
                idx <= 81,
                order@.len() == 81,
                forall|j: int| 0 <= j < 81 ==> #[trigger] order@[j] < 81,
                b.wf(),
                all_nonempty(b@),
            decreases 81 - idx,
        {
            let s = order[idx] as usize;
            let m = b.get(s);
            let digits = mask_digits(m);
            proof {
                lemma_popcnt_bounds(m);
            }
            let d = match choose_one(&digits, rng) {
                Some(d) => d,
                None => {
                    return None;
                },
            };
            proof {
                let j = choose|j: int| 0 <= j < digits@.len() && digits@[j] == d;
                assert(mem(m, d));
            }
            let ghost bp = b@;
            let ok = self.assign(&mut b, s, d);
            if !ok {
                return None;
            }
            proof {
                assert forall|q: int| 0 <= q < 81 implies #[trigger] b@[q] != 0 by {
                    assert(bp[q] != 0);
                }
            }
            // Count the pinned cells and the distinct digits they cover.
            let mut singles: usize = 0;
            let mut seen: u16 = 0;
            let mut c: usize = 0;
            while c < 81
                invariant
                    c <= 81,
                    singles <= c,
                    mask_ok(seen),
                    singles == singles_below(b@, c as int),
                    seen == singles_mask_below(b@, c as int),
                decreases 81 - c,
            {
                let m2 = b.get(c);
                if mask_count(m2) == 1 {
                    singles = singles + 1;
                    proof {
                        lemma_or_digit(seen, m2, 1u8);
                    }
                    seen = seen | m2;
                } else {
                    proof {
                        crate::masks::lemma_or_zero(seen);
                    }
                }
                c = c + 1;
            }
            if singles >= n && mask_count(seen) >= 8 {
                // Defensive sweep: two peers pinned to one digit would
                // make the grid inconsistent. Assignments cannot leave
                // the board this way, so the sweep never fires, but it
                // carries the proof that the output's units are clean.
                let mut a: usize = 0;
                while a < 81
                    invariant
                        a <= 81,
                        b.wf(),
                        forall|x: int, p: int|
                            0 <= x < a && is_peer(p, x) && popcnt(#[trigger] b@[x]) == 1 && popcnt(
                                #[trigger] b@[p],
                            ) == 1 ==> b@[x] != b@[p],
                    decreases 81 - a,
                {
                    let ma = b.get(a);
                    if mask_count(ma) == 1 {
                        let ghost pv = self.peers@[a as int]@;
                        let mut j: usize = 0;
                        while j < 20
                            invariant
                                j <= 20,
                                a < 81,
                                b.wf(),
                                ma == b@[a as int],
                                popcnt(b@[a as int]) == 1,
                                pv == self.peers@[a as int]@,
                                forall|jj: int|
                                    0 <= jj < j && popcnt(#[trigger] b@[pv[jj] as int]) == 1 ==> b@[
                                        pv[jj] as int
                                    ] != b@[a as int],
                            decreases 20 - j,
                        {
                            let p = self.peers[a][j] as usize;
                            proof {
                                assert(is_peer(p as int, a as int));
                            }
                            let mp = b.get(p);
                            if mask_count(mp) == 1 && mp == ma {
                                return None;
                            }
                            j = j + 1;
                        }
                        proof {
                            assert forall|p: int|
                                is_peer(p, a as int) && popcnt(#[trigger] b@[p]) == 1 implies b@[p]
                                != b@[a as int] by {
                                assert(self.peers@[a as int]@.contains(p as u8));
                                let jj = choose|jj: int|
                                    0 <= jj < pv.len() && pv[jj] == p as u8;
                                assert(b@[pv[jj] as int] != b@[a as int]);
                            }
                        }
                    }
                    a = a + 1;
                }
                // Write the pinned cells out as digits, the rest blank.
                let mut out = String::new();
                let mut c2: usize = 0;
                while c2 < 81
                    invariant
                        c2 <= 81,
                        b.wf(),
                        all_nonempty(b@),
                        out@.len() == c2,
                        forall|j: int| 0 <= j < c2 ==> puzzle_char(#[trigger] out@[j]),
                        forall|j: int|
                            0 <= j < c2 ==> (is_digit_char(#[trigger] out@[j]) <==> popcnt(b@[j])
                                == 1),
                        forall|j: int|
                            0 <= j < c2 && is_digit_char(#[trigger] out@[j]) ==> dmask(
                                char_digit(out@[j]),
                            ) == b@[j],
                        nonblank_below(out@, c2 as int) == singles_below(b@, c2 as int),
                        digits_mask_below(out@, c2 as int) == singles_mask_below(b@, c2 as int),
                    decreases 81 - c2,
                {
                    let m2 = b.get(c2);
                    let ghost prev = out@;
                    if mask_count(m2) == 1 {
                        let dg = crate::masks::lowest_digit(m2);
                        let lit = crate::solver::digit_literal(dg);
                        out.append(lit);
                        proof {
                            assert(out@ =~= prev.push(lit@[0]));
                            lemma_singleton(m2, dg);
                            assert(dmask(char_digit(out@[c2 as int])) == m2);
                        }
                    } else {
                        proof {
                            reveal_strlit(".");
                        }
                        out.append(".");
                        proof {
                            assert(out@ =~= prev.push('.'));
                            crate::masks::lemma_or_zero(digits_mask_below(prev, c2 as int));
                            crate::masks::lemma_or_zero(singles_mask_below(b@, c2 as int));
                        }
                    }
                    proof {
                        lemma_prefix_nonblank(out@, prev, c2 as int);
                        lemma_prefix_digits_mask(out@, prev, c2 as int);
                    }
                    c2 = c2 + 1;
                }
                proof {
                    assert forall|x: int, y: int|
                        is_peer(x, y) && is_digit_char(#[trigger] out@[x]) implies out@[x]
                        != #[trigger] out@[y] by {
                        if out@[x] == out@[y] {
                            assert(is_digit_char(out@[y]));
                            assert(b@[x] == b@[y]);
                            assert(is_peer(y, x));
                        }
                    }
                }
                return Some(out);
            }
            idx = idx + 1;
        }
        None
    }

    /// Make a random puzzle with `n` or more pinned cells covering at
    /// least eight distinct digits, restarting whenever an attempt runs
    /// into a contradiction or pins too few cells. No unit of the result
    /// names one digit twice, since every given comes from a successful
    /// `assign`. The puzzle is not guaranteed to be solvable, though in
    /// practice almost all are. After a large bounded number of restarts
    /// it falls back to a fixed fully solved grid, which satisfies the
    /// same bounds.
    #[verifier::loop_isolation(false)]
    pub fn random_puzzle(&self, n: usize, rng: &mut ThreadRng) -> (out: String)
        requires
            self.wf(),
        ensures
            out@.len() == 81,
            forall|i: int| 0 <= i < 81 ==> puzzle_char(#[trigger] out@[i]),
            nonblank_below(out@, 81) >= if n <= 81 {
                n as int
            } else {
                81int
            },
            popcnt(digits_mask_below(out@, 81)) >= 8,
            forall|a: int, b: int|
                is_peer(a, b) && is_digit_char(#[trigger] out@[a]) ==> out@[a] != #[trigger] out@[b],
    {
        let mut attempt: usize = 0;
        while attempt < 100000
            decreases 100000 - attempt,
        {
            match self.try_puzzle(n, rng) {
                Some(s) => {
                    return s;
                },
                None => {},
            }
            attempt = attempt + 1;
        }
        fallback_grid()
    }
}

} // verus!
