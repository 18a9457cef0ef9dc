//! The board of candidate sets, and the outcomes a solve can have.

use vstd::prelude::*;

use crate::cells::{
    is_peer, lemma_shift_pattern_distinct, lemma_shift_pattern_range, lemma_unit_cell_fields,
    lemma_unit_cells_related, shift_pattern, unit_cell, unit_ok,
};
use crate::masks::{
    digit_ok, dmask, lemma_and_comm, lemma_and_mem, lemma_dmask, lemma_dmask_disjoint,
    lemma_dmask_other, lemma_empty_mem, lemma_full_mask, lemma_full_of_digits, lemma_or_digit,
    lemma_or_popcnt, lemma_popcnt_bounds, lemma_popcnt_full, lemma_shared_digit, lemma_sub_popcnt,
    lemma_sub_refl, lemma_sub_trans, mask_ok, mask_sub, mem, popcnt, some_digit, ALL_DIGITS,
};

verus! {

/// Why a solve failed.
#[derive(Debug, Clone, Copy, PartialEq, Eq, Structural)]
pub enum PuzzleError {
    /// The input did not scan as exactly 81 grid characters.
    InvalidGrid,
    /// Propagation or search proved that no completion exists.
    Contradiction,
    /// Search returned a fully determined board that failed the final
    /// unit-permutation check.
    Unsolved,
}

impl PuzzleError {
    /// A short description of the failure, for callers that report it.
    pub fn message(&self) -> (r: &'static str)
        ensures
            *self is InvalidGrid ==> r@ == "Invalid Grid.  Provide a string of 81 digits with 0 or . for empties."@,
            *self is Contradiction ==> r@ == "A contradiction occured. The puzzle is unsolvable."@,
            *self is Unsolved ==> r@ == "The puzzle is unsolvable."@,
    {
        match *self {
            PuzzleError::InvalidGrid => "Invalid Grid.  Provide a string of 81 digits with 0 or . for empties.",
            PuzzleError::Contradiction => "A contradiction occured. The puzzle is unsolvable.",
            PuzzleError::Unsolved => "The puzzle is unsolvable.",
        }
    }
}

/// A well-formed board: 81 cells, each a 9-bit candidate set.
pub open spec fn board_ok(b: Seq<u16>) -> bool {
    b.len() == 81 && forall|c: int| 0 <= c < 81 ==> mask_ok(#[trigger] b[c])
}

/// Every candidate set of `b2` is included in its counterpart of `b1`.
pub open spec fn board_sub(b2: Seq<u16>, b1: Seq<u16>) -> bool {
    b2.len() == 81 && b1.len() == 81 && forall|c: int|
        0 <= c < 81 ==> mask_sub(#[trigger] b2[c], #[trigger] b1[c])
}

/// No cell that had a candidate left has lost them all.
pub open spec fn nonempty_kept(b1: Seq<u16>, b2: Seq<u16>) -> bool {
    forall|c: int| 0 <= c < 81 && #[trigger] b1[c] != 0 ==> #[trigger] b2[c] != 0
}

/// Every cell still has a candidate.
pub open spec fn all_nonempty(b: Seq<u16>) -> bool {
    forall|c: int| 0 <= c < 81 ==> #[trigger] b[c] != 0
}

/// The total number of candidates over the cells 0 to `n - 1`.
pub open spec fn total_upto(b: Seq<u16>, n: int) -> int
    decreases n,
{
    if n <= 0 {
        0
    } else {
        total_upto(b, n - 1) + popcnt(b[n - 1])
    }
}

/// The total number of candidates on the board; propagation strictly
/// shrinks it, which is what bounds the mutual recursion.
pub open spec fn total(b: Seq<u16>) -> int {
    total_upto(b, 81)
}

/// Unit `u` has a cell carrying digit `d` under the assignment `sol`.
pub open spec fn unit_has_digit(sol: Seq<u8>, u: int, d: u8) -> bool {
    exists|k: int| 0 <= k < 9 && #[trigger] sol[unit_cell(u, k)] == d
}

/// A complete assignment of digits to cells in which every unit holds
/// every digit exactly once.
pub open spec fn sol_valid(sol: Seq<u8>) -> bool {
    &&& sol.len() == 81
    &&& forall|c: int| 0 <= c < 81 ==> digit_ok(#[trigger] sol[c])
    &&& forall|a: int, b: int| is_peer(a, b) ==> #[trigger] sol[a] != #[trigger] sol[b]
    &&& forall|u: int, d: u8| unit_ok(u) && digit_ok(d) ==> #[trigger] unit_has_digit(sol, u, d)
}

/// Some cell among the first `k` of unit `u` still lists digit `d`.
pub open spec fn unit_digit_below(b: Seq<u16>, u: int, d: u8, k: int) -> bool {
    exists|kk: int| 0 <= kk < k && mem(#[trigger] b[unit_cell(u, kk)], d)
}

/// Some cell of unit `u` still lists digit `d`.
pub open spec fn unit_mask_has(b: Seq<u16>, u: int, d: u8) -> bool {
    unit_digit_below(b, u, d, 9)
}

/// A solved board: every cell pinned to a single digit, and every unit a
/// permutation of the nine digits — its cells pairwise disjoint and no
/// digit missing.
pub open spec fn is_solved(b: Seq<u16>) -> bool {
    &&& board_ok(b)
    &&& forall|c: int| 0 <= c < 81 ==> popcnt(#[trigger] b[c]) == 1
    &&& forall|u: int, k1: int, k2: int|
        unit_ok(u) && 0 <= k1 < 9 && 0 <= k2 < 9 && k1 != k2 ==> #[trigger] b[unit_cell(u, k1)]
            & #[trigger] b[unit_cell(u, k2)] == 0
    &&& forall|u: int, d: u8| unit_ok(u) && digit_ok(d) ==> #[trigger] unit_mask_has(b, u, d)
}

/// Every place a digit had in a unit of `b1` survives into `b2`: the
/// hidden-single rule's supply of places never runs dry silently.
pub open spec fn places_kept(b1: Seq<u16>, b2: Seq<u16>) -> bool {
    forall|u: int, d: u8|
        unit_ok(u) && digit_ok(d) && #[trigger] unit_mask_has(b1, u, d) ==> #[trigger] unit_mask_has(
            b2,
            u,
            d,
        )
}

/// Every digit still has a place in every unit.
pub open spec fn all_places(b: Seq<u16>) -> bool {
    forall|u: int, d: u8| unit_ok(u) && digit_ok(d) ==> #[trigger] unit_mask_has(b, u, d)
}

/// Place preservation composes.
pub proof fn lemma_places_kept_trans(a: Seq<u16>, b: Seq<u16>, c: Seq<u16>)
    requires
        places_kept(a, b),
        places_kept(b, c),
    ensures
        places_kept(a, c),
{
    assert forall|u: int, d: u8|
        unit_ok(u) && digit_ok(d) && #[trigger] unit_mask_has(a, u, d) implies #[trigger] unit_mask_has(
        c,
        u,
        d,
    ) by {
        assert(unit_mask_has(b, u, d));
    }
}

/// The union of the candidate sets of the first `k` cells of unit `u`.
pub open spec fn unit_or_below(b: Seq<u16>, u: int, k: int) -> u16
    decreases k,
{
    if k <= 0 {
        0u16
    } else {
        unit_or_below(b, u, k - 1) | b[unit_cell(u, k - 1)]
    }
}

/// A digit of any of the first `k` cells of a unit is in their union.
proof fn lemma_unit_or_mem(b: Seq<u16>, u: int, k: int, kk: int, d: u8)
    requires
        board_ok(b),
        unit_ok(u),
        0 <= kk < k <= 9,
        mem(b[unit_cell(u, kk)], d),
    ensures
        mask_ok(unit_or_below(b, u, k)),
        mem(unit_or_below(b, u, k), d),
    decreases k,
{
    lemma_unit_cell_fields(u, k - 1);
    if k - 1 > kk {
        lemma_unit_or_mem(b, u, k - 1, kk, d);
        lemma_or_digit(unit_or_below(b, u, k - 1), b[unit_cell(u, k - 1)], d);
    } else {
        lemma_unit_or_ok(b, u, k - 1);
        lemma_or_digit(unit_or_below(b, u, k - 1), b[unit_cell(u, k - 1)], d);
    }
}

/// The running union is a well-formed candidate set.
proof fn lemma_unit_or_ok(b: Seq<u16>, u: int, k: int)
    requires
        board_ok(b),
        unit_ok(u),
        k <= 9,
    ensures
        mask_ok(unit_or_below(b, u, k)),
    decreases k,
{
    if k > 0 {
        lemma_unit_or_ok(b, u, k - 1);
        lemma_unit_cell_fields(u, k - 1);
        lemma_or_digit(unit_or_below(b, u, k - 1), b[unit_cell(u, k - 1)], 1u8);
    }
}

/// Over singleton cells the union of the first `k` cells has at most `k`
/// digits, and strictly fewer once two of them share their digit.
proof fn lemma_unit_or_card(b: Seq<u16>, u: int, k: int, k1: int, k2: int)
    requires
        board_ok(b),
        unit_ok(u),
        0 <= k <= 9,
        forall|kk: int| 0 <= kk < 9 ==> popcnt(#[trigger] b[unit_cell(u, kk)]) == 1,
        0 <= k1 < k2 < 9,
        b[unit_cell(u, k1)] & b[unit_cell(u, k2)] != 0,
    ensures
        popcnt(unit_or_below(b, u, k)) <= k - (if k > k2 {
            1int
        } else {
            0int
        }),
    decreases k,
{
    if k > 0 {
        lemma_unit_or_card(b, u, k - 1, k1, k2);
        lemma_unit_cell_fields(u, k - 1);
        lemma_unit_or_ok(b, u, k - 1);
        let acc = unit_or_below(b, u, k - 1);
        let m = b[unit_cell(u, k - 1)];
        lemma_or_popcnt(acc, m);
        lemma_and_mem(acc, m, 1u8);
        lemma_popcnt_bounds(acc);
        lemma_popcnt_bounds(m);
        lemma_popcnt_bounds(acc & m);
        if k - 1 == k2 {
            // The digit shared with slot k1 is already in the union, so
            // this step adds strictly fewer than popcnt(m) digits.
            lemma_unit_cell_fields(u, k1);
            lemma_and_mem(b[unit_cell(u, k1)], m, 1u8);
            let shared = some_digit(b[unit_cell(u, k1)] & m);
            lemma_and_mem(b[unit_cell(u, k1)], m, shared);
            lemma_unit_or_mem(b, u, k - 1, k1, shared);
            lemma_shared_digit(acc, m, shared);
            assert(acc & m != 0);
        }
    } else {
        lemma_popcnt_bounds(0u16);
    }
}

/// A digit of the union of the first `k` cells of a unit comes from one
/// of them.
proof fn lemma_unit_or_mem_rev(b: Seq<u16>, u: int, k: int, d: u8)
    requires
        board_ok(b),
        unit_ok(u),
        0 <= k <= 9,
        mem(unit_or_below(b, u, k), d),
    ensures
        exists|kk: int| 0 <= kk < k && mem(#[trigger] b[unit_cell(u, kk)], d),
    decreases k,
{
    if k <= 0 {
        lemma_empty_mem(d);
    } else {
        lemma_unit_or_ok(b, u, k - 1);
        lemma_unit_cell_fields(u, k - 1);
        lemma_or_digit(unit_or_below(b, u, k - 1), b[unit_cell(u, k - 1)], d);
        if !mem(b[unit_cell(u, k - 1)], d) {
            lemma_unit_or_mem_rev(b, u, k - 1, d);
        }
    }
}

/// Over pairwise-disjoint singleton cells the union of the first `k`
/// cells of a unit has exactly `k` digits.
proof fn lemma_unit_or_disjoint(b: Seq<u16>, u: int, k: int)
    requires
        board_ok(b),
        unit_ok(u),
        0 <= k <= 9,
        forall|kk: int| 0 <= kk < 9 ==> popcnt(#[trigger] b[unit_cell(u, kk)]) == 1,
        forall|k1: int, k2: int|
            0 <= k1 < 9 && 0 <= k2 < 9 && k1 != k2 ==> #[trigger] b[unit_cell(u, k1)]
                & #[trigger] b[unit_cell(u, k2)] == 0,
    ensures
        popcnt(unit_or_below(b, u, k)) == k,
    decreases k,
{
    if k == 0 {
        lemma_popcnt_bounds(0u16);
    } else {
        lemma_unit_or_disjoint(b, u, k - 1);
        lemma_unit_or_ok(b, u, k - 1);
        lemma_unit_cell_fields(u, k - 1);
        let acc = unit_or_below(b, u, k - 1);
        let m = b[unit_cell(u, k - 1)];
        lemma_or_popcnt(acc, m);
        lemma_and_mem(acc, m, 1u8);
        if acc & m != 0 {
            let shared = some_digit(acc & m);
            lemma_and_mem(acc, m, shared);
            lemma_unit_or_mem_rev(b, u, k - 1, shared);
            let kk = choose|kk: int| 0 <= kk < k - 1 && mem(#[trigger] b[unit_cell(u, kk)], shared);
            lemma_shared_digit(b[unit_cell(u, kk)], m, shared);
        }
        lemma_popcnt_bounds(acc & m);
    }
}

/// Nine pairwise-distinct digits over the nine cells of every unit make
/// a valid solution: with no digit repeated, none can be missing either.
pub proof fn lemma_pinned_distinct_valid(sol: Seq<u8>)
    requires
        sol.len() == 81,
        forall|c: int| 0 <= c < 81 ==> digit_ok(#[trigger] sol[c]),
        forall|a: int, b: int| is_peer(a, b) ==> #[trigger] sol[a] != #[trigger] sol[b],
    ensures
        sol_valid(sol),
{
    let bb = Seq::new(81, |c: int| dmask(sol[c]));
    assert forall|c: int| 0 <= c < 81 implies mask_ok(#[trigger] bb[c]) by {
        lemma_dmask(sol[c]);
    }
    assert forall|u: int, d: u8| unit_ok(u) && digit_ok(d) implies #[trigger] unit_has_digit(
        sol,
        u,
        d,
    ) by {
        assert forall|kk: int| 0 <= kk < 9 implies popcnt(#[trigger] bb[unit_cell(u, kk)])
            == 1 by {
            lemma_unit_cell_fields(u, kk);
            lemma_dmask(sol[unit_cell(u, kk)]);
        }
        assert forall|k1: int, k2: int|
            0 <= k1 < 9 && 0 <= k2 < 9 && k1 != k2 implies #[trigger] bb[unit_cell(u, k1)]
            & #[trigger] bb[unit_cell(u, k2)] == 0 by {
            lemma_unit_cells_related(u, k1, k2);
            lemma_unit_cell_fields(u, k1);
            lemma_unit_cell_fields(u, k2);
            lemma_dmask_disjoint(sol[unit_cell(u, k1)], sol[unit_cell(u, k2)]);
        }
        lemma_unit_or_disjoint(bb, u, 9);
        lemma_unit_or_ok(bb, u, 9);
        lemma_popcnt_full(unit_or_below(bb, u, 9));
        lemma_full_mask(d);
        lemma_unit_or_mem_rev(bb, u, 9, d);
        let kk = choose|kk: int| 0 <= kk < 9 && mem(#[trigger] bb[unit_cell(u, kk)], d);
        if sol[unit_cell(u, kk)] != d {
            lemma_dmask_other(sol[unit_cell(u, kk)], d);
        }
        assert(sol[unit_cell(u, kk)] == d);
    }
}

/// Some valid completed grid exists: the shifted-rows pattern is one.
pub proof fn lemma_complete_grid_exists()
    ensures
        exists|sol: Seq<u8>| #[trigger] sol_valid(sol),
{
    let sol = Seq::new(81, |c: int| shift_pattern(c) as u8);
    assert forall|c: int| 0 <= c < 81 implies digit_ok(#[trigger] sol[c]) by {
        lemma_shift_pattern_range(c);
    }
    assert forall|a: int, b: int| is_peer(a, b) implies #[trigger] sol[a] != #[trigger] sol[b] by {
        lemma_shift_pattern_range(a);
        lemma_shift_pattern_range(b);
        lemma_shift_pattern_distinct(a, b);
    }
    lemma_pinned_distinct_valid(sol);
    assert(sol_valid(sol));
}

/// A fully pinned board in which every digit keeps a place in every unit
/// is solved: with nine singleton cells covering all nine digits, no two
/// cells of a unit can share their digit.
pub proof fn lemma_pinned_places_solved(b: Seq<u16>)
    requires
        board_ok(b),
        forall|c: int| 0 <= c < 81 ==> popcnt(#[trigger] b[c]) == 1,
        all_places(b),
    ensures
        is_solved(b),
{
    assert forall|u: int, k1: int, k2: int|
        unit_ok(u) && 0 <= k1 < 9 && 0 <= k2 < 9 && k1 != k2 implies #[trigger] b[unit_cell(u, k1)]
        & #[trigger] b[unit_cell(u, k2)] == 0 by {
        let (a, z) = if k1 < k2 {
            (k1, k2)
        } else {
            (k2, k1)
        };
        lemma_and_comm(b[unit_cell(u, k1)], b[unit_cell(u, k2)]);
        if b[unit_cell(u, a)] & b[unit_cell(u, z)] != 0 {
            assert forall|kk: int| 0 <= kk < 9 implies popcnt(#[trigger] b[unit_cell(u, kk)])
                == 1 by {
                lemma_unit_cell_fields(u, kk);
            }
            lemma_unit_or_card(b, u, 9, a, z);
            assert(popcnt(unit_or_below(b, u, 9)) <= 8);
            let whole = unit_or_below(b, u, 9);
            assert forall|d: u8| digit_ok(d) implies #[trigger] mem(whole, d) by {
                assert(unit_mask_has(b, u, d));
                let kk = choose|kk: int| 0 <= kk < 9 && mem(#[trigger] b[unit_cell(u, kk)], d);
                lemma_unit_or_mem(b, u, 9, kk, d);
            }
            lemma_unit_or_ok(b, u, 9);
            assert(digit_ok(1u8) && mem(whole, 1u8));
            assert(digit_ok(2u8) && mem(whole, 2u8));
            assert(digit_ok(3u8) && mem(whole, 3u8));
            assert(digit_ok(4u8) && mem(whole, 4u8));
            assert(digit_ok(5u8) && mem(whole, 5u8));
            assert(digit_ok(6u8) && mem(whole, 6u8));
            assert(digit_ok(7u8) && mem(whole, 7u8));
            assert(digit_ok(8u8) && mem(whole, 8u8));
            assert(digit_ok(9u8) && mem(whole, 9u8));
            lemma_full_of_digits(whole);
        }
    }
}

/// Every cell of the board still lists the solution's digit.
pub open spec fn consistent(sol: Seq<u8>, b: Seq<u16>) -> bool {
    forall|c: int| 0 <= c < 81 ==> mem(#[trigger] b[c], sol[c])
}

/// The board admits the solution: a valid completed grid that every
/// remaining candidate set still allows.
pub open spec fn admits(b: Seq<u16>, sol: Seq<u8>) -> bool {
    sol_valid(sol) && consistent(sol, b)
}

/// Totals over a prefix agree wherever the boards do.
proof fn lemma_total_congruent(b1: Seq<u16>, b2: Seq<u16>, n: int)
    requires
        forall|c: int| 0 <= c < n ==> #[trigger] b1[c] == b2[c],
    ensures
        total_upto(b1, n) == total_upto(b2, n),
    decreases n,
{
    if n > 0 {
        lemma_total_congruent(b1, b2, n - 1);
    }
}

/// Changing one cell changes the total by the change at that cell.
pub proof fn lemma_total_update(b: Seq<u16>, c: int, m: u16)
    requires
        0 <= c < 81,
        b.len() == 81,
    ensures
        total(b.update(c, m)) == total(b) - popcnt(b[c]) + popcnt(m),
{
    lemma_total_update_upto(b, c, m, 81);
}

proof fn lemma_total_update_upto(b: Seq<u16>, c: int, m: u16, n: int)
    requires
        0 <= c < n,
        n <= b.len(),
    ensures
        total_upto(b.update(c, m), n) == total_upto(b, n) - popcnt(b[c]) + popcnt(m),
    decreases n,
{
    if c == n - 1 {
        lemma_total_congruent(b.update(c, m), b, n - 1);
    } else {
        lemma_total_update_upto(b, c, m, n - 1);
    }
}

/// A candidate-wise subset board has no larger a total, and a strictly
/// smaller one if some cell strictly shrank.
pub proof fn lemma_total_sub(b2: Seq<u16>, b1: Seq<u16>)
    requires
        board_ok(b2),
        board_ok(b1),
        board_sub(b2, b1),
    ensures
        total(b2) <= total(b1),
        (exists|c: int| 0 <= c < 81 && #[trigger] b2[c] != b1[c]) ==> total(b2) < total(b1),
{
    if exists|c: int| 0 <= c < 81 && #[trigger] b2[c] != b1[c] {
        let w = choose|c: int| 0 <= c < 81 && #[trigger] b2[c] != b1[c];
        lemma_total_sub_upto(b2, b1, 81, w);
    } else {
        lemma_total_sub_upto(b2, b1, 81, -1);
    }
}

proof fn lemma_total_sub_upto(b2: Seq<u16>, b1: Seq<u16>, n: int, w: int)
    requires
        board_ok(b2),
        board_ok(b1),
        board_sub(b2, b1),
        n <= 81,
        w < 81,
        w >= 0 ==> b2[w] != b1[w],
    ensures
        total_upto(b2, n) <= total_upto(b1, n),
        0 <= w < n ==> total_upto(b2, n) < total_upto(b1, n),
    decreases n,
{
    if n > 0 {
        lemma_total_sub_upto(b2, b1, n - 1, w);
        lemma_sub_popcnt(b2[n - 1], b1[n - 1]);
    }
}

/// Totals lie between 0 and 729.
pub proof fn lemma_total_bounds(b: Seq<u16>)
    requires
        board_ok(b),
    ensures
        0 <= total(b) <= 729,
{
    lemma_total_bounds_upto(b, 81);
}

proof fn lemma_total_bounds_upto(b: Seq<u16>, n: int)
    requires
        board_ok(b),
        0 <= n <= 81,
    ensures
        total_upto(b, n) <= 9 * n,
        0 <= total_upto(b, n),
    decreases n,
{
    if n > 0 {
        lemma_total_bounds_upto(b, n - 1);
        lemma_popcnt_bounds(b[n - 1]);
    }
}

/// Board inclusion is reflexive.
pub proof fn lemma_board_sub_refl(b: Seq<u16>)
    requires
        b.len() == 81,
    ensures
        board_sub(b, b),
{
    assert forall|c: int| 0 <= c < 81 implies mask_sub(#[trigger] b[c], #[trigger] b[c]) by {
        lemma_sub_refl(b[c]);
    }
}

/// Board inclusion is transitive.
pub proof fn lemma_board_sub_trans(a: Seq<u16>, b: Seq<u16>, c: Seq<u16>)
    requires
        board_sub(a, b),
        board_sub(b, c),
    ensures
        board_sub(a, c),
{
    assert forall|i: int| 0 <= i < 81 implies mask_sub(#[trigger] a[i], #[trigger] c[i]) by {
        lemma_sub_trans(a[i], b[i], c[i]);
    }
}

/// The board with every digit open everywhere admits every valid
/// solution.
pub proof fn lemma_full_board_admits(b: Seq<u16>, sol: Seq<u8>)
    requires
        b.len() == 81,
        forall|c: int| 0 <= c < 81 ==> #[trigger] b[c] == ALL_DIGITS,
        sol_valid(sol),
    ensures
        admits(b, sol),
{
    assert forall|c: int| 0 <= c < 81 implies mem(#[trigger] b[c], sol[c]) by {
        lemma_full_mask(sol[c]);
    }
}

/// The board of candidate sets. Each search branch owns its own copy;
/// nothing is shared mutably between branches.
pub struct Board {
    cells: Vec<u16>,
}

impl View for Board {
    type V = Seq<u16>;

    closed spec fn view(&self) -> Seq<u16> {
        self.cells@
    }
}

impl Board {
    /// The board is well-formed.
    pub open spec fn wf(&self) -> bool {
        board_ok(self@)
    }

    /// The board with all nine digits open in every cell.
    pub fn full() -> (b: Board)
        ensures
            b.wf(),
            forall|c: int| 0 <= c < 81 ==> #[trigger] b@[c] == ALL_DIGITS,
    {
        let mut cells: Vec<u16> = Vec::new();
        let mut i: usize = 0;
        while i < 81
            invariant
                i <= 81,
                cells@.len() == i,
                forall|c: int| 0 <= c < i ==> #[trigger] cells@[c] == ALL_DIGITS,
            decreases 81 - i,
        {
            cells.push(ALL_DIGITS);
            i = i + 1;
        }
        proof {
            assert forall|c: int| 0 <= c < 81 implies mask_ok(#[trigger] cells@[c]) by {}
        }
        Board { cells }
    }

    /// The candidate set of one cell.
    pub fn get(&self, c: usize) -> (m: u16)
        requires
            self.wf(),
            c < 81,
        ensures
            m == self@[c as int],
    {
        self.cells[c]
    }

    /// Replace the candidate set of one cell.
    pub fn set(&mut self, c: usize, m: u16)
        requires
            old(self).wf(),
            c < 81,
            mask_ok(m),
        ensures
            final(self).wf(),
            final(self)@ == old(self)@.update(c as int, m),
    {
        self.cells.set(c, m);
    }

    /// An independent copy, for search to branch on.
    pub fn duplicate(&self) -> (b: Board)
        requires
            self.wf(),
        ensures
            b@ == self@,
    {
        let mut cells: Vec<u16> = Vec::new();
        let mut i: usize = 0;
        while i < 81
            invariant
                self.wf(),
                i <= 81,
                cells@.len() == i,
                forall|c: int| 0 <= c < i ==> #[trigger] cells@[c] == self@[c],
            decreases 81 - i,
        {
            cells.push(self.cells[i]);
            i = i + 1;
        }
        let b = Board { cells };
        proof {
            assert(b@ =~= self@);
        }
        b
    }
}

} // verus!
