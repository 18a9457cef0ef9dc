//! Cells, units and peers of the 9x9 grid, as pure arithmetic.
//!
//! A cell is an index from 0 to 80 in row-major order. The 27 units are
//! numbered with the nine columns first, then the nine rows, then the nine
//! boxes, matching the order in which the topology builder lays them out.

use vstd::prelude::*;
use vstd::arithmetic::div_mod::{
    lemma_div_denominator, lemma_fundamental_div_mod, lemma_fundamental_div_mod_converse,
    lemma_mod_bound, lemma_mod_multiples_vanish,
};

verus! {

/// Cell indices run from 0 to 80.
pub open spec fn cell_ok(c: int) -> bool {
    0 <= c < 81
}

/// The row (0 to 8) holding cell `c`.
pub open spec fn row_of(c: int) -> int {
    c / 9
}

/// The column (0 to 8) holding cell `c`.
pub open spec fn col_of(c: int) -> int {
    c % 9
}

/// The 3x3 box (0 to 8, in row-major band/stack order) holding cell `c`.
pub open spec fn block_of(c: int) -> int {
    (c / 27) * 3 + (c % 9) / 3
}

/// Unit indices run from 0 to 26: columns, then rows, then boxes.
pub open spec fn unit_ok(u: int) -> bool {
    0 <= u < 27
}

/// The `k`-th cell (0 to 8) of unit `u`.
pub open spec fn unit_cell(u: int, k: int) -> int {
    if u < 9 {
        k * 9 + u
    } else if u < 18 {
        (u - 9) * 9 + k
    } else {
        ((u - 18) / 3 * 3 + k / 3) * 9 + ((u - 18) % 3 * 3 + k % 3)
    }
}

/// The `t`-th (0 to 2) unit holding cell `c`: its column, row and box
/// units, in that order.
pub open spec fn cell_unit(c: int, t: int) -> int {
    if t == 0 {
        col_of(c)
    } else if t == 1 {
        9 + row_of(c)
    } else {
        18 + block_of(c)
    }
}

/// Two cells share a row, a column or a box.
pub open spec fn same_unit(a: int, b: int) -> bool {
    row_of(a) == row_of(b) || col_of(a) == col_of(b) || block_of(a) == block_of(b)
}

/// `p` is a peer of `c`: a different cell sharing some unit with it.
pub open spec fn is_peer(p: int, c: int) -> bool {
    cell_ok(p) && cell_ok(c) && p != c && same_unit(p, c)
}

/// How many of the cells 0 to `n - 1` are peers of `c`.
pub open spec fn num_peers_below(c: int, n: int) -> int
    decreases n,
{
    if n <= 0 {
        0
    } else {
        num_peers_below(c, n - 1) + (if is_peer(n - 1, c) {
            1int
        } else {
            0int
        })
    }
}

/// Row, column and box of a cell are in range and determine it.
pub proof fn lemma_cell_fields(c: int)
    requires
        cell_ok(c),
    ensures
        0 <= row_of(c) < 9,
        0 <= col_of(c) < 9,
        0 <= block_of(c) < 9,
        c == row_of(c) * 9 + col_of(c),
        block_of(c) == (row_of(c) / 3) * 3 + col_of(c) / 3,
        0 <= row_of(c) / 3 < 3,
        0 <= col_of(c) / 3 < 3,
{
    lemma_fundamental_div_mod(c, 9);
    lemma_mod_bound(c, 9);
    lemma_fundamental_div_mod(c, 27);
    lemma_mod_bound(c, 27);
    lemma_div_denominator(c, 9, 3);
    lemma_fundamental_div_mod(c / 9, 3);
    lemma_mod_bound(c / 9, 3);
    lemma_fundamental_div_mod(c % 9, 3);
    lemma_mod_bound(c % 9, 3);
}

/// A row index and a column index compose to the cell they address.
pub proof fn lemma_compose(r: int, j: int)
    requires
        0 <= r < 9,
        0 <= j < 9,
    ensures
        cell_ok(r * 9 + j),
        row_of(r * 9 + j) == r,
        col_of(r * 9 + j) == j,
        block_of(r * 9 + j) == (r / 3) * 3 + j / 3,
{
    lemma_fundamental_div_mod_converse(r * 9 + j, 9, r, j);
    lemma_cell_fields(r * 9 + j);
}

/// Each slot of each unit holds a cell whose row, column and box place it
/// in that unit.
pub proof fn lemma_unit_cell_fields(u: int, k: int)
    requires
        unit_ok(u),
        0 <= k < 9,
    ensures
        cell_ok(unit_cell(u, k)),
        u < 9 ==> col_of(unit_cell(u, k)) == u && row_of(unit_cell(u, k)) == k,
        9 <= u < 18 ==> row_of(unit_cell(u, k)) == u - 9 && col_of(unit_cell(u, k)) == k,
        18 <= u ==> block_of(unit_cell(u, k)) == u - 18,
        18 <= u ==> row_of(unit_cell(u, k)) == ((u - 18) / 3) * 3 + k / 3,
        18 <= u ==> col_of(unit_cell(u, k)) == ((u - 18) % 3) * 3 + k % 3,
{
    if u < 9 {
        lemma_compose(k, u);
    } else if u < 18 {
        lemma_compose(u - 9, k);
    } else {
        let b = u - 18;
        lemma_fundamental_div_mod(b, 3);
        lemma_mod_bound(b, 3);
        lemma_fundamental_div_mod(k, 3);
        lemma_mod_bound(k, 3);
        let r = (b / 3) * 3 + k / 3;
        let j = (b % 3) * 3 + k % 3;
        lemma_compose(r, j);
        lemma_fundamental_div_mod_converse(r, 3, b / 3, k / 3);
        lemma_fundamental_div_mod_converse(j, 3, b % 3, k % 3);
    }
}

/// The units named by `cell_unit` do hold the cell, at the slot returned
/// here.
pub proof fn lemma_cell_in_units(c: int)
    requires
        cell_ok(c),
    ensures
        forall|t: int| 0 <= t < 3 ==> unit_ok(#[trigger] cell_unit(c, t)),
        unit_cell(cell_unit(c, 0), row_of(c)) == c,
        unit_cell(cell_unit(c, 1), col_of(c)) == c,
        unit_cell(cell_unit(c, 2), (row_of(c) % 3) * 3 + col_of(c) % 3) == c,
{
    lemma_cell_fields(c);
    let r = row_of(c);
    let j = col_of(c);
    lemma_fundamental_div_mod(r, 3);
    lemma_mod_bound(r, 3);
    lemma_fundamental_div_mod(j, 3);
    lemma_mod_bound(j, 3);
    let k = (r % 3) * 3 + j % 3;
    lemma_fundamental_div_mod_converse(k, 3, r % 3, j % 3);
    let b = block_of(c);
    assert(b == (r / 3) * 3 + j / 3);
    lemma_fundamental_div_mod_converse(b, 3, r / 3, j / 3);
    assert(unit_cell(18 + b, k) == ((b / 3) * 3 + k / 3) * 9 + ((b % 3) * 3 + k % 3));
}

/// The only units holding a cell are its column, row and box units.
pub proof fn lemma_unit_of_cell(u: int, k: int)
    requires
        unit_ok(u),
        0 <= k < 9,
    ensures
        u == cell_unit(unit_cell(u, k), 0) || u == cell_unit(unit_cell(u, k), 1) || u == cell_unit(
            unit_cell(u, k),
            2,
        ),
{
    lemma_unit_cell_fields(u, k);
}

/// Distinct slots of one unit hold distinct cells that share that unit,
/// so they are peers.
pub proof fn lemma_unit_cells_related(u: int, k1: int, k2: int)
    requires
        unit_ok(u),
        0 <= k1 < 9,
        0 <= k2 < 9,
        k1 != k2,
    ensures
        is_peer(unit_cell(u, k1), unit_cell(u, k2)),
{
    lemma_unit_cell_fields(u, k1);
    lemma_unit_cell_fields(u, k2);
    lemma_cell_fields(unit_cell(u, k1));
    lemma_cell_fields(unit_cell(u, k2));
    if 18 <= u {
        lemma_fundamental_div_mod(k1, 3);
        lemma_mod_bound(k1, 3);
        lemma_fundamental_div_mod(k2, 3);
        lemma_mod_bound(k2, 3);
    }
}

/// The digit (1 to 9) of the shifted-rows pattern at cell `c`: the first
/// row in order, each next row moved three columns along, each new band
/// one more. A fixed completed grid that satisfies every unit.
pub open spec fn shift_pattern(c: int) -> int {
    (3 * row_of(c) + row_of(c) / 3 + col_of(c)) % 9 + 1
}

/// Two integers with the same residue and a gap below the modulus are
/// equal.
proof fn lemma_mod_gap(x: int, y: int)
    requires
        x % 9 == y % 9,
        -9 < x - y < 9,
    ensures
        x == y,
{
    lemma_fundamental_div_mod(x, 9);
    lemma_fundamental_div_mod(y, 9);
}

/// The shifted-rows pattern stays within the nine digits.
pub proof fn lemma_shift_pattern_range(c: int)
    requires
        cell_ok(c),
    ensures
        1 <= shift_pattern(c) <= 9,
{
    lemma_cell_fields(c);
    lemma_mod_bound(3 * row_of(c) + row_of(c) / 3 + col_of(c), 9);
}

/// The shifted-rows pattern is in digit range and gives no two peers the
/// same digit, so it fills every unit with a permutation.
pub proof fn lemma_shift_pattern_distinct(a: int, b: int)
    requires
        is_peer(a, b),
    ensures
        1 <= shift_pattern(a) <= 9,
        shift_pattern(a) != shift_pattern(b),
{
    lemma_cell_fields(a);
    lemma_cell_fields(b);
    let ra = row_of(a);
    let ca = col_of(a);
    let rb = row_of(b);
    let cb = col_of(b);
    lemma_fundamental_div_mod(ra, 3);
    lemma_mod_bound(ra, 3);
    lemma_fundamental_div_mod(rb, 3);
    lemma_mod_bound(rb, 3);
    lemma_fundamental_div_mod(ca, 3);
    lemma_mod_bound(ca, 3);
    lemma_fundamental_div_mod(cb, 3);
    lemma_mod_bound(cb, 3);
    lemma_mod_bound(3 * ra + ra / 3 + ca, 9);
    let qa = ra / 3;
    let sa = ra % 3;
    let qb = rb / 3;
    let sb = rb % 3;
    // Reduce each cell's code to a value below 9 plus a multiple of 9.
    let ea = qa + 3 * sa + ca;
    let eb = qb + 3 * sb + cb;
    assert(3 * ra + ra / 3 + ca == 9 * qa + ea);
    lemma_mod_multiples_vanish(qa, ea, 9);
    lemma_mod_multiples_vanish(qb, eb, 9);
    if shift_pattern(a) == shift_pattern(b) {
        // Whichever unit the peers share pins all but one base-3 digit
        // of the codes, and equal residues pin the last, so the cells
        // coincide.
        lemma_mod_gap(ea, eb);
        assert(a == b);
    }
}

/// Two peers stand at distinct slots of one common unit.
pub proof fn shared_unit(a: int, b: int) -> (w: (int, int, int))
    requires
        is_peer(a, b),
    ensures
        unit_ok(w.0),
        0 <= w.1 < 9,
        0 <= w.2 < 9,
        w.1 != w.2,
        unit_cell(w.0, w.1) == a,
        unit_cell(w.0, w.2) == b,
{
    lemma_cell_fields(a);
    lemma_cell_fields(b);
    lemma_cell_in_units(a);
    lemma_cell_in_units(b);
    if row_of(a) == row_of(b) {
        (9 + row_of(a), col_of(a), col_of(b))
    } else if col_of(a) == col_of(b) {
        (col_of(a), row_of(a), row_of(b))
    } else {
        let ka = (row_of(a) % 3) * 3 + col_of(a) % 3;
        let kb = (row_of(b) % 3) * 3 + col_of(b) % 3;
        lemma_fundamental_div_mod(row_of(a), 3);
        lemma_mod_bound(row_of(a), 3);
        lemma_fundamental_div_mod(col_of(a), 3);
        lemma_mod_bound(col_of(a), 3);
        lemma_fundamental_div_mod(row_of(b), 3);
        lemma_mod_bound(row_of(b), 3);
        lemma_fundamental_div_mod(col_of(b), 3);
        lemma_mod_bound(col_of(b), 3);
        assert(ka != kb) by {
            if ka == kb {
                lemma_fundamental_div_mod_converse(ka, 3, row_of(a) % 3, col_of(a) % 3);
                lemma_fundamental_div_mod_converse(kb, 3, row_of(b) % 3, col_of(b) % 3);
                assert(row_of(a) % 3 == row_of(b) % 3);
                assert(col_of(a) % 3 == col_of(b) % 3);
                assert(block_of(a) == block_of(b));
                assert((row_of(a) / 3) * 3 + col_of(a) / 3 == (row_of(b) / 3) * 3 + col_of(b) / 3);
                lemma_fundamental_div_mod_converse(
                    block_of(a),
                    3,
                    row_of(a) / 3,
                    col_of(a) / 3,
                );
                lemma_fundamental_div_mod_converse(
                    block_of(b),
                    3,
                    row_of(b) / 3,
                    col_of(b) / 3,
                );
                assert(row_of(a) == row_of(b));
            }
        }
        (18 + block_of(a), ka, kb)
    }
}

/// How many peers of `c` lie in row `r`: all eight others of its own row,
/// three in another row of its band, one in any remaining row.
proof fn lemma_row_chunk(c: int, r: int)
    requires
        cell_ok(c),
        0 <= r < 9,
    ensures
        num_peers_below(c, r * 9 + 9) - num_peers_below(c, r * 9) == (if r == row_of(c) {
            8int
        } else if r / 3 == row_of(c) / 3 {
            3int
        } else {
            1int
        }),
{
    lemma_cell_fields(c);
    lemma_compose(r, 0);
    lemma_compose(r, 1);
    lemma_compose(r, 2);
    lemma_compose(r, 3);
    lemma_compose(r, 4);
    lemma_compose(r, 5);
    lemma_compose(r, 6);
    lemma_compose(r, 7);
    lemma_compose(r, 8);
    lemma_fundamental_div_mod(col_of(c), 3);
    lemma_mod_bound(col_of(c), 3);
    reveal_with_fuel(num_peers_below, 10);
    assert(num_peers_below(c, r * 9 + 9) - num_peers_below(c, r * 9) == (if is_peer(
        r * 9 + 0,
        c,
    ) {
        1int
    } else {
        0int
    }) + (if is_peer(r * 9 + 1, c) {
        1int
    } else {
        0int
    }) + (if is_peer(r * 9 + 2, c) {
        1int
    } else {
        0int
    }) + (if is_peer(r * 9 + 3, c) {
        1int
    } else {
        0int
    }) + (if is_peer(r * 9 + 4, c) {
        1int
    } else {
        0int
    }) + (if is_peer(r * 9 + 5, c) {
        1int
    } else {
        0int
    }) + (if is_peer(r * 9 + 6, c) {
        1int
    } else {
        0int
    }) + (if is_peer(r * 9 + 7, c) {
        1int
    } else {
        0int
    }) + (if is_peer(r * 9 + 8, c) {
        1int
    } else {
        0int
    }));
}

/// Every cell has exactly 20 peers.
pub proof fn lemma_peer_count(c: int)
    requires
        cell_ok(c),
    ensures
        num_peers_below(c, 81) == 20,
{
    lemma_cell_fields(c);
    lemma_row_chunk(c, 0);
    lemma_row_chunk(c, 1);
    lemma_row_chunk(c, 2);
    lemma_row_chunk(c, 3);
    lemma_row_chunk(c, 4);
    lemma_row_chunk(c, 5);
    lemma_row_chunk(c, 6);
    lemma_row_chunk(c, 7);
    lemma_row_chunk(c, 8);
    assert(num_peers_below(c, 0) == 0);
    lemma_fundamental_div_mod(row_of(c), 3);
    lemma_mod_bound(row_of(c), 3);
}

} // verus!
