//! The puzzle-independent topology: squares, units and peers.
//!
//! Built once by `Sudoku::new` and then only ever read. Every solve call
//! borrows it immutably, so no solve can change it.

use vstd::prelude::*;

use crate::cells::{
    cell_ok, cell_unit, is_peer, lemma_cell_fields, lemma_cell_in_units, lemma_peer_count,
    lemma_unit_cell_fields, num_peers_below, same_unit, unit_cell, unit_ok,
};

verus! {

/// The solver: the fixed topology of the 9x9 grid.
#[derive(Debug)]
pub struct Sudoku {
    /// The 81 cell indices, in order.
    pub squares: Vec<u8>,
    /// The 27 units: nine columns, nine rows, nine boxes, each of nine
    /// cells.
    pub unitlist: Vec<Vec<u8>>,
    /// For each cell, the indices into `unitlist` of the three units
    /// holding it.
    pub units: Vec<Vec<u8>>,
    /// For each cell, its 20 peers, sorted ascending.
    pub peers: Vec<Vec<u8>>,
}

impl Sudoku {
    /// The topology is exactly the one the grid geometry dictates.
    pub open spec fn wf(&self) -> bool {
        &&& self.squares@.len() == 81
        &&& forall|i: int| 0 <= i < 81 ==> #[trigger] self.squares@[i] == i as u8
        &&& self.unitlist@.len() == 27
        &&& forall|u: int| 0 <= u < 27 ==> (#[trigger] self.unitlist@[u])@.len() == 9
        &&& forall|u: int, k: int|
            0 <= u < 27 && 0 <= k < 9 ==> #[trigger] self.unitlist@[u]@[k] as int == unit_cell(
                u,
                k,
            )
        &&& self.units@.len() == 81
        &&& forall|c: int| 0 <= c < 81 ==> (#[trigger] self.units@[c])@.len() == 3
        &&& forall|c: int, t: int|
            0 <= c < 81 && 0 <= t < 3 ==> #[trigger] self.units@[c]@[t] as int == cell_unit(c, t)
        &&& self.peers@.len() == 81
        &&& forall|c: int| 0 <= c < 81 ==> (#[trigger] self.peers@[c])@.len() == 20
        &&& forall|c: int, j: int|
            0 <= c < 81 && 0 <= j < 20 ==> is_peer(#[trigger] self.peers@[c]@[j] as int, c)
        &&& forall|c: int, j1: int, j2: int|
            0 <= c < 81 && 0 <= j1 < j2 < 20 ==> #[trigger] self.peers@[c]@[j1]
                < #[trigger] self.peers@[c]@[j2]
        &&& forall|c: int, p: int|
            0 <= c < 81 && is_peer(p, c) ==> #[trigger] self.peers@[c]@.contains(p as u8)
    }

    /// Build the fixed topology: 81 squares, 27 units, and for every cell
    /// its 3 units and its 20 peers.
    pub fn new() -> (s: Self)
        ensures
            s.wf(),
    {
        let mut squares: Vec<u8> = Vec::new();
        let mut i: usize = 0;
        while i < 81
            invariant
                i <= 81,
                squares@.len() == i,
                forall|q: int| 0 <= q < i ==> #[trigger] squares@[q] == q as u8,
            decreases 81 - i,
        {
            squares.push(i as u8);
            i = i + 1;
        }

        let mut unitlist: Vec<Vec<u8>> = Vec::new();
        let mut u: usize = 0;
        while u < 27
            invariant
                u <= 27,
                unitlist@.len() == u,
                forall|q: int| 0 <= q < u ==> (#[trigger] unitlist@[q])@.len() == 9,
                forall|q: int, k: int|
                    0 <= q < u && 0 <= k < 9 ==> #[trigger] unitlist@[q]@[k] as int == unit_cell(
                        q,
                        k,
                    ),
            decreases 27 - u,
        {
            let mut unit: Vec<u8> = Vec::new();
            let mut k: usize = 0;
            while k < 9
                invariant
                    u < 27,
                    k <= 9,
                    unit@.len() == k,
                    forall|q: int| 0 <= q < k ==> #[trigger] unit@[q] as int == unit_cell(
                        u as int,
                        q,
                    ),
                decreases 9 - k,
            {
                let cell: usize = if u < 9 {
                    k * 9 + u
                } else if u < 18 {
                    (u - 9) * 9 + k
                } else {
                    let b = u - 18;
                    (b / 3 * 3 + k / 3) * 9 + (b % 3 * 3 + k % 3)
                };
                proof {
                    lemma_unit_cell_fields(u as int, k as int);
                }
                unit.push(cell as u8);
                k = k + 1;
            }
            unitlist.push(unit);
            u = u + 1;
        }

        let mut units: Vec<Vec<u8>> = Vec::new();
        let mut c: usize = 0;
        while c < 81
            invariant
                c <= 81,
                units@.len() == c,
                forall|q: int| 0 <= q < c ==> (#[trigger] units@[q])@.len() == 3,
                forall|q: int, t: int|
                    0 <= q < c && 0 <= t < 3 ==> #[trigger] units@[q]@[t] as int == cell_unit(q, t),
            decreases 81 - c,
        {
            proof {
                lemma_cell_fields(c as int);
            }
            let col = c % 9;
            let row = c / 9;
            let blk = (c / 27) * 3 + (c % 9) / 3;
            let mut own: Vec<u8> = Vec::new();
            own.push(col as u8);
            own.push((9 + row) as u8);
            own.push((18 + blk) as u8);
            units.push(own);
            c = c + 1;
        }

        let mut peers: Vec<Vec<u8>> = Vec::new();
        let mut c: usize = 0;
        while c < 81
            invariant
                c <= 81,
                peers@.len() == c,
                forall|q: int| 0 <= q < c ==> (#[trigger] peers@[q])@.len() == 20,
                forall|q: int, j: int|
                    0 <= q < c && 0 <= j < 20 ==> is_peer(#[trigger] peers@[q]@[j] as int, q),
                forall|q: int, j1: int, j2: int|
                    0 <= q < c && 0 <= j1 < j2 < 20 ==> #[trigger] peers@[q]@[j1]
                        < #[trigger] peers@[q]@[j2],
                forall|q: int, p: int|
                    0 <= q < c && is_peer(p, q) ==> #[trigger] peers@[q]@.contains(p as u8),
            decreases 81 - c,
        {
            let mut pv: Vec<u8> = Vec::new();
            let mut p: usize = 0;
            while p < 81
                invariant
                    c < 81,
                    p <= 81,
                    pv@.len() == num_peers_below(c as int, p as int),
                    pv@.len() <= p,
                    forall|j: int| 0 <= j < pv@.len() ==> is_peer(#[trigger] pv@[j] as int, c as int),
                    forall|j: int| 0 <= j < pv@.len() ==> #[trigger] pv@[j] < p,
                    forall|j1: int, j2: int|
                        0 <= j1 < j2 < pv@.len() ==> #[trigger] pv@[j1] < #[trigger] pv@[j2],
                    forall|q: int| 0 <= q < p && is_peer(q, c as int) ==> #[trigger] pv@.contains(
                        q as u8,
                    ),
                decreases 81 - p,
            {
                if p != c && (p / 9 == c / 9 || p % 9 == c % 9 || (p / 27) * 3 + (p % 9) / 3 == (c
                    / 27) * 3 + (c % 9) / 3) {
                    let ghost prev = pv@;
                    pv.push(p as u8);
                    proof {
                        assert forall|q: int| 0 <= q < p + 1 && is_peer(q, c as int) implies
                            #[trigger] pv@.contains(q as u8) by {
                            if q == p {
                                assert(pv@[pv@.len() - 1] == q as u8);
                            } else {
                                assert(prev.contains(q as u8));
                                let j = choose|j: int|
                                    0 <= j < prev.len() && prev[j] == q as u8;
                                assert(pv@[j] == q as u8);
                            }
                        }
                    }
                } else {
                    assert(!is_peer(p as int, c as int));
                }
                p = p + 1;
            }
            proof {
                lemma_peer_count(c as int);
            }
            peers.push(pv);
            c = c + 1;
        }

        Sudoku { squares, unitlist, units, peers }
    }
}

} // verus!
