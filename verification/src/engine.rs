//! Constraint propagation: the mutually recursive `assign` and
//! `eliminate`.
//!
//! Both narrow candidate sets and never widen one, and both report a
//! contradiction by returning `false`, in which case the board is left in
//! an undefined narrowed state that callers must discard. Their central
//! contract clause is solution preservation: any valid completed grid the
//! board admitted and that the edit does not rule out is still admitted
//! afterwards — and its existence forces the call to succeed. The mutual
//! recursion terminates because each real elimination strictly shrinks
//! the total number of candidates on the board.

use vstd::prelude::*;

use crate::board::{
    admits, board_sub, lemma_board_sub_refl, lemma_board_sub_trans, lemma_places_kept_trans,
    lemma_total_bounds, lemma_total_update, nonempty_kept, places_kept, total, unit_digit_below,
    unit_has_digit, unit_mask_has, Board,
};
use crate::cells::{
    cell_unit, is_peer, lemma_cell_in_units, lemma_unit_cell_fields, lemma_unit_of_cell,
    unit_cell, unit_ok,
};
use crate::masks::{
    digit_mask, digit_ok, dmask, has_digit, lemma_clear, lemma_dmask_other, lemma_empty_mem,
    lemma_singleton, lemma_sub_has, lowest_digit, mask_count, mask_sub, mem,
};
use crate::topology::Sudoku;

verus! {

impl Sudoku {
    /// Commit digit `d` as the sole candidate of cell `s` by eliminating
    /// every other candidate there, propagating the consequences. A
    /// `false` result signals a contradiction; the board must then be
    /// discarded. Any admitted solution that places `d` at `s` survives,
    /// and its existence forces success.
    #[verifier::loop_isolation(false)]
    #[verifier::rlimit(60)]
    pub fn assign(&self, b: &mut Board, s: usize, d: u8) -> (r: bool)
        requires
            self.wf(),
            old(b).wf(),
            s < 81,
            digit_ok(d),
        ensures
            final(b).wf(),
            board_sub(final(b)@, old(b)@),
            total(final(b)@) <= total(old(b)@),
            r ==> nonempty_kept(old(b)@, final(b)@),
            r ==> places_kept(old(b)@, final(b)@),
            r ==> forall|dd: u8| dd != d ==> !mem(final(b)@[s as int], dd),
            r && old(b)@[s as int] != 0 ==> final(b)@[s as int] == dmask(d),
            forall|sol: Seq<u8>|
                #[trigger] admits(old(b)@, sol) && sol[s as int] == d ==> r && admits(
                    final(b)@,
                    sol,
                ),
        decreases total(old(b)@), 1int,
    {
        let ghost b0 = old(b)@;
        let m0 = b.get(s);
        proof {
            lemma_board_sub_refl(b0);
            lemma_total_bounds(b0);
        }
        let mut d2: u8 = 1;
        while d2 <= 9
            invariant
                1 <= d2 <= 10,
                b.wf(),
                board_sub(b@, b0),
                total(b@) <= total(b0),
                0 <= total(b@),
                nonempty_kept(b0, b@),
                places_kept(b0, b@),
                forall|dd: u8| dd != d && dd < d2 ==> !mem(b@[s as int], dd),
                forall|sol: Seq<u8>|
                    #[trigger] admits(b0, sol) && sol[s as int] == d ==> admits(b@, sol),
            decreases 10 - d2,
        {
            let ghost btop = b@;
            if d2 != d && has_digit(m0, d2) {
                let ok = self.eliminate(b, s, d2);
                proof {
                    lemma_total_bounds(b@);
                    lemma_board_sub_trans(b@, btop, b0);
                    if ok {
                        lemma_places_kept_trans(b0, btop, b@);
                        assert forall|c: int| 0 <= c < 81 && #[trigger] b0[c] != 0 implies
                            #[trigger] b@[c] != 0 by {
                            assert(btop[c] != 0);
                        }
                    }
                    assert forall|sol: Seq<u8>|
                        #[trigger] admits(b0, sol) && sol[s as int] == d implies ok && admits(
                        b@,
                        sol,
                    ) by {
                        assert(admits(btop, sol));
                    }
                }
                if !ok {
                    return false;
                }
            }
            proof {
                crate::masks::lemma_sub_refl(btop[s as int]);
                assert forall|dd: u8| dd != d && dd < d2 + 1 implies !mem(b@[s as int], dd) by {
                    if mem(b@[s as int], dd) {
                        lemma_sub_has(b@[s as int], btop[s as int], dd);
                        if dd == d2 {
                            lemma_sub_has(btop[s as int], b0[s as int], dd);
                        }
                    }
                }
            }
            d2 = d2 + 1;
        }
        proof {
            if b0[s as int] != 0 {
                crate::masks::lemma_dmask(d);
                assert forall|dd: u8| mem(b@[s as int], dd) implies mem(dmask(d), dd) by {}
                crate::masks::lemma_sub_from_digits(b@[s as int], dmask(d));
                crate::masks::lemma_singleton_sub(b@[s as int], d);
            }
        }
        true
    }

    /// Remove digit `d` from the candidates of cell `s` if present — a
    /// no-op, still reporting success, when it is already absent — then
    /// propagate the two deduction rules: a cell down to one candidate
    /// clears that digit from its peers, and a unit down to one place for
    /// a digit assigns it there. A `false` result signals a
    /// contradiction; the board must then be discarded. Any admitted
    /// solution that does not place `d` at `s` survives, and its
    /// existence forces success.
    #[verifier::loop_isolation(false)]
    #[verifier::rlimit(60)]
    pub fn eliminate(&self, b: &mut Board, s: usize, d: u8) -> (r: bool)
        requires
            self.wf(),
            old(b).wf(),
            s < 81,
            digit_ok(d),
        ensures
            final(b).wf(),
            board_sub(final(b)@, old(b)@),
            total(final(b)@) <= total(old(b)@),
            !mem(old(b)@[s as int], d) ==> final(b)@ == old(b)@ && r,
            mem(old(b)@[s as int], d) ==> total(final(b)@) < total(old(b)@),
            r ==> !mem(final(b)@[s as int], d),
            r ==> nonempty_kept(old(b)@, final(b)@),
            r ==> places_kept(old(b)@, final(b)@),
            forall|sol: Seq<u8>|
                #[trigger] admits(old(b)@, sol) && sol[s as int] != d ==> r && admits(
                    final(b)@,
                    sol,
                ),
        decreases total(old(b)@), 0int,
    {
        let ghost b0 = old(b)@;
        let m = b.get(s);
        if !has_digit(m, d) {
            proof {
                lemma_board_sub_refl(b0);
            }
            return true;
        }
        let dm = digit_mask(d);
        let m2 = m & !dm;
        proof {
            lemma_clear(m, d, d);
        }
        b.set(s, m2);
        let ghost b1 = b@;
        proof {
            lemma_total_update(b0, s as int, m2);
            assert(total(b1) == total(b0) - 1);
            lemma_total_bounds(b1);
            lemma_board_sub_refl(b1);
            assert forall|c: int| 0 <= c < 81 implies mask_sub(#[trigger] b1[c], #[trigger] b0[c]) by {
                if c != s {
                    crate::masks::lemma_sub_refl(b0[c]);
                }
            }
            assert forall|sol: Seq<u8>|
                #[trigger] admits(b0, sol) && sol[s as int] != d implies admits(b1, sol) by {
                assert(mem(b0[s as int], sol[s as int]));
                lemma_clear(m, d, sol[s as int]);
            }
            // A unit place can be lost to the removal only for digit `d`
            // in one of this cell's own three units.
            assert forall|u: int, dd: u8|
                unit_ok(u) && digit_ok(dd) && #[trigger] unit_mask_has(b0, u, dd) && (dd != d || (u
                    != cell_unit(s as int, 0) && u != cell_unit(s as int, 1) && u != cell_unit(
                    s as int,
                    2,
                ))) implies #[trigger] unit_mask_has(b1, u, dd) by {
                let kk = choose|kk: int| 0 <= kk < 9 && mem(#[trigger] b0[unit_cell(u, kk)], dd);
                lemma_unit_cell_fields(u, kk);
                if unit_cell(u, kk) == s as int {
                    lemma_unit_of_cell(u, kk);
                    lemma_clear(m, d, dd);
                }
                assert(mem(b1[unit_cell(u, kk)], dd));
                assert(unit_digit_below(b1, u, dd, 9));
            }
        }
        if m2 == 0 {
            proof {
                assert forall|sol: Seq<u8>|
                    #[trigger] admits(b0, sol) && sol[s as int] != d implies false by {
                    assert(admits(b1, sol));
                    assert(mem(b1[s as int], sol[s as int]));
                    lemma_empty_mem(sol[s as int]);
                }
            }
            return false;
        }
        // Rule 1: a cell reduced to one candidate clears it from all 20
        // peers.
        if mask_count(m2) == 1 {
            let d2 = lowest_digit(m2);
            proof {
                lemma_singleton(m2, d2);
            }
            let mut j: usize = 0;
            while j < 20
                invariant
                    j <= 20,
                    b.wf(),
                    board_sub(b@, b1),
                    total(b@) <= total(b1),
                    total(b@) < total(b0),
                    0 <= total(b@),
                    nonempty_kept(b1, b@),
                    places_kept(b1, b@),
                    forall|sol: Seq<u8>| #[trigger] admits(b1, sol) ==> admits(b@, sol),
                decreases 20 - j,
            {
                let p = self.peers[s][j];
                let pu = p as usize;
                proof {
                    assert(is_peer(pu as int, s as int));
                }
                let ghost bp = b@;
                let ok = self.eliminate(b, pu, d2);
                proof {
                    lemma_total_bounds(b@);
                    lemma_board_sub_trans(b@, bp, b1);
                    lemma_board_sub_trans(b@, b1, b0);
                    if ok {
                        lemma_places_kept_trans(b1, bp, b@);
                        assert forall|c: int| 0 <= c < 81 && #[trigger] b1[c] != 0 implies
                            #[trigger] b@[c] != 0 by {
                            assert(bp[c] != 0);
                        }
                    }
                    assert forall|sol: Seq<u8>| #[trigger] admits(b1, sol) implies ok && admits(
                        b@,
                        sol,
                    ) by {
                        assert(admits(bp, sol));
                        assert(mem(bp[s as int], sol[s as int]));
                        lemma_sub_has(bp[s as int], b1[s as int], sol[s as int]);
                        if sol[s as int] != d2 {
                            lemma_dmask_other(d2, sol[s as int]);
                        }
                        assert(sol[s as int] == d2);
                        assert(sol[pu as int] != d2);
                    }
                }
                if !ok {
                    proof {
                        assert forall|sol: Seq<u8>|
                            #[trigger] admits(b0, sol) && sol[s as int] != d implies false by {
                            assert(admits(b1, sol));
                        }
                    }
                    return false;
                }
                j = j + 1;
            }
        }
        // Rule 2: a unit reduced to one place for `d` puts it there.
        let mut t: usize = 0;
        while t < 3
            invariant
                t <= 3,
                b.wf(),
                board_sub(b@, b1),
                total(b@) <= total(b1),
                total(b@) < total(b0),
                0 <= total(b@),
                nonempty_kept(b1, b@),
                places_kept(b1, b@),
                forall|tt: int|
                    0 <= tt < t ==> #[trigger] unit_mask_has(b@, cell_unit(s as int, tt), d),
                forall|sol: Seq<u8>| #[trigger] admits(b1, sol) ==> admits(b@, sol),
            decreases 3 - t,
        {
            let uid = self.units[s][t] as usize;
            proof {
                lemma_cell_in_units(s as int);
                assert(unit_ok(uid as int));
            }
            let ghost bt = b@;
            let mut places: usize = 0;
            let mut place: usize = 0;
            let mut k: usize = 0;
            while k < 9
                invariant
                    k <= 9,
                    places <= k,
                    b@ == bt,
                    places == 0 ==> forall|kk: int|
                        0 <= kk < k ==> !mem(b@[unit_cell(uid as int, kk)], d),
                    places >= 1 ==> place < 81 && mem(b@[place as int], d),
                    places >= 1 ==> exists|kk: int|
                        0 <= kk < 9 && unit_cell(uid as int, kk) == place as int,
                    places == 1 ==> forall|kk: int|
                        0 <= kk < k && mem(b@[unit_cell(uid as int, kk)], d) ==> unit_cell(
                            uid as int,
                            kk,
                        ) == place as int,
                decreases 9 - k,
            {
                let cell = self.unitlist[uid][k] as usize;
                proof {
                    lemma_unit_cell_fields(uid as int, k as int);
                }
                if has_digit(b.get(cell), d) {
                    places = places + 1;
                    place = cell;
                    proof {
                        assert(unit_cell(uid as int, k as int) == place as int);
                    }
                }
                k = k + 1;
            }
            if places == 0 {
                proof {
                    lemma_board_sub_trans(b@, b1, b0);
                    assert forall|sol: Seq<u8>|
                        #[trigger] admits(b0, sol) && sol[s as int] != d implies false by {
                        assert(admits(b1, sol));
                        assert(admits(b@, sol));
                        assert(unit_has_digit(sol, uid as int, d));
                        let kk = choose|kk: int|
                            0 <= kk < 9 && #[trigger] sol[unit_cell(uid as int, kk)] == d;
                        lemma_unit_cell_fields(uid as int, kk);
                        assert(mem(b@[unit_cell(uid as int, kk)], sol[unit_cell(uid as int, kk)]));
                    }
                }
                return false;
            }
            proof {
                // Some cell of this unit still lists `d`.
                let kk = choose|kk: int| 0 <= kk < 9 && unit_cell(uid as int, kk) == place as int;
                assert(mem(b@[unit_cell(uid as int, kk)], d));
                assert(unit_digit_below(b@, uid as int, d, 9));
                assert(unit_mask_has(b@, uid as int, d));
                assert(uid as int == cell_unit(s as int, t as int));
            }
            if places == 1 {
                let ghost bp = b@;
                let ok = self.assign(b, place, d);
                proof {
                    lemma_total_bounds(b@);
                    lemma_board_sub_trans(b@, bp, b1);
                    lemma_board_sub_trans(b@, b1, b0);
                    if ok {
                        lemma_places_kept_trans(b1, bp, b@);
                        assert forall|tt: int|
                            0 <= tt < t + 1 implies #[trigger] unit_mask_has(
                            b@,
                            cell_unit(s as int, tt),
                            d,
                        ) by {
                            assert(unit_mask_has(bp, cell_unit(s as int, tt), d));
                        }
                        assert forall|c: int| 0 <= c < 81 && #[trigger] b1[c] != 0 implies
                            #[trigger] b@[c] != 0 by {
                            assert(bp[c] != 0);
                        }
                    }
                    assert forall|sol: Seq<u8>| #[trigger] admits(b1, sol) implies ok && admits(
                        b@,
                        sol,
                    ) by {
                        assert(admits(bp, sol));
                        assert(unit_has_digit(sol, uid as int, d));
                        let kk = choose|kk: int|
                            0 <= kk < 9 && #[trigger] sol[unit_cell(uid as int, kk)] == d;
                        lemma_unit_cell_fields(uid as int, kk);
                        assert(mem(bp[unit_cell(uid as int, kk)], sol[unit_cell(uid as int, kk)]));
                        assert(unit_cell(uid as int, kk) == place as int);
                        assert(sol[place as int] == d);
                    }
                }
                if !ok {
                    proof {
                        assert forall|sol: Seq<u8>|
                            #[trigger] admits(b0, sol) && sol[s as int] != d implies false by {
                            assert(admits(b1, sol));
                        }
                    }
                    return false;
                }
            }
            t = t + 1;
        }
        proof {
            lemma_board_sub_trans(b@, b1, b0);
            if mem(b@[s as int], d) {
                lemma_sub_has(b@[s as int], b1[s as int], d);
            }
            assert forall|u: int, dd: u8|
                unit_ok(u) && digit_ok(dd) && #[trigger] unit_mask_has(b0, u, dd) implies
                #[trigger] unit_mask_has(b@, u, dd) by {
                if dd == d && (u == cell_unit(s as int, 0) || u == cell_unit(s as int, 1) || u
                    == cell_unit(s as int, 2)) {
                    if u == cell_unit(s as int, 0) {
                        assert(unit_mask_has(b@, cell_unit(s as int, 0), d));
                    } else if u == cell_unit(s as int, 1) {
                        assert(unit_mask_has(b@, cell_unit(s as int, 1), d));
                    } else {
                        assert(unit_mask_has(b@, cell_unit(s as int, 2), d));
                    }
                } else {
                    assert(unit_mask_has(b1, u, dd));
                }
            }
            assert forall|c: int| 0 <= c < 81 && #[trigger] b0[c] != 0 implies #[trigger] b@[c]
                != 0 by {
                if c == s {
                    assert(b1[c] != 0);
                } else {
                    assert(b1[c] == b0[c]);
                }
            }
            assert forall|sol: Seq<u8>|
                #[trigger] admits(b0, sol) && sol[s as int] != d implies true && admits(
                b@,
                sol,
            ) by {
                assert(admits(b1, sol));
            }
        }
        true
    }
}

} // verus!
