//! Candidate sets as 9-bit masks.
//!
//! A cell's candidate set is a `u16` whose low nine bits stand for the
//! digits 1 through 9; bit `d - 1` is set exactly when digit `d` is still
//! possible. All facts about single masks are proved here, mostly by the
//! bit-vector solver, so the rest of the crate can reason at the level of
//! digits.

use vstd::prelude::*;

verus! {

/// Mask with every digit still possible.
pub const ALL_DIGITS: u16 = 0x1ff;

/// Digits run from 1 through 9.
pub open spec fn digit_ok(d: u8) -> bool {
    1 <= d <= 9
}

/// The mask holding exactly digit `d`.
pub open spec fn dmask(d: u8) -> u16 {
    (1u16 << (d as u16)) >> 1u16
}

/// A candidate set uses only the low nine bits.
pub open spec fn mask_ok(m: u16) -> bool {
    m < 0x200
}

/// Digit `d` is a member of the candidate set `m`.
pub open spec fn mem(m: u16, d: u8) -> bool {
    digit_ok(d) && m & dmask(d) != 0
}

/// How many of the digits 1 through `k` are members of `m`.
pub open spec fn popcnt_upto(m: u16, k: int) -> int
    decreases k,
{
    if k <= 0 {
        0
    } else {
        popcnt_upto(m, k - 1) + (if mem(m, k as u8) {
            1int
        } else {
            0int
        })
    }
}

/// The size of the candidate set `m`.
pub open spec fn popcnt(m: u16) -> int {
    popcnt_upto(m, 9)
}

/// `m2` holds no digit outside `m1`.
pub open spec fn mask_sub(m2: u16, m1: u16) -> bool {
    m2 & !m1 == 0
}

/// A digit's mask is a nonempty, well-formed singleton.
pub proof fn lemma_dmask(d: u8)
    by (bit_vector)
    requires
        digit_ok(d),
    ensures
        dmask(d) != 0,
        mask_ok(dmask(d)),
        popcnt(dmask(d)) == 1,
        mem(dmask(d), d),
{
}

/// A digit's mask holds no other digit.
pub proof fn lemma_dmask_other(d: u8, dd: u8)
    by (bit_vector)
    requires
        digit_ok(d),
        dd != d,
    ensures
        !mem(dmask(d), dd),
{
}

/// Candidate-set sizes lie between 0 and 9, and only the empty set has
/// size 0.
pub proof fn lemma_popcnt_bounds(m: u16)
    by (bit_vector)
    requires
        mask_ok(m),
    ensures
        0 <= popcnt(m) <= 9,
        popcnt(m) == 0 <==> m == 0,
{
}

/// Clearing digit `d` removes it, leaves every other digit alone, and
/// shrinks the size by one when `d` was present.
pub proof fn lemma_clear(m: u16, d: u8, dd: u8)
    by (bit_vector)
    requires
        mask_ok(m),
        digit_ok(d),
    ensures
        mask_ok(m & !dmask(d)),
        !mem(m & !dmask(d), d),
        mask_sub(m & !dmask(d), m),
        dd != d ==> mem(m & !dmask(d), dd) == mem(m, dd),
        mem(m, d) ==> popcnt(m & !dmask(d)) == popcnt(m) - 1,
        !mem(m, d) ==> m & !dmask(d) == m,
{
}

/// Every candidate set is a subset of itself.
pub proof fn lemma_sub_refl(m: u16)
    by (bit_vector)
    ensures
        mask_sub(m, m),
{
}

/// Subset of candidate sets is transitive.
pub proof fn lemma_sub_trans(a: u16, b: u16, c: u16)
    by (bit_vector)
    requires
        mask_sub(a, b),
        mask_sub(b, c),
    ensures
        mask_sub(a, c),
{
}

/// A member of a subset is a member of the superset.
pub proof fn lemma_sub_has(m2: u16, m1: u16, d: u8)
    by (bit_vector)
    requires
        mask_sub(m2, m1),
        mem(m2, d),
    ensures
        mem(m1, d),
{
}

/// A subset is no larger, and a subset of equal size is equal.
pub proof fn lemma_sub_popcnt(m2: u16, m1: u16)
    by (bit_vector)
    requires
        mask_ok(m2),
        mask_ok(m1),
        mask_sub(m2, m1),
    ensures
        popcnt(m2) <= popcnt(m1),
        m2 != m1 ==> popcnt(m2) < popcnt(m1),
{
}

/// Digit-wise containment implies the bitwise subset relation.
pub proof fn lemma_sub_from_digits(m2: u16, m1: u16)
    requires
        mask_ok(m2),
        mask_ok(m1),
        forall|dd: u8| mem(m2, dd) ==> mem(m1, dd),
    ensures
        mask_sub(m2, m1),
{
    assert(mem(m2, 1u8) ==> mem(m1, 1u8));
    assert(mem(m2, 2u8) ==> mem(m1, 2u8));
    assert(mem(m2, 3u8) ==> mem(m1, 3u8));
    assert(mem(m2, 4u8) ==> mem(m1, 4u8));
    assert(mem(m2, 5u8) ==> mem(m1, 5u8));
    assert(mem(m2, 6u8) ==> mem(m1, 6u8));
    assert(mem(m2, 7u8) ==> mem(m1, 7u8));
    assert(mem(m2, 8u8) ==> mem(m1, 8u8));
    assert(mem(m2, 9u8) ==> mem(m1, 9u8));
    assert(mask_sub(m2, m1)) by (bit_vector)
        requires
            m2 < 0x200,
            m1 < 0x200,
            mem(m2, 1u8) ==> mem(m1, 1u8),
            mem(m2, 2u8) ==> mem(m1, 2u8),
            mem(m2, 3u8) ==> mem(m1, 3u8),
            mem(m2, 4u8) ==> mem(m1, 4u8),
            mem(m2, 5u8) ==> mem(m1, 5u8),
            mem(m2, 6u8) ==> mem(m1, 6u8),
            mem(m2, 7u8) ==> mem(m1, 7u8),
            mem(m2, 8u8) ==> mem(m1, 8u8),
            mem(m2, 9u8) ==> mem(m1, 9u8),
    ;
}

/// A nonempty subset of a singleton is that singleton.
pub proof fn lemma_singleton_sub(m: u16, d: u8)
    by (bit_vector)
    requires
        mask_ok(m),
        m != 0,
        digit_ok(d),
        mask_sub(m, dmask(d)),
    ensures
        m == dmask(d),
        mem(m, d),
{
}

/// A candidate set of size one that holds `d` is exactly `d`'s mask.
pub proof fn lemma_singleton(m: u16, d: u8)
    by (bit_vector)
    requires
        mask_ok(m),
        popcnt(m) == 1,
        mem(m, d),
    ensures
        m == dmask(d),
{
}

/// The union of two candidate sets holds exactly the digits of either.
pub proof fn lemma_or_digit(m1: u16, m2: u16, dd: u8)
    by (bit_vector)
    requires
        mask_ok(m1),
        mask_ok(m2),
    ensures
        mask_ok(m1 | m2),
        mem(m1 | m2, dd) <==> mem(m1, dd) || mem(m2, dd),
{
}

/// The intersection of two candidate sets holds exactly the digits of
/// both.
pub proof fn lemma_and_mem(a: u16, b: u16, dd: u8)
    by (bit_vector)
    ensures
        mem(a & b, dd) <==> mem(a, dd) && mem(b, dd),
        mask_ok(a) ==> mask_ok(a & b),
{
}

/// Union sizes obey inclusion-exclusion.
pub proof fn lemma_or_popcnt(x: u16, y: u16)
    by (bit_vector)
    requires
        mask_ok(x),
        mask_ok(y),
    ensures
        mask_ok(x | y),
        popcnt(x | y) == popcnt(x) + popcnt(y) - popcnt(x & y),
        popcnt(x & y) >= 0,
{
}

/// Intersection of candidate sets is symmetric.
pub proof fn lemma_and_comm(x: u16, y: u16)
    by (bit_vector)
    ensures
        x & y == y & x,
{
}

/// A candidate set holding all nine digits is the full mask.
pub proof fn lemma_full_of_digits(m: u16)
    by (bit_vector)
    requires
        mask_ok(m),
        mem(m, 1u8),
        mem(m, 2u8),
        mem(m, 3u8),
        mem(m, 4u8),
        mem(m, 5u8),
        mem(m, 6u8),
        mem(m, 7u8),
        mem(m, 8u8),
        mem(m, 9u8),
    ensures
        popcnt(m) == 9,
        m == ALL_DIGITS,
{
}

/// Masks of distinct digits are disjoint.
pub proof fn lemma_dmask_disjoint(d1: u8, d2: u8)
    by (bit_vector)
    requires
        digit_ok(d1),
        digit_ok(d2),
        d1 != d2,
    ensures
        dmask(d1) & dmask(d2) == 0,
{
}

/// A candidate set of size nine is the full mask.
pub proof fn lemma_popcnt_full(m: u16)
    by (bit_vector)
    requires
        mask_ok(m),
        popcnt(m) == 9,
    ensures
        m == ALL_DIGITS,
{
}

/// Candidate sets sharing a digit intersect.
pub proof fn lemma_shared_digit(m1: u16, m2: u16, d: u8)
    by (bit_vector)
    requires
        mem(m1, d),
        mem(m2, d),
    ensures
        m1 & m2 != 0,
{
}

/// The empty candidate set has no members.
pub proof fn lemma_empty_mem(dd: u8)
    by (bit_vector)
    ensures
        !mem(0u16, dd),
{
}

/// Union with the empty candidate set changes nothing.
pub proof fn lemma_or_zero(m: u16)
    by (bit_vector)
    ensures
        m | 0u16 == m,
{
}

/// The full mask holds every digit.
pub proof fn lemma_full_mask(d: u8)
    by (bit_vector)
    requires
        digit_ok(d),
    ensures
        mask_ok(ALL_DIGITS),
        mem(ALL_DIGITS, d),
        popcnt(ALL_DIGITS) == 9,
{
}

/// Every nonempty candidate set has a member; this picks one.
pub proof fn some_digit(m: u16) -> (d: u8)
    requires
        mask_ok(m),
        m != 0,
    ensures
        mem(m, d),
{
    if m & 1 != 0 {
        assert(mem(m, 1u8)) by (bit_vector)
            requires
                m & 1 != 0,
        ;
        1u8
    } else if m & 2 != 0 {
        assert(mem(m, 2u8)) by (bit_vector)
            requires
                m & 2 != 0,
        ;
        2u8
    } else if m & 4 != 0 {
        assert(mem(m, 3u8)) by (bit_vector)
            requires
                m & 4 != 0,
        ;
        3u8
    } else if m & 8 != 0 {
        assert(mem(m, 4u8)) by (bit_vector)
            requires
                m & 8 != 0,
        ;
        4u8
    } else if m & 16 != 0 {
        assert(mem(m, 5u8)) by (bit_vector)
            requires
                m & 16 != 0,
        ;
        5u8
    } else if m & 32 != 0 {
        assert(mem(m, 6u8)) by (bit_vector)
            requires
                m & 32 != 0,
        ;
        6u8
    } else if m & 64 != 0 {
        assert(mem(m, 7u8)) by (bit_vector)
            requires
                m & 64 != 0,
        ;
        7u8
    } else if m & 128 != 0 {
        assert(mem(m, 8u8)) by (bit_vector)
            requires
                m & 128 != 0,
        ;
        8u8
    } else {
        assert(mem(m, 9u8)) by (bit_vector)
            requires
                m < 0x200,
                m != 0,
                m & 1 == 0,
                m & 2 == 0,
                m & 4 == 0,
                m & 8 == 0,
                m & 16 == 0,
                m & 32 == 0,
                m & 64 == 0,
                m & 128 == 0,
        ;
        9u8
    }
}

/// A candidate set short of the full mask misses some digit; this picks
/// one.
pub proof fn some_missing_digit(m: u16) -> (d: u8)
    requires
        mask_ok(m),
        m != ALL_DIGITS,
    ensures
        digit_ok(d),
        !mem(m, d),
{
    assert(mask_ok(!m & ALL_DIGITS) && (!m & ALL_DIGITS) != 0) by (bit_vector)
        requires
            m < 0x200,
            m != 0x1ffu16,
    ;
    let d = some_digit(!m & ALL_DIGITS);
    assert(!mem(m, d)) by (bit_vector)
        requires
            mem(!m & 0x1ffu16, d),
    ;
    d
}

/// The executable mask for digit `d`.
pub fn digit_mask(d: u8) -> (m: u16)
    requires
        digit_ok(d),
    ensures
        m == dmask(d),
{
    (1u16 << (d as u16)) >> 1u16
}

/// Whether digit `d` is a member of the candidate set `m`.
pub fn has_digit(m: u16, d: u8) -> (r: bool)
    requires
        digit_ok(d),
    ensures
        r == mem(m, d),
{
    m & digit_mask(d) != 0
}

/// The size of the candidate set `m`.
pub fn mask_count(m: u16) -> (n: u8)
    requires
        mask_ok(m),
    ensures
        n as int == popcnt(m),
        n <= 9,
{
    let mut n: u8 = 0;
    let mut d: u8 = 1;
    while d <= 9
        invariant
            1 <= d <= 10,
            mask_ok(m),
            n as int == popcnt_upto(m, d - 1),
            n < d,
        decreases 10 - d,
    {
        if has_digit(m, d) {
            n = n + 1;
        }
        d = d + 1;
    }
    proof {
        lemma_popcnt_bounds(m);
    }
    n
}

/// The smallest digit in a nonempty candidate set.
pub fn lowest_digit(m: u16) -> (d: u8)
    requires
        mask_ok(m),
        m != 0,
    ensures
        mem(m, d),
{
    let mut d: u8 = 1;
    while d < 9
        invariant
            1 <= d <= 9,
            mask_ok(m),
            m != 0,
            forall|dd: u8| dd < d ==> !mem(m, dd),
        decreases 9 - d,
    {
        if has_digit(m, d) {
            return d;
        }
        d = d + 1;
    }
    proof {
        let w = some_digit(m);
        assert(w == 9u8);
    }
    9u8
}

/// The digits of a candidate set, in ascending order.
pub fn mask_digits(m: u16) -> (v: Vec<u8>)
    requires
        mask_ok(m),
    ensures
        v@.len() == popcnt(m),
        forall|i: int| 0 <= i < v@.len() ==> mem(m, v@[i]),
        forall|dd: u8| mem(m, dd) ==> v@.contains(dd),
{
    let mut v: Vec<u8> = Vec::new();
    let mut d: u8 = 1;
    while d <= 9
        invariant
            1 <= d <= 10,
            mask_ok(m),
            v@.len() == popcnt_upto(m, d - 1),
            forall|i: int| 0 <= i < v@.len() ==> mem(m, v@[i]),
            forall|dd: u8| dd < d && mem(m, dd) ==> v@.contains(dd),
        decreases 10 - d,
    {
        if has_digit(m, d) {
            let ghost prev = v@;
            v.push(d);
            proof {
                assert forall|dd: u8| dd < d + 1 && mem(m, dd) implies v@.contains(dd) by {
                    if dd == d {
                        assert(v@[v@.len() - 1] == dd);
                    } else {
                        let i = choose|i: int| 0 <= i < prev.len() && prev[i] == dd;
                        assert(v@[i] == dd);
                    }
                }
            }
        }
        d = d + 1;
    }
    v
}

} // verus!
