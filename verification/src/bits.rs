//! Bit-index level layer: the packed board layout, the shift-and-mask
//! folds used for pattern detection, and the bit-vector lemmas that give
//! each fold a per-bit reading.
//!
//! One player's stones live in a `u64`. Column `c` (0 to 6) occupies bits
//! `9*c` to `9*c + 5`, row 0 at the bottom; the three bits above each
//! column are guard bits, so that a shift along any line direction can
//! never carry a pattern from one column into the next.

use vstd::prelude::*;

verus! {

/// Bit distance between horizontally adjacent cells.
pub const HOR_STRIDE: u64 = 9;
/// Bit distance between vertically adjacent cells.
pub const VER_STRIDE: u64 = 1;
/// Bit distance along a falling diagonal (right and down).
pub const DIAG_DOWN_STRIDE: u64 = 8;
/// Bit distance along a rising diagonal (right and up).
pub const DIAG_UP_STRIDE: u64 = 10;

/// The 42 playing cells.
pub const VALID_PLACES: u64 = 0xfc7e3f1f8fc7e3f;
/// One bit per column, at its bottom cell (row 0).
pub const BOTTOM_ROW: u64 = 0x40201008040201;
/// The six cells of column 0.
pub const FIRST_COLUMN: u64 = 0x3f;

pub open spec fn nth_bit(x: u64, i: u64) -> bool {
    (x >> i) & 1 == 1
}

pub open spec fn stride_ok(s: u64) -> bool {
    s == HOR_STRIDE || s == VER_STRIDE || s == DIAG_DOWN_STRIDE || s == DIAG_UP_STRIDE
}

/// At least two distinct bits are set.
pub open spec fn two_bits(x: u64) -> bool {
    exists|i: u64, j: u64|
        #![trigger nth_bit(x, i), nth_bit(x, j)]
        i < j && j < 64 && nth_bit(x, i) && nth_bit(x, j)
}

/// `x - 1` with wraparound at zero.
pub open spec fn wrap_dec(x: u64) -> u64 {
    if x == 0 {
        0xffff_ffff_ffff_ffff
    } else {
        (x - 1) as u64
    }
}

/// The bits strictly below position `j`.
pub open spec fn low_mask(j: u64) -> u64 {
    ((1u64 << j) - 1) as u64
}

/// `x` with its lowest set bit cleared (zero stays zero).
pub open spec fn drop_low_bit(x: u64) -> u64 {
    x & wrap_dec(x)
}

/// Bit `i` of the fold survives iff bits `i`, `i+s`, `i+2s`, `i+3s` are
/// all set: one surviving bit per completed four-in-a-line of stride `s`.
pub open spec fn fold4(x: u64, s: u64) -> u64 {
    let and2 = x & (x >> s);
    and2 & (and2 >> (2 * s) as u64)
}

/// Marks the whole window: bits `j`, `j+s`, `j+2s`, `j+3s` for every bit
/// `j` set in `y`.
pub open spec fn spread4(y: u64, s: u64) -> u64 {
    let or2 = y | (y << s);
    or2 | (or2 << (2 * s) as u64)
}

/// Exactly three of the four bits `i`, `i+s`, `i+2s`, `i+3s` are set.
pub open spec fn exactly_three(x: u64, s: u64, i: u64) -> bool {
    let b0 = nth_bit(x, i);
    let b1 = nth_bit(x, (i + s) as u64);
    let b2 = nth_bit(x, (i + 2 * s) as u64);
    let b3 = nth_bit(x, (i + 3 * s) as u64);
    (b0 && b1 && b2 && !b3) || (b0 && b1 && !b2 && b3) || (b0 && !b1 && b2 && b3) || (!b0 && b1
        && b2 && b3)
}

/// Bit `i` of the three-of-four fold survives iff exactly three of the
/// four window bits are set.
pub open spec fn comb34(x: u64, s: u64) -> u64 {
    let and2 = x & (x >> s);
    let xor2 = x ^ (x >> s);
    let b21 = and2 & (xor2 >> (2 * s) as u64);
    let b12 = xor2 & (and2 >> (2 * s) as u64);
    b21 | b12
}

/// Marks bits `j`, `j-s`, `j-2s`, `j-3s` for every bit `j` set in `y`:
/// the downward spread used by the move-ordering heuristic.
pub open spec fn gather4(y: u64, s: u64) -> u64 {
    let or2 = y | (y >> s);
    or2 | (or2 >> (2 * s) as u64)
}

/// Number of set bits below position `n`.
pub open spec fn ones_below(x: u64, n: int) -> nat
    decreases n,
{
    if n <= 0 {
        0
    } else {
        ones_below(x, n - 1) + (if nth_bit(x, (n - 1) as u64) {
            1nat
        } else {
            0nat
        })
    }
}

/// Number of set bits of the whole word.
pub open spec fn popcount(x: u64) -> nat {
    ones_below(x, 64)
}

pub proof fn lemma_ones_below_bound(x: u64, n: int)
    requires
        0 <= n <= 64,
    ensures
        ones_below(x, n) <= n,
    decreases n,
{
    if n > 0 {
        lemma_ones_below_bound(x, n - 1);
    }
}

/// The lowest empty cell of every non-full column: a cell qualifies iff
/// it is free, inside the grid, and sits on the bottom row or directly
/// on top of a stone.
pub open spec fn moves_mask(occ: u64) -> u64 {
    ((occ << 1) | BOTTOM_ROW) & !occ & VALID_PLACES
}

/// No stone floats: a set cell above row 0 has a set cell below it.
pub open spec fn stacked_mask(occ: u64) -> bool {
    (occ >> 1) & VALID_PLACES & !occ == 0
}

pub open spec fn column_mask(c: u64) -> u64 {
    FIRST_COLUMN << (9 * c) as u64
}

pub const COLUMN_0: u64 = 0x3f;
pub const COLUMN_1: u64 = 0x3f << 9;
pub const COLUMN_2: u64 = 0x3f << 18;
pub const COLUMN_3: u64 = 0x3f << 27;
pub const COLUMN_4: u64 = 0x3f << 36;
pub const COLUMN_5: u64 = 0x3f << 45;
pub const COLUMN_6: u64 = 0x3f << 54;

/// Left-right reflection of the board: column 0 swaps with 6, 1 with 5,
/// 2 with 4; column 3 stays. Done in two masked-shift passes: first the
/// outer rotation by two columns, then the swap across column 3.
pub open spec fn mirror_mask(x: u64) -> u64 {
    let y = ((x & (COLUMN_0 | COLUMN_4)) << 18) | (x & (COLUMN_1 | COLUMN_3 | COLUMN_5)) | ((x & (
    COLUMN_2 | COLUMN_6)) >> 18);
    ((y & (COLUMN_0 | COLUMN_1 | COLUMN_2)) << 36) | (y & COLUMN_3) | ((y & (COLUMN_4 | COLUMN_5
        | COLUMN_6)) >> 36)
}

pub proof fn lemma_bit_ops(x: u64, y: u64, i: u64)
    by (bit_vector)
    ensures
        i < 64 ==> (nth_bit(x | y, i) <==> nth_bit(x, i) || nth_bit(y, i)),
        i < 64 ==> (nth_bit(x & y, i) <==> nth_bit(x, i) && nth_bit(y, i)),
        i < 64 ==> (nth_bit(x & !y, i) <==> nth_bit(x, i) && !nth_bit(y, i)),
        i < 64 ==> (nth_bit(x ^ y, i) <==> (nth_bit(x, i) != nth_bit(y, i))),
        nth_bit(x, i) ==> x != 0,
        i >= 64 ==> !nth_bit(x, i),
        x & !y == 0 && nth_bit(x, i) ==> nth_bit(y, i),
        x & y == 0 ==> !(nth_bit(x, i) && nth_bit(y, i)),
        x ^ 0 == x,
        0 ^ x == x,
        x | 0 == x,
        x & 0 == 0,
        0 & x == 0,
{
}

pub proof fn lemma_valid_bit(i: u64)
    by (bit_vector)
    ensures
        i < 64 ==> (nth_bit(VALID_PLACES, i) <==> (i <= 59 && i % 9 <= 5)),
        i < 64 ==> (nth_bit(BOTTOM_ROW, i) <==> (i <= 54 && i % 9 == 0)),
{
}

pub proof fn lemma_shift_bits(x: u64, i: u64)
    by (bit_vector)
    ensures
        i < 64 ==> (nth_bit(x << 1, i) <==> (i >= 1 && nth_bit(x, (i - 1) as u64))),
        i < 64 ==> (nth_bit(x >> 1, i) <==> nth_bit(x, (i + 1) as u64)),
{
}

proof fn lemma_nonzero_bit_step(x: u64, i: u64)
    by (bit_vector)
    ensures
        x >> 0u64 == x,
        i < 63 && (x >> i) != 0 && !nth_bit(x, i) ==> (x >> (i + 1) as u64) != 0,
        (x >> 63u64) != 0 ==> nth_bit(x, 63),
{
}

proof fn lemma_nonzero_bit_from(x: u64, i: u64)
    requires
        i < 64,
        (x >> i) != 0,
    ensures
        exists|j: u64| j < 64 && nth_bit(x, j),
    decreases 64 - i,
{
    lemma_nonzero_bit_step(x, i);
    if nth_bit(x, i) {
        assert(i < 64 && nth_bit(x, i));
    } else {
        lemma_nonzero_bit_from(x, (i + 1) as u64);
    }
}

/// A nonzero word has a set bit.
pub proof fn lemma_nonzero_has_bit(x: u64)
    requires
        x != 0,
    ensures
        exists|j: u64| j < 64 && nth_bit(x, j),
{
    lemma_nonzero_bit_step(x, 0);
    lemma_nonzero_bit_from(x, 0);
}

proof fn lemma_low_bit_facts(x: u64, i: u64, j: u64)
    by (bit_vector)
    ensures
        j < 64 && nth_bit(drop_low_bit(x), j) ==> nth_bit(x, j) && (x & low_mask(j)) != 0,
        i < 64 && j < 64 && nth_bit(x & low_mask(j), i) ==> i < j && nth_bit(x, i),
        i < j && j < 64 && nth_bit(x, i) && nth_bit(x, j) ==> drop_low_bit(x) != 0,
{
}

/// `x & (x - 1)` is nonzero exactly when at least two bits are set.
pub proof fn lemma_drop_low_bit_two(x: u64)
    ensures
        drop_low_bit(x) != 0 <==> two_bits(x),
{
    if drop_low_bit(x) != 0 {
        lemma_nonzero_has_bit(drop_low_bit(x));
        let j = choose|j: u64| j < 64 && nth_bit(drop_low_bit(x), j);
        lemma_low_bit_facts(x, 0, j);
        lemma_nonzero_has_bit(x & low_mask(j));
        let i = choose|i: u64| i < 64 && nth_bit(x & low_mask(j), i);
        lemma_low_bit_facts(x, i, j);
        assert(nth_bit(x, i) && nth_bit(x, j));
    }
    if two_bits(x) {
        let (i, j) = choose|i: u64, j: u64|
            i < j && j < 64 && nth_bit(x, i) && nth_bit(x, j);
        lemma_low_bit_facts(x, i, j);
    }
}

pub proof fn lemma_fold4_bit(x: u64, s: u64, i: u64)
    by (bit_vector)
    requires
        stride_ok(s),
    ensures
        i < 64 ==> (nth_bit(fold4(x, s), i) <==> (i + 3 * s < 64 && nth_bit(x, i) && nth_bit(
            x,
            (i + s) as u64,
        ) && nth_bit(x, (i + 2 * s) as u64) && nth_bit(x, (i + 3 * s) as u64))),
{
}

pub proof fn lemma_spread4_bit(y: u64, s: u64, j: u64)
    by (bit_vector)
    requires
        stride_ok(s),
    ensures
        j < 64 ==> (nth_bit(spread4(y, s), j) <==> (nth_bit(y, j) || (j >= s && nth_bit(
            y,
            (j - s) as u64,
        )) || (j >= 2 * s && nth_bit(y, (j - 2 * s) as u64)) || (j >= 3 * s && nth_bit(
            y,
            (j - 3 * s) as u64,
        )))),
{
}

pub proof fn lemma_comb34_bit(x: u64, s: u64, i: u64)
    by (bit_vector)
    requires
        stride_ok(s),
    ensures
        i < 64 ==> (nth_bit(comb34(x, s), i) <==> exactly_three(x, s, i)),
{
}

pub proof fn lemma_gather4_bit(y: u64, s: u64, i: u64)
    by (bit_vector)
    requires
        stride_ok(s),
    ensures
        i < 64 ==> (nth_bit(gather4(y, s), i) <==> (nth_bit(y, i) || nth_bit(y, (i + s) as u64)
            || nth_bit(y, (i + 2 * s) as u64) || nth_bit(y, (i + 3 * s) as u64))),
{
}

proof fn lemma_ones_below_of_zero(n: int)
    requires
        0 <= n <= 64,
    ensures
        ones_below(0u64, n) == 0,
    decreases n,
{
    if n > 0 {
        lemma_ones_below_of_zero(n - 1);
        lemma_bit_ops(0, 0, (n - 1) as u64);
    }
}

proof fn lemma_ones_below_sees_bit(x: u64, j: u64, n: int)
    requires
        j < n <= 64,
        nth_bit(x, j),
    ensures
        ones_below(x, n) >= 1,
    decreases n,
{
    if n - 1 > j {
        lemma_ones_below_sees_bit(x, j, n - 1);
    }
}

/// A word has no set bits exactly when it is zero.
pub proof fn lemma_popcount_zero(x: u64)
    ensures
        popcount(x) == 0 <==> x == 0,
{
    if x == 0 {
        lemma_ones_below_of_zero(64);
    }
    if x != 0 {
        lemma_nonzero_has_bit(x);
        let j = choose|j: u64| j < 64 && nth_bit(x, j);
        lemma_ones_below_sees_bit(x, j, 64);
    }
}

/// The carry trick: adding one bit at the bottom of each column of a
/// stacked board lands exactly on the lowest empty cell of each column.
pub proof fn lemma_moves_mask_eq(occ: u64)
    by (bit_vector)
    requires
        occ & !VALID_PLACES == 0,
        stacked_mask(occ),
    ensures
        occ + BOTTOM_ROW <= u64::MAX,
        ((occ + BOTTOM_ROW) as u64) & VALID_PLACES == moves_mask(occ),
{
}

pub proof fn lemma_mirror_bits(x: u64, c: u64, r: u64)
    by (bit_vector)
    requires
        x & !VALID_PLACES == 0,
        c < 7,
        r < 6,
    ensures
        mirror_mask(x) & !VALID_PLACES == 0,
        nth_bit(mirror_mask(x), (9 * c + r) as u64) <==> nth_bit(x, (9 * (6 - c) + r) as u64),
{
}

pub proof fn lemma_mirror_involution(x: u64)
    by (bit_vector)
    requires
        x & !VALID_PLACES == 0,
    ensures
        mirror_mask(mirror_mask(x)) == x,
{
}

pub proof fn lemma_column_mask_bit(x: u64, c: u64, i: u64)
    by (bit_vector)
    requires
        c < 7,
    ensures
        i < 64 ==> (nth_bit(x & column_mask(c), i) <==> (nth_bit(x, i) && i / 9 == c && i % 9
            <= 5)),
        column_mask(c) & !VALID_PLACES == 0,
{
}

/// Masking with `len - 1` keeps an index below a power-of-two `len`.
pub proof fn lemma_pow2_mask_index(z: u64, l: u64)
    by (bit_vector)
    requires
        l != 0,
        l & ((l - 1) as u64) == 0,
    ensures
        (z & ((l - 1) as u64)) < l,
{
}

/// Algebra of subsets and disjointness read as mask identities.
pub proof fn lemma_mask_algebra(a: u64, b: u64, v: u64)
    by (bit_vector)
    ensures
        a & !v == 0 && b & !v == 0 ==> (a | b) & !v == 0,
        a & !v == 0 ==> (a & b) & !v == 0,
        b & !v == 0 ==> (a & b) & !v == 0,
        a & !v == 0 ==> (a & !b) & !v == 0,
        a & !a == 0,
        a & !b == 0 && b & !v == 0 ==> a & !v == 0,
        a & !b == 0 && b & v == 0 ==> a & v == 0,
        a & v == 0 && b & v == 0 ==> (a | b) & v == 0,
        (a & b) & !b == 0,
        (a & b) & !a == 0,
        (a & !b) & !a == 0,
        a & b == b & a,
        (a | b) | v == b | (a | v),
        a & !(a | b) == 0,
        b & !(a | b) == 0,
        (!a & v) & !v == 0,
{
}

/// A word disjoint from a union is disjoint from both parts.
pub proof fn lemma_union_disjoint(a: u64, b: u64, c: u64)
    by (bit_vector)
    ensures
        c & (a | b) == 0 ==> c & a == 0 && c & b == 0 && a & c == 0 && b & c == 0,
        (a | b) & c == 0 ==> a & c == 0 && b & c == 0 && c & a == 0 && c & b == 0,
{
}

/// Facts about a mask holding one bit.
pub proof fn lemma_one_bit(x: u64, i: u64, j: u64)
    by (bit_vector)
    ensures
        i < 64 && j < 64 ==> (nth_bit(1u64 << i, j) <==> i == j),
        i < 64 ==> (x & (1u64 << i) != 0 <==> nth_bit(x, i)),
        i < 64 ==> ((x ^ (1u64 << i)) & !VALID_PLACES == (x & !VALID_PLACES) ^ ((1u64 << i)
            & !VALID_PLACES)),
        i < 64 && j < 64 ==> (nth_bit(x ^ (1u64 << i), j) <==> (if i == j {
            !nth_bit(x, j)
        } else {
            nth_bit(x, j)
        })),
        i < 64 && nth_bit(x, i) ==> (1u64 << i) & !x == 0,
{
}

/// A left shift of one below the word width is a nonzero power of two.
pub proof fn lemma_pow2_shift(n: u64)
    by (bit_vector)
    requires
        n < 32,
    ensures
        (1u64 << n) != 0,
        (1u64 << n) & (((1u64 << n) - 1) as u64) == 0,
        (1u64 << n) <= 0x1_0000_0000,
{
}

/// Two disjoint in-field words have disjoint reflections.
pub proof fn lemma_mirror_pair(a: u64, b: u64)
    by (bit_vector)
    requires
        a & !VALID_PLACES == 0,
        b & !VALID_PLACES == 0,
        a & b == 0,
    ensures
        mirror_mask(a) & mirror_mask(b) == 0,
{
}

/// A move mask avoids the occupied cells and stays in the field.
pub proof fn lemma_moves_mask_basic(occ: u64)
    by (bit_vector)
    ensures
        moves_mask(occ) & occ == 0,
        moves_mask(occ) & !VALID_PLACES == 0,
{
}

/// Bit 63 is a guard bit, free for cache bookkeeping.
pub proof fn lemma_top_bit_clear(x: u64)
    by (bit_vector)
    requires
        x & !VALID_PLACES == 0,
    ensures
        x & 0x8000_0000_0000_0000 == 0,
{
}

} // verus!
