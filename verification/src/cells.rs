//! Grid-coordinate layer: what the packed words mean on the 7 by 6
//! board. Cells are addressed as `(column, row)` with row 0 at the
//! bottom; lines are the 69 four-cell windows in the four directions.
//! The lemmas here read each shift-and-mask fold of `bits` back as a
//! plain statement about cells and lines.

use vstd::prelude::*;
use crate::bits::{
    nth_bit, two_bits, stacked_mask, moves_mask, fold4, spread4, comb34, exactly_three, stride_ok,
    VALID_PLACES, BOTTOM_ROW, HOR_STRIDE, VER_STRIDE, DIAG_DOWN_STRIDE, DIAG_UP_STRIDE,
    column_mask, lemma_bit_ops, lemma_valid_bit, lemma_shift_bits, lemma_nonzero_has_bit,
    lemma_fold4_bit, lemma_spread4_bit, lemma_comb34_bit, lemma_moves_mask_basic,
    lemma_mask_algebra, lemma_column_mask_bit,
};
use vstd::arithmetic::div_mod::{
    lemma_fundamental_div_mod,
    lemma_fundamental_div_mod_converse_div,
    lemma_fundamental_div_mod_converse_mod,
};

verus! {

pub open spec fn in_grid(c: int, r: int) -> bool {
    0 <= c < 7 && 0 <= r < 6
}

pub open spec fn cell_index(c: int, r: int) -> u64 {
    (9 * c + r) as u64
}

/// The stone set `b` has a stone on cell `(c, r)`.
pub open spec fn has_stone(b: u64, c: int, r: int) -> bool {
    in_grid(c, r) && nth_bit(b, cell_index(c, r))
}

pub open spec fn dir_ok(d: int) -> bool {
    0 <= d < 4
}

/// Column step of direction `d`: horizontal, vertical, falling
/// diagonal, rising diagonal.
pub open spec fn dir_dc(d: int) -> int {
    if d == 1 {
        0
    } else {
        1
    }
}

/// Row step of direction `d`.
pub open spec fn dir_dr(d: int) -> int {
    if d == 0 {
        0
    } else if d == 1 {
        1
    } else if d == 2 {
        -1
    } else {
        1
    }
}

/// Bit distance between neighbours along direction `d`.
pub open spec fn dir_stride(d: int) -> u64 {
    (9 * dir_dc(d) + dir_dr(d)) as u64
}

/// The four cells starting at `(c, r)` along `d` all lie on the board.
pub open spec fn line_in_grid(c: int, r: int, d: int) -> bool {
    dir_ok(d) && in_grid(c, r) && in_grid(c + 3 * dir_dc(d), r + 3 * dir_dr(d))
}

/// A completed four-in-a-row of `b` starting at `(c, r)` along `d`.
pub open spec fn line_filled(b: u64, c: int, r: int, d: int) -> bool {
    line_in_grid(c, r, d) && has_stone(b, c, r) && has_stone(b, c + dir_dc(d), r + dir_dr(d))
        && has_stone(b, c + 2 * dir_dc(d), r + 2 * dir_dr(d)) && has_stone(
        b,
        c + 3 * dir_dc(d),
        r + 3 * dir_dr(d),
    )
}

/// The line starting at `(c, r)` along `d` is filled except possibly at
/// its `k`-th cell, about which nothing is said.
pub open spec fn line_filled_except(b: u64, c: int, r: int, d: int, k: int) -> bool {
    line_in_grid(c, r, d) && 0 <= k < 4 && (k == 0 || has_stone(b, c, r)) && (k == 1 || has_stone(
        b,
        c + dir_dc(d),
        r + dir_dr(d),
    )) && (k == 2 || has_stone(b, c + 2 * dir_dc(d), r + 2 * dir_dr(d))) && (k == 3 || has_stone(
        b,
        c + 3 * dir_dc(d),
        r + 3 * dir_dr(d),
    ))
}

/// Some four-cell line is completely filled: the brute-force reading of
/// "this player has won", one check per line.
pub open spec fn has_four(b: u64) -> bool {
    exists|c: int, r: int, d: int| line_filled(b, c, r, d)
}

/// `(c, r)` lies on some completed four-in-a-row of `b`.
pub open spec fn on_filled_line(b: u64, c: int, r: int) -> bool {
    exists|c0: int, r0: int, d: int, k: int|
        #![trigger line_filled_except(b, c0, r0, d, k)]
        line_filled(b, c0, r0, d) && line_filled_except(b, c0, r0, d, k) && c == c0 + k * dir_dc(d)
            && r == r0 + k * dir_dr(d)
}

/// A stone placed on `(c, r)` would complete a four-in-a-row for `b`.
pub open spec fn completes_four(b: u64, c: int, r: int) -> bool {
    exists|c0: int, r0: int, d: int, k: int|
        #![trigger line_filled_except(b, c0, r0, d, k)]
        line_filled_except(b, c0, r0, d, k) && c == c0 + k * dir_dc(d) && r == r0 + k * dir_dr(d)
}

/// The cells free of `x`.
pub open spec fn free_mask(x: u64) -> u64 {
    !x & VALID_PLACES
}

/// Some candidate move cell completes a four-in-a-row for `x`.
pub open spec fn can_complete(x: u64, moves: u64) -> bool {
    exists|c: int, r: int|
        #![trigger has_stone(moves, c, r)]
        has_stone(moves, c, r) && completes_four(x, c, r)
}

/// No stone floats above an empty cell.
pub open spec fn stacked(occ: u64) -> bool {
    forall|c: int, r: int| 1 <= r < 6 && #[trigger] has_stone(occ, c, r) ==> has_stone(
        occ,
        c,
        r - 1,
    )
}

/// `m` holds exactly one stone, on cell `(c0, r0)`.
pub open spec fn single_stone(m: u64, c0: int, r0: int) -> bool {
    in_grid(c0, r0) && nth_bit(m, cell_index(c0, r0)) && m & !VALID_PLACES == 0 && !two_bits(m)
}

/// Number of stones among the cells numbered below `n` (cell `6*c + r`
/// is `(c, r)`).
pub open spec fn count_upto(b: u64, n: int) -> nat
    decreases n,
{
    if n <= 0 {
        0
    } else {
        count_upto(b, n - 1) + (if has_stone(b, (n - 1) / 6, (n - 1) % 6) {
            1nat
        } else {
            0nat
        })
    }
}

/// Total number of stones of one stone set.
pub open spec fn stone_count(b: u64) -> nat {
    count_upto(b, 42)
}

pub proof fn lemma_split_index(i: int, c: int, r: int)
    requires
        0 <= r < 9,
        0 <= c,
        i == 9 * c + r,
    ensures
        i / 9 == c,
        i % 9 == r,
{
    assert(i == c * 9 + r);
    lemma_fundamental_div_mod_converse_div(i, 9, c, r);
    lemma_fundamental_div_mod_converse_mod(i, 9, c, r);
}

/// A cell of the grid is a valid bit position.
pub proof fn lemma_cell_index_valid(c: int, r: int)
    requires
        in_grid(c, r),
    ensures
        nth_bit(VALID_PLACES, cell_index(c, r)),
        cell_index(c, r) < 64,
        cell_index(c, r) as int / 9 == c,
        cell_index(c, r) as int % 9 == r,
{
    let i = cell_index(c, r);
    lemma_split_index(i as int, c, r);
    lemma_valid_bit(i);
}

/// A set bit of an in-field word sits on a grid cell.
pub proof fn lemma_valid_index_cell(x: u64, i: u64)
    requires
        x & !VALID_PLACES == 0,
        i < 64,
        nth_bit(x, i),
    ensures
        in_grid(i as int / 9, i as int % 9),
        cell_index(i as int / 9, i as int % 9) == i,
        has_stone(x, i as int / 9, i as int % 9),
        nth_bit(VALID_PLACES, i),
{
    lemma_bit_ops(x, VALID_PLACES, i);
    lemma_valid_bit(i);
    lemma_fundamental_div_mod(i as int, 9);
}

/// Stepping one cell along a direction adds the direction's stride to
/// the bit index.
pub proof fn lemma_index_step(i: u64, d: int)
    requires
        dir_ok(d),
        i < 64,
        nth_bit(VALID_PLACES, i),
        i + dir_stride(d) < 64,
        nth_bit(VALID_PLACES, (i + dir_stride(d)) as u64),
    ensures
        (i + dir_stride(d)) as int / 9 == i as int / 9 + dir_dc(d),
        (i + dir_stride(d)) as int % 9 == i as int % 9 + dir_dr(d),
{
    lemma_valid_bit(i);
    lemma_valid_bit((i + dir_stride(d)) as u64);
    lemma_fundamental_div_mod(i as int, 9);
    let c = i as int / 9;
    let r = i as int % 9;
    let j = i as int + dir_stride(d) as int;
    if d == 0 {
        lemma_split_index(j, c + 1, r);
    } else if d == 1 {
        lemma_split_index(j, c, r + 1);
    } else if d == 2 {
        if r == 0 {
            lemma_split_index(j, c, 8);
            assert(false);
        } else {
            lemma_split_index(j, c + 1, r - 1);
        }
    } else {
        lemma_split_index(j, c + 1, r + 1);
    }
}

/// Below a stone of a stacked set everything is stone.
pub proof fn lemma_stacked_down(occ: u64, c: int, r: int, r2: int)
    requires
        stacked(occ),
        has_stone(occ, c, r),
        0 <= r2 <= r,
    ensures
        has_stone(occ, c, r2),
    decreases r - r2,
{
    if r2 < r {
        lemma_stacked_down(occ, c, r - 1, r2);
    }
}

/// The cell-level and the mask-level reading of "no stone floats"
/// agree on in-field words.
pub proof fn lemma_stacked_bridge(occ: u64)
    requires
        occ & !VALID_PLACES == 0,
        stacked(occ),
    ensures
        stacked_mask(occ),
{
    let w = (occ >> 1) & VALID_PLACES & !occ;
    if w != 0 {
        lemma_nonzero_has_bit(w);
        let j = choose|j: u64| j < 64 && nth_bit(w, j);
        lemma_bit_ops((occ >> 1) & VALID_PLACES, occ, j);
        lemma_bit_ops(occ >> 1, VALID_PLACES, j);
        lemma_shift_bits(occ, j);
        lemma_valid_bit(j);
        lemma_fundamental_div_mod(j as int, 9);
        let c = j as int / 9;
        let r = j as int % 9;
        let j1 = (j + 1) as u64;
        assert(nth_bit(occ, j1));
        if r == 5 {
            lemma_bit_ops(occ, VALID_PLACES, j1);
            lemma_valid_bit(j1);
            lemma_split_index(j1 as int, c, 6);
            assert(false);
        } else {
            lemma_split_index(j1 as int, c, r + 1);
            assert(cell_index(c, r + 1) == j1);
            assert(has_stone(occ, c, r + 1));
            assert(has_stone(occ, c, r));
            assert(false);
        }
    }
}

/// A single stone set has exactly the one cell.
pub proof fn lemma_single_stone_cells(m: u64, c0: int, r0: int)
    requires
        single_stone(m, c0, r0),
    ensures
        forall|c: int, r: int| #[trigger] has_stone(m, c, r) <==> (c == c0 && r == r0),
{
    assert forall|c: int, r: int| #[trigger] has_stone(m, c, r) implies (c == c0 && r == r0) by {
        if c != c0 || r != r0 {
            let i = cell_index(c, r);
            let j = cell_index(c0, r0);
            lemma_cell_index_valid(c, r);
            lemma_cell_index_valid(c0, r0);
            assert(i != j);
            if i < j {
                assert(two_bits(m));
            } else {
                assert(two_bits(m));
            }
            assert(false);
        }
    }
    assert(has_stone(m, c0, r0));
}

proof fn lemma_count_change(b: u64, bm: u64, c0: int, r0: int, n: int)
    requires
        forall|c: int, r: int| #[trigger] has_stone(bm, c, r) <==> (has_stone(b, c, r) || (c == c0
            && r == r0)),
        !has_stone(b, c0, r0),
        in_grid(c0, r0),
        0 <= n <= 42,
    ensures
        count_upto(bm, n) == count_upto(b, n) + (if 6 * c0 + r0 < n {
            1int
        } else {
            0int
        }),
    decreases n,
{
    if n > 0 {
        lemma_count_change(b, bm, c0, r0, n - 1);
        let c = (n - 1) / 6;
        let r = (n - 1) % 6;
        lemma_fundamental_div_mod(n - 1, 6);
        if c == c0 && r == r0 {
            assert(n - 1 == 6 * c0 + r0);
        } else {
            assert(has_stone(bm, c, r) <==> has_stone(b, c, r));
            if n - 1 == 6 * c0 + r0 {
                lemma_fundamental_div_mod_converse_div(n - 1, 6, c0, r0);
                lemma_fundamental_div_mod_converse_mod(n - 1, 6, c0, r0);
                assert(false);
            }
        }
    }
}

/// Adding one stone on a free cell raises the stone count by one.
pub proof fn lemma_stone_count_add(b: u64, bm: u64, c0: int, r0: int)
    requires
        forall|c: int, r: int| #[trigger] has_stone(bm, c, r) <==> (has_stone(b, c, r) || (c == c0
            && r == r0)),
        !has_stone(b, c0, r0),
        in_grid(c0, r0),
    ensures
        stone_count(bm) == stone_count(b) + 1,
{
    lemma_count_change(b, bm, c0, r0, 42);
}

proof fn lemma_count_upto_bound(b: u64, n: int)
    requires
        0 <= n <= 42,
    ensures
        count_upto(b, n) <= n,
    decreases n,
{
    if n > 0 {
        lemma_count_upto_bound(b, n - 1);
    }
}

/// At most 42 stones fit on the board.
pub proof fn lemma_stone_count_bound(b: u64)
    ensures
        stone_count(b) <= 42,
{
    lemma_count_upto_bound(b, 42);
}

/// The four-direction fold of a completed-four detector, as computed by
/// the scalar win check.
pub open spec fn won_mask(x: u64) -> u64 {
    fold4(x, HOR_STRIDE) | fold4(x, VER_STRIDE) | fold4(x, DIAG_DOWN_STRIDE) | fold4(
        x,
        DIAG_UP_STRIDE,
    )
}

/// All cells lying on some completed four-in-a-row.
pub open spec fn wins_mask(x: u64) -> u64 {
    spread4(fold4(x, HOR_STRIDE), HOR_STRIDE) | spread4(fold4(x, VER_STRIDE), VER_STRIDE)
        | spread4(fold4(x, DIAG_DOWN_STRIDE), DIAG_DOWN_STRIDE) | spread4(
        fold4(x, DIAG_UP_STRIDE),
        DIAG_UP_STRIDE,
    )
}

/// All cells lying on a line of which exactly three cells are filled.
/// May carry extra bits on guard positions; only its in-field reading
/// on free cells is specified.
pub open spec fn threats_mask(x: u64) -> u64 {
    spread4(comb34(x, HOR_STRIDE), HOR_STRIDE) | spread4(comb34(x, VER_STRIDE), VER_STRIDE)
        | spread4(comb34(x, DIAG_DOWN_STRIDE), DIAG_DOWN_STRIDE) | spread4(
        comb34(x, DIAG_UP_STRIDE),
        DIAG_UP_STRIDE,
    )
}

proof fn lemma_stride_val(d: int)
    requires
        dir_ok(d),
    ensures
        stride_ok(dir_stride(d)),
        dir_stride(d) as int == 9 * dir_dc(d) + dir_dr(d),
        1 <= dir_stride(d) <= 10,
{
}

proof fn lemma_or4_bit(a: u64, b: u64, c: u64, d: u64, j: u64)
    requires
        j < 64,
    ensures
        nth_bit(a | b | c | d, j) <==> (nth_bit(a, j) || nth_bit(b, j) || nth_bit(c, j) || nth_bit(
            d,
            j,
        )),
{
    lemma_bit_ops(a, b, j);
    lemma_bit_ops(a | b, c, j);
    lemma_bit_ops((a | b) | c, d, j);
}

/// The `k`-th cell of a line sits `k` strides above the line's base
/// index.
proof fn lemma_line_cell_index(c0: int, r0: int, d: int, k: int)
    requires
        line_in_grid(c0, r0, d),
        0 <= k < 4,
    ensures
        in_grid(c0 + k * dir_dc(d), r0 + k * dir_dr(d)),
        cell_index(c0 + k * dir_dc(d), r0 + k * dir_dr(d)) as int == cell_index(c0, r0) as int + k
            * dir_stride(d),
{
    lemma_stride_val(d);
    let dc = dir_dc(d);
    let dr = dir_dr(d);
    assert(c0 <= c0 + k * dc && c0 + k * dc <= c0 + 3 * dc) by (nonlinear_arith)
        requires
            0 <= k < 4,
            0 <= dc,
    ;
    assert((dr >= 0 ==> r0 <= r0 + k * dr && r0 + k * dr <= r0 + 3 * dr) && (dr <= 0 ==> r0 + 3
        * dr <= r0 + k * dr && r0 + k * dr <= r0)) by (nonlinear_arith)
        requires
            0 <= k < 4,
    ;
    assert(9 * (c0 + k * dc) + (r0 + k * dr) == 9 * c0 + r0 + k * (9 * dc + dr))
        by (nonlinear_arith);
}

/// A filled line sets the fold bit at its base cell.
pub proof fn lemma_line_fold(x: u64, c0: int, r0: int, d: int)
    requires
        line_filled(x, c0, r0, d),
    ensures
        nth_bit(fold4(x, dir_stride(d)), cell_index(c0, r0)),
        fold4(x, dir_stride(d)) != 0,
{
    lemma_stride_val(d);
    let s = dir_stride(d);
    let i = cell_index(c0, r0);
    lemma_line_cell_index(c0, r0, d, 0);
    lemma_line_cell_index(c0, r0, d, 1);
    lemma_line_cell_index(c0, r0, d, 2);
    lemma_line_cell_index(c0, r0, d, 3);
    lemma_cell_index_valid(c0 + 3 * dir_dc(d), r0 + 3 * dir_dr(d));
    assert(cell_index(c0 + dir_dc(d), r0 + dir_dr(d)) == (i + s) as u64);
    assert(cell_index(c0 + 2 * dir_dc(d), r0 + 2 * dir_dr(d)) == (i + 2 * s) as u64);
    assert(cell_index(c0 + 3 * dir_dc(d), r0 + 3 * dir_dr(d)) == (i + 3 * s) as u64);
    lemma_fold4_bit(x, s, i);
    lemma_bit_ops(fold4(x, s), 0, i);
}

/// A set fold bit is the base cell of a filled line.
pub proof fn lemma_fold_line(x: u64, i: u64, d: int)
    requires
        x & !VALID_PLACES == 0,
        dir_ok(d),
        i < 64,
        nth_bit(fold4(x, dir_stride(d)), i),
    ensures
        line_filled(x, i as int / 9, i as int % 9, d),
{
    lemma_stride_val(d);
    let s = dir_stride(d);
    lemma_fold4_bit(x, s, i);
    let i1 = (i + s) as u64;
    let i2 = (i + 2 * s) as u64;
    let i3 = (i + 3 * s) as u64;
    lemma_valid_index_cell(x, i);
    lemma_valid_index_cell(x, i1);
    lemma_valid_index_cell(x, i2);
    lemma_valid_index_cell(x, i3);
    lemma_index_step(i, d);
    lemma_index_step(i1, d);
    lemma_index_step(i2, d);
}

/// The scalar win fold fires exactly on the positions with a completed
/// four-in-a-row.
pub proof fn lemma_won_iff(x: u64)
    requires
        x & !VALID_PLACES == 0,
    ensures
        won_mask(x) != 0 <==> has_four(x),
{
    if won_mask(x) != 0 {
        lemma_nonzero_has_bit(won_mask(x));
        let j = choose|j: u64| j < 64 && nth_bit(won_mask(x), j);
        lemma_or4_bit(
            fold4(x, HOR_STRIDE),
            fold4(x, VER_STRIDE),
            fold4(x, DIAG_DOWN_STRIDE),
            fold4(x, DIAG_UP_STRIDE),
            j,
        );
        if nth_bit(fold4(x, HOR_STRIDE), j) {
            lemma_fold_line(x, j, 0);
        } else if nth_bit(fold4(x, VER_STRIDE), j) {
            lemma_fold_line(x, j, 1);
        } else if nth_bit(fold4(x, DIAG_DOWN_STRIDE), j) {
            lemma_fold_line(x, j, 2);
        } else {
            lemma_fold_line(x, j, 3);
        }
    }
    if has_four(x) {
        let (c0, r0, d) = choose|c0: int, r0: int, d: int| line_filled(x, c0, r0, d);
        lemma_line_fold(x, c0, r0, d);
        lemma_stride_val(d);
        let i = cell_index(c0, r0);
        lemma_cell_index_valid(c0, r0);
        lemma_or4_bit(
            fold4(x, HOR_STRIDE),
            fold4(x, VER_STRIDE),
            fold4(x, DIAG_DOWN_STRIDE),
            fold4(x, DIAG_UP_STRIDE),
            i,
        );
        lemma_bit_ops(won_mask(x), 0, i);
    }
}

/// Each cell of a filled line is marked by the spread of the win fold.
proof fn lemma_spread_line_bit(x: u64, c0: int, r0: int, d: int, k: int)
    requires
        line_filled(x, c0, r0, d),
        0 <= k < 4,
    ensures
        nth_bit(
            spread4(fold4(x, dir_stride(d)), dir_stride(d)),
            cell_index(c0 + k * dir_dc(d), r0 + k * dir_dr(d)),
        ),
{
    lemma_stride_val(d);
    let s = dir_stride(d);
    let i = cell_index(c0, r0);
    lemma_line_fold(x, c0, r0, d);
    lemma_line_cell_index(c0, r0, d, k);
    let j = cell_index(c0 + k * dir_dc(d), r0 + k * dir_dr(d));
    assert(j as int == i as int + k * s) by (nonlinear_arith)
        requires
            j as int == cell_index(c0, r0) as int + k * dir_stride(d),
            i == cell_index(c0, r0),
            s == dir_stride(d),
    ;
    lemma_cell_index_valid(c0 + k * dir_dc(d), r0 + k * dir_dr(d));
    lemma_spread4_bit(fold4(x, s), s, j);
    if k == 0 {
    } else if k == 1 {
        assert(j >= s && (j - s) as u64 == i);
    } else if k == 2 {
        assert(j >= 2 * s && (j - 2 * s) as u64 == i);
    } else {
        assert(j >= 3 * s && (j - 3 * s) as u64 == i);
    }
}

/// A bit marked by the spread of the win fold lies on a filled line.
proof fn lemma_spread_bit_line(x: u64, d: int, j: u64)
    requires
        x & !VALID_PLACES == 0,
        dir_ok(d),
        j < 64,
        nth_bit(spread4(fold4(x, dir_stride(d)), dir_stride(d)), j),
    ensures
        nth_bit(VALID_PLACES, j),
        on_filled_line(x, j as int / 9, j as int % 9),
{
    lemma_stride_val(d);
    let s = dir_stride(d);
    lemma_spread4_bit(fold4(x, s), s, j);
    let k: int = if nth_bit(fold4(x, s), j) {
        0
    } else if j >= s && nth_bit(fold4(x, s), (j - s) as u64) {
        1
    } else if j >= 2 * s && nth_bit(fold4(x, s), (j - 2 * s) as u64) {
        2
    } else {
        3
    };
    let i0 = (j - k * s) as u64;
    lemma_fold_line(x, i0, d);
    let c0 = i0 as int / 9;
    let r0 = i0 as int % 9;
    lemma_valid_index_cell(x, i0);
    lemma_line_cell_index(c0, r0, d, k);
    assert(cell_index(c0 + k * dir_dc(d), r0 + k * dir_dr(d)) as int == i0 as int + k * s)
        by (nonlinear_arith)
        requires
            cell_index(c0 + k * dir_dc(d), r0 + k * dir_dr(d)) as int == cell_index(c0, r0) as int
                + k * dir_stride(d),
            cell_index(c0, r0) == i0,
            s == dir_stride(d),
    ;
    assert(i0 as int + k * s == j as int) by (nonlinear_arith)
        requires
            i0 == (j - k * s) as u64,
            0 <= k < 4,
            1 <= s <= 10,
            j < 64,
            j >= k * s,
    ;
    lemma_cell_index_valid(c0 + k * dir_dc(d), r0 + k * dir_dr(d));
    assert(line_filled_except(x, c0, r0, d, k));
}

/// Per-cell reading of the wins mask: a cell is marked exactly when it
/// lies on a completed four-in-a-row. The mask carries no stray bits.
pub proof fn lemma_wins_mask_char(x: u64)
    requires
        x & !VALID_PLACES == 0,
    ensures
        wins_mask(x) & !VALID_PLACES == 0,
        forall|c: int, r: int| in_grid(c, r) ==> (#[trigger] nth_bit(wins_mask(x), cell_index(c, r))
            <==> on_filled_line(x, c, r)),
{
    let w = wins_mask(x);
    if w & !VALID_PLACES != 0 {
        lemma_nonzero_has_bit(w & !VALID_PLACES);
        let j = choose|j: u64| j < 64 && nth_bit(w & !VALID_PLACES, j);
        lemma_bit_ops(w, VALID_PLACES, j);
        lemma_or4_bit(
            spread4(fold4(x, HOR_STRIDE), HOR_STRIDE),
            spread4(fold4(x, VER_STRIDE), VER_STRIDE),
            spread4(fold4(x, DIAG_DOWN_STRIDE), DIAG_DOWN_STRIDE),
            spread4(fold4(x, DIAG_UP_STRIDE), DIAG_UP_STRIDE),
            j,
        );
        if nth_bit(spread4(fold4(x, HOR_STRIDE), HOR_STRIDE), j) {
            lemma_spread_bit_line(x, 0, j);
        } else if nth_bit(spread4(fold4(x, VER_STRIDE), VER_STRIDE), j) {
            lemma_spread_bit_line(x, 1, j);
        } else if nth_bit(spread4(fold4(x, DIAG_DOWN_STRIDE), DIAG_DOWN_STRIDE), j) {
            lemma_spread_bit_line(x, 2, j);
        } else {
            lemma_spread_bit_line(x, 3, j);
        }
        assert(false);
    }
    assert forall|c: int, r: int| in_grid(c, r) implies (#[trigger] nth_bit(
        w,
        cell_index(c, r),
    ) <==> on_filled_line(x, c, r)) by {
        let j = cell_index(c, r);
        lemma_cell_index_valid(c, r);
        lemma_or4_bit(
            spread4(fold4(x, HOR_STRIDE), HOR_STRIDE),
            spread4(fold4(x, VER_STRIDE), VER_STRIDE),
            spread4(fold4(x, DIAG_DOWN_STRIDE), DIAG_DOWN_STRIDE),
            spread4(fold4(x, DIAG_UP_STRIDE), DIAG_UP_STRIDE),
            j,
        );
        if nth_bit(w, j) {
            if nth_bit(spread4(fold4(x, HOR_STRIDE), HOR_STRIDE), j) {
                lemma_spread_bit_line(x, 0, j);
            } else if nth_bit(spread4(fold4(x, VER_STRIDE), VER_STRIDE), j) {
                lemma_spread_bit_line(x, 1, j);
            } else if nth_bit(spread4(fold4(x, DIAG_DOWN_STRIDE), DIAG_DOWN_STRIDE), j) {
                lemma_spread_bit_line(x, 2, j);
            } else {
                lemma_spread_bit_line(x, 3, j);
            }
        }
        if on_filled_line(x, c, r) {
            let (c0, r0, d, k) = choose|c0: int, r0: int, d: int, k: int|
                #![trigger line_filled_except(x, c0, r0, d, k)]
                line_filled(x, c0, r0, d) && line_filled_except(x, c0, r0, d, k) && c == c0 + k
                    * dir_dc(d) && r == r0 + k * dir_dr(d);
            lemma_spread_line_bit(x, c0, r0, d, k);
            lemma_stride_val(d);
            if d == 0 {
            } else if d == 1 {
            } else if d == 2 {
            } else {
            }
        }
    }
}

/// A valid bit position is a grid cell.
pub proof fn lemma_valid_pos_grid(i: u64)
    requires
        i < 64,
        nth_bit(VALID_PLACES, i),
    ensures
        in_grid(i as int / 9, i as int % 9),
        cell_index(i as int / 9, i as int % 9) == i,
{
    lemma_valid_bit(i);
    lemma_fundamental_div_mod(i as int, 9);
}

/// A line missing exactly its `k`-th cell sets the three-of-four fold
/// at its base, and the spread marks the missing cell.
pub proof fn lemma_threat_complete(x: u64, c0: int, r0: int, d: int, k: int)
    requires
        line_filled_except(x, c0, r0, d, k),
        !has_stone(x, c0 + k * dir_dc(d), r0 + k * dir_dr(d)),
    ensures
        nth_bit(
            spread4(comb34(x, dir_stride(d)), dir_stride(d)),
            cell_index(c0 + k * dir_dc(d), r0 + k * dir_dr(d)),
        ),
{
    lemma_stride_val(d);
    let s = dir_stride(d);
    let i = cell_index(c0, r0);
    lemma_line_cell_index(c0, r0, d, 0);
    lemma_line_cell_index(c0, r0, d, 1);
    lemma_line_cell_index(c0, r0, d, 2);
    lemma_line_cell_index(c0, r0, d, 3);
    assert(cell_index(c0 + dir_dc(d), r0 + dir_dr(d)) == (i + s) as u64);
    assert(cell_index(c0 + 2 * dir_dc(d), r0 + 2 * dir_dr(d)) == (i + 2 * s) as u64);
    assert(cell_index(c0 + 3 * dir_dc(d), r0 + 3 * dir_dr(d)) == (i + 3 * s) as u64);
    assert(exactly_three(x, s, i));
    lemma_comb34_bit(x, s, i);
    let j = cell_index(c0 + k * dir_dc(d), r0 + k * dir_dr(d));
    lemma_cell_index_valid(c0 + k * dir_dc(d), r0 + k * dir_dr(d));
    lemma_spread4_bit(comb34(x, s), s, j);
    if k == 0 {
    } else if k == 1 {
        assert(j >= s && (j - s) as u64 == i);
    } else if k == 2 {
        assert(j >= 2 * s && (j - 2 * s) as u64 == i);
    } else {
        assert(j >= 3 * s && (j - 3 * s) as u64 == i);
    }
}

/// A spread three-of-four bit on a free in-field cell marks a cell
/// whose occupation would complete a four-in-a-row.
proof fn lemma_threat_sound(x: u64, d: int, j: u64)
    requires
        x & !VALID_PLACES == 0,
        dir_ok(d),
        j < 64,
        nth_bit(VALID_PLACES, j),
        !nth_bit(x, j),
        nth_bit(spread4(comb34(x, dir_stride(d)), dir_stride(d)), j),
    ensures
        completes_four(x, j as int / 9, j as int % 9),
{
    lemma_stride_val(d);
    let s = dir_stride(d);
    lemma_spread4_bit(comb34(x, s), s, j);
    let k: int = if nth_bit(comb34(x, s), j) {
        0
    } else if j >= s && nth_bit(comb34(x, s), (j - s) as u64) {
        1
    } else if j >= 2 * s && nth_bit(comb34(x, s), (j - 2 * s) as u64) {
        2
    } else {
        3
    };
    let i0 = (j - k * s) as u64;
    assert(nth_bit(comb34(x, s), i0));
    assert(i0 as int == j - k * s);
    lemma_comb34_bit(x, s, i0);
    assert(exactly_three(x, s, i0));
    let w0 = i0;
    let w1 = (i0 + s) as u64;
    let w2 = (i0 + 2 * s) as u64;
    let w3 = (i0 + 3 * s) as u64;
    assert(j == if k == 0 {
        w0
    } else if k == 1 {
        w1
    } else if k == 2 {
        w2
    } else {
        w3
    });
    lemma_bit_ops(x, x, w0);
    lemma_bit_ops(x, x, w1);
    lemma_bit_ops(x, x, w2);
    lemma_bit_ops(x, x, w3);
    assert(k != 0 ==> nth_bit(x, w0));
    assert(k != 1 ==> nth_bit(x, w1));
    assert(k != 2 ==> nth_bit(x, w2));
    assert(k != 3 ==> nth_bit(x, w3));
    if k != 0 {
        lemma_valid_index_cell(x, w0);
    }
    if k != 1 {
        lemma_valid_index_cell(x, w1);
    }
    if k != 2 {
        lemma_valid_index_cell(x, w2);
    }
    if k != 3 {
        lemma_valid_index_cell(x, w3);
    }
    lemma_index_step(w0, d);
    lemma_index_step(w1, d);
    lemma_index_step(w2, d);
    let c0 = w0 as int / 9;
    let r0 = w0 as int % 9;
    lemma_valid_pos_grid(w0);
    lemma_valid_pos_grid(w1);
    lemma_valid_pos_grid(w2);
    lemma_valid_pos_grid(w3);
    assert(in_grid(c0, r0));
    assert(line_in_grid(c0, r0, d));
    assert(line_filled_except(x, c0, r0, d, k));
    assert(j as int / 9 == c0 + k * dir_dc(d) && j as int % 9 == r0 + k * dir_dr(d));
}

/// Per-cell reading of the threat mask on free cells: such a cell is
/// marked exactly when a stone there would complete a four-in-a-row.
pub proof fn lemma_threats_mask_char(x: u64)
    requires
        x & !VALID_PLACES == 0,
    ensures
        forall|c: int, r: int| in_grid(c, r) && !has_stone(x, c, r) ==> (#[trigger] nth_bit(
            threats_mask(x),
            cell_index(c, r),
        ) <==> completes_four(x, c, r)),
{
    assert forall|c: int, r: int| in_grid(c, r) && !has_stone(x, c, r) implies (#[trigger] nth_bit(
        threats_mask(x),
        cell_index(c, r),
    ) <==> completes_four(x, c, r)) by {
        let j = cell_index(c, r);
        lemma_cell_index_valid(c, r);
        lemma_or4_bit(
            spread4(comb34(x, HOR_STRIDE), HOR_STRIDE),
            spread4(comb34(x, VER_STRIDE), VER_STRIDE),
            spread4(comb34(x, DIAG_DOWN_STRIDE), DIAG_DOWN_STRIDE),
            spread4(comb34(x, DIAG_UP_STRIDE), DIAG_UP_STRIDE),
            j,
        );
        if nth_bit(threats_mask(x), j) {
            if nth_bit(spread4(comb34(x, HOR_STRIDE), HOR_STRIDE), j) {
                lemma_threat_sound(x, 0, j);
            } else if nth_bit(spread4(comb34(x, VER_STRIDE), VER_STRIDE), j) {
                lemma_threat_sound(x, 1, j);
            } else if nth_bit(spread4(comb34(x, DIAG_DOWN_STRIDE), DIAG_DOWN_STRIDE), j) {
                lemma_threat_sound(x, 2, j);
            } else {
                lemma_threat_sound(x, 3, j);
            }
        }
        if completes_four(x, c, r) {
            let (c0, r0, d, k) = choose|c0: int, r0: int, d: int, k: int|
                #![trigger line_filled_except(x, c0, r0, d, k)]
                line_filled_except(x, c0, r0, d, k) && c == c0 + k * dir_dc(d) && r == r0 + k
                    * dir_dr(d);
            lemma_threat_complete(x, c0, r0, d, k);
            lemma_stride_val(d);
        }
    }
}

/// Per-cell reading of the move mask: the lowest free cell of each
/// column qualifies, and nothing else.
pub proof fn lemma_moves_cell(occ: u64, c: int, r: int)
    requires
        occ & !VALID_PLACES == 0,
        in_grid(c, r),
    ensures
        nth_bit(moves_mask(occ), cell_index(c, r)) <==> (!has_stone(occ, c, r) && (r == 0
            || has_stone(occ, c, r - 1))),
{
    let j = cell_index(c, r);
    lemma_cell_index_valid(c, r);
    let a = (occ << 1) | BOTTOM_ROW;
    lemma_bit_ops(a & !occ, VALID_PLACES, j);
    lemma_bit_ops(a, occ, j);
    lemma_bit_ops(occ << 1, BOTTOM_ROW, j);
    lemma_shift_bits(occ, j);
    lemma_valid_bit(j);
    if r == 0 {
        assert(nth_bit(BOTTOM_ROW, j));
        if c >= 1 {
            assert(j as int - 1 == 9 * (c - 1) + 8);
            lemma_split_index(j as int - 1, c - 1, 8);
            lemma_bit_ops(occ, VALID_PLACES, (j - 1) as u64);
            lemma_valid_bit((j - 1) as u64);
            assert(!nth_bit(occ, (j - 1) as u64));
        }
    } else {
        assert(!nth_bit(BOTTOM_ROW, j));
        assert(cell_index(c, r - 1) == (j - 1) as u64);
    }
}

/// Playing `(c, r)` is both a candidate move and completes one of the
/// opponent's fours: an immediately winning reply.
pub open spec fn is_direct_win(opp: u64, moves: u64, c: int, r: int) -> bool {
    has_stone(moves, c, r) && completes_four(opp, c, r)
}

pub open spec fn some_direct_win(opp: u64, moves: u64) -> bool {
    exists|c: int, r: int| #[trigger] is_direct_win(opp, moves, c, r)
}

/// Two distinct immediately winning replies: no single move can block
/// both.
pub open spec fn two_direct_wins(opp: u64, moves: u64) -> bool {
    exists|c1: int, r1: int, c2: int, r2: int|
        #![trigger is_direct_win(opp, moves, c1, r1), is_direct_win(opp, moves, c2, r2)]
        is_direct_win(opp, moves, c1, r1) && is_direct_win(opp, moves, c2, r2) && !(c1 == c2 && r1
            == r2)
}

/// The safety filter keeps a candidate move when it does not sit
/// right below an opponent threat and, if the opponent has a winning
/// reply at all, blocks it.
pub open spec fn safe_kept(opp: u64, moves: u64, c: int, rr: int) -> bool {
    has_stone(moves, c, rr) && !completes_four(opp, c, rr + 1) && (some_direct_win(opp, moves)
        ==> completes_four(opp, c, rr))
}

/// Some candidate move survives the safety filter.
pub open spec fn any_safe(opp: u64, moves: u64) -> bool {
    !two_direct_wins(opp, moves) && exists|c: int, rr: int|
        #![trigger safe_kept(opp, moves, c, rr)]
        in_grid(c, rr) && safe_kept(opp, moves, c, rr)
}

/// The exact word the safety filter computes: nothing when the
/// opponent has two immediately winning replies; the forced block,
/// minus poisoned cells, when it has one; otherwise the candidate
/// moves minus the cells right below an opponent threat.
pub open spec fn safe_mask(opp: u64, moves: u64) -> u64 {
    let direct = threats_mask(opp) & moves;
    let poisoned = (threats_mask(opp) & VALID_PLACES) >> 1;
    if two_bits(direct) {
        0
    } else if direct != 0 {
        direct & !poisoned
    } else {
        moves & !poisoned
    }
}

proof fn lemma_count_upto_missing(b: u64, c0: int, r0: int, n: int)
    requires
        in_grid(c0, r0),
        !has_stone(b, c0, r0),
        6 * c0 + r0 < n,
        0 <= n <= 42,
    ensures
        count_upto(b, n) < n,
    decreases n,
{
    lemma_fundamental_div_mod(n - 1, 6);
    if n - 1 == 6 * c0 + r0 {
        lemma_fundamental_div_mod_converse_div(n - 1, 6, c0, r0);
        lemma_fundamental_div_mod_converse_mod(n - 1, 6, c0, r0);
        lemma_count_upto_bound(b, n - 1);
    } else {
        lemma_count_upto_missing(b, c0, r0, n - 1);
    }
}

/// While a candidate move exists, the board is not full.
pub proof fn lemma_moves_mean_room(occ: u64)
    requires
        occ & !VALID_PLACES == 0,
        moves_mask(occ) != 0,
    ensures
        stone_count(occ) < 42,
{
    lemma_nonzero_has_bit(moves_mask(occ));
    let j = choose|j: u64| j < 64 && nth_bit(moves_mask(occ), j);
    lemma_moves_mask_basic(occ);
    lemma_valid_index_cell(moves_mask(occ), j);
    let c = j as int / 9;
    let r = j as int % 9;
    lemma_moves_cell(occ, c, r);
    lemma_count_upto_missing(occ, c, r, 42);
}

/// A completing cell lies on the board.
pub proof fn lemma_completes_in_grid(b: u64, c: int, r: int)
    requires
        completes_four(b, c, r),
    ensures
        in_grid(c, r),
{
    let (c0, r0, d, k) = choose|c0: int, r0: int, d: int, k: int|
        #![trigger line_filled_except(b, c0, r0, d, k)]
        line_filled_except(b, c0, r0, d, k) && c == c0 + k * dir_dc(d) && r == r0 + k * dir_dr(d);
    lemma_line_cell_index(c0, r0, d, k);
}

/// Stones on two distinct cells mean two set bits.
pub proof fn lemma_two_cells_two_bits(x: u64, c1: int, r1: int, c2: int, r2: int)
    requires
        has_stone(x, c1, r1),
        has_stone(x, c2, r2),
        !(c1 == c2 && r1 == r2),
    ensures
        two_bits(x),
{
    lemma_cell_index_valid(c1, r1);
    lemma_cell_index_valid(c2, r2);
    let i = cell_index(c1, r1);
    let j = cell_index(c2, r2);
    assert(i != j);
    if i < j {
        assert(nth_bit(x, i) && nth_bit(x, j));
    } else {
        assert(nth_bit(x, j) && nth_bit(x, i));
    }
}

/// A union holds a stone where either part does.
pub proof fn lemma_or_cells(a: u64, b: u64)
    ensures
        forall|c: int, r: int| #[trigger] has_stone(a | b, c, r) <==> (has_stone(a, c, r)
            || has_stone(b, c, r)),
{
    assert forall|c: int, r: int| #[trigger] has_stone(a | b, c, r) <==> (has_stone(a, c, r)
        || has_stone(b, c, r)) by {
        if in_grid(c, r) {
            lemma_cell_index_valid(c, r);
            lemma_bit_ops(a, b, cell_index(c, r));
        }
    }
}

/// The empty word has no stones and counts zero.
pub proof fn lemma_no_stones_zero(n: int)
    requires
        0 <= n <= 42,
    ensures
        count_upto(0u64, n) == 0,
        forall|c: int, r: int| !(#[trigger] has_stone(0u64, c, r)),
    decreases n,
{
    assert forall|c: int, r: int| !(#[trigger] has_stone(0u64, c, r)) by {
        if in_grid(c, r) {
            lemma_bit_ops(0u64, 0u64, cell_index(c, r));
        }
    }
    if n > 0 {
        lemma_no_stones_zero(n - 1);
    }
}

/// The cell directly above a candidate move is always free.
pub proof fn lemma_moves_above_free(occ: u64)
    requires
        occ & !VALID_PLACES == 0,
        stacked(occ),
    ensures
        (moves_mask(occ) << 1) & occ == 0,
{
    let w = (moves_mask(occ) << 1) & occ;
    if w != 0 {
        lemma_nonzero_has_bit(w);
        let j = choose|j: u64| j < 64 && nth_bit(w, j);
        lemma_bit_ops(moves_mask(occ) << 1, occ, j);
        lemma_shift_bits(moves_mask(occ), j);
        lemma_moves_mask_basic(occ);
        lemma_valid_index_cell(moves_mask(occ), (j - 1) as u64);
        let c = (j - 1) as int / 9;
        let r = (j - 1) as int % 9;
        lemma_moves_cell(occ, c, r);
        if r == 5 {
            lemma_bit_ops(occ, VALID_PLACES, j);
            lemma_valid_bit(j);
            lemma_split_index(j as int, c, 6);
            assert(false);
        } else {
            assert(cell_index(c, r + 1) == j);
            assert(has_stone(occ, c, r + 1));
            assert(has_stone(occ, c, r));
            assert(false);
        }
    }
}

/// A move mask restricted to one column keeps at most one bit: each
/// column has at most one lowest free cell.
pub proof fn lemma_column_move_single(occ: u64, y: u64, c: u64)
    requires
        occ & !VALID_PLACES == 0,
        stacked(occ),
        y & !moves_mask(occ) == 0,
        c < 7,
    ensures
        !two_bits(y & column_mask(c)),
        (y & column_mask(c)) & !moves_mask(occ) == 0,
        (y & column_mask(c)) & !VALID_PLACES == 0,
{
    let m = y & column_mask(c);
    lemma_mask_algebra(y, column_mask(c), moves_mask(occ));
    lemma_moves_mask_basic(occ);
    lemma_mask_algebra(m, moves_mask(occ), VALID_PLACES);
    if two_bits(m) {
        let (i, j) = choose|i: u64, j: u64|
            #![trigger nth_bit(m, i), nth_bit(m, j)]
            i < j && j < 64 && nth_bit(m, i) && nth_bit(m, j);
        lemma_column_mask_bit(y, c, i);
        lemma_column_mask_bit(y, c, j);
        lemma_valid_index_cell(m, i);
        lemma_valid_index_cell(m, j);
        let r1 = i as int % 9;
        let r2 = j as int % 9;
        lemma_bit_ops(m, moves_mask(occ), i);
        lemma_bit_ops(m, moves_mask(occ), j);
        lemma_moves_cell(occ, c as int, r1);
        lemma_moves_cell(occ, c as int, r2);
        assert(r1 != r2);
        if r1 < r2 {
            lemma_stacked_down(occ, c as int, r2 - 1, r1);
        } else {
            lemma_stacked_down(occ, c as int, r1 - 1, r2);
        }
        assert(false);
    }
}

proof fn lemma_find_move(occ: u64, c: u64, r: u64)
    requires
        occ & !VALID_PLACES == 0,
        stacked(occ),
        c < 7,
        r < 6,
        !has_stone(occ, c as int, r as int),
    ensures
        (moves_mask(occ) & column_mask(c)) != 0,
    decreases r,
{
    if r > 0 && !has_stone(occ, c as int, r as int - 1) {
        lemma_find_move(occ, c, (r - 1) as u64);
    } else {
        lemma_moves_cell(occ, c as int, r as int);
        lemma_cell_index_valid(c as int, r as int);
        let j = cell_index(c as int, r as int);
        lemma_column_mask_bit(moves_mask(occ), c, j);
        lemma_bit_ops(moves_mask(occ) & column_mask(c), 0, j);
    }
}

/// A column offers a candidate move exactly while it is not full; in
/// particular every column of the empty board is open, and a column
/// whose top cell is taken yields nothing.
pub proof fn lemma_column_open_iff_move(occ: u64, c: u64)
    requires
        occ & !VALID_PLACES == 0,
        stacked(occ),
        c < 7,
    ensures
        (moves_mask(occ) & column_mask(c)) != 0 <==> !has_stone(occ, c as int, 5),
{
    if !has_stone(occ, c as int, 5) {
        lemma_find_move(occ, c, 5);
    }
    if has_stone(occ, c as int, 5) && (moves_mask(occ) & column_mask(c)) != 0 {
        lemma_nonzero_has_bit(moves_mask(occ) & column_mask(c));
        let j = choose|j: u64| j < 64 && nth_bit(moves_mask(occ) & column_mask(c), j);
        lemma_column_mask_bit(moves_mask(occ), c, j);
        lemma_moves_mask_basic(occ);
        lemma_valid_index_cell(moves_mask(occ), j);
        let r = j as int % 9;
        lemma_moves_cell(occ, c as int, r);
        lemma_stacked_down(occ, c as int, 5, r);
        assert(false);
    }
}

/// Some cell of `m` lies on a four-cell line wholly contained in `x`.
pub open spec fn meets_line(x: u64, m: u64) -> bool {
    exists|c: int, r: int|
        #![trigger has_stone(m, c, r)]
        has_stone(m, c, r) && on_filled_line(x, c, r)
}

/// A surviving bit of one direction's fold-and-gather word names a
/// line of `x` with a cell of `m` on it.
pub proof fn lemma_fold_gather_line(x: u64, m: u64, d: int, i: u64)
    requires
        x & !VALID_PLACES == 0,
        m & !VALID_PLACES == 0,
        dir_ok(d),
        i < 64,
        nth_bit(fold4(x, dir_stride(d)) & crate::bits::gather4(m, dir_stride(d)), i),
    ensures
        meets_line(x, m),
{
    lemma_stride_val(d);
    let s = dir_stride(d);
    lemma_bit_ops(fold4(x, s), crate::bits::gather4(m, s), i);
    crate::bits::lemma_gather4_bit(m, s, i);
    lemma_fold_line(x, i, d);
    let c0 = i as int / 9;
    let r0 = i as int % 9;
    let k: int = if nth_bit(m, i) {
        0
    } else if nth_bit(m, (i + s) as u64) {
        1
    } else if nth_bit(m, (i + 2 * s) as u64) {
        2
    } else {
        3
    };
    lemma_line_cell_index(c0, r0, d, k);
    lemma_valid_index_cell(x, i);
    let cm = c0 + k * dir_dc(d);
    let rm = r0 + k * dir_dr(d);
    assert(cell_index(cm, rm) as int == i + k * s) by (nonlinear_arith)
        requires
            cell_index(cm, rm) as int == cell_index(c0, r0) as int + k * dir_stride(d),
            cell_index(c0, r0) == i,
            s == dir_stride(d),
    ;
    assert(has_stone(m, cm, rm));
    assert(line_filled_except(x, c0, r0, d, k));
    assert(on_filled_line(x, cm, rm));
}

/// Conversely, a line of `x` through a cell of `m` leaves a surviving
/// bit in that direction's fold-and-gather word.
pub proof fn lemma_line_fold_gather(x: u64, m: u64, c0: int, r0: int, d: int, k: int)
    requires
        line_filled(x, c0, r0, d),
        0 <= k < 4,
        has_stone(m, c0 + k * dir_dc(d), r0 + k * dir_dr(d)),
    ensures
        fold4(x, dir_stride(d)) & crate::bits::gather4(m, dir_stride(d)) != 0,
{
    lemma_stride_val(d);
    let s = dir_stride(d);
    let i = cell_index(c0, r0);
    lemma_line_fold(x, c0, r0, d);
    lemma_line_cell_index(c0, r0, d, k);
    assert(cell_index(c0 + k * dir_dc(d), r0 + k * dir_dr(d)) as int == i + k * s)
        by (nonlinear_arith)
        requires
            cell_index(c0 + k * dir_dc(d), r0 + k * dir_dr(d)) as int == cell_index(
                c0,
                r0,
            ) as int + k * dir_stride(d),
            i == cell_index(c0, r0),
            s == dir_stride(d),
    ;
    lemma_cell_index_valid(c0, r0);
    crate::bits::lemma_gather4_bit(m, s, i);
    assert(nth_bit(crate::bits::gather4(m, s), i));
    lemma_bit_ops(fold4(x, s), crate::bits::gather4(m, s), i);
    lemma_bit_ops(fold4(x, s) & crate::bits::gather4(m, s), 0, i);
}

/// Two words with the same stones have the same count.
pub proof fn lemma_count_same(a: u64, b: u64, n: int)
    requires
        forall|c: int, r: int| #[trigger] has_stone(a, c, r) <==> has_stone(b, c, r),
        0 <= n <= 42,
    ensures
        count_upto(a, n) == count_upto(b, n),
    decreases n,
{
    if n > 0 {
        lemma_count_same(a, b, n - 1);
        assert(has_stone(a, (n - 1) / 6, (n - 1) % 6) <==> has_stone(b, (n - 1) / 6, (n - 1) % 6));
    }
}

} // verus!
