//! One player's stones as a bit-packed word, with the branchless
//! pattern detectors: completed fours, threat cells, legal moves,
//! left-right reflection and the colorless reduction used for cache
//! keys. Each detector's contract reads the result back over grid
//! cells and lines.

use vstd::prelude::*;
use crate::bits::{
    nth_bit, two_bits, drop_low_bit, wrap_dec, fold4, spread4, comb34, gather4, moves_mask,
    mirror_mask, column_mask, popcount, ones_below, VALID_PLACES, BOTTOM_ROW, FIRST_COLUMN,
    HOR_STRIDE, VER_STRIDE, DIAG_DOWN_STRIDE, DIAG_UP_STRIDE, lemma_bit_ops, lemma_one_bit,
    lemma_mask_algebra, lemma_drop_low_bit_two, lemma_moves_mask_eq, lemma_mirror_bits,
    lemma_nonzero_has_bit, lemma_ones_below_bound, lemma_shift_bits, lemma_valid_bit,
    lemma_popcount_zero,
};
use crate::cells::{
    in_grid, cell_index, has_stone, has_four, on_filled_line, completes_four, stacked,
    wins_mask, threats_mask, safe_mask, can_complete, free_mask, meets_line, is_direct_win,
    some_direct_win, two_direct_wins, dir_dc, dir_dr, dir_stride, line_filled, line_filled_except,
    lemma_fold_gather_line, lemma_line_fold_gather,
    lemma_cell_index_valid, lemma_valid_index_cell, lemma_won_iff,
    lemma_wins_mask_char, lemma_threats_mask_char, lemma_stacked_bridge, lemma_two_cells_two_bits,
    lemma_completes_in_grid, lemma_split_index,
};

verus! {

/// One player's occupied cells, bit-packed over the padded grid.
#[derive(Copy, Clone, PartialEq, Eq, Structural)]
pub struct BitBoard {
    pub board: u64,
}

/// The word stays within the 42 playing cells.
pub open spec fn in_field(b: BitBoard) -> bool {
    b.board & !VALID_PLACES == 0
}

/// The stone set with no stones.
pub fn empty() -> (r: BitBoard)
    ensures
        r.board == 0,
{
    BitBoard { board: 0 }
}

/// Builds a stone set directly from a raw bit pattern; used by tests
/// and experiments, never by the solver itself.
pub fn random(seed: u64) -> (r: BitBoard)
    ensures
        r.board == seed,
{
    BitBoard { board: seed }
}

/// One direction's four-in-a-row fold: bit `i` survives iff bits `i`,
/// `i+s`, `i+2s`, `i+3s` are all set.
fn and4r(x: u64, stride: u64) -> (r: u64)
    requires
        1 <= stride <= 10,
    ensures
        r == fold4(x, stride),
{
    let and2 = x & (x >> stride);
    and2 & (and2 >> (2 * stride))
}

/// Widens each surviving fold bit back over its whole four-cell window
/// (upward shifts).
fn or4l(x: u64, stride: u64) -> (r: u64)
    requires
        1 <= stride <= 10,
    ensures
        r == spread4(x, stride),
{
    let or2 = x | (x << stride);
    or2 | (or2 << (2 * stride))
}

/// Downward variant of the widening, used by the ordering heuristic.
fn or4r(x: u64, stride: u64) -> (r: u64)
    requires
        1 <= stride <= 10,
    ensures
        r == gather4(x, stride),
{
    let or2 = x | (x >> stride);
    or2 | (or2 >> (2 * stride))
}

/// Three-of-four fold: bit `i` survives iff exactly three of the four
/// window bits `i`, `i+s`, `i+2s`, `i+3s` are set.
fn comb34_fold(x: u64, stride: u64) -> (r: u64)
    requires
        1 <= stride <= 10,
    ensures
        r == comb34(x, stride),
{
    let and2 = x & (x >> stride);
    let xor2 = x ^ (x >> stride);
    // Patterns with the first two bits set and exactly one of the last two.
    let b21 = and2 & (xor2 >> (2 * stride));
    // Patterns with the last two bits set and exactly one of the first two.
    let b12 = xor2 & (and2 >> (2 * stride));
    b21 | b12
}

/// Number of set bits, by a plain scan over the 64 positions.
fn count_bits(x: u64) -> (r: u32)
    ensures
        r == popcount(x),
        r <= 64,
{
    let mut acc: u32 = 0;
    let mut i: u64 = 0;
    while i < 64
        invariant
            i <= 64,
            acc == ones_below(x, i as int),
            acc <= i,
        decreases 64 - i,
    {
        if (x >> i) & 1 == 1 {
            acc = acc + 1;
        }
        assert(nth_bit(x, i) <==> (x >> i) & 1 == 1);
        i = i + 1;
    }
    proof {
        lemma_ones_below_bound(x, 64);
    }
    acc
}

impl BitBoard {
    pub fn raw(self) -> (r: u64)
        ensures
            r == self.board,
    {
        self.board
    }

    /// Whether the set holds no stone at all.
    pub fn empty(self) -> (r: bool)
        ensures
            r == (self.board == 0),
    {
        self.board == 0
    }

    /// Toggles the single cell `(col, row)`.
    pub fn flip(self, col: u64, row: u64) -> (r: BitBoard)
        requires
            col < 7,
            row < 6,
        ensures
            r.board == self.board ^ (1u64 << (9 * col + row) as u64),
            in_field(self) ==> in_field(r),
            forall|c: int, rr: int| in_grid(c, rr) ==> (#[trigger] has_stone(r.board, c, rr)
                <==> (if c == col as int && rr == row as int {
                    !has_stone(self.board, c, rr)
                } else {
                    has_stone(self.board, c, rr)
                })),
    {
        let i = col * HOR_STRIDE + row * VER_STRIDE;
        proof {
            lemma_cell_index_valid(col as int, row as int);
            lemma_one_bit(VALID_PLACES, i, i);
            if in_field(self) {
                lemma_one_bit(self.board, i, i);
                lemma_bit_ops(0, 0, 0);
                assert((self.board ^ (1u64 << i)) & !VALID_PLACES == (self.board & !VALID_PLACES)
                    ^ ((1u64 << i) & !VALID_PLACES));
                assert((self.board & !VALID_PLACES) ^ ((1u64 << i) & !VALID_PLACES) == 0);
            }
            assert forall|c: int, rr: int| in_grid(c, rr) implies (#[trigger] has_stone(
                self.board ^ (1u64 << i),
                c,
                rr,
            ) <==> (if c == col as int && rr == row as int {
                !has_stone(self.board, c, rr)
            } else {
                has_stone(self.board, c, rr)
            })) by {
                lemma_cell_index_valid(c, rr);
                lemma_cell_index_valid(col as int, row as int);
                lemma_one_bit(self.board, i, cell_index(c, rr));
            }
        }
        BitBoard { board: self.board ^ (1u64 << i) }
    }

    /// Whether cell `(col, row)` holds a stone.
    pub fn is_set(self, col: u64, row: u64) -> (r: bool)
        requires
            col < 7,
            row < 6,
        ensures
            r == has_stone(self.board, col as int, row as int),
    {
        let i = col * HOR_STRIDE + row * VER_STRIDE;
        proof {
            lemma_cell_index_valid(col as int, row as int);
            lemma_one_bit(self.board, i, i);
        }
        self.board & (1u64 << i) != 0
    }

    /// Whether more than one bit is set.
    pub fn more_than_1(self) -> (r: bool)
        ensures
            r == two_bits(self.board),
    {
        let t = self.board & self.board.wrapping_sub(1);
        proof {
            assert(self.board.wrapping_sub(1) == wrap_dec(self.board));
            assert(t == drop_low_bit(self.board));
            lemma_drop_low_bit_two(self.board);
        }
        t != 0
    }

    /// The candidate moves given both players' stones: one bit per
    /// non-full column, on its lowest empty cell.
    pub fn moves(self, other: BitBoard) -> (r: BitBoard)
        requires
            (self.board | other.board) & !VALID_PLACES == 0,
            stacked(self.board | other.board),
        ensures
            r.board == moves_mask(self.board | other.board),
    {
        let placed_stones = self.board | other.board;
        proof {
            lemma_stacked_bridge(placed_stones);
            lemma_moves_mask_eq(placed_stones);
        }
        BitBoard { board: (placed_stones + BOTTOM_ROW) & VALID_PLACES }
    }

    /// Whether this set holds a completed four-in-a-row, by folding
    /// each of the four line directions.
    pub fn won(self) -> (r: bool)
        requires
            in_field(self),
        ensures
            r == has_four(self.board),
    {
        let h4 = and4r(self.board, HOR_STRIDE);  // Horizontal -
        let v4 = and4r(self.board, VER_STRIDE);  // Vertical |
        let dd4 = and4r(self.board, DIAG_DOWN_STRIDE);  // Diagonal \
        let du4 = and4r(self.board, DIAG_UP_STRIDE);  // Diagonal /
        proof {
            lemma_won_iff(self.board);
        }
        h4 | v4 | dd4 | du4 != 0
    }

    /// All cells lying on a completed four-in-a-row of this set. Only
    /// meaningful for in-field words; used on the complement of the
    /// opponent to find cells still available to future fours.
    pub fn wins(self) -> (r: BitBoard)
        requires
            in_field(self),
        ensures
            r.board == wins_mask(self.board),
            in_field(r),
            forall|c: int, rr: int| in_grid(c, rr) ==> (#[trigger] has_stone(r.board, c, rr) <==>
                on_filled_line(self.board, c, rr)),
    {
        let ph = or4l(and4r(self.board, HOR_STRIDE), HOR_STRIDE);
        let pv = or4l(and4r(self.board, VER_STRIDE), VER_STRIDE);
        let pdd = or4l(and4r(self.board, DIAG_DOWN_STRIDE), DIAG_DOWN_STRIDE);
        let pdu = or4l(and4r(self.board, DIAG_UP_STRIDE), DIAG_UP_STRIDE);
        proof {
            lemma_wins_mask_char(self.board);
            assert forall|c: int, rr: int| in_grid(c, rr) implies (#[trigger] has_stone(
                wins_mask(self.board),
                c,
                rr,
            ) <==> on_filled_line(self.board, c, rr)) by {
                lemma_cell_index_valid(c, rr);
            }
        }
        BitBoard { board: ph | pv | pdd | pdu }
    }

    /// All cells sitting on a line of which exactly three cells are
    /// already filled: occupying such a free cell completes a four.
    /// The word may carry stray bits outside the playing field; every
    /// caller masks the result against real cells before using it.
    pub fn almost_wins(self) -> (r: BitBoard)
        requires
            in_field(self),
        ensures
            r.board == threats_mask(self.board),
            forall|c: int, rr: int| in_grid(c, rr) && !has_stone(self.board, c, rr) ==> (
            #[trigger] has_stone(r.board, c, rr) <==> completes_four(self.board, c, rr)),
    {
        let h = or4l(comb34_fold(self.board, HOR_STRIDE), HOR_STRIDE);
        let v = or4l(comb34_fold(self.board, VER_STRIDE), VER_STRIDE);
        let dd = or4l(comb34_fold(self.board, DIAG_DOWN_STRIDE), DIAG_DOWN_STRIDE);
        let du = or4l(comb34_fold(self.board, DIAG_UP_STRIDE), DIAG_UP_STRIDE);
        proof {
            lemma_threats_mask_char(self.board);
            assert forall|c: int, rr: int| in_grid(c, rr) && !has_stone(self.board, c, rr) implies (
            #[trigger] has_stone(threats_mask(self.board), c, rr) <==> completes_four(
                self.board,
                c,
                rr,
            )) by {
                lemma_cell_index_valid(c, rr);
            }
        }
        BitBoard { board: h | v | dd | du }
    }

    /// Move-ordering heuristic: counts, over the four directions, the
    /// line windows wholly free of this set (the opponent) that pass
    /// through the candidate move's cell. The count is positive
    /// exactly when some four-cell line through the move avoids every
    /// opponent stone.
    pub fn wins_involving(self, move_: BitBoard) -> (r: u32)
        ensures
            move_.board & !VALID_PLACES == 0 ==> (r > 0 <==> meets_line(
                free_mask(self.board),
                move_.board,
            )),
            r == popcount(fold4(free_mask(self.board), HOR_STRIDE) & gather4(
                move_.board,
                HOR_STRIDE,
            )) + popcount(fold4(free_mask(self.board), VER_STRIDE) & gather4(
                move_.board,
                VER_STRIDE,
            )) + popcount(fold4(free_mask(self.board), DIAG_DOWN_STRIDE) & gather4(
                move_.board,
                DIAG_DOWN_STRIDE,
            )) + popcount(fold4(free_mask(self.board), DIAG_UP_STRIDE) & gather4(
                move_.board,
                DIAG_UP_STRIDE,
            )),
            r <= 256,
    {
        let m = move_.board;
        let p = !self.board & VALID_PLACES;
        let mut k: u32 = 0;
        k = k + count_bits(and4r(p, HOR_STRIDE) & or4r(m, HOR_STRIDE));
        k = k + count_bits(and4r(p, VER_STRIDE) & or4r(m, VER_STRIDE));
        k = k + count_bits(and4r(p, DIAG_DOWN_STRIDE) & or4r(m, DIAG_DOWN_STRIDE));
        k = k + count_bits(and4r(p, DIAG_UP_STRIDE) & or4r(m, DIAG_UP_STRIDE));
        proof {
            if m & !VALID_PLACES == 0 {
                lemma_mask_algebra(self.board, self.board, VALID_PLACES);
                assert(p == free_mask(self.board));
                let t0 = fold4(p, HOR_STRIDE) & gather4(m, HOR_STRIDE);
                let t1 = fold4(p, VER_STRIDE) & gather4(m, VER_STRIDE);
                let t2 = fold4(p, DIAG_DOWN_STRIDE) & gather4(m, DIAG_DOWN_STRIDE);
                let t3 = fold4(p, DIAG_UP_STRIDE) & gather4(m, DIAG_UP_STRIDE);
                lemma_popcount_zero(t0);
                lemma_popcount_zero(t1);
                lemma_popcount_zero(t2);
                lemma_popcount_zero(t3);
                if k > 0 {
                    let (t, d): (u64, int) = if t0 != 0 {
                        (t0, 0)
                    } else if t1 != 0 {
                        (t1, 1)
                    } else if t2 != 0 {
                        (t2, 2)
                    } else {
                        (t3, 3)
                    };
                    lemma_nonzero_has_bit(t);
                    let i = choose|i: u64| i < 64 && nth_bit(t, i);
                    lemma_fold_gather_line(p, m, d, i);
                }
                if meets_line(p, m) {
                    let (cm, rm) = choose|cm: int, rm: int|
                        #![trigger has_stone(m, cm, rm)]
                        has_stone(m, cm, rm) && on_filled_line(p, cm, rm);
                    let (c0, r0, d, k2) = choose|c0: int, r0: int, d: int, k2: int|
                        #![trigger line_filled_except(p, c0, r0, d, k2)]
                        line_filled(p, c0, r0, d) && line_filled_except(p, c0, r0, d, k2) && cm
                            == c0 + k2 * dir_dc(d) && rm == r0 + k2 * dir_dr(d);
                    lemma_line_fold_gather(p, m, c0, r0, d, k2);
                    if d == 0 {
                        assert(dir_stride(0) == HOR_STRIDE);
                    } else if d == 1 {
                        assert(dir_stride(1) == VER_STRIDE);
                    } else if d == 2 {
                        assert(dir_stride(2) == DIAG_DOWN_STRIDE);
                    } else {
                        assert(dir_stride(3) == DIAG_UP_STRIDE);
                    }
                }
            }
        }
        k
    }

    /// Whether one of the candidate moves completes a four-in-a-row
    /// for this set.
    pub fn can_win(self, moves: BitBoard) -> (r: bool)
        requires
            in_field(self),
            in_field(moves),
            moves.board & self.board == 0,
        ensures
            r == can_complete(self.board, moves.board),
    {
        let a = self.almost_wins();
        let t = a.board & moves.board;
        proof {
            if t != 0 {
                lemma_nonzero_has_bit(t);
                let j = choose|j: u64| j < 64 && nth_bit(t, j);
                lemma_bit_ops(a.board, moves.board, j);
                lemma_valid_index_cell(moves.board, j);
                let c = j as int / 9;
                let rr = j as int % 9;
                lemma_bit_ops(moves.board, self.board, j);
                assert(!nth_bit(self.board, j));
                assert(has_stone(a.board, c, rr));
                assert(completes_four(self.board, c, rr));
            }
            if can_complete(self.board, moves.board) {
                let (c, rr) = choose|c: int, rr: int|
                    #![trigger has_stone(moves.board, c, rr)]
                    has_stone(moves.board, c, rr) && completes_four(self.board, c, rr);
                lemma_cell_index_valid(c, rr);
                let j = cell_index(c, rr);
                lemma_bit_ops(moves.board, self.board, j);
                assert(has_stone(a.board, c, rr));
                lemma_bit_ops(a.board, moves.board, j);
                lemma_bit_ops(t, t, j);
            }
        }
        t != 0
    }

    /// Restricts a move mask to a single column.
    pub fn for_column(self, column: u64) -> (r: BitBoard)
        requires
            column < 7,
        ensures
            r.board == self.board & column_mask(column),
    {
        BitBoard { board: self.board & (FIRST_COLUMN << (column * HOR_STRIDE)) }
    }

    /// Unions a move into the set; the caller guarantees the move came
    /// from a legal move mask.
    pub fn do_move(self, move_: BitBoard) -> (r: BitBoard)
        ensures
            r.board == self.board | move_.board,
    {
        BitBoard { board: self.board | move_.board }
    }

    /// This set plus those of the other player's stones that can no
    /// longer sit on any four-in-a-row made of cells free of this set.
    /// Two positions differing only in such dead stones then share a
    /// cache key.
    pub fn add_color_less(self, other: BitBoard) -> (r: BitBoard)
        requires
            in_field(self),
            in_field(other),
        ensures
            r.board == self.board | (other.board & !wins_mask(free_mask(self.board))),
            in_field(r),
            forall|c: int, rr: int| in_grid(c, rr) ==> (#[trigger] has_stone(r.board, c, rr)
                <==> (has_stone(self.board, c, rr) || (has_stone(other.board, c, rr)
                && !on_filled_line(free_mask(self.board), c, rr)))),
    {
        proof {
            lemma_mask_algebra(self.board, self.board, VALID_PLACES);
            assert((!self.board & VALID_PLACES) & !VALID_PLACES == 0);
        }
        // Cells free of this set, and among them every cell of a line
        // wholly free of this set: the cells where the opponent could
        // still build a four.
        let other_potential = BitBoard { board: !self.board & VALID_PLACES }.wins();
        let other_blocked = other.board & !other_potential.board;
        let r = BitBoard { board: self.board | other_blocked };
        proof {
            lemma_mask_algebra(other.board, other_potential.board, VALID_PLACES);
            lemma_mask_algebra(self.board, other_blocked, VALID_PLACES);
            assert forall|c: int, rr: int| in_grid(c, rr) implies (#[trigger] has_stone(
                r.board,
                c,
                rr,
            ) <==> (has_stone(self.board, c, rr) || (has_stone(other.board, c, rr)
                && !on_filled_line(free_mask(self.board), c, rr)))) by {
                lemma_cell_index_valid(c, rr);
                let j = cell_index(c, rr);
                lemma_bit_ops(self.board, other_blocked, j);
                lemma_bit_ops(other.board, other_potential.board, j);
                assert(has_stone(other_potential.board, c, rr) <==> on_filled_line(
                    free_mask(self.board),
                    c,
                    rr,
                ));
            }
        }
        r
    }

    /// Called on the opponent's stones with the mover's candidate
    /// moves: keeps only the moves that do not lose on the spot. If
    /// the opponent has two immediately winning replies, nothing can
    /// be done and the result is empty. If the opponent has exactly
    /// one, the mover must block it, unless that block sits right
    /// below another opponent threat, which would hand the game over
    /// one move later. Otherwise only moves below an opponent threat
    /// are discarded.
    pub fn non_losing_moves(self, moves: BitBoard) -> (r: BitBoard)
        requires
            in_field(self),
            in_field(moves),
            moves.board & self.board == 0,
            (moves.board << 1) & self.board == 0,
        ensures
            r.board == safe_mask(self.board, moves.board),
            r.board & !moves.board == 0,
            two_direct_wins(self.board, moves.board) ==> r.board == 0,
            !two_direct_wins(self.board, moves.board) ==> forall|c: int, rr: int|
                in_grid(c, rr) ==> (#[trigger] has_stone(r.board, c, rr) <==> (has_stone(
                    moves.board,
                    c,
                    rr,
                ) && !completes_four(self.board, c, rr + 1) && (some_direct_win(
                    self.board,
                    moves.board,
                ) ==> completes_four(self.board, c, rr)))),
    {
        let a = self.almost_wins();
        // The threat word may carry stray guard bits; every use below
        // re-masks it against real cells.
        let opp_almost_wins = a.raw();
        let opp_direct_wins = BitBoard { board: opp_almost_wins & moves.board };
        proof {
            lemma_mask_algebra(opp_almost_wins, moves.board, VALID_PLACES);
            assert forall|c: int, rr: int| in_grid(c, rr) implies (#[trigger] has_stone(
                opp_direct_wins.board,
                c,
                rr,
            ) <==> is_direct_win(self.board, moves.board, c, rr)) by {
                lemma_cell_index_valid(c, rr);
                let j = cell_index(c, rr);
                lemma_bit_ops(opp_almost_wins, moves.board, j);
                lemma_bit_ops(moves.board, self.board, j);
                assert(has_stone(moves.board, c, rr) ==> !has_stone(self.board, c, rr));
                if has_stone(moves.board, c, rr) {
                    assert(has_stone(a.board, c, rr) <==> completes_four(self.board, c, rr));
                }
            }
        }
        if opp_direct_wins.more_than_1() {
            proof {
                let (i, j) = choose|i: u64, j: u64|
                    #![trigger nth_bit(opp_direct_wins.board, i), nth_bit(opp_direct_wins.board, j)]
                    i < j && j < 64 && nth_bit(opp_direct_wins.board, i) && nth_bit(
                        opp_direct_wins.board,
                        j,
                    );
                lemma_valid_index_cell(opp_direct_wins.board, i);
                lemma_valid_index_cell(opp_direct_wins.board, j);
                assert(is_direct_win(
                    self.board,
                    moves.board,
                    i as int / 9,
                    i as int % 9,
                ));
                assert(is_direct_win(
                    self.board,
                    moves.board,
                    j as int / 9,
                    j as int % 9,
                ));
                assert(two_direct_wins(self.board, moves.board));
            }
            // The opponent can always play the other winning reply.
            proof {
                lemma_bit_ops(!moves.board, 0, 0);
            }
            return BitBoard { board: 0 };
        }
        proof {
            if two_direct_wins(self.board, moves.board) {
                let (c1, r1, c2, r2) = choose|c1: int, r1: int, c2: int, r2: int|
                    #![trigger is_direct_win(self.board, moves.board, c1, r1), is_direct_win(self.board, moves.board, c2, r2)]
                    is_direct_win(self.board, moves.board, c1, r1) && is_direct_win(
                        self.board,
                        moves.board,
                        c2,
                        r2,
                    ) && !(c1 == c2 && r1 == r2);
                lemma_two_cells_two_bits(opp_direct_wins.board, c1, r1, c2, r2);
                assert(false);
            }
        }
        // Cells right below a surviving opponent threat: playing there
        // hands the opponent its completing cell next turn.
        let opp_indirect_wins = (opp_almost_wins & VALID_PLACES) >> 1;
        proof {
            lemma_mask_algebra(opp_almost_wins, opp_almost_wins, VALID_PLACES);
            assert forall|c: int, rr: int| in_grid(c, rr) && has_stone(moves.board, c, rr) implies (
            nth_bit(opp_indirect_wins, cell_index(c, rr)) <==> completes_four(
                self.board,
                c,
                rr + 1,
            )) by {
                lemma_cell_index_valid(c, rr);
                let j = cell_index(c, rr);
                lemma_shift_bits(opp_almost_wins & VALID_PLACES, j);
                let j1 = (j + 1) as u64;
                lemma_bit_ops(opp_almost_wins, VALID_PLACES, j1);
                lemma_valid_bit(j1);
                if rr == 5 {
                    lemma_split_index(j1 as int, c, 6);
                    if completes_four(self.board, c, rr + 1) {
                        lemma_completes_in_grid(self.board, c, rr + 1);
                    }
                } else {
                    lemma_cell_index_valid(c, rr + 1);
                    assert(cell_index(c, rr + 1) == j1);
                    lemma_shift_bits(moves.board, j1);
                    lemma_bit_ops(moves.board << 1, self.board, j1);
                    assert(!nth_bit(self.board, j1));
                    assert(!has_stone(self.board, c, rr + 1));
                    assert(has_stone(a.board, c, rr + 1) <==> completes_four(
                        self.board,
                        c,
                        rr + 1,
                    ));
                }
            }
        }
        if !opp_direct_wins.empty() {
            // Exactly one winning reply: the mover has to block it,
            // unless the block itself sits below another threat.
            let r = BitBoard { board: opp_direct_wins.board & !opp_indirect_wins };
            proof {
                lemma_mask_algebra(opp_almost_wins, moves.board, moves.board);
                assert(opp_direct_wins.board & !moves.board == 0);
                lemma_mask_algebra(opp_direct_wins.board, opp_indirect_wins, moves.board);
                assert(r.board & !moves.board == 0);
                lemma_nonzero_has_bit(opp_direct_wins.board);
                let i = choose|i: u64| i < 64 && nth_bit(opp_direct_wins.board, i);
                lemma_valid_index_cell(opp_direct_wins.board, i);
                assert(some_direct_win(self.board, moves.board));
                assert forall|c: int, rr: int| in_grid(c, rr) implies (#[trigger] has_stone(
                    r.board,
                    c,
                    rr,
                ) <==> (has_stone(moves.board, c, rr) && !completes_four(self.board, c, rr + 1) && (
                some_direct_win(self.board, moves.board) ==> completes_four(
                    self.board,
                    c,
                    rr,
                )))) by {
                    lemma_cell_index_valid(c, rr);
                    let j = cell_index(c, rr);
                    lemma_bit_ops(opp_direct_wins.board, opp_indirect_wins, j);
                    assert(has_stone(opp_direct_wins.board, c, rr) <==> is_direct_win(
                        self.board,
                        moves.board,
                        c,
                        rr,
                    ));
                    if has_stone(moves.board, c, rr) {
                        assert(nth_bit(opp_indirect_wins, j) <==> completes_four(
                            self.board,
                            c,
                            rr + 1,
                        ));
                    }
                }
            }
            return r;
        }
        // No winning reply for the opponent: just avoid the cells
        // below its threats.
        let r = BitBoard { board: moves.board & !opp_indirect_wins };
        proof {
            lemma_mask_algebra(moves.board, opp_indirect_wins, moves.board);
            if some_direct_win(self.board, moves.board) {
                let (c, rr) = choose|c: int, rr: int|
                    #[trigger] is_direct_win(self.board, moves.board, c, rr);
                lemma_completes_in_grid(self.board, c, rr);
                assert(has_stone(opp_direct_wins.board, c, rr));
                lemma_bit_ops(opp_direct_wins.board, opp_direct_wins.board, cell_index(c, rr));
                assert(false);
            }
            assert forall|c: int, rr: int| in_grid(c, rr) implies (#[trigger] has_stone(
                r.board,
                c,
                rr,
            ) <==> (has_stone(moves.board, c, rr) && !completes_four(self.board, c, rr + 1) && (
            some_direct_win(self.board, moves.board) ==> completes_four(self.board, c, rr)))) by {
                lemma_cell_index_valid(c, rr);
                let j = cell_index(c, rr);
                lemma_bit_ops(moves.board, opp_indirect_wins, j);
                if has_stone(moves.board, c, rr) {
                    assert(nth_bit(opp_indirect_wins, j) <==> completes_four(
                        self.board,
                        c,
                        rr + 1,
                    ));
                }
            }
        }
        r
    }

    /// Left-right reflection: column `c` maps to column `6 - c`.
    pub fn mirror(self) -> (r: BitBoard)
        requires
            in_field(self),
        ensures
            r.board == mirror_mask(self.board),
            in_field(r),
            forall|c: int, rr: int| in_grid(c, rr) ==> (#[trigger] has_stone(r.board, c, rr) <==>
                has_stone(self.board, 6 - c, rr)),
    {
        let c04 = self.board & (crate::bits::COLUMN_0 | crate::bits::COLUMN_4);
        let c135 = self.board & (crate::bits::COLUMN_1 | crate::bits::COLUMN_3
            | crate::bits::COLUMN_5);
        let c26 = self.board & (crate::bits::COLUMN_2 | crate::bits::COLUMN_6);
        let pass1 = (c04 << (2 * HOR_STRIDE)) | c135 | (c26 >> (2 * HOR_STRIDE));
        // Current column layout: 2 1 0 3 6 5 4
        let low3 = pass1 & (crate::bits::COLUMN_0 | crate::bits::COLUMN_1 | crate::bits::COLUMN_2);
        let mid = pass1 & crate::bits::COLUMN_3;
        let high3 = pass1 & (crate::bits::COLUMN_4 | crate::bits::COLUMN_5 | crate::bits::COLUMN_6);
        let out = (low3 << (4 * HOR_STRIDE)) | mid | (high3 >> (4 * HOR_STRIDE));
        proof {
            assert(out == mirror_mask(self.board));
            assert forall|c: int, rr: int| in_grid(c, rr) implies (#[trigger] has_stone(
                out,
                c,
                rr,
            ) <==> has_stone(self.board, 6 - c, rr)) by {
                lemma_cell_index_valid(c, rr);
                lemma_cell_index_valid(6 - c, rr);
                lemma_mirror_bits(self.board, c as u64, rr as u64);
            }
            lemma_mirror_bits(self.board, 0, 0);
        }
        BitBoard { board: out }
    }
}

} // verus!
