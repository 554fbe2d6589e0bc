//! A full position: the stones of the player about to move and of the
//! player who just moved. After a move the two sets swap roles, so
//! both sets always hold the same number of stones on a reachable
//! position. Provides move generation, the safety filter, mirroring,
//! canonicalization and the colorless reduction for cache keys.

use vstd::prelude::*;
use crate::bitboard;
use crate::bitboard::{BitBoard, in_field};
use crate::bits::{
    moves_mask, mirror_mask, column_mask, popcount, fold4, gather4, two_bits, VALID_PLACES,
    HOR_STRIDE, VER_STRIDE, DIAG_DOWN_STRIDE, DIAG_UP_STRIDE, lemma_mask_algebra,
    lemma_nonzero_has_bit, lemma_mirror_involution, lemma_mirror_pair, lemma_moves_mask_basic,
    lemma_union_disjoint, nth_bit,
};
use crate::cells::{
    in_grid, cell_index, has_stone, stacked, stone_count, completes_four, can_complete, free_mask,
    two_direct_wins, some_direct_win, safe_kept, any_safe, safe_mask, single_stone,
    lemma_cell_index_valid,
    lemma_valid_index_cell, lemma_single_stone_cells, lemma_or_cells, lemma_stone_count_add,
    lemma_stone_count_bound, lemma_moves_cell, lemma_moves_above_free, lemma_no_stones_zero,
    lemma_count_same,
};

verus! {

/// Identifier of the player who made the first move of the game.
pub const FIRST_PLAYER: u64 = 0;
/// Identifier of the player who made the second move of the game.
pub const SECOND_PLAYER: u64 = 1;

#[derive(Copy, Clone, PartialEq, Eq, Structural)]
pub struct Board {
    /// Stones of the player that will make the next move.
    pub current: BitBoard,
    /// Stones of the player that made the last move, if any.
    pub other: BitBoard,
}

impl Board {
    /// All stones on the board, of both players.
    pub open spec fn occupied(self) -> u64 {
        self.current.board | self.other.board
    }

    /// Both stone sets stay within the playing field.
    pub open spec fn fits_field(self) -> bool {
        in_field(self.current) && in_field(self.other)
    }

    /// A position as legal play produces it: both sets in the field,
    /// no cell held by both players, and no stone floating above a
    /// free cell.
    pub open spec fn wf(self) -> bool {
        self.fits_field() && self.current.board & self.other.board == 0 && stacked(self.occupied())
    }

    /// The position with both stone sets reflected left-right.
    pub open spec fn mirror_spec(self) -> Board {
        Board {
            current: BitBoard { board: mirror_mask(self.current.board) },
            other: BitBoard { board: mirror_mask(self.other.board) },
        }
    }

    /// Total order over the packed pair, mover's word first.
    pub open spec fn board_lt(self, rhs: Board) -> bool {
        self.current.board < rhs.current.board || (self.current.board == rhs.current.board
            && self.other.board < rhs.other.board)
    }

    /// The representative of a position and its mirror image: the
    /// larger of the two under the packed-pair order.
    pub open spec fn canonical_spec(self) -> Board {
        if self.mirror_spec().board_lt(self) {
            self
        } else {
            self.mirror_spec()
        }
    }

    /// On a reachable position the player who just moved holds as many
    /// stones as the player to move, or one more.
    pub open spec fn balanced(self) -> bool {
        stone_count(self.other.board) == stone_count(self.current.board) || stone_count(
            self.other.board,
        ) == stone_count(self.current.board) + 1
    }

    /// Each side extended by the opponent stones that no longer fit on
    /// any four-in-a-row; only a cache key, not a playable position.
    pub open spec fn color_less_spec(self) -> Board {
        Board {
            current: BitBoard {
                board: self.current.board | (self.other.board & !crate::cells::wins_mask(
                    free_mask(self.current.board),
                )),
            },
            other: BitBoard {
                board: self.other.board | (self.current.board & !crate::cells::wins_mask(
                    free_mask(self.other.board),
                )),
            },
        }
    }
}

/// The position before any move.
pub fn empty() -> (r: Board)
    ensures
        r.current.board == 0,
        r.other.board == 0,
        r.wf(),
        r.balanced(),
        stone_count(r.occupied()) == 0,
{
    proof {
        lemma_no_stones_zero(42);
        crate::bits::lemma_bit_ops(!VALID_PLACES, 0, 0);
        crate::bits::lemma_bit_ops(0, 0, 0);
        lemma_or_cells(0, 0);
        lemma_count_same(0u64 | 0u64, 0u64, 42);
    }
    Board { current: bitboard::empty(), other: bitboard::empty() }
}

impl Board {
    /// The candidate moves of the player about to move: the lowest
    /// free cell of each non-full column.
    pub fn moves(self) -> (r: BitBoard)
        requires
            self.wf(),
        ensures
            r.board == moves_mask(self.occupied()),
    {
        proof {
            lemma_mask_algebra(self.current.board, self.other.board, VALID_PLACES);
        }
        self.current.moves(self.other)
    }

    /// Plays one stone for the mover and swaps the players' roles.
    pub fn do_move(self, move_: BitBoard) -> (r: Board)
        requires
            self.wf(),
            move_.board != 0,
            move_.board & !moves_mask(self.occupied()) == 0,
            !two_bits(move_.board),
        ensures
            r.current == self.other,
            r.other.board == self.current.board | move_.board,
            r.occupied() == self.occupied() | move_.board,
            r.wf(),
            stone_count(r.occupied()) == stone_count(self.occupied()) + 1,
            stone_count(r.other.board) == stone_count(self.current.board) + 1,
            self.balanced() ==> r.balanced(),
    {
        let r = Board { current: self.other, other: self.current.do_move(move_) };
        proof {
            let occ = self.occupied();
            let cur = self.current.board;
            let oth = self.other.board;
            let m = move_.board;
            lemma_moves_mask_basic(occ);
            lemma_mask_algebra(cur, oth, VALID_PLACES);
            // The move is one stone on a free, supported cell.
            lemma_mask_algebra(m, moves_mask(occ), VALID_PLACES);
            lemma_nonzero_has_bit(m);
            let i = choose|i: u64| i < 64 && nth_bit(m, i);
            lemma_valid_index_cell(m, i);
            let c0 = i as int / 9;
            let r0 = i as int % 9;
            assert(single_stone(m, c0, r0));
            lemma_single_stone_cells(m, c0, r0);
            lemma_bit_subset(m, moves_mask(occ), i);
            lemma_moves_cell(occ, c0, r0);
            // The same union of stones, however it is bracketed.
            lemma_mask_algebra(cur, oth, m);
            assert(r.occupied() == occ | m);
            // Disjointness of the new sets.
            lemma_mask_algebra(m, moves_mask(occ), occ);
            assert(m & occ == 0);
            lemma_union_disjoint(cur, oth, m);
            assert((cur | m) & oth == 0) by {
                lemma_mask_algebra(cur, m, oth);
            }
            lemma_mask_algebra(oth, cur | m, occ);
            lemma_mask_algebra(cur, m, VALID_PLACES);
            // The new union stays in the field and stacked.
            lemma_mask_algebra(occ, m, VALID_PLACES);
            lemma_or_cells(occ, m);
            assert forall|c: int, rr: int| 1 <= rr < 6 && #[trigger] has_stone(
                occ | m,
                c,
                rr,
            ) implies has_stone(occ | m, c, rr - 1) by {
                if has_stone(occ, c, rr) {
                    assert(has_stone(occ, c, rr - 1));
                } else {
                    assert(c == c0 && rr == r0);
                    assert(has_stone(occ, c0, r0 - 1));
                }
            }
            // Exactly one stone was added, to the mover's set and so
            // to the union.
            assert forall|c: int, rr: int| #[trigger] has_stone(occ | m, c, rr) <==> (has_stone(
                occ,
                c,
                rr,
            ) || (c == c0 && rr == r0)) by {}
            lemma_stone_count_add(occ, occ | m, c0, r0);
            lemma_stone_count_bound(occ);
            lemma_or_cells(cur, m);
            assert forall|c: int, rr: int| #[trigger] has_stone(cur | m, c, rr) <==> (has_stone(
                cur,
                c,
                rr,
            ) || (c == c0 && rr == r0)) by {}
            assert(!has_stone(cur, c0, r0)) by {
                lemma_or_cells(cur, oth);
            }
            lemma_stone_count_add(cur, cur | m, c0, r0);
        }
        r
    }

    /// Whether the mover can complete a four-in-a-row right now with
    /// one of the given candidate moves.
    pub fn can_win(self, moves: BitBoard) -> (r: bool)
        requires
            self.wf(),
            moves.board & !moves_mask(self.occupied()) == 0,
        ensures
            r == can_complete(self.current.board, moves.board),
    {
        proof {
            lemma_moves_mask_basic(self.occupied());
            lemma_mask_algebra(self.current.board, self.other.board, VALID_PLACES);
            lemma_mask_algebra(moves.board, moves_mask(self.occupied()), VALID_PLACES);
            lemma_mask_algebra(moves.board, moves_mask(self.occupied()), self.occupied());
            assert(moves.board & self.occupied() == 0);
            lemma_union_disjoint(self.current.board, self.other.board, moves.board);
        }
        self.current.can_win(moves)
    }

    /// Move-ordering score of one candidate move, from the stones of
    /// the player who just moved.
    pub fn wins_involving(self, move_: BitBoard) -> (r: u32)
        ensures
            move_.board & !VALID_PLACES == 0 ==> (r > 0 <==> crate::cells::meets_line(
                free_mask(self.other.board),
                move_.board,
            )),
            r == popcount(fold4(free_mask(self.other.board), HOR_STRIDE) & gather4(
                move_.board,
                HOR_STRIDE,
            )) + popcount(fold4(free_mask(self.other.board), VER_STRIDE) & gather4(
                move_.board,
                VER_STRIDE,
            )) + popcount(fold4(free_mask(self.other.board), DIAG_DOWN_STRIDE) & gather4(
                move_.board,
                DIAG_DOWN_STRIDE,
            )) + popcount(fold4(free_mask(self.other.board), DIAG_UP_STRIDE) & gather4(
                move_.board,
                DIAG_UP_STRIDE,
            )),
            r <= 256,
    {
        self.other.wins_involving(move_)
    }

    /// The packed pair, mover's word first.
    pub fn raw(self) -> (r: (u64, u64))
        ensures
            r.0 == self.current.board,
            r.1 == self.other.board,
    {
        (self.current.raw(), self.other.raw())
    }

    /// The candidate moves that do not lose on the spot, judged
    /// against the stones of the player who just moved.
    pub fn safe_moves(self, moves: BitBoard) -> (r: BitBoard)
        requires
            self.wf(),
            moves.board == moves_mask(self.occupied()),
        ensures
            r.board == safe_mask(self.other.board, moves.board),
            r.board & !moves.board == 0,
            two_direct_wins(self.other.board, moves.board) ==> r.board == 0,
            !two_direct_wins(self.other.board, moves.board) ==> forall|c: int, rr: int|
                in_grid(c, rr) ==> (#[trigger] has_stone(r.board, c, rr) <==> (has_stone(
                    moves.board,
                    c,
                    rr,
                ) && !completes_four(self.other.board, c, rr + 1) && (some_direct_win(
                    self.other.board,
                    moves.board,
                ) ==> completes_four(self.other.board, c, rr)))),
            r.board != 0 <==> any_safe(self.other.board, moves.board),
    {
        proof {
            let occ = self.occupied();
            lemma_mask_algebra(self.current.board, self.other.board, VALID_PLACES);
            lemma_moves_mask_basic(occ);
            lemma_union_disjoint(self.current.board, self.other.board, moves.board);
            lemma_moves_above_free(occ);
            lemma_union_disjoint(self.current.board, self.other.board, moves.board << 1);
        }
        let r = self.other.non_losing_moves(moves);
        proof {
            let opp = self.other.board;
            if r.board != 0 {
                lemma_nonzero_has_bit(r.board);
                let i = choose|i: u64| i < 64 && nth_bit(r.board, i);
                lemma_mask_algebra(r.board, moves.board, VALID_PLACES);
                lemma_valid_index_cell(r.board, i);
                let c = i as int / 9;
                let rr = i as int % 9;
                assert(has_stone(r.board, c, rr));
                assert(!two_direct_wins(opp, moves.board));
                assert(safe_kept(opp, moves.board, c, rr));
            }
            if any_safe(opp, moves.board) {
                let (c, rr) = choose|c: int, rr: int|
                    #![trigger safe_kept(opp, moves.board, c, rr)]
                    in_grid(c, rr) && safe_kept(opp, moves.board, c, rr);
                assert(has_stone(r.board, c, rr));
                lemma_cell_index_valid(c, rr);
                crate::bits::lemma_bit_ops(r.board, r.board, cell_index(c, rr));
            }
        }
        r
    }

    /// The position reflected left-right.
    pub fn mirror(self) -> (r: Board)
        requires
            self.fits_field(),
        ensures
            r == self.mirror_spec(),
            r.fits_field(),
            self.wf() ==> r.wf(),
            forall|c: int, rr: int| in_grid(c, rr) ==> ((#[trigger] has_stone(r.current.board, c, rr)
                <==> has_stone(self.current.board, 6 - c, rr)) && (has_stone(r.other.board, c, rr)
                <==> has_stone(self.other.board, 6 - c, rr))),
    {
        let r = Board { current: self.current.mirror(), other: self.other.mirror() };
        proof {
            if self.wf() {
                lemma_mirror_pair(self.current.board, self.other.board);
                lemma_or_cells(r.current.board, r.other.board);
                lemma_or_cells(self.current.board, self.other.board);
                assert forall|c: int, rr: int| 1 <= rr < 6 && #[trigger] has_stone(
                    r.occupied(),
                    c,
                    rr,
                ) implies has_stone(r.occupied(), c, rr - 1) by {
                    assert(has_stone(self.occupied(), 6 - c, rr));
                    assert(has_stone(self.occupied(), 6 - c, rr - 1));
                }
            }
        }
        r
    }

    /// The representative of this position's symmetry pair: the larger
    /// of the position and its mirror image under the packed-pair
    /// order.
    pub fn canonical(self) -> (r: Board)
        requires
            self.fits_field(),
        ensures
            r == self.canonical_spec(),
            r.fits_field(),
    {
        let m = self.mirror();
        if m.current.board < self.current.board || (m.current.board == self.current.board
            && m.other.board < self.other.board) {
            self
        } else {
            m
        }
    }

    /// The cache-key reduction: each side also absorbs the opponent
    /// stones that can no longer join any four-in-a-row. The result is
    /// only a key; the two sets may overlap on absorbed stones.
    pub fn with_color_less(self) -> (r: Board)
        requires
            self.fits_field(),
        ensures
            r == self.color_less_spec(),
            r.fits_field(),
    {
        Board {
            current: self.current.add_color_less(self.other),
            other: self.other.add_color_less(self.current),
        }
    }

    /// Total number of stones placed so far.
    pub fn stones(self) -> (r: u64)
        requires
            self.fits_field(),
        ensures
            r == stone_count(self.occupied()),
            r <= 42,
    {
        let mut acc: u64 = 0;
        let mut k: u64 = 0;
        while k < 42
            invariant
                k <= 42,
                acc == crate::cells::count_upto(self.occupied(), k as int),
                acc <= k,
                self.fits_field(),
            decreases 42 - k,
        {
            let c = k / 6;
            let r = k % 6;
            proof {
                lemma_cell_index_valid(c as int, r as int);
                lemma_bit_subset(self.current.board, self.other.board, cell_index(c as int, r as int));
            }
            if self.current.is_set(c, r) || self.other.is_set(c, r) {
                acc = acc + 1;
            }
            k = k + 1;
        }
        acc
    }

    /// Which of the two original players is to move: stones placed so
    /// far, modulo two.
    pub fn player(self) -> (r: u64)
        requires
            self.fits_field(),
        ensures
            r == stone_count(self.occupied()) % 2,
            r == FIRST_PLAYER || r == SECOND_PLAYER,
    {
        self.stones() % 2
    }

    /// The grid as 48 characters: six rows from top to bottom, each
    /// seven cell glyphs and a newline. The mover's stones show as
    /// `current_token`, the opponent's as `other_token`, a cell held
    /// by both (impossible on a well-formed position) as `*`, a free
    /// cell as `.`.
    pub fn render_custom(self, current_token: char, other_token: char) -> (r: Vec<char>)
        requires
            self.fits_field(),
        ensures
            r@.len() == 48,
            forall|c: int, rr: int| in_grid(c, rr) ==> r@[(5 - rr) * 8 + c] == (
            #[trigger] cell_glyph(self, c, rr, current_token, other_token)),
            forall|k: int| 0 <= k < 48 && k % 8 == 7 ==> #[trigger] r@[k] == '\n',
    {
        let mut out: Vec<char> = Vec::new();
        let mut line: u64 = 0;
        while line < 6
            invariant
                line <= 6,
                out@.len() == line * 8,
                self.fits_field(),
                forall|c: int, rr: int| in_grid(c, rr) && 5 - rr < line ==> out@[(5 - rr) * 8 + c]
                    == (#[trigger] cell_glyph(self, c, rr, current_token, other_token)),
                forall|k: int| 0 <= k < line * 8 && k % 8 == 7 ==> #[trigger] out@[k] == '\n',
            decreases 6 - line,
        {
            let row = 5 - line;
            let mut col: u64 = 0;
            while col < 7
                invariant
                    col <= 7,
                    line < 6,
                    row == 5 - line,
                    out@.len() == line * 8 + col,
                    self.fits_field(),
                    forall|c: int, rr: int| in_grid(c, rr) && 5 - rr < line ==> out@[(5 - rr) * 8
                        + c] == (#[trigger] cell_glyph(self, c, rr, current_token, other_token)),
                    forall|k: int| 0 <= k < line * 8 && k % 8 == 7 ==> #[trigger] out@[k] == '\n',
                    forall|c: int| 0 <= c < col ==> out@[line * 8 + c] == (#[trigger] cell_glyph(
                        self,
                        c,
                        row as int,
                        current_token,
                        other_token,
                    )),
                decreases 7 - col,
            {
                let glyph = match (self.current.is_set(col, row), self.other.is_set(col, row)) {
                    (false, false) => '.',
                    (true, false) => current_token,
                    (false, true) => other_token,
                    (true, true) => '*',
                };
                out.push(glyph);
                col = col + 1;
            }
            out.push('\n');
            line = line + 1;
        }
        out
    }

    /// Renders with the fixed glyph per original player: the first
    /// player is always `X`, the second always `O`.
    pub fn render(self) -> (r: Vec<char>)
        requires
            self.fits_field(),
        ensures
            r@.len() == 48,
            stone_count(self.occupied()) % 2 == FIRST_PLAYER as int ==> forall|c: int, rr: int|
                in_grid(c, rr) ==> r@[(5 - rr) * 8 + c] == (#[trigger] cell_glyph(
                    self,
                    c,
                    rr,
                    'X',
                    'O',
                )),
            stone_count(self.occupied()) % 2 == SECOND_PLAYER as int ==> forall|c: int, rr: int|
                in_grid(c, rr) ==> r@[(5 - rr) * 8 + c] == (#[trigger] cell_glyph(
                    self,
                    c,
                    rr,
                    'O',
                    'X',
                )),
    {
        let player = self.player();
        if player == FIRST_PLAYER {
            self.render_custom('X', 'O')
        } else {
            self.render_custom('O', 'X')
        }
    }
}

/// The glyph a cell renders as.
pub open spec fn cell_glyph(b: Board, c: int, r: int, current_token: char, other_token: char) -> char {
    if has_stone(b.current.board, c, r) && has_stone(b.other.board, c, r) {
        '*'
    } else if has_stone(b.current.board, c, r) {
        current_token
    } else if has_stone(b.other.board, c, r) {
        other_token
    } else {
        '.'
    }
}

proof fn lemma_bit_subset(a: u64, b: u64, i: u64)
    ensures
        i < 64 ==> (nth_bit(a | b, i) <==> nth_bit(a, i) || nth_bit(b, i)),
        a & !b == 0 && nth_bit(a, i) ==> nth_bit(b, i),
{
    crate::bits::lemma_bit_ops(a, b, i);
}

/// A column of a well-formed position offers a candidate move exactly
/// while its top cell is free: on the empty position every column is
/// open, and a filled column's move mask is empty.
pub proof fn lemma_column_moves(p: Board, c: u64)
    requires
        p.wf(),
        c < 7,
    ensures
        (moves_mask(p.occupied()) & column_mask(c)) != 0 <==> !has_stone(p.occupied(), c as int, 5),
{
    lemma_mask_algebra(p.current.board, p.other.board, VALID_PLACES);
    crate::cells::lemma_column_open_iff_move(p.occupied(), c);
}

/// On every reachable position the two players' stone sets are
/// disjoint: the empty position is well formed, and playing any legal
/// move keeps a position well formed, so no cell is ever held by both
/// players.
pub proof fn lemma_reachable_disjoint(p: Board)
    requires
        p.wf(),
    ensures
        p.current.board & p.other.board == 0,
{
}

/// Mirroring twice gives the position back: reflection is an
/// involution on in-field positions.
pub proof fn lemma_mirror_involutive(p: Board)
    requires
        p.fits_field(),
    ensures
        p.mirror_spec().mirror_spec() == p,
{
    lemma_mirror_involution(p.current.board);
    lemma_mirror_involution(p.other.board);
}

/// A position and its mirror image share their canonical form, so
/// symmetric positions collapse onto one cache key.
pub proof fn lemma_canonical_mirror(p: Board)
    requires
        p.fits_field(),
    ensures
        p.mirror_spec().canonical_spec() == p.canonical_spec(),
{
    lemma_mirror_involutive(p);
    let m = p.mirror_spec();
    if m.board_lt(p) {
        assert(m.canonical_spec() == p);
    } else if p.board_lt(m) {
        assert(p.canonical_spec() == m);
    } else {
        assert(p.current.board == m.current.board && p.other.board == m.other.board);
        assert(p == m);
    }
}

} // verus!
