//! The boolean negamax search. At each position it probes the
//! transposition cache (only at even plies, halving cache traffic at
//! little loss since adjacent plies are highly correlated), generates
//! the candidate moves, discards the immediately losing ones, orders
//! the rest by a threat heuristic near the root, and recurses; the
//! first refuted child proves success and stops the scan. Recursion
//! is bounded by the 42 cells of the board.
//!
//! `forces_success` states the search's value recursively: a full
//! board yields the mode flag, a position whose every candidate move
//! loses on the spot yields failure, and otherwise the mover succeeds
//! exactly when some safe column move leaves the opponent without
//! success. Starting from a sound cache — a fresh solver's cache is
//! proved sound — `run` is proved to return this value and to keep
//! every cache entry equal to it, under one stated hypothesis,
//! `collapse_sound`: positions sharing a cache key share their value.
//! That hypothesis is the design's symmetry argument — the canonical,
//! colorless key only merges positions of equal outcome — which this
//! crate states but does not prove.

use vstd::prelude::*;
use crate::board::Board;
use crate::bitboard::BitBoard;
use crate::cache;
use crate::cache::{
    Cache, CacheBoard, key_of, lookup_spec, store_spec, stored_entry, slot_index,
    lemma_store_then_lookup, lemma_store_other_key, CACHE_OUTCOME_BIT,
};
use crate::bits::{moves_mask, column_mask};
use crate::cells::{
    any_safe, safe_mask, stone_count, lemma_stone_count_bound, lemma_column_move_single,
    lemma_moves_mean_room,
};

verus! {

/// The cache is probed and filled only every this many plies.
pub const CACHE_DEPTH_SKIP: u64 = 2;
/// Below this ply the columns are searched in a heuristic order
/// instead of the fixed center-out order.
pub const MOVE_ORDERING_MAX_DEPTH: u64 = 20;

/// The position after the mover places the stones of `m`: the roles
/// swap.
pub open spec fn play(b: Board, m: u64) -> Board {
    Board { current: b.other, other: BitBoard { board: b.current.board | m } }
}

/// Some of the first `n` entries of the visitation order names column
/// `c2`.
pub open spec fn covered_upto(ord: Seq<usize>, c2: int, n: int) -> bool {
    exists|k: int| 0 <= k < n && #[trigger] ord[k] as int == c2
}

/// The safe move available in column `c`, if any: one bit or none.
pub open spec fn column_move(b: Board, c: u64) -> u64 {
    safe_mask(b.other.board, moves_mask(b.occupied())) & column_mask(c)
}

/// The value the filtered negamax recursion assigns to a position,
/// with an explicit recursion budget: the mode flag on a full board;
/// failure when no candidate move survives the safety filter; else
/// success exactly when some column's safe move leaves the opponent
/// without success. On a playable position the budget never runs out,
/// as each move fills a cell; the budget branch only keeps the
/// recursion well founded on arbitrary words.
pub open spec fn forces_from(b: Board, draw_first: bool, fuel: nat) -> bool
    decreases fuel,
{
    if moves_mask(b.occupied()) == 0 {
        draw_first
    } else if safe_mask(b.other.board, moves_mask(b.occupied())) == 0 {
        false
    } else if fuel == 0 {
        false
    } else {
        exists|c: u64|
            c < 7 && #[trigger] column_move(b, c) != 0 && !forces_from(
                play(b, column_move(b, c)),
                draw_first,
                (fuel - 1) as nat,
            )
    }
}

/// The search's value of a position: `forces_from` with the number of
/// free cells as the budget.
pub open spec fn forces_success(b: Board, draw_first: bool) -> bool {
    forces_from(b, draw_first, (42 - stone_count(b.occupied())) as nat)
}

/// Every entry of the table answers the search's value of every
/// well-formed position filing under its key.
pub open spec fn cache_sound(tbl: Seq<CacheBoard>, draw_first: bool) -> bool {
    forall|b: Board|
        b.wf() ==> ((#[trigger] lookup_spec(tbl, key_of(b))) is None || lookup_spec(
            tbl,
            key_of(b),
        ) == Some(forces_success(b, draw_first)))
}

/// The design's symmetry hypothesis: the canonical, colorless cache
/// key only merges positions of equal search value. Stated, used as
/// an explicit antecedent, and not proved here.
pub open spec fn collapse_sound(draw_first: bool) -> bool {
    forall|b1: Board, b2: Board|
        b1.wf() && b2.wf() && #[trigger] key_of(b1) == #[trigger] key_of(b2)
            ==> forces_success(b1, draw_first) == forces_success(b2, draw_first)
}

/// A table of zeroed slots holds no entry for any position: its first
/// word is zero where every real key carries the occupied marker.
pub proof fn lemma_fresh_cache_sound(tbl: Seq<CacheBoard>, draw_first: bool)
    requires
        tbl.len() >= 1,
        (tbl.len() as u64) & ((tbl.len() - 1) as u64) == 0,
        tbl.len() <= 0x1_0000_0000,
        forall|i: int| 0 <= i < tbl.len() ==> #[trigger] tbl[i] == (CacheBoard {
            first: 0,
            second: 0,
        }),
    ensures
        cache_sound(tbl, draw_first),
        forall|b: Board| (#[trigger] lookup_spec(tbl, key_of(b))) is None,
{
    assert forall|b: Board| (#[trigger] lookup_spec(tbl, key_of(b))) is None by {
        let key = key_of(b);
        crate::bits::lemma_pow2_mask_index(
            crate::cache::mix64(key.first) ^ crate::cache::mix64(key.second),
            tbl.len() as u64,
        );
        let idx = slot_index(key, tbl.len() as int);
        assert(tbl[idx] == (CacheBoard { first: 0, second: 0 }));
        crate::cache::lemma_used_key_nonzero(
            b.color_less_spec().canonical_spec().current.board,
        );
    }
}

/// One search run: its cache, a diagnostic counter of positions whose
/// moves were expanded, and the mode flag fixed for the whole search.
pub struct Solver {
    pub cache: Cache,
    /// Diagnostic only; saturation-free modular count.
    pub moves_examined: u64,
    /// When set, filling the board counts as success for the player
    /// moving at even stone counts (the first player), and as failure
    /// for the other; when clear, the roles are reversed.
    pub draw_is_success: bool,
}

impl Solver {
    pub open spec fn wf(self) -> bool {
        self.cache.wf()
    }

    /// A solver with a fresh cache of `2^log_size` empty slots: it
    /// answers from a clean table.
    pub fn new(log_size: u64, draw_is_success: bool) -> (r: Solver)
        requires
            log_size < 32,
        ensures
            r.wf(),
            r.draw_is_success == draw_is_success,
            r.moves_examined == 0,
            r.cache.slots@.len() == (1u64 << log_size) as int,
            forall|b: Board| (#[trigger] lookup_spec(r.cache.slots@, key_of(b))) is None,
            cache_sound(r.cache.slots@, draw_is_success),
    {
        let c = cache::new(log_size);
        proof {
            lemma_fresh_cache_sound(c.slots@, draw_is_success);
        }
        Solver { cache: c, moves_examined: 0, draw_is_success }
    }

    /// Whether the player to move can force a successful outcome: an
    /// outright win, or a draw when the mode flag awards the filled
    /// board to that player's side. `depth` is the number of stones
    /// already placed; the cache is consulted only at even depths.
    ///
    /// The result equals `forces_success`, and every cache entry keeps
    /// answering `forces_success` of the positions filing under it,
    /// provided the entries already did so and the key collapse is
    /// sound (`collapse_sound`). Unconditionally: a hit is answered as
    /// stored; a full board answers the mode flag; a position without
    /// a safe move answers false; those three paths leave the cache
    /// untouched, and a genuine search at a cache ply stores its
    /// result under the position's key.
    pub fn run(&mut self, board: Board, depth: u64) -> (r: bool)
        requires
            old(self).wf(),
            board.wf(),
            depth == stone_count(board.occupied()),
        ensures
            final(self).wf(),
            final(self).draw_is_success == old(self).draw_is_success,
            depth % 2 == 0 ==> (lookup_spec(old(self).cache.slots@, key_of(board)) matches Some(v)
                ==> r == v),
            depth % 2 == 0 && lookup_spec(old(self).cache.slots@, key_of(board)) is Some
                ==> final(self).cache.slots@ == old(self).cache.slots@,
            (depth % 2 != 0 || lookup_spec(old(self).cache.slots@, key_of(board)) is None)
                && moves_mask(board.occupied()) == 0 ==> r == old(self).draw_is_success
                && final(self).cache.slots@ == old(self).cache.slots@,
            (depth % 2 != 0 || lookup_spec(old(self).cache.slots@, key_of(board)) is None)
                && moves_mask(board.occupied()) != 0 && !any_safe(
                board.other.board,
                moves_mask(board.occupied()),
            ) ==> r == false && final(self).cache.slots@ == old(self).cache.slots@,
            depth % 2 == 0 && (lookup_spec(old(self).cache.slots@, key_of(board)) is Some || (
            moves_mask(board.occupied()) != 0 && any_safe(
                board.other.board,
                moves_mask(board.occupied()),
            ))) ==> lookup_spec(final(self).cache.slots@, key_of(board)) == Some(r),
            cache_sound(old(self).cache.slots@, old(self).draw_is_success) && collapse_sound(
                old(self).draw_is_success,
            ) ==> r == forces_success(board, old(self).draw_is_success) && cache_sound(
                final(self).cache.slots@,
                old(self).draw_is_success,
            ),
        decreases 42 - stone_count(board.occupied()),
    {
        let ghost flag = self.draw_is_success;
        let ghost hyp = cache_sound(self.cache.slots@, flag) && collapse_sound(flag);
        proof {
            lemma_stone_count_bound(board.occupied());
        }
        let mut cache_key: Option<CacheBoard> = None;
        if depth % CACHE_DEPTH_SKIP == 0 {
            let key = cache::board(board);
            match self.cache.lookup(key) {
                Some(result) => {
                    proof {
                        if hyp {
                            assert(lookup_spec(self.cache.slots@, key_of(board)) == Some(result));
                        }
                    }
                    return result;
                },
                None => {},
            }
            cache_key = Some(key);
        }
        let moves = board.moves();
        if moves.empty() {
            // Full board: a draw, awarded by the mode flag.
            return self.draw_is_success;
        }
        let safe = board.safe_moves(moves);
        if safe.empty() {
            // Every candidate hands the opponent the game.
            return false;
        }
        proof {
            crate::bits::lemma_mask_algebra(
                board.current.board,
                board.other.board,
                crate::bits::VALID_PLACES,
            );
            lemma_moves_mean_room(board.occupied());
        }
        let ghost fuel0 = (42 - stone_count(board.occupied())) as nat;
        self.moves_examined = self.moves_examined.wrapping_add(1);

        let mut col_order: Vec<usize> = Vec::new();
        col_order.push(3);
        col_order.push(2);
        col_order.push(4);
        col_order.push(1);
        col_order.push(5);
        col_order.push(6);
        col_order.push(0);
        proof {
            assert forall|c2: int| 0 <= c2 < 7 implies #[trigger] covered_upto(
                col_order@,
                c2,
                7,
            ) by {
                if c2 == 0 {
                    assert(col_order@[6] as int == 0);
                } else if c2 == 1 {
                    assert(col_order@[3] as int == 1);
                } else if c2 == 2 {
                    assert(col_order@[1] as int == 2);
                } else if c2 == 3 {
                    assert(col_order@[0] as int == 3);
                } else if c2 == 4 {
                    assert(col_order@[2] as int == 4);
                } else if c2 == 5 {
                    assert(col_order@[4] as int == 5);
                } else {
                    assert(col_order@[5] as int == 6);
                }
            }
        }
        if depth < MOVE_ORDERING_MAX_DEPTH {
            let mut scores: Vec<u32> = Vec::new();
            let mut z: usize = 0;
            while z < 7
                invariant
                    scores@.len() == z as int,
                    z <= 7,
                decreases 7 - z,
            {
                scores.push(0);
                z = z + 1;
            }
            let mut col: usize = 0;
            while col < 7
                invariant
                    col <= 7,
                    col_order@.len() == 7,
                    scores@.len() == 7,
                    forall|k: int| 0 <= k < 7 ==> #[trigger] col_order@[k] < 7,
                    forall|c2: int| 0 <= c2 < col as int ==> #[trigger] covered_upto(
                        col_order@,
                        c2,
                        col as int,
                    ),
                    board.wf(),
                    safe.board & !moves_mask(board.occupied()) == 0,
                decreases 7 - col,
            {
                let move_ = safe.for_column(col as u64);
                if move_.empty() {
                    scores.set(col, 0);
                } else {
                    scores.set(col, board.wins_involving(move_));
                }
                let ghost before = col_order@;
                col_order.set(col, col);
                proof {
                    assert forall|c2: int| 0 <= c2 <= col as int implies #[trigger] covered_upto(
                        col_order@,
                        c2,
                        col as int + 1,
                    ) by {
                        if c2 == col as int {
                            assert(col_order@[col as int] as int == c2);
                        } else {
                            assert(covered_upto(before, c2, col as int));
                            let k0 = choose|k: int|
                                0 <= k < col as int && #[trigger] before[k] as int == c2;
                            assert(col_order@[k0] as int == c2);
                        }
                    }
                }
                let mut i: usize = col;
                while i >= 1
                    invariant
                        i <= col,
                        col < 7,
                        col_order@.len() == 7,
                        scores@.len() == 7,
                        forall|k: int| 0 <= k < 7 ==> #[trigger] col_order@[k] < 7,
                        forall|c2: int| 0 <= c2 <= col as int ==> #[trigger] covered_upto(
                            col_order@,
                            c2,
                            col as int + 1,
                        ),
                    decreases i,
                {
                    let hi = col_order[i];
                    let lo = col_order[i - 1];
                    let ghost pre = col_order@;
                    if scores[hi] > scores[lo] || (scores[hi] == scores[lo] && center_distance(hi)
                        < center_distance(lo)) {
                        col_order.set(i, lo);
                        col_order.set(i - 1, hi);
                        proof {
                            assert forall|c2: int| 0 <= c2 <= col as int implies
                                #[trigger] covered_upto(col_order@, c2, col as int + 1) by {
                                assert(covered_upto(pre, c2, col as int + 1));
                                let k0 = choose|k: int|
                                    0 <= k < col as int + 1 && #[trigger] pre[k] as int == c2;
                                if k0 == i as int {
                                    assert(col_order@[i as int - 1] as int == c2);
                                } else if k0 == i as int - 1 {
                                    assert(col_order@[i as int] as int == c2);
                                } else {
                                    assert(col_order@[k0] as int == c2);
                                }
                            }
                        }
                    }
                    i = i - 1;
                }
                col = col + 1;
            }
        }
        let mut success = false;
        let mut idx: usize = 0;
        while idx < 7 && !success
            invariant
                idx <= 7,
                col_order@.len() == 7,
                forall|k: int| 0 <= k < 7 ==> #[trigger] col_order@[k] < 7,
                forall|c2: int| 0 <= c2 < 7 ==> #[trigger] covered_upto(col_order@, c2, 7),
                board.wf(),
                depth == stone_count(board.occupied()),
                depth < 42,
                safe.board == safe_mask(board.other.board, moves_mask(board.occupied())),
                safe.board & !moves_mask(board.occupied()) == 0,
                safe.board != 0,
                moves_mask(board.occupied()) != 0,
                self.wf(),
                self.draw_is_success == old(self).draw_is_success,
                flag == old(self).draw_is_success,
                fuel0 == (42 - stone_count(board.occupied())) as nat,
                hyp == (cache_sound(old(self).cache.slots@, flag) && collapse_sound(flag)),
                hyp ==> cache_sound(self.cache.slots@, flag),
                hyp && success ==> exists|c: u64|
                    c < 7 && #[trigger] column_move(board, c) != 0 && stone_count(
                        play(board, column_move(board, c)).occupied(),
                    ) == depth + 1 && !forces_success(play(board, column_move(board, c)), flag),
                hyp && !success ==> forall|k: int|
                    0 <= k < idx as int ==> (#[trigger] column_move(board, col_order@[k] as u64)
                        == 0 || (stone_count(
                        play(board, column_move(board, col_order@[k] as u64)).occupied(),
                    ) == depth + 1 && forces_success(
                        play(board, column_move(board, col_order@[k] as u64)),
                        flag,
                    ))),
            decreases 7 - idx,
        {
            let col = col_order[idx];
            let move_ = safe.for_column(col as u64);
            proof {
                assert(move_.board == column_move(board, col as u64));
            }
            if !move_.empty() {
                proof {
                    crate::bits::lemma_mask_algebra(
                        board.current.board,
                        board.other.board,
                        crate::bits::VALID_PLACES,
                    );
                    lemma_column_move_single(board.occupied(), safe.board, col as u64);
                }
                let moved_board = board.do_move(move_);
                proof {
                    lemma_stone_count_bound(moved_board.occupied());
                    assert(moved_board == play(board, column_move(board, col as u64)));
                }
                let moved_result = self.run(moved_board, depth + 1);
                if !moved_result {
                    // One refuted reply proves the position; no need
                    // to enumerate every winning line.
                    success = true;
                    proof {
                        if hyp {
                            assert(column_move(board, col as u64) != 0 && stone_count(
                                play(board, column_move(board, col as u64)).occupied(),
                            ) == depth + 1 && !forces_success(
                                play(board, column_move(board, col as u64)),
                                flag,
                            ));
                        }
                    }
                }
            }
            idx = idx + 1;
        }
        proof {
            if hyp {
                assert(forces_success(board, flag) == forces_from(board, flag, fuel0));
                if success {
                    let c = choose|c: u64|
                        c < 7 && #[trigger] column_move(board, c) != 0 && stone_count(
                            play(board, column_move(board, c)).occupied(),
                        ) == depth + 1 && !forces_success(play(board, column_move(board, c)), flag);
                    assert((42 - stone_count(play(board, column_move(board, c)).occupied())) as nat
                        == (fuel0 - 1) as nat);
                    assert(!forces_from(play(board, column_move(board, c)), flag, (fuel0
                        - 1) as nat));
                    assert(forces_from(board, flag, fuel0));
                } else {
                    assert forall|c: u64| c < 7 implies !(#[trigger] column_move(board, c) != 0
                        && !forces_from(play(board, column_move(board, c)), flag, (fuel0
                        - 1) as nat)) by {
                        assert(covered_upto(col_order@, c as int, 7));
                        let k = choose|k: int|
                            0 <= k < 7 && #[trigger] col_order@[k] as int == c as int;
                        assert(col_order@[k] as u64 == c);
                        if column_move(board, c) != 0 {
                            assert(stone_count(play(board, column_move(board, c)).occupied())
                                == depth + 1 && forces_success(
                                play(board, column_move(board, c)),
                                flag,
                            ));
                            assert((42 - stone_count(
                                play(board, column_move(board, c)).occupied(),
                            )) as nat == (fuel0 - 1) as nat);
                        }
                    }
                    assert(!forces_from(board, flag, fuel0));
                }
            }
        }
        match cache_key {
            Some(key) => {
                let ghost pre = self.cache.slots@;
                proof {
                    lemma_store_then_lookup(pre, key, success);
                }
                self.cache.store(key, success);
                proof {
                    if hyp {
                        lemma_store_keeps_sound(pre, key, board, success, flag);
                    }
                }
            },
            None => {},
        }
        success
    }

    /// Runs the search from a position, counting its stones for the
    /// starting depth; same guarantees as `run`.
    pub fn solve(&mut self, board: Board) -> (r: bool)
        requires
            old(self).wf(),
            board.wf(),
        ensures
            final(self).wf(),
            final(self).draw_is_success == old(self).draw_is_success,
            cache_sound(old(self).cache.slots@, old(self).draw_is_success) && collapse_sound(
                old(self).draw_is_success,
            ) ==> r == forces_success(board, old(self).draw_is_success) && cache_sound(
                final(self).cache.slots@,
                old(self).draw_is_success,
            ),
    {
        let depth = board.stones();
        self.run(board, depth)
    }
}

/// Storing the search's value of a position under its key keeps the
/// table sound: other slots are untouched, and a hit on the written
/// slot requires the full key, so by the collapse hypothesis it only
/// answers for positions of the same value.
proof fn lemma_store_keeps_sound(
    tbl: Seq<CacheBoard>,
    key: CacheBoard,
    board: Board,
    outcome: bool,
    flag: bool,
)
    requires
        tbl.len() >= 1,
        (tbl.len() as u64) & ((tbl.len() - 1) as u64) == 0,
        tbl.len() <= 0x1_0000_0000,
        cache_sound(tbl, flag),
        collapse_sound(flag),
        board.wf(),
        key == key_of(board),
        key.second & CACHE_OUTCOME_BIT == 0,
        outcome == forces_success(board, flag),
    ensures
        cache_sound(store_spec(tbl, key, outcome), flag),
{
    let tbl2 = store_spec(tbl, key, outcome);
    assert forall|b: Board|
        b.wf() implies ((#[trigger] lookup_spec(tbl2, key_of(b))) is None || lookup_spec(
        tbl2,
        key_of(b),
    ) == Some(forces_success(b, flag))) by {
        let k2 = key_of(b);
        if slot_index(k2, tbl.len() as int) != slot_index(key, tbl.len() as int) {
            lemma_store_other_key(tbl, k2, key, outcome);
            assert(lookup_spec(tbl, key_of(b)) is None || lookup_spec(tbl, key_of(b)) == Some(
                forces_success(b, flag),
            ));
        } else {
            crate::bits::lemma_pow2_mask_index(
                crate::cache::mix64(k2.first) ^ crate::cache::mix64(k2.second),
                tbl.len() as u64,
            );
            let e = stored_entry(key, outcome);
            assert(tbl2[slot_index(k2, tbl2.len() as int)] == e);
            crate::cache::lemma_outcome_word(key.second);
            if e.first == k2.first && e.second & !CACHE_OUTCOME_BIT == k2.second {
                assert(k2 == key);
                assert(forces_success(b, flag) == forces_success(board, flag));
                assert(lookup_spec(tbl2, key_of(b)) == Some(outcome));
            }
        }
    }
}

fn center_distance(c: usize) -> (r: usize)
    ensures
        r == (if c >= 3 {
            c - 3
        } else {
            3 - c
        }),
{
    if c >= 3 {
        c - 3
    } else {
        3 - c
    }
}

} // verus!
