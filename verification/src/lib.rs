//! An exhaustive solver for the 7-column, 6-row connect-four game.
//!
//! A position is held as two bit-packed boards, one per player, over a
//! padded grid (nine bits per column, of which the lower six are playing
//! cells). Pattern detection — completed four-in-a-rows, threats, legal
//! moves — is done with branchless shift-and-mask folds, each proved
//! equivalent to its plain statement over grid coordinates. A boolean
//! negamax search answers whether the player to move can force a win
//! (or, in a second mode, at least a draw), memoized in a fixed-size
//! direct-mapped transposition cache keyed by a canonicalized position.

pub mod bits;
pub mod cells;
pub mod bitboard;
pub mod board;
pub mod cache;
pub mod search;
