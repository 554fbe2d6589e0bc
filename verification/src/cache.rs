//! The transposition cache: a fixed-size, power-of-two, direct-mapped
//! table keyed by the canonicalized, colorless form of a position.
//! Each slot holds the full 128-bit key, so an index collision between
//! different keys can only evict an entry, never answer for the wrong
//! key; the stored boolean rides on the top bit of the second word,
//! the occupied marker on the top bit of the first.

use vstd::prelude::*;
use crate::board::Board;
use crate::bits::{lemma_pow2_mask_index, lemma_pow2_shift, lemma_top_bit_clear};

verus! {

/// Marks an occupied slot, on the first key word.
pub const CACHE_USED_BIT: u64 = 0x8000_0000_0000_0000;
/// Carries the stored outcome, on the second key word.
pub const CACHE_OUTCOME_BIT: u64 = 0x8000_0000_0000_0000;

/// A cache key, or a stored entry: the packed canonical colorless
/// position, with the two bookkeeping top bits.
#[derive(Copy, Clone, PartialEq, Eq, Structural)]
pub struct CacheBoard {
    pub first: u64,
    pub second: u64,
}

pub struct Cache {
    pub slots: Vec<CacheBoard>,
}

/// The 64-bit avalanche finalizer run over each key word before
/// indexing: xor-shift, multiply, xor-shift, multiply, xor-shift, with
/// two odd constants chosen for good bit mixing. Overflow is modular
/// on purpose.
pub open spec fn mix64(h: u64) -> u64 {
    let a = h ^ (h >> 33);
    let b = a.wrapping_mul(0xff51afd7ed558ccd);
    let c = b ^ (b >> 33);
    let d = c.wrapping_mul(0xc4ceb9fe1a85ec53);
    d ^ (d >> 33)
}

/// The slot a key hashes to, for a table of `len` slots.
pub open spec fn slot_index(key: CacheBoard, len: int) -> int {
    ((mix64(key.first) ^ mix64(key.second)) & ((len - 1) as u64)) as int
}

/// The entry that storing `outcome` under `key` writes.
pub open spec fn stored_entry(key: CacheBoard, outcome: bool) -> CacheBoard {
    CacheBoard {
        first: key.first,
        second: if outcome {
            key.second | CACHE_OUTCOME_BIT
        } else {
            key.second
        },
    }
}

/// The table after a store: last write wins at the key's slot.
pub open spec fn store_spec(tbl: Seq<CacheBoard>, key: CacheBoard, outcome: bool) -> Seq<
    CacheBoard,
> {
    tbl.update(slot_index(key, tbl.len() as int), stored_entry(key, outcome))
}

/// What a lookup answers: the stored outcome bit, but only if the full
/// 128-bit key matches the slot's content exactly.
pub open spec fn lookup_spec(tbl: Seq<CacheBoard>, key: CacheBoard) -> Option<bool> {
    let e = tbl[slot_index(key, tbl.len() as int)];
    if e.first == key.first && e.second & !CACHE_OUTCOME_BIT == key.second {
        Some(e.second & CACHE_OUTCOME_BIT != 0)
    } else {
        None
    }
}

impl Cache {
    /// A nonempty power-of-two table.
    pub open spec fn wf(self) -> bool {
        self.slots@.len() >= 1 && (self.slots@.len() as u64) & ((self.slots@.len() - 1) as u64)
            == 0 && self.slots@.len() <= 0x1_0000_0000
    }
}

/// A fresh cache of `2^log_size` empty slots.
pub fn new(log_size: u64) -> (r: Cache)
    requires
        log_size < 32,
    ensures
        r.wf(),
        r.slots@.len() == (1u64 << log_size) as int,
        forall|i: int| 0 <= i < r.slots@.len() ==> #[trigger] r.slots@[i] == (CacheBoard {
            first: 0,
            second: 0,
        }),
{
    proof {
        lemma_pow2_shift(log_size);
    }
    let n: u64 = 1u64 << log_size;
    let mut slots: Vec<CacheBoard> = Vec::new();
    let mut k: u64 = 0;
    while k < n
        invariant
            k <= n,
            slots@.len() == k as int,
            forall|i: int| 0 <= i < k as int ==> #[trigger] slots@[i] == (CacheBoard {
                first: 0,
                second: 0,
            }),
        decreases n - k,
    {
        slots.push(CacheBoard { first: 0, second: 0 });
        k = k + 1;
    }
    Cache { slots }
}

/// The key a position files under: the canonical form of its
/// colorless reduction, with the occupied marker set on the first
/// word.
pub open spec fn key_of(b: Board) -> CacheBoard {
    CacheBoard {
        first: b.color_less_spec().canonical_spec().current.board | CACHE_USED_BIT,
        second: b.color_less_spec().canonical_spec().other.board,
    }
}

/// Derives the cache key of a position. The second word keeps its top
/// bit clear, leaving room for the outcome bit.
pub fn board(position: Board) -> (r: CacheBoard)
    requires
        position.fits_field(),
    ensures
        r == key_of(position),
        r.second & CACHE_OUTCOME_BIT == 0,
        r.first & CACHE_USED_BIT != 0,
{
    let key = position.with_color_less().canonical();
    let (b1, b2) = key.raw();
    proof {
        lemma_top_bit_clear(b2);
        lemma_top_bit_clear(b1);
        lemma_outcome_word(b1);
    }
    CacheBoard { first: b1 | CACHE_USED_BIT, second: b2 }
}

fn murmur(hash: u64) -> (r: u64)
    ensures
        r == mix64(hash),
{
    let a = hash ^ (hash >> 33);
    let b = a.wrapping_mul(0xff51afd7ed558ccd);
    let c = b ^ (b >> 33);
    let d = c.wrapping_mul(0xc4ceb9fe1a85ec53);
    d ^ (d >> 33)
}

impl Cache {
    fn key(&self, board: CacheBoard) -> (r: usize)
        requires
            self.wf(),
        ensures
            r as int == slot_index(board, self.slots@.len() as int),
            r < self.slots@.len(),
    {
        let b1 = murmur(board.first);
        let b2 = murmur(board.second);
        let len = self.slots.len() as u64;
        proof {
            lemma_pow2_mask_index(b1 ^ b2, len);
        }
        (((b1 ^ b2) & (len - 1)) as usize)
    }

    /// Answers the stored outcome for this key, or nothing: a hit
    /// needs the slot's full key to match, so a different position's
    /// entry is never returned.
    pub fn lookup(&mut self, board: CacheBoard) -> (r: Option<bool>)
        requires
            old(self).wf(),
        ensures
            *final(self) == *old(self),
            r == lookup_spec(old(self).slots@, board),
    {
        let key = self.key(board);
        let value = self.slots[key];
        if value.first == board.first && value.second & !CACHE_OUTCOME_BIT == board.second {
            Some(value.second & CACHE_OUTCOME_BIT != 0)
        } else {
            None
        }
    }

    /// Overwrites whatever occupies the key's slot with this key and
    /// outcome: last write wins, recomputation being the only cost of
    /// an eviction.
    pub fn store(&mut self, board: CacheBoard, result: bool)
        requires
            old(self).wf(),
        ensures
            final(self).wf(),
            final(self).slots@ == store_spec(old(self).slots@, board, result),
    {
        let key = self.key(board);
        let mut entry = board;
        if result {
            entry.second = entry.second | CACHE_OUTCOME_BIT;
        }
        self.slots.set(key, entry);
    }
}

/// Storing an outcome under a key and looking the same key up right
/// after answers exactly that outcome, for any key whose second word
/// keeps its top bit clear, as every key derived from a position does.
pub proof fn lemma_store_then_lookup(tbl: Seq<CacheBoard>, key: CacheBoard, outcome: bool)
    requires
        tbl.len() >= 1,
        (tbl.len() as u64) & ((tbl.len() - 1) as u64) == 0,
        tbl.len() <= 0x1_0000_0000,
        key.second & CACHE_OUTCOME_BIT == 0,
    ensures
        lookup_spec(store_spec(tbl, key, outcome), key) == Some(outcome),
{
    let len = tbl.len() as int;
    lemma_pow2_mask_index(mix64(key.first) ^ mix64(key.second), len as u64);
    let idx = slot_index(key, len);
    assert(0 <= idx < len);
    let tbl2 = store_spec(tbl, key, outcome);
    assert(tbl2.len() == len);
    assert(tbl2[idx] == stored_entry(key, outcome));
    lemma_outcome_word(key.second);
}

/// A later store under a key that hashes to a different slot leaves
/// this key's answer unchanged; only a key on the same slot can evict
/// it.
pub proof fn lemma_store_other_key(tbl: Seq<CacheBoard>, key: CacheBoard, key2: CacheBoard, outcome: bool)
    requires
        tbl.len() >= 1,
        (tbl.len() as u64) & ((tbl.len() - 1) as u64) == 0,
        tbl.len() <= 0x1_0000_0000,
        slot_index(key2, tbl.len() as int) != slot_index(key, tbl.len() as int),
    ensures
        lookup_spec(store_spec(tbl, key2, outcome), key) == lookup_spec(tbl, key),
{
    let len = tbl.len() as int;
    lemma_pow2_mask_index(mix64(key.first) ^ mix64(key.second), len as u64);
    lemma_pow2_mask_index(mix64(key2.first) ^ mix64(key2.second), len as u64);
}

/// How the outcome bit rides on a top-clear key word.
pub proof fn lemma_outcome_word(x: u64)
    by (bit_vector)
    requires
        x & 0x8000_0000_0000_0000 == 0,
    ensures
        (x | 0x8000_0000_0000_0000) & !0x8000_0000_0000_0000 == x,
        x & !0x8000_0000_0000_0000 == x,
        (x | 0x8000_0000_0000_0000) & 0x8000_0000_0000_0000 != 0,
        x & 0x8000_0000_0000_0000 == 0,
{
}

/// A key word carrying the occupied marker is never the zero of an
/// empty slot.
pub proof fn lemma_used_key_nonzero(x: u64)
    by (bit_vector)
    ensures
        (x | 0x8000_0000_0000_0000) != 0,
{
}

} // verus!
