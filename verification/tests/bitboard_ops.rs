use connect_four::bitboard;
use connect_four::bitboard::BitBoard;
use connect_four::board;
use connect_four::board::Board;

const VALID_PLACES: u64 = 0xfc7e3f1f8fc7e3f;

fn xorshift(state: &mut u64) -> u64 {
    let mut x = *state;
    x ^= x << 13;
    x ^= x >> 7;
    x ^= x << 17;
    *state = x;
    x
}

/// Scans all 69 four-cell lines by brute force.
fn brute_force_won(b: BitBoard) -> bool {
    let dirs: [(i64, i64); 4] = [(1, 0), (0, 1), (1, -1), (1, 1)];
    for col in 0..7i64 {
        for row in 0..6i64 {
            for (dc, dr) in dirs {
                let ec = col + 3 * dc;
                let er = row + 3 * dr;
                if ec < 7 && (0..6).contains(&er) {
                    let mut all = true;
                    for k in 0..4i64 {
                        if !b.is_set((col + k * dc) as u64, (row + k * dr) as u64) {
                            all = false;
                        }
                    }
                    if all {
                        return true;
                    }
                }
            }
        }
    }
    false
}

fn replay(seq: &str) -> Board {
    let mut b = board::empty();
    for ch in seq.bytes() {
        let mv = b.moves().for_column((ch - b'1') as u64);
        assert!(!mv.empty());
        b = b.do_move(mv);
    }
    b
}

#[test]
fn empty_board_every_column_open() {
    let mv = board::empty().moves();
    for c in 0..7u64 {
        assert!(!mv.for_column(c).empty());
    }
}

#[test]
fn filled_column_offers_no_move() {
    let b = replay("444444");
    assert!(b.moves().for_column(3).empty());
    for c in [0u64, 1, 2, 4, 5, 6] {
        assert!(!b.moves().for_column(c).empty());
    }
}

#[test]
fn won_matches_brute_force_on_random_patterns() {
    let mut state: u64 = 0x9e3779b97f4a7c15;
    for _ in 0..2000 {
        let raw = xorshift(&mut state) & VALID_PLACES;
        let b = bitboard::random(raw);
        assert_eq!(b.won(), brute_force_won(b));
    }
}

#[test]
fn won_detects_each_direction() {
    // Horizontal on the bottom row.
    let h = bitboard::empty().flip(1, 0).flip(2, 0).flip(3, 0).flip(4, 0);
    assert!(h.won());
    // Vertical in one column.
    let v = bitboard::empty().flip(5, 1).flip(5, 2).flip(5, 3).flip(5, 4);
    assert!(v.won());
    // Rising diagonal.
    let du = bitboard::empty().flip(0, 0).flip(1, 1).flip(2, 2).flip(3, 3);
    assert!(du.won());
    // Falling diagonal.
    let dd = bitboard::empty().flip(0, 3).flip(1, 2).flip(2, 1).flip(3, 0);
    assert!(dd.won());
    // Three in a row is not a win.
    let three = bitboard::empty().flip(1, 0).flip(2, 0).flip(3, 0);
    assert!(!three.won());
}

#[test]
fn flip_and_is_set_toggle_one_cell() {
    let b = bitboard::empty().flip(2, 3);
    assert!(b.is_set(2, 3));
    assert!(!b.is_set(2, 2));
    assert!(!b.is_set(3, 3));
    assert!(!b.flip(2, 3).is_set(2, 3));
}

#[test]
fn more_than_1_counts_bits() {
    assert!(!bitboard::empty().more_than_1());
    assert!(!bitboard::empty().flip(3, 0).more_than_1());
    assert!(bitboard::empty().flip(3, 0).flip(3, 1).more_than_1());
    assert!(bitboard::random(VALID_PLACES).more_than_1());
}

#[test]
fn mirror_reflects_and_is_involutive() {
    let b = bitboard::empty().flip(0, 0).flip(1, 3).flip(3, 5).flip(6, 2);
    let m = b.mirror();
    assert!(m.is_set(6, 0));
    assert!(m.is_set(5, 3));
    assert!(m.is_set(3, 5));
    assert!(m.is_set(0, 2));
    assert_eq!(m.mirror().raw(), b.raw());
    let mut state: u64 = 42;
    for _ in 0..500 {
        let x = bitboard::random(xorshift(&mut state) & VALID_PLACES);
        assert_eq!(x.mirror().mirror().raw(), x.raw());
    }
}

#[test]
fn almost_wins_marks_completing_cells() {
    // Three on the bottom row: both extensions complete a four.
    let own = bitboard::empty().flip(1, 0).flip(2, 0).flip(3, 0);
    let other = bitboard::empty();
    let moves = own.moves(other);
    assert!(own.can_win(moves));
    let threats = own.almost_wins();
    assert!(threats.raw() & moves.raw() != 0);
    // Blocked on both sides: no playable completing cell.
    let blocked = bitboard::empty().flip(0, 0).flip(4, 0);
    let moves2 = own.moves(blocked);
    assert!(!own.can_win(moves2));
}

#[test]
fn wins_involving_counts_open_lines_through_cell() {
    // On an empty opponent board, seven four-cell lines pass through
    // the bottom-center cell.
    let mv = bitboard::empty().flip(3, 0);
    assert_eq!(bitboard::empty().wins_involving(mv), 7);
    // Only one line passes through a corner when the opponent owns the
    // diagonal and the column next to it.
    let opp = bitboard::empty().flip(1, 1).flip(1, 0);
    let corner = bitboard::empty().flip(0, 0);
    assert_eq!(opp.wins_involving(corner), 1);
    // Every line through the corner blocked: the count drops to zero.
    let wall = opp.flip(0, 1);
    assert_eq!(wall.wins_involving(corner), 0);
}

#[test]
fn wins_marks_cells_of_completed_lines() {
    let b = bitboard::empty().flip(2, 0).flip(3, 0).flip(4, 0).flip(5, 0).flip(0, 5);
    let w = b.wins();
    for c in 2..6u64 {
        assert!(w.is_set(c, 0));
    }
    assert!(!w.is_set(1, 0));
    assert!(!w.is_set(6, 0));
    assert!(!w.is_set(0, 5));
    assert!(bitboard::empty().flip(3, 3).wins().raw() == 0);
}

#[test]
fn add_color_less_absorbs_dead_stones() {
    // The mover owns so much of the bottom-left that the opponent
    // stone at the corner can no longer join any four-in-a-row.
    let own = bitboard::empty().flip(1, 0).flip(0, 1).flip(1, 1).flip(2, 1).flip(3, 1);
    let other = bitboard::empty().flip(0, 0);
    let merged = own.add_color_less(other);
    assert!(merged.is_set(0, 0));
    // A live opponent stone is not absorbed.
    let live_other = bitboard::empty().flip(6, 0);
    let merged2 = own.add_color_less(live_other);
    assert!(!merged2.is_set(6, 0));
}
