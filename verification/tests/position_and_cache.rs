use connect_four::board;
use connect_four::board::Board;
use connect_four::cache;

fn replay(seq: &str) -> Board {
    let mut b = board::empty();
    for ch in seq.bytes() {
        let mv = b.moves().for_column((ch - b'1') as u64);
        assert!(!mv.empty());
        b = b.do_move(mv);
    }
    b
}

#[test]
fn players_never_share_a_cell() {
    let mut b = board::empty();
    let seq = "44444435355221126677";
    for ch in seq.bytes() {
        let mv = b.moves().for_column((ch - b'1') as u64);
        assert!(!mv.empty());
        b = b.do_move(mv);
        let (cur, oth) = b.raw();
        assert_eq!(cur & oth, 0);
    }
}

#[test]
fn do_move_swaps_roles() {
    let b = board::empty();
    let mv = b.moves().for_column(3);
    let after = b.do_move(mv);
    let (cur, oth) = after.raw();
    assert_eq!(cur, 0);
    assert_eq!(oth, mv.raw());
}

#[test]
fn mirror_twice_is_identity() {
    let b = replay("1224566677");
    let m = b.mirror();
    assert_ne!(m.raw(), b.raw());
    assert_eq!(m.mirror().raw(), b.raw());
}

#[test]
fn canonical_collapses_mirror_pairs() {
    for seq in ["4", "12345", "1224566677", "435261", "7", "171717"] {
        let b = replay(seq);
        assert_eq!(b.canonical().raw(), b.mirror().canonical().raw());
    }
    // A symmetric position is its own canonical form.
    let sym = replay("44");
    assert_eq!(sym.canonical().raw(), sym.raw());
}

#[test]
fn player_follows_parity() {
    assert_eq!(board::empty().player(), board::FIRST_PLAYER);
    assert_eq!(replay("4").player(), board::SECOND_PLAYER);
    assert_eq!(replay("44").player(), board::FIRST_PLAYER);
    assert_eq!(replay("44536").player(), board::SECOND_PLAYER);
}

#[test]
fn render_shows_fixed_glyphs_per_player() {
    // One center move: the first player's stone prints as X wherever
    // it is the mover's or the opponent's set.
    let b = replay("4");
    let grid: String = b.render().into_iter().collect();
    let lines: Vec<&str> = grid.lines().collect();
    assert_eq!(lines.len(), 6);
    assert_eq!(lines[5], "...X...");
    assert_eq!(lines[4], ".......");
    let b2 = replay("44");
    let grid2: String = b2.render().into_iter().collect();
    let lines2: Vec<&str> = grid2.lines().collect();
    assert_eq!(lines2[5], "...X...");
    assert_eq!(lines2[4], "...O...");
}

#[test]
fn with_color_less_keeps_live_positions_apart() {
    // Early positions have no dead stones, so the reduction changes
    // nothing.
    let b = replay("445");
    let w = b.with_color_less();
    assert_eq!(w.raw(), b.raw());
}

#[test]
fn cache_store_then_lookup_round_trip() {
    let mut c = cache::new(6);
    let k1 = cache::board(replay("44"));
    let k2 = cache::board(replay("35"));
    assert_eq!(c.lookup(k1), None);
    c.store(k1, true);
    assert_eq!(c.lookup(k1), Some(true));
    c.store(k1, false);
    assert_eq!(c.lookup(k1), Some(false));
    c.store(k2, true);
    assert_eq!(c.lookup(k2), Some(true));
}

#[test]
fn cache_never_answers_for_another_key() {
    // Fill a tiny table with many keys: a lookup either misses or
    // answers exactly what was last stored under that very key.
    let mut c = cache::new(2);
    let seqs = ["4", "44", "444", "35", "353", "12", "121", "67", "676", "55"];
    let keys: Vec<_> = seqs.iter().map(|s| cache::board(replay(s))).collect();
    for (n, k) in keys.iter().enumerate() {
        c.store(*k, n % 2 == 0);
    }
    for (n, k) in keys.iter().enumerate() {
        match c.lookup(*k) {
            None => {},
            Some(v) => {
                // Only the last write to this slot survives; if this
                // key's entry survived, its value must be its own.
                let mut expected = None;
                for (n2, k2) in keys.iter().enumerate() {
                    if k2.first == k.first && k2.second == k.second {
                        expected = Some(n2 % 2 == 0);
                    }
                }
                let _ = n;
                assert_eq!(Some(v), expected);
            },
        }
    }
}

#[test]
fn colorless_canonical_key_matches_mirrored_position() {
    for seq in ["4", "123", "44352", "7116"] {
        let b = replay(seq);
        let k1 = cache::board(b);
        let k2 = cache::board(b.mirror());
        assert_eq!(k1.first, k2.first);
        assert_eq!(k1.second, k2.second);
    }
}
