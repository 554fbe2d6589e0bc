use connect_four::board;
use connect_four::board::Board;
use connect_four::search::Solver;

fn replay(seq: &str) -> Board {
    let mut b = board::empty();
    for ch in seq.bytes() {
        let mv = b.moves().for_column((ch - b'1') as u64);
        assert!(!mv.empty());
        b = b.do_move(mv);
    }
    b
}

fn solve(seq: &str, draw_is_success: bool) -> bool {
    let mut s = Solver::new(14, draw_is_success);
    s.solve(replay(seq))
}

/// The sign rule of the reference scores: positive when the mover can
/// force a win, zero when only a draw can be forced, negative when the
/// mover is lost. The solver mode per query follows the parity of the
/// moves played, as the mode flag awards draws to the player moving at
/// even stone counts.
fn score_of(seq: &str) -> i64 {
    let first_player_to_move = seq.len() % 2 == 0;
    let can_win = solve(seq, !first_player_to_move);
    if can_win {
        return 1;
    }
    let can_draw = solve(seq, first_player_to_move);
    if can_draw {
        0
    } else {
        -1
    }
}

#[test]
fn two_winning_replies_leave_no_safe_move() {
    // The player who just moved owns three on the bottom row with both
    // ends open and playable: no single reply blocks both.
    let b = replay("22334");
    let moves = b.moves();
    assert!(b.safe_moves(moves).empty());
    assert_eq!(solve("22334", false), false);
    assert_eq!(solve("22334", true), false);
}

#[test]
fn single_winning_reply_forces_the_block() {
    // Only one end of the row of three is open: the block is the one
    // safe move.
    let b = replay("21374");
    let moves = b.moves();
    let safe = b.safe_moves(moves);
    assert!(!safe.empty());
    assert_eq!(safe.raw(), moves.for_column(4).raw());
}


#[test]
fn endgame_wins_for_the_mover() {
    assert_eq!(score_of("57234251536772155623166151"), 1);
    assert_eq!(score_of("56247277213235275335472174"), 1);
    assert_eq!(score_of("176241317132631315246647337524"), 1);
}

#[test]
fn endgame_draws_with_best_play() {
    assert_eq!(score_of("44312173744725125327517536167353"), 0);
    assert_eq!(score_of("6722645434233166135546143653"), 0);
}

#[test]
fn endgame_losses_for_the_mover() {
    assert_eq!(score_of("65754752525514271222671146113464"), -1);
    assert_eq!(score_of("122363572346623371311177626625"), -1);
    assert_eq!(score_of("1557726675473642365721756465"), -1);
}

#[test]
fn both_modes_agree_on_decided_endgames() {
    // On a mover-wins position the mode flag does not matter.
    assert!(solve("57234251536772155623166151", false));
    assert!(solve("57234251536772155623166151", true));
    // On a drawn position only the mode awarding draws to the mover's
    // side answers true.
    assert!(!solve("6722645434233166135546143653", false));
    assert!(solve("6722645434233166135546143653", true));
}
