use qubic_engine::{check_game_state, get_winning_mask, Board, Game, GameState, Player};

#[test]
fn new_game_is_empty_with_x_to_move() {
    let g = Game::new();
    assert_eq!(g.get_board().x_mask, 0);
    assert_eq!(g.get_board().o_mask, 0);
    assert_eq!(g.get_current_player(), Player::X);
}

#[test]
fn moves_alternate_and_set_bits() {
    let mut g = Game::new();
    assert!(g.make_move(0, 0, 0));
    assert_eq!(g.board.x_mask, 1);
    assert_eq!(g.get_current_player(), Player::O);
    assert!(g.make_move(1, 0, 0));
    assert_eq!(g.board.o_mask, 2);
    assert_eq!(g.get_current_player(), Player::X);
}

#[test]
fn out_of_range_and_occupied_moves_are_rejected() {
    let mut g = Game::new();
    assert!(!g.make_move(-1, 0, 0));
    assert!(!g.make_move(4, 0, 0));
    assert!(!g.make_move(0, 0, 17));
    assert!(g.make_move(2, 3, 1));
    // Same cell again, now O to move: rejected, nothing changes.
    let before_x = g.board.x_mask;
    let before_o = g.board.o_mask;
    assert!(!g.make_move(2, 3, 1));
    assert_eq!(g.board.x_mask, before_x);
    assert_eq!(g.board.o_mask, before_o);
    assert_eq!(g.get_current_player(), Player::O);
}

#[test]
fn reset_clears_the_board() {
    let mut g = Game::new();
    assert!(g.make_move(0, 0, 0));
    g.reset();
    assert_eq!(g.board.x_mask, 0);
    assert_eq!(g.board.o_mask, 0);
    assert_eq!(g.get_current_player(), Player::X);
}

#[test]
fn empty_board_is_ongoing() {
    assert_eq!(check_game_state(0, 0), GameState::Ongoing);
    let g = Game::new();
    assert_eq!(g.check_game_state(), GameState::Ongoing);
}

#[test]
fn completed_line_wins() {
    // X holds the whole first X-axis line: cells (0..4, 0, 0).
    assert_eq!(check_game_state(0xF, 0), GameState::XWins);
    assert_eq!(check_game_state(0, 0xF), GameState::OWins);
}

#[test]
fn full_board_without_line_check_runs_win_first() {
    // A full board where X holds a complete line must be the win,
    // never a draw, whatever else the board holds.
    let x: u64 = 0xF;
    let o: u64 = !x;
    let state = check_game_state(x, o);
    assert_ne!(state, GameState::Draw);
    assert_eq!(state, GameState::XWins);
}

#[test]
fn first_completed_line_decides_double_win_boards() {
    // O owns line 0 (cells 0-3), X owns the later line of cells 4-7:
    // the first completed line in table order names the winner, so the
    // state query and the winning-mask query agree.
    assert_eq!(check_game_state(0xF0, 0xF), GameState::OWins);
    assert_eq!(get_winning_mask(0xF0, 0xF), 0xF);
    // On one and the same line index, X is checked before O.
    assert_eq!(check_game_state(0xF, 0xF0), GameState::XWins);
    assert_eq!(get_winning_mask(0xF, 0xF0), 0xF);
}

#[test]
fn winning_mask_reports_first_completed_line() {
    assert_eq!(get_winning_mask(0, 0), 0);
    assert_eq!(get_winning_mask(0xF, 0), 0xF);
    assert_eq!(get_winning_mask(0, 0xF0), 0xF0);
    // X's line is found even when O also holds one later in the order.
    assert_eq!(get_winning_mask(0xF, 0xF0), 0xF);
    let board_with_no_line = Board { x_mask: 0x7, o_mask: 0x8 };
    assert_eq!(
        get_winning_mask(board_with_no_line.x_mask, board_with_no_line.o_mask),
        0
    );
}
