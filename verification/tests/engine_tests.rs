use qubic_engine::{
    evaluate_board, find_best_move, generate_win_masks, minimax, weight, Board, EngineConfig,
    Game, Player,
};

/// Exhaustive (unpruned) minimax over the same tree, for comparison
/// with the library's alpha-beta search.
fn plain_minimax(board: Board, depth: i32, maximizing: bool) -> (i32, i32) {
    let masks = generate_win_masks();
    for &mask in &masks {
        if (board.x_mask & mask) == mask {
            return (100000 + depth, -1);
        }
        if (board.o_mask & mask) == mask {
            return (-100000 - depth, -1);
        }
    }
    let occupied = board.x_mask | board.o_mask;
    if occupied.count_ones() == 64 {
        return (0, -1);
    }
    if depth == 0 {
        return (evaluate_board(&board), -1);
    }

    let mut best_move: i32 = -1;
    let mut best_score: i32 = if maximizing { -1000000 } else { 1000000 };
    for pos in 0..64u64 {
        let bit = 1u64 << pos;
        if occupied & bit != 0 {
            continue;
        }
        let mut nb = board;
        if maximizing {
            nb.x_mask |= bit;
        } else {
            nb.o_mask |= bit;
        }
        let (score, _) = plain_minimax(nb, depth - 1, !maximizing);
        if (maximizing && score > best_score) || (!maximizing && score < best_score) {
            best_score = score;
            best_move = pos as i32;
        }
    }
    (best_score, best_move)
}

#[test]
fn weight_steps() {
    assert_eq!(weight(0), 0);
    assert_eq!(weight(1), 1);
    assert_eq!(weight(2), 10);
    assert_eq!(weight(3), 100);
    assert_eq!(weight(4), 0);
    assert_eq!(weight(-2), 0);
}

#[test]
fn evaluate_empty_board_is_zero() {
    assert_eq!(evaluate_board(&Board { x_mask: 0, o_mask: 0 }), 0);
}

#[test]
fn evaluate_single_x_counts_its_lines() {
    // One X in a corner: 7 open lines, each contributing +1.
    assert_eq!(evaluate_board(&Board { x_mask: 1, o_mask: 0 }), 7);
    // Symmetrically for a lone O.
    assert_eq!(evaluate_board(&Board { x_mask: 0, o_mask: 1 }), -7);
}

#[test]
fn evaluate_three_in_open_line() {
    // X holds cells 0, 1, 2 of the first X-axis line: that line is
    // worth 100; the 6 + 3 + 3 other lines through those cells hold a
    // single X each.
    assert_eq!(evaluate_board(&Board { x_mask: 0x7, o_mask: 0 }), 112);
}

#[test]
fn evaluate_contested_line_counts_nothing() {
    // X and O in the same line: it contributes zero; the remaining
    // lines through cell 0 (6 of them) and cell 1 (3) are single-side.
    assert_eq!(evaluate_board(&Board { x_mask: 0x1, o_mask: 0x2 }), 6 - 3);
}

#[test]
fn minimax_scores_immediate_win_with_depth_bias() {
    // X holds 3 cells of the first line, the 4th is free, O elsewhere.
    let board = Board { x_mask: 0x7, o_mask: 0x30000 };
    let (score, mv) = minimax(board, 3, true, -1000000, 1000000);
    // The win lands one ply down, at remaining depth 2.
    assert_eq!(score, 100002);
    assert_eq!(mv, 3);
}

#[test]
fn faster_forced_win_scores_strictly_higher() {
    // Win in one ply: X completes cell 3 at once.
    let one_ply = Board { x_mask: 0x7, o_mask: 0x30000 };
    let (fast, _) = minimax(one_ply, 3, true, -1000000, 1000000);

    // Win in three plies: X holds {1, 2} of the line 0-3 and {4, 8} of
    // the line 0-4-8-12; playing cell 0 makes a double threat that one
    // O reply cannot cover.
    let three_ply = Board {
        x_mask: (1 << 1) | (1 << 2) | (1 << 4) | (1 << 8),
        o_mask: (1 << 59) | (1 << 60),
    };
    let (slow, mv) = minimax(three_ply, 3, true, -1000000, 1000000);
    assert_eq!(slow, 100000);
    assert_eq!(mv, 0);
    assert!(fast > slow);
}

#[test]
fn pruned_search_equals_exhaustive_minimax() {
    let positions = [
        Board { x_mask: 0, o_mask: 0 },
        Board { x_mask: 0x7, o_mask: 0x30000 },
        Board { x_mask: (1 << 21) | (1 << 42), o_mask: (1 << 5) | (1 << 6) },
        Board {
            x_mask: (1 << 1) | (1 << 2) | (1 << 4) | (1 << 8),
            o_mask: (1 << 59) | (1 << 60),
        },
        Board { x_mask: 0xF0F0, o_mask: 0x0F0F },
    ];
    for board in positions {
        for maximizing in [true, false] {
            for depth in [0, 1, 2] {
                let pruned = minimax(board, depth, maximizing, -1000000, 1000000);
                let plain = plain_minimax(board, depth, maximizing);
                assert_eq!(pruned, plain, "board {:?} depth {}", board, depth);
            }
        }
    }
}

#[test]
fn hard_mode_returns_the_single_safe_move() {
    // O threatens cells 1, 2, 3 of the first line; only blocking at
    // cell 0 denies O an immediate win next turn.
    let game = Game {
        board: Board {
            x_mask: (1 << 21) | (1 << 42) | (1 << 60),
            o_mask: 0xE,
        },
        current_player: Player::X,
    };
    let config = EngineConfig::new_with_hard(1, true);
    assert_eq!(find_best_move(&game, &config), 0);
}

#[test]
fn hard_mode_falls_back_when_no_move_is_safe() {
    // O threatens two disjoint lines at once; no single X move blocks
    // both, so the pre-pass defers to the ordinary search.
    let o_mask = 0xE | (0x1111_0000_0000_0000 & !(1u64 << 60));
    let game = Game {
        board: Board { x_mask: (1 << 21) | (1 << 42) | (1 << 37), o_mask },
        current_player: Player::X,
    };
    let config = EngineConfig::new_with_hard(1, true);
    let with_pre_pass = find_best_move(&game, &config);
    let plain_config = EngineConfig::new(1);
    let searched = find_best_move(&game, &plain_config);
    assert_eq!(with_pre_pass, searched);
}

#[test]
fn empty_board_depth_one_is_deterministic() {
    let game = Game::new();
    let config = EngineConfig::new(1);
    let first = find_best_move(&game, &config);
    let second = find_best_move(&game, &config);
    assert!((0..64).contains(&first));
    assert_eq!(first, second);
    // Cell 0 is the lowest-index cell lying on 7 lines, so the
    // depth-1 evaluation picks it first.
    assert_eq!(first, 0);
}

#[test]
fn engine_completes_a_winning_line() {
    // X holds 3 cells of the line 0-3; the engine must take cell 3.
    let game = Game {
        board: Board { x_mask: 0x7, o_mask: 0x30000 },
        current_player: Player::X,
    };
    for depth in [1, 2] {
        let config = EngineConfig::new(depth);
        assert_eq!(find_best_move(&game, &config), 3);
    }
    let (score, _) = minimax(game.board, 1, true, -1000000, 1000000);
    assert!(score >= 100000);
}

#[test]
fn engine_returns_no_move_on_decided_boards() {
    // Already won: nothing to search.
    let won = Game {
        board: Board { x_mask: 0xF, o_mask: 0x30000 },
        current_player: Player::O,
    };
    assert_eq!(find_best_move(&won, &EngineConfig::new(2)), -1);
    // Full board: no legal move.
    let full = Game {
        board: Board { x_mask: 0xF, o_mask: !0xFu64 },
        current_player: Player::X,
    };
    assert_eq!(find_best_move(&full, &EngineConfig::new(2)), -1);
}

#[test]
fn double_win_boards_follow_table_order() {
    // O owns line 0 (cells 0-3), X owns only the later line of cells
    // 4-7: the first completed line in table order decides.
    let board = Board { x_mask: 0xF0, o_mask: 0xF };
    let (score, mv) = minimax(board, 2, true, -1000000, 1000000);
    assert_eq!(score, -100002);
    assert_eq!(mv, -1);
    // With the lines swapped, X's earlier line decides.
    let board = Board { x_mask: 0xF, o_mask: 0xF0 };
    let (score, mv) = minimax(board, 2, true, -1000000, 1000000);
    assert_eq!(score, 100002);
    assert_eq!(mv, -1);
}

#[test]
fn engine_config_builders() {
    let c = EngineConfig::new(4);
    assert_eq!(c.max_depth, 4);
    assert!(!c.hard_mode);
    let h = EngineConfig::new_with_hard(5, true);
    assert_eq!(h.max_depth, 5);
    assert!(h.hard_mode);
}

#[test]
fn engine_plays_for_o_as_minimizer() {
    // O holds 3 cells of the first line; O to move completes it.
    let game = Game {
        board: Board { x_mask: 0x30000, o_mask: 0x7 },
        current_player: Player::O,
    };
    assert_eq!(find_best_move(&game, &EngineConfig::new(1)), 3);
}
