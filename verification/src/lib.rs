//! Move-search engine for 4x4x4 three-dimensional tic-tac-toe.
//!
//! A board is a pair of disjoint 64-bit occupancy masks, one per player.
//! A player wins by occupying all four cells of one of 76 straight lines.
//! The engine enumerates the lines, scores positions with a heuristic
//! evaluator, and searches for the best move with depth-bounded minimax
//! and alpha-beta pruning.

pub mod board;
pub mod engine;
pub mod game;
pub mod lines;

pub use board::{bit_at, Board};
pub use engine::{evaluate_board, find_best_move, minimax, weight, EngineConfig};
pub use game::{Game, GameState, Player};
pub use lines::generate_win_masks;

use vstd::prelude::*;
use crate::game::game_state_of;
use crate::lines::{is_line_table, lemma_line_pop4, mask_at, wins, winning_mask_from};

verus! {

/// The state of the board the two masks describe, independent of whose
/// turn it is.
pub fn check_game_state(x_mask: u64, o_mask: u64) -> (r: GameState)
    ensures
        r == game_state_of(Board { x_mask, o_mask }),
{
    let g = Game { board: Board { x_mask, o_mask }, current_player: Player::X };
    g.check_game_state()
}

/// The first completed line's mask, in generation order, checking X
/// before O on each line; zero when no line is complete.
pub fn get_winning_mask(x_mask: u64, o_mask: u64) -> (r: u64)
    ensures
        r == winning_mask_from(x_mask, o_mask, 0),
        (r != 0) == (wins(x_mask) || wins(o_mask)),
{
    let masks = generate_win_masks();
    let mut i: usize = 0;
    while i < 76
        invariant
            0 <= i <= 76,
            is_line_table(masks@),
            winning_mask_from(x_mask, o_mask, 0) == winning_mask_from(x_mask, o_mask, i as int),
            forall|j: int|
                0 <= j < i ==> (x_mask & #[trigger] mask_at(j)) != mask_at(j) && (o_mask & mask_at(
                    j,
                )) != mask_at(j),
        decreases 76 - i,
    {
        let line = masks[i];
        proof {
            assert(line == mask_at(i as int));
        }
        if (x_mask & line) == line {
            proof {
                lemma_line_pop4(i as int);
            }
            return line;
        }
        if (o_mask & line) == line {
            proof {
                lemma_line_pop4(i as int);
            }
            return line;
        }
        i += 1;
    }
    0
}

} // verus!
