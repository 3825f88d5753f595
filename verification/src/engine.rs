//! The move-search engine: heuristic evaluator, depth-bounded minimax
//! with alpha-beta pruning, and the hard-mode single-safe-move pre-pass.

use vstd::prelude::*;
use crate::board::{popcnt, popcount, pos_bit, Board};
use crate::game::{board_full, first_winner, first_winner_from, game_state_of, Game, GameState, Player};
use crate::lines::{generate_win_masks, is_line_table, mask_at, mask_has_win, wins};

verus! {

/// Per-invocation search configuration.
pub struct EngineConfig {
    pub max_depth: i32,
    pub hard_mode: bool,
}

impl EngineConfig {
    pub fn new(max_depth: i32) -> (c: Self)
        ensures
            c.max_depth == max_depth,
            !c.hard_mode,
    {
        EngineConfig { max_depth, hard_mode: false }
    }

    pub fn new_with_hard(max_depth: i32, hard_mode: bool) -> (c: Self)
        ensures
            c.max_depth == max_depth,
            c.hard_mode == hard_mode,
    {
        EngineConfig { max_depth, hard_mode }
    }
}

/// The step function that rewards a side's cell count within one line.
pub open spec fn spec_weight(count: int) -> int {
    if count == 3 {
        100
    } else if count == 2 {
        10
    } else if count == 1 {
        1
    } else {
        0
    }
}

/// Rewards a side's cell count within one line: super-linear as the
/// line fills, zero for an empty or four-cell count.
pub fn weight(count: i32) -> (r: i32)
    ensures
        r == spec_weight(count as int),
        0 <= r <= 100,
{
    match count {
        3 => 100,
        2 => 10,
        1 => 1,
        _ => 0,
    }
}

/// The contribution of line `i` to the static score: a line counts
/// only while a single side occupies it.
pub open spec fn line_score(b: Board, i: int) -> int {
    let xc = popcnt(b.x_mask & mask_at(i));
    let oc = popcnt(b.o_mask & mask_at(i));
    if xc > 0 && oc == 0 {
        spec_weight(xc)
    } else if oc > 0 && xc == 0 {
        -spec_weight(oc)
    } else {
        0
    }
}

/// The sum of the contributions of the first `n` lines.
pub open spec fn eval_upto(b: Board, n: int) -> int
    decreases n,
{
    if n <= 0 {
        0
    } else {
        eval_upto(b, n - 1) + line_score(b, n - 1)
    }
}

/// The static heuristic score of a board: positive favours X.
pub open spec fn spec_evaluate(b: Board) -> int {
    eval_upto(b, 76)
}

pub proof fn lemma_eval_upto_bounds(b: Board, n: int)
    requires
        0 <= n <= 76,
    ensures
        -100 * n <= eval_upto(b, n) <= 100 * n,
    decreases n,
{
    if n > 0 {
        lemma_eval_upto_bounds(b, n - 1);
    }
}

/// The static score never leaves [-7600, 7600].
pub proof fn lemma_eval_bounds(b: Board)
    ensures
        -7600 <= spec_evaluate(b) <= 7600,
{
    lemma_eval_upto_bounds(b, 76);
}

/// Sums, over the 76 lines, the weight of the side that occupies the
/// line alone; mixed and empty lines contribute nothing.
pub fn evaluate_board(board: &Board) -> (r: i32)
    ensures
        r as int == spec_evaluate(*board),
{
    let masks = generate_win_masks();
    let mut weighted_score: i32 = 0;
    let mut i: usize = 0;
    while i < 76
        invariant
            is_line_table(masks@),
            0 <= i <= 76,
            weighted_score as int == eval_upto(*board, i as int),
            -100 * i as int <= weighted_score as int <= 100 * i as int,
        decreases 76 - i,
    {
        let line = masks[i];
        proof {
            assert(line == mask_at(i as int));
        }
        let x_count = popcount(board.x_mask & line);
        let o_count = popcount(board.o_mask & line);

        if x_count > 0 && o_count == 0 {
            weighted_score = weighted_score + weight(x_count as i32);
        } else if o_count > 0 && x_count == 0 {
            weighted_score = weighted_score - weight(o_count as i32);
        }
        i += 1;
    }
    weighted_score
}

proof fn lemma_eval_upto_empty(b: Board, n: int)
    requires
        0 <= n <= 76,
        forall|i: int| 0 <= i < n ==> #[trigger] line_score(b, i) == 0,
    ensures
        eval_upto(b, n) == 0,
    decreases n,
{
    if n > 0 {
        lemma_eval_upto_empty(b, n - 1);
    }
}

/// An empty board evaluates to zero: every line is empty and counts
/// nothing.
pub proof fn lemma_evaluate_empty()
    ensures
        spec_evaluate(Board { x_mask: 0u64, o_mask: 0u64 }) == 0,
{
    let b = Board { x_mask: 0u64, o_mask: 0u64 };
    assert forall|i: int| 0 <= i < 76 implies #[trigger] line_score(b, i) == 0 by {
        let m = mask_at(i);
        assert(0u64 & m == 0u64) by (bit_vector);
        crate::board::lemma_popcnt_zero(64);
    }
    lemma_eval_upto_empty(b, 76);
}

/// A line held by X alone contributes exactly the weight of X's count
/// there: one lone X counts 1, three X's count 100.
pub proof fn lemma_line_contribution(b: Board, i: int)
    requires
        0 <= i < 76,
        b.o_mask & mask_at(i) == 0,
    ensures
        popcnt(b.x_mask & mask_at(i)) == 1 ==> line_score(b, i) == 1,
        popcnt(b.x_mask & mask_at(i)) == 3 ==> line_score(b, i) == 100,
{
    crate::board::lemma_popcnt_zero(64);
}

// ----------------------------------------------------------------------
// The search, specified: exhaustive (unpruned) minimax.
// ----------------------------------------------------------------------

/// Cell `pos` is occupied by neither side.
pub open spec fn cell_free(b: Board, pos: int) -> bool {
    (b.x_mask | b.o_mask) & pos_bit(pos) == 0
}

/// The board after the given side claims cell `pos`.
pub open spec fn apply_move(b: Board, pos: int, as_x: bool) -> Board {
    if as_x {
        Board { x_mask: b.x_mask | pos_bit(pos), o_mask: b.o_mask }
    } else {
        Board { x_mask: b.x_mask, o_mask: b.o_mask | pos_bit(pos) }
    }
}

/// Playing a free cell keeps the two occupancy masks disjoint: the
/// search can never build a board where both sides hold one cell.
pub proof fn lemma_apply_move_preserves_wf(b: Board, pos: int, as_x: bool)
    requires
        crate::board::board_wf(b),
        cell_free(b, pos),
    ensures
        crate::board::board_wf(apply_move(b, pos, as_x)),
{
    let x = b.x_mask;
    let o = b.o_mask;
    let bit = pos_bit(pos);
    assert((x | bit) & o == 0 && x & (o | bit) == 0) by (bit_vector)
        requires x & o == 0 && (x | o) & bit == 0;
}

/// The value and chosen move of exhaustive minimax: a won position
/// scores 100000 + depth (faster wins score higher), a lost one the
/// negation, a full board 0; at depth 0 the static evaluation decides;
/// otherwise the best move among the free cells, lowest index first.
pub open spec fn spec_minimax(b: Board, depth: int, maximizing: bool) -> (int, int)
    decreases depth, 65int,
{
    let w = first_winner_from(b.x_mask, b.o_mask, 0);
    if w == GameState::XWins {
        (100000 + depth, -1)
    } else if w == GameState::OWins {
        (-100000 - depth, -1)
    } else if board_full(b) {
        (0, -1)
    } else if depth <= 0 {
        (spec_evaluate(b), -1)
    } else {
        spec_best_from(b, depth, maximizing, 0)
    }
}

/// The best (value, move) among the free cells with index `pos` or
/// higher, folded from the right; on ties the lower cell index wins.
pub open spec fn spec_best_from(b: Board, depth: int, maximizing: bool, pos: int) -> (int, int)
    decreases depth, 64 - pos,
{
    if pos < 0 || pos >= 64 || depth <= 0 {
        (if maximizing { -1000000int } else { 1000000int }, -1int)
    } else if !cell_free(b, pos) {
        spec_best_from(b, depth, maximizing, pos + 1)
    } else {
        let child = spec_minimax(apply_move(b, pos, maximizing), depth - 1, !maximizing).0;
        let rest = spec_best_from(b, depth, maximizing, pos + 1);
        if maximizing {
            if child >= rest.0 {
                (child, pos)
            } else {
                rest
            }
        } else {
            if child <= rest.0 {
                (child, pos)
            } else {
                rest
            }
        }
    }
}

/// The best (value, move) among the free cells with index below `pos`,
/// folded from the left with strict improvement, as the search loop
/// accumulates it.
pub open spec fn spec_prefix(b: Board, depth: int, maximizing: bool, pos: int) -> (int, int)
    decreases depth, pos,
{
    if pos <= 0 || pos > 64 || depth <= 0 {
        (if maximizing { -1000000int } else { 1000000int }, -1int)
    } else if !cell_free(b, pos - 1) {
        spec_prefix(b, depth, maximizing, pos - 1)
    } else {
        let prev = spec_prefix(b, depth, maximizing, pos - 1);
        let child = spec_minimax(apply_move(b, pos - 1, maximizing), depth - 1, !maximizing).0;
        if maximizing {
            if child > prev.0 {
                (child, pos - 1)
            } else {
                prev
            }
        } else {
            if child < prev.0 {
                (child, pos - 1)
            } else {
                prev
            }
        }
    }
}

/// Picks the better of an accumulated prefix result and a remainder
/// result, preferring the prefix on ties.
pub open spec fn sel(maximizing: bool, acc: (int, int), rest: (int, int)) -> (int, int) {
    if maximizing {
        if acc.0 >= rest.0 {
            acc
        } else {
            rest
        }
    } else {
        if acc.0 <= rest.0 {
            acc
        } else {
            rest
        }
    }
}

/// The exact result of the pruned search loop from cell `pos` on,
/// carrying the accumulated best (value, move) and the current window:
/// it mirrors the executable loop step for step, raising alpha (or
/// lowering beta) and stopping early once the window closes.
pub open spec fn spec_ab_from(
    b: Board,
    depth: int,
    maximizing: bool,
    pos: int,
    best: int,
    bmove: int,
    a: int,
    bb: int,
) -> (int, int)
    decreases depth, 64 - pos,
{
    if pos < 0 || pos >= 64 || depth <= 0 {
        (best, bmove)
    } else if !cell_free(b, pos) {
        spec_ab_from(b, depth, maximizing, pos + 1, best, bmove, a, bb)
    } else {
        let c = spec_ab(apply_move(b, pos, maximizing), depth - 1, !maximizing, a, bb).0;
        let improved = if maximizing {
            c > best
        } else {
            c < best
        };
        let best2 = if improved {
            c
        } else {
            best
        };
        let bmove2 = if improved {
            pos
        } else {
            bmove
        };
        let a2 = if maximizing && best2 > a {
            best2
        } else {
            a
        };
        let bb2 = if !maximizing && best2 < bb {
            best2
        } else {
            bb
        };
        if bb2 <= a2 {
            (best2, bmove2)
        } else {
            spec_ab_from(b, depth, maximizing, pos + 1, best2, bmove2, a2, bb2)
        }
    }
}

/// The exact (value, move) the pruned search returns for any window:
/// terminal and leaf positions as in `spec_minimax`, and otherwise the
/// pruned fold over the free cells.
pub open spec fn spec_ab(b: Board, depth: int, maximizing: bool, alpha: int, beta: int) -> (
    int,
    int,
)
    decreases depth, 65int,
{
    let w = first_winner_from(b.x_mask, b.o_mask, 0);
    if w == GameState::XWins {
        (100000 + depth, -1)
    } else if w == GameState::OWins {
        (-100000 - depth, -1)
    } else if board_full(b) {
        (0, -1)
    } else if depth <= 0 {
        (spec_evaluate(b), -1)
    } else {
        spec_ab_from(
            b,
            depth,
            maximizing,
            0,
            if maximizing {
                -1000000int
            } else {
                1000000int
            },
            -1,
            alpha,
            beta,
        )
    }
}

/// A board that is not full has a free cell.
pub proof fn lemma_nonfull_free(b: Board)
    requires
        !board_full(b),
    ensures
        exists|p: int| 0 <= p < 64 && cell_free(b, p),
{
    let occ = b.x_mask | b.o_mask;
    let d = !occ;
    assert(d != 0) by (bit_vector)
        requires occ != 0xffff_ffff_ffff_ffffu64 && d == !occ;
    broadcast use vstd::std_specs::bits::axiom_u64_trailing_zeros;
    let t = vstd::std_specs::bits::u64_trailing_zeros(d) as u64;
    assert((d >> t) & 1u64 == 1u64);
    assert(occ & (1u64 << t) == 0) by (bit_vector)
        requires (d >> t) & 1u64 == 1u64 && t < 64 && d == !occ;
    assert(cell_free(b, t as int));
}

/// The prefix value never crosses its starting sentinel, and while it
/// still equals the sentinel no move has been recorded.
pub proof fn lemma_prefix_props(b: Board, depth: int, maximizing: bool, pos: int)
    requires
        0 <= pos <= 64,
    ensures
        maximizing ==> spec_prefix(b, depth, maximizing, pos).0 >= -1000000,
        !maximizing ==> spec_prefix(b, depth, maximizing, pos).0 <= 1000000,
        maximizing && spec_prefix(b, depth, maximizing, pos).0 == -1000000
            ==> spec_prefix(b, depth, maximizing, pos).1 == -1,
        !maximizing && spec_prefix(b, depth, maximizing, pos).0 == 1000000
            ==> spec_prefix(b, depth, maximizing, pos).1 == -1,
    decreases pos,
{
    if pos > 0 && depth > 0 {
        lemma_prefix_props(b, depth, maximizing, pos - 1);
    }
}

/// Exhaustive minimax stays within the depth-biased win scores.
pub proof fn lemma_minimax_bounds(b: Board, depth: int, maximizing: bool)
    requires
        0 <= depth <= 64,
    ensures
        -(100000 + depth) <= spec_minimax(b, depth, maximizing).0 <= 100000 + depth,
    decreases depth, 65int,
{
    let w = first_winner_from(b.x_mask, b.o_mask, 0);
    if w != GameState::XWins && w != GameState::OWins && !board_full(b) {
        if depth <= 0 {
            lemma_eval_bounds(b);
        } else {
            lemma_nonfull_free(b);
            lemma_best_from_props(b, depth, maximizing, 0);
        }
    }
}

/// What the remainder fold returns: with no free cell at `pos` or
/// beyond, the sentinel and no move; otherwise a strictly in-bounds
/// value and a free cell of the considered range.
pub proof fn lemma_best_from_props(b: Board, depth: int, maximizing: bool, pos: int)
    requires
        1 <= depth <= 64,
        0 <= pos <= 64,
    ensures
        ({
            let r = spec_best_from(b, depth, maximizing, pos);
            if exists|p: int| pos <= p < 64 && cell_free(b, p) {
                &&& -(100000 + depth) < r.0 < 100000 + depth
                &&& pos <= r.1 < 64
                &&& cell_free(b, r.1)
            } else {
                r == (if maximizing { -1000000int } else { 1000000int }, -1int)
            }
        }),
    decreases depth, 64 - pos,
{
    let r = spec_best_from(b, depth, maximizing, pos);
    if pos >= 64 {
        assert(!exists|p: int| pos <= p < 64 && cell_free(b, p));
    } else if !cell_free(b, pos) {
        lemma_best_from_props(b, depth, maximizing, pos + 1);
        assert((exists|p: int| pos <= p < 64 && cell_free(b, p)) == (exists|p: int|
            pos + 1 <= p < 64 && cell_free(b, p))) by {
            if exists|p: int| pos <= p < 64 && cell_free(b, p) {
                let p = choose|p: int| pos <= p < 64 && cell_free(b, p);
                assert(pos + 1 <= p < 64 && cell_free(b, p));
            }
        }
    } else {
        lemma_best_from_props(b, depth, maximizing, pos + 1);
        lemma_minimax_bounds(apply_move(b, pos, maximizing), depth - 1, !maximizing);
        assert(exists|p: int| pos <= p < 64 && cell_free(b, p));
    }
}

/// The whole fold equals the better of the accumulated prefix below
/// `pos` and the remainder fold from `pos` on: the invariant that ties
/// the search loop to exhaustive minimax.
pub proof fn lemma_bridge(b: Board, depth: int, maximizing: bool, pos: int)
    requires
        1 <= depth <= 64,
        0 <= pos <= 64,
    ensures
        spec_best_from(b, depth, maximizing, 0) == sel(
            maximizing,
            spec_prefix(b, depth, maximizing, pos),
            spec_best_from(b, depth, maximizing, pos),
        ),
    decreases pos,
{
    if pos == 0 {
        lemma_best_from_props(b, depth, maximizing, 0);
    } else {
        lemma_bridge(b, depth, maximizing, pos - 1);
    }
}

/// Below `bound`, so is the whole remainder fold, as long as every
/// child stays below it.
proof fn lemma_bf_below(b: Board, depth: int, pos: int, bound: int)
    requires
        1 <= depth <= 64,
        0 <= pos <= 64,
        bound > -1000000,
        forall|p: int|
            0 <= p < 64 && cell_free(b, p) ==> spec_minimax(
                #[trigger] apply_move(b, p, true),
                depth - 1,
                false,
            ).0 < bound,
    ensures
        spec_best_from(b, depth, true, pos).0 < bound,
    decreases 64 - pos,
{
    if pos < 64 {
        lemma_bf_below(b, depth, pos + 1, bound);
    }
}

/// When one free cell's child value tops every other child's strictly,
/// the fold returns exactly that value and that cell.
proof fn lemma_bf_argmax(b: Board, depth: int, pos: int, f: int, vstar: int)
    requires
        1 <= depth <= 64,
        0 <= f < 64,
        cell_free(b, f),
        spec_minimax(apply_move(b, f, true), depth - 1, false).0 == vstar,
        vstar > -1000000,
        forall|p: int|
            0 <= p < 64 && p != f && cell_free(b, p) ==> spec_minimax(
                #[trigger] apply_move(b, p, true),
                depth - 1,
                false,
            ).0 < vstar,
        0 <= pos <= 64,
    ensures
        pos <= f ==> spec_best_from(b, depth, true, pos) == (vstar, f),
        pos > f ==> spec_best_from(b, depth, true, pos).0 < vstar,
    decreases 64 - pos,
{
    if pos < 64 {
        lemma_bf_argmax(b, depth, pos + 1, f, vstar);
    }
}

/// Completing a line one move away scores below nothing: for a side to
/// move whose reply at `p` does not win at once, the subtree under `p`
/// stays strictly below the one-ply win score.
proof fn lemma_child_value_below_win(b: Board, depth: int, p: int)
    requires
        1 <= depth <= 64,
        0 <= p < 64,
        cell_free(b, p),
        first_winner_from(
            apply_move(b, p, true).x_mask,
            apply_move(b, p, true).o_mask,
            0,
        ) != GameState::XWins,
    ensures
        spec_minimax(apply_move(b, p, true), depth - 1, false).0 < 100000 + depth - 1,
{
    let b2 = apply_move(b, p, true);
    let w2 = first_winner_from(b2.x_mask, b2.o_mask, 0);
    crate::game::lemma_first_winner_cases(b2.x_mask, b2.o_mask, 0);
    if w2 != GameState::OWins && !board_full(b2) {
        if depth - 1 <= 0 {
            lemma_eval_bounds(b2);
        } else {
            lemma_nonfull_free(b2);
            lemma_best_from_props(b2, depth - 1, false, 0);
        }
    }
}

/// With X to move on an undecided board, a sole immediately-winning
/// completion `f` is the move the search chooses, at the one-ply win
/// score 100000 + depth - 1.
pub proof fn lemma_immediate_win_is_chosen(b: Board, depth: int, f: int)
    requires
        1 <= depth <= 64,
        first_winner_from(b.x_mask, b.o_mask, 0) == GameState::Ongoing,
        0 <= f < 64,
        cell_free(b, f),
        first_winner_from(
            apply_move(b, f, true).x_mask,
            apply_move(b, f, true).o_mask,
            0,
        ) == GameState::XWins,
        forall|p: int|
            0 <= p < 64 && p != f && cell_free(b, p) ==> first_winner_from(
                (#[trigger] apply_move(b, p, true)).x_mask,
                apply_move(b, p, true).o_mask,
                0,
            ) != GameState::XWins,
    ensures
        spec_minimax(b, depth, true) == (100000 + depth - 1, f),
        spec_minimax(b, depth, true).0 >= 100000,
{
    let tt = pos_bit(f);
    crate::lines::lemma_pos_bit_nonzero(f);
    assert(0xffff_ffff_ffff_ffffu64 & tt == tt) by (bit_vector);
    assert(!board_full(b));
    let vstar = 100000 + depth - 1;
    assert(spec_minimax(apply_move(b, f, true), depth - 1, false).0 == vstar);
    assert forall|p: int| 0 <= p < 64 && p != f && cell_free(b, p) implies spec_minimax(
        #[trigger] apply_move(b, p, true),
        depth - 1,
        false,
    ).0 < vstar by {
        lemma_child_value_below_win(b, depth, p);
    }
    lemma_bf_argmax(b, depth, 0, f, vstar);
}

/// With X to move and no immediately-winning completion anywhere, the
/// position scores strictly below the one-ply win score: a faster
/// forced win always outranks a slower one.
pub proof fn lemma_no_immediate_win_scores_lower(b: Board, depth: int)
    requires
        1 <= depth <= 64,
        first_winner_from(b.x_mask, b.o_mask, 0) == GameState::Ongoing,
        forall|p: int|
            0 <= p < 64 && cell_free(b, p) ==> first_winner_from(
                (#[trigger] apply_move(b, p, true)).x_mask,
                apply_move(b, p, true).o_mask,
                0,
            ) != GameState::XWins,
    ensures
        spec_minimax(b, depth, true).0 < 100000 + depth - 1,
{
    if !board_full(b) {
        let vstar = 100000 + depth - 1;
        assert forall|p: int| 0 <= p < 64 && cell_free(b, p) implies spec_minimax(
            #[trigger] apply_move(b, p, true),
            depth - 1,
            false,
        ).0 < vstar by {
            lemma_child_value_below_win(b, depth, p);
        }
        lemma_bf_below(b, depth, 0, vstar);
    }
}

/// Depth-bounded minimax over the free cells, in increasing cell order,
/// with alpha-beta pruning. Within the window the result equals
/// exhaustive minimax; outside it only the corresponding bound is
/// promised; with the full sentinel window score and move both equal
/// the exhaustive search's.
#[verifier::rlimit(60)]
pub fn minimax(board: Board, depth: i32, is_maximizing: bool, alpha: i32, beta: i32) -> (r: (
    i32,
    i32,
))
    requires
        0 <= depth <= 64,
        -1000000 <= alpha < beta <= 1000000,
    ensures
        ({
            let v = spec_minimax(board, depth as int, is_maximizing);
            let w = first_winner_from(board.x_mask, board.o_mask, 0);
            // The terminal and leaf results, whatever the window.
            &&& w == GameState::XWins ==> r.0 == 100000 + depth && r.1 == -1
            &&& w == GameState::OWins ==> r.0 == -100000 - depth && r.1 == -1
            &&& w == GameState::Ongoing && board_full(board) ==> r.0 == 0 && r.1 == -1
            &&& w == GameState::Ongoing && !board_full(board) && depth == 0 ==> r.0 as int
                == spec_evaluate(board) && r.1 == -1
            // An inner node always returns a free cell as its move.
            &&& w == GameState::Ongoing && !board_full(board) && depth > 0 ==> 0 <= r.1 < 64
                && cell_free(board, r.1 as int)
            // The score never leaves the depth-biased range: the
            // window sentinels are never returned.
            &&& -(100000 + depth as int) <= r.0 as int <= 100000 + depth as int
            // The result is pinned exactly for every admitted window:
            // equal inputs give equal results.
            &&& r.0 as int == spec_ab(board, depth as int, is_maximizing, alpha as int,
                beta as int).0
            &&& r.1 as int == spec_ab(board, depth as int, is_maximizing, alpha as int,
                beta as int).1
            // Within the window the exhaustive value is returned
            // exactly; outside it, the matching bound holds.
            &&& v.0 <= alpha ==> r.0 <= alpha
            &&& v.0 >= beta ==> r.0 >= beta
            &&& alpha < v.0 < beta ==> r.0 as int == v.0
            &&& alpha == -1000000 && beta == 1000000 ==> r.0 as int == v.0 && r.1 as int == v.1
        }),
    decreases depth,
{
    let masks = generate_win_masks();
    let winner = first_winner(board.x_mask, board.o_mask, &masks);
    if winner == GameState::XWins {
        return (100000 + depth, -1);
    }
    if winner == GameState::OWins {
        return (-100000 - depth, -1);
    }

    let occupied = board.x_mask | board.o_mask;
    if occupied == 0xffff_ffff_ffff_ffffu64 {
        return (0, -1);
    }

    if depth == 0 {
        proof {
            lemma_eval_bounds(board);
        }
        return (evaluate_board(&board), -1);
    }

    let ghost d: int = depth as int;
    let ghost vv = spec_best_from(board, d, is_maximizing, 0);
    proof {
        assert(spec_minimax(board, d, is_maximizing) == vv);
        lemma_minimax_bounds(board, d, is_maximizing);
    }

    let mut best_move: i32 = -1;
    let mut best_score: i32 = if is_maximizing {
        -1000000
    } else {
        1000000
    };
    let mut a = alpha;
    let mut bb = beta;
    let mut pos: u64 = 0;
    let ghost init: int = if is_maximizing {
        -1000000int
    } else {
        1000000int
    };

    while pos < 64
        invariant_except_break
            a < bb,
            spec_ab_from(board, d, is_maximizing, 0, init, -1, alpha as int, beta as int)
                == spec_ab_from(board, d, is_maximizing, pos as int, best_score as int,
                best_move as int, a as int, bb as int),
            is_maximizing ==> bb == beta && a >= alpha && a >= best_score && (a == alpha || a
                == best_score) && best_score >= -1000000,
            !is_maximizing ==> a == alpha && bb <= beta && bb <= best_score && (bb == beta || bb
                == best_score) && best_score <= 1000000,
            is_maximizing ==> (best_score as int <= alpha as int || best_score as int
                <= spec_prefix(board, d, true, pos as int).0),
            is_maximizing ==> (spec_prefix(board, d, true, pos as int).0 > alpha as int
                ==> best_score as int == spec_prefix(board, d, true, pos as int).0
                && best_move as int == spec_prefix(board, d, true, pos as int).1),
            !is_maximizing ==> (best_score as int >= beta as int || best_score as int
                >= spec_prefix(board, d, false, pos as int).0),
            !is_maximizing ==> (spec_prefix(board, d, false, pos as int).0 < beta as int
                ==> best_score as int == spec_prefix(board, d, false, pos as int).0
                && best_move as int == spec_prefix(board, d, false, pos as int).1),
        invariant
            is_maximizing ==> ((best_move == -1) <==> (best_score == -1000000)),
            is_maximizing ==> (best_score == -1000000 || (-(100000 + d) < best_score as int
                && (best_score as int) < 100000 + d)),
            !is_maximizing ==> ((best_move == -1) <==> (best_score == 1000000)),
            !is_maximizing ==> (best_score == 1000000 || (-(100000 + d) < best_score as int
                && (best_score as int) < 100000 + d)),
            best_move != -1 ==> 0 <= best_move < 64 && cell_free(board, best_move as int),
            (exists|p: int| 0 <= p < pos && cell_free(board, p)) ==> (is_maximizing ==> best_score
                != -1000000) && (!is_maximizing ==> best_score != 1000000),
            0 <= pos <= 64,
            1 <= depth <= 64,
            d == depth as int,
            -1000000 <= alpha,
            alpha < beta,
            beta <= 1000000,
            occupied == board.x_mask | board.o_mask,
            first_winner_from(board.x_mask, board.o_mask, 0) != GameState::XWins,
            first_winner_from(board.x_mask, board.o_mask, 0) != GameState::OWins,
            !board_full(board),
            vv == spec_best_from(board, d, is_maximizing, 0),
        ensures
            pos == 64 ==> (is_maximizing ==> (best_score as int <= alpha as int || best_score as int
                <= spec_prefix(board, d, true, 64).0)),
            pos == 64 ==> (is_maximizing ==> (spec_prefix(board, d, true, 64).0 > alpha as int
                ==> best_score as int == spec_prefix(board, d, true, 64).0 && best_move as int
                == spec_prefix(board, d, true, 64).1)),
            pos == 64 ==> (is_maximizing ==> (best_score == -1000000 ==> best_move == -1)
                && best_score >= -1000000),
            pos == 64 ==> (!is_maximizing ==> (best_score as int >= beta as int
                || best_score as int >= spec_prefix(board, d, false, 64).0)),
            pos == 64 ==> (!is_maximizing ==> (spec_prefix(board, d, false, 64).0 < beta as int
                ==> best_score as int == spec_prefix(board, d, false, 64).0 && best_move as int
                == spec_prefix(board, d, false, 64).1)),
            pos == 64 ==> (!is_maximizing ==> (best_score == 1000000 ==> best_move == -1)
                && best_score <= 1000000),
            spec_ab_from(board, d, is_maximizing, 0, init, -1, alpha as int, beta as int) == (
                best_score as int,
                best_move as int,
            ),
            pos < 64 ==> (is_maximizing ==> best_score >= beta && vv.0 >= beta),
            pos < 64 ==> (!is_maximizing ==> best_score <= alpha && vv.0 <= alpha),
        decreases 64 - pos,
    {
        let move_bit = 1u64 << pos;
        if occupied & move_bit == 0 {
            proof {
                assert(cell_free(board, pos as int));
            }
            let mut new_board = board;
            let score: i32;
            if is_maximizing {
                new_board.x_mask = new_board.x_mask | move_bit;
                let (s, _m) = minimax(new_board, depth - 1, false, a, bb);
                score = s;
            } else {
                new_board.o_mask = new_board.o_mask | move_bit;
                let (s, _m) = minimax(new_board, depth - 1, true, a, bb);
                score = s;
            }
            let ghost a_old: int = a as int;
            let ghost bb_old: int = bb as int;
            let ghost b_old: int = best_score as int;
            let ghost m_old: int = best_move as int;
            let ghost vc = spec_minimax(apply_move(board, pos as int, is_maximizing), d - 1,
                !is_maximizing).0;
            proof {
                assert(new_board == apply_move(board, pos as int, is_maximizing));
                lemma_prefix_props(board, d, is_maximizing, pos as int);
                lemma_prefix_props(board, d, is_maximizing, pos as int + 1);
                assert(spec_prefix(board, d, is_maximizing, pos as int + 1) == (
                    if is_maximizing {
                        if vc > spec_prefix(board, d, true, pos as int).0 {
                            (vc, pos as int)
                        } else {
                            spec_prefix(board, d, true, pos as int)
                        }
                    } else {
                        if vc < spec_prefix(board, d, false, pos as int).0 {
                            (vc, pos as int)
                        } else {
                            spec_prefix(board, d, false, pos as int)
                        }
                    }
                ));
            }
            if is_maximizing {
                if score > best_score {
                    best_score = score;
                    best_move = pos as i32;
                }
                if best_score > a {
                    a = best_score;
                }
                if bb <= a {
                    proof {
                        assert(spec_ab_from(board, d, is_maximizing, pos as int, b_old, m_old,
                            a_old, bb_old) == (best_score as int, best_move as int));
                        assert(best_score as int >= beta as int);
                        assert(score as int >= beta as int);
                        assert(vc >= beta as int);
                        lemma_bridge(board, d, true, pos as int + 1);
                        assert(spec_prefix(board, d, true, pos as int + 1).0 >= beta as int);
                        assert(vv.0 >= beta as int);
                    }
                    break;
                }
            } else {
                if score < best_score {
                    best_score = score;
                    best_move = pos as i32;
                }
                if best_score < bb {
                    bb = best_score;
                }
                if bb <= a {
                    proof {
                        assert(spec_ab_from(board, d, is_maximizing, pos as int, b_old, m_old,
                            a_old, bb_old) == (best_score as int, best_move as int));
                        assert(best_score as int <= alpha as int);
                        assert(score as int <= alpha as int);
                        assert(vc <= alpha as int);
                        lemma_bridge(board, d, false, pos as int + 1);
                        assert(spec_prefix(board, d, false, pos as int + 1).0 <= alpha as int);
                        assert(vv.0 <= alpha as int);
                    }
                    break;
                }
            }
            proof {
                assert(spec_ab_from(board, d, is_maximizing, pos as int, b_old, m_old, a_old,
                    bb_old) == spec_ab_from(board, d, is_maximizing, pos as int + 1,
                    best_score as int, best_move as int, a as int, bb as int));
            }
        } else {
            proof {
                assert(!cell_free(board, pos as int));
                assert(spec_prefix(board, d, is_maximizing, pos as int + 1) == spec_prefix(board, d,
                    is_maximizing, pos as int));
                assert(spec_ab_from(board, d, is_maximizing, pos as int, best_score as int,
                    best_move as int, a as int, bb as int) == spec_ab_from(board, d, is_maximizing,
                    pos as int + 1, best_score as int, best_move as int, a as int, bb as int));
            }
        }
        pos = pos + 1;
    }

    proof {
        lemma_nonfull_free(board);
        if pos == 64 {
            lemma_bridge(board, d, is_maximizing, 64);
            lemma_prefix_props(board, d, is_maximizing, 64);
            assert(spec_best_from(board, d, is_maximizing, 64) == (
                if is_maximizing { -1000000int } else { 1000000int },
                -1int,
            ));
            assert(vv == sel(is_maximizing, spec_prefix(board, d, is_maximizing, 64),
                spec_best_from(board, d, is_maximizing, 64)));
            assert(vv == spec_prefix(board, d, is_maximizing, 64));
        }
    }

    (best_score, best_move)
}

// ----------------------------------------------------------------------
// The root call, with the hard-mode single-safe-move pre-pass.
// ----------------------------------------------------------------------

/// After the mover's candidate, the opponent's reply at `p` wins at once.
pub open spec fn reply_wins(b: Board, mover_is_x: bool, p: int) -> bool {
    cell_free(b, p) && wins(
        if mover_is_x {
            b.o_mask | pos_bit(p)
        } else {
            b.x_mask | pos_bit(p)
        },
    )
}

/// The opponent of the given side has an immediate winning reply on `b`.
pub open spec fn opponent_can_win(b: Board, mover_is_x: bool) -> bool {
    exists|p: int| 0 <= p < 64 && #[trigger] reply_wins(b, mover_is_x, p)
}

/// A candidate move is safe: the cell is free and, once played, the
/// opponent has no immediate winning reply.
pub open spec fn is_safe_move(b: Board, mover_is_x: bool, pos: int) -> bool {
    &&& 0 <= pos < 64
    &&& cell_free(b, pos)
    &&& !opponent_can_win(apply_move(b, pos, mover_is_x), mover_is_x)
}

/// How many of the cells below `n` are safe moves.
pub open spec fn safe_count(b: Board, mover_is_x: bool, n: int) -> int
    decreases n,
{
    if n <= 0 {
        0
    } else {
        safe_count(b, mover_is_x, n - 1) + if is_safe_move(b, mover_is_x, n - 1) {
            1int
        } else {
            0int
        }
    }
}

/// The lowest safe move with index `pos` or higher, or -1 if none.
pub open spec fn first_safe_from(b: Board, mover_is_x: bool, pos: int) -> int
    decreases 64 - pos,
{
    if pos < 0 || pos >= 64 {
        -1
    } else if is_safe_move(b, mover_is_x, pos) {
        pos
    } else {
        first_safe_from(b, mover_is_x, pos + 1)
    }
}

/// The move the engine chooses: in hard mode with exactly one safe
/// candidate, that candidate; otherwise the move of the full-window
/// minimax search at the configured depth.
pub open spec fn spec_engine_move(b: Board, player: Player, max_depth: int, hard_mode: bool) -> int {
    let mover_is_x = player == Player::X;
    if hard_mode && safe_count(b, mover_is_x, 64) == 1 {
        first_safe_from(b, mover_is_x, 0)
    } else {
        spec_minimax(b, max_depth, mover_is_x).1
    }
}

/// Whether the opponent of the given side can win `b` with one reply.
fn opponent_has_winning_reply(nb: &Board, mover_is_x: bool, masks: &Vec<u64>) -> (r: bool)
    requires
        is_line_table(masks@),
    ensures
        r == opponent_can_win(*nb, mover_is_x),
{
    let occupied = nb.x_mask | nb.o_mask;
    let mut q: u64 = 0;
    let mut found = false;
    while q < 64
        invariant
            0 <= q <= 64,
            is_line_table(masks@),
            occupied == nb.x_mask | nb.o_mask,
            found == exists|p: int| 0 <= p < q && #[trigger] reply_wins(*nb, mover_is_x, p),
        decreases 64 - q,
    {
        let bit = 1u64 << q;
        if occupied & bit == 0 {
            let win = if mover_is_x {
                mask_has_win(nb.o_mask | bit, masks)
            } else {
                mask_has_win(nb.x_mask | bit, masks)
            };
            if win {
                found = true;
            }
            proof {
                assert(cell_free(*nb, q as int));
                assert(win == reply_wins(*nb, mover_is_x, q as int));
            }
        } else {
            proof {
                assert(!cell_free(*nb, q as int));
                assert(!reply_wins(*nb, mover_is_x, q as int));
            }
        }
        q = q + 1;
    }
    found
}

/// Chooses a move for the side to move. In hard mode, when exactly one
/// candidate avoids an immediate opponent win, that candidate is
/// returned without searching; otherwise the full-window alpha-beta
/// search at `max_depth` decides. Returns -1 only on a board with no
/// move to make (already won, or full).
pub fn find_best_move(game: &Game, config: &EngineConfig) -> (r: i32)
    requires
        1 <= config.max_depth <= 64,
    ensures
        r as int == spec_engine_move(
            game.board,
            game.current_player,
            config.max_depth as int,
            config.hard_mode,
        ),
        r != -1 ==> 0 <= r < 64 && cell_free(game.board, r as int),
        game_state_of(game.board) == GameState::Ongoing ==> r != -1,
{
    let board = game.get_board();
    let is_maximizing = game.get_current_player() == Player::X;
    let ghost b = game.board;

    if config.hard_mode {
        let masks = generate_win_masks();
        let occupied = board.x_mask | board.o_mask;
        let mut safe_moves: Vec<i32> = Vec::new();
        let mut pos: u64 = 0;
        while pos < 64
            invariant
                0 <= pos <= 64,
                is_line_table(masks@),
                occupied == b.x_mask | b.o_mask,
                *board == b,
                safe_moves@.len() == safe_count(b, is_maximizing, pos as int),
                safe_moves@.len() > 0 ==> safe_moves@[0] as int == first_safe_from(b,
                    is_maximizing, 0) && is_safe_move(b, is_maximizing, safe_moves@[0] as int),
                safe_moves@.len() == 0 ==> first_safe_from(b, is_maximizing, 0) == first_safe_from(
                    b, is_maximizing, pos as int),
            decreases 64 - pos,
        {
            let move_bit = 1u64 << pos;
            if occupied & move_bit == 0 {
                let mut new_board = *board;
                if is_maximizing {
                    new_board.x_mask = new_board.x_mask | move_bit;
                } else {
                    new_board.o_mask = new_board.o_mask | move_bit;
                }
                proof {
                    assert(cell_free(b, pos as int));
                    assert(new_board == apply_move(b, pos as int, is_maximizing));
                }
                let danger = opponent_has_winning_reply(&new_board, is_maximizing, &masks);
                if !danger {
                    proof {
                        assert(is_safe_move(b, is_maximizing, pos as int));
                    }
                    safe_moves.push(pos as i32);
                } else {
                    proof {
                        assert(!is_safe_move(b, is_maximizing, pos as int));
                    }
                }
            } else {
                proof {
                    assert(!cell_free(b, pos as int));
                    assert(!is_safe_move(b, is_maximizing, pos as int));
                }
            }
            pos = pos + 1;
        }

        if safe_moves.len() == 1 {
            return safe_moves[0];
        }
    }

    let (_score, best_move) = minimax(*board, config.max_depth, is_maximizing, -1000000, 1000000);

    proof {
        let d = config.max_depth as int;
        let w = first_winner_from(b.x_mask, b.o_mask, 0);
        if w != GameState::XWins && w != GameState::OWins && !board_full(b) {
            lemma_best_from_props(b, d, is_maximizing, 0);
            lemma_nonfull_free(b);
        }
    }

    best_move
}

} // verus!
