//! Game state: a board plus the player whose turn it is.

use vstd::prelude::*;
use crate::board::{bit_at, cell_bit, Board};
use crate::lines::{generate_win_masks, is_line_table, mask_at, wins};

verus! {

#[derive(Clone, Copy, Debug, PartialEq, Eq, Structural)]
pub enum Player {
    Nobody,
    X,
    O,
}

#[derive(Clone, Copy, Debug, PartialEq, Eq, Structural)]
pub enum GameState {
    Ongoing,
    Draw,
    XWins,
    OWins,
}

/// All 64 cells are occupied.
pub open spec fn board_full(b: Board) -> bool {
    (b.x_mask | b.o_mask) == 0xffff_ffff_ffff_ffffu64
}

/// One walk over the line table from entry `i`: the first completed
/// line decides the winner, X checked before O on each line; Ongoing
/// when no line from `i` on is complete.
pub open spec fn first_winner_from(x: u64, o: u64, i: int) -> GameState
    decreases 76 - i,
{
    if i < 0 || i >= 76 {
        GameState::Ongoing
    } else if (x & mask_at(i)) == mask_at(i) {
        GameState::XWins
    } else if (o & mask_at(i)) == mask_at(i) {
        GameState::OWins
    } else {
        first_winner_from(x, o, i + 1)
    }
}

/// The state of a board: a completed line wins, even on a full board,
/// the first one in generation order deciding whose win it is; a full
/// board without a winner is a draw.
pub open spec fn game_state_of(b: Board) -> GameState {
    let w = first_winner_from(b.x_mask, b.o_mask, 0);
    if w == GameState::XWins {
        GameState::XWins
    } else if w == GameState::OWins {
        GameState::OWins
    } else if board_full(b) {
        GameState::Draw
    } else {
        GameState::Ongoing
    }
}

/// The walk reports Ongoing exactly when no line from `i` on is
/// complete for either side, and otherwise names one of the winners.
pub proof fn lemma_first_winner_cases(x: u64, o: u64, i: int)
    requires
        0 <= i <= 76,
    ensures
        first_winner_from(x, o, i) == GameState::XWins || first_winner_from(x, o, i)
            == GameState::OWins || first_winner_from(x, o, i) == GameState::Ongoing,
        (first_winner_from(x, o, i) == GameState::Ongoing) <==> (forall|j: int|
            i <= j < 76 ==> (x & #[trigger] mask_at(j)) != mask_at(j) && (o & mask_at(j))
                != mask_at(j)),
    decreases 76 - i,
{
    if i < 76 {
        lemma_first_winner_cases(x, o, i + 1);
    }
}

/// The walk reports Ongoing exactly when neither side holds any
/// complete line.
pub proof fn lemma_first_winner_iff_wins(x: u64, o: u64)
    ensures
        (first_winner_from(x, o, 0) == GameState::Ongoing) <==> (!wins(x) && !wins(o)),
        first_winner_from(x, o, 0) == GameState::XWins || first_winner_from(x, o, 0)
            == GameState::OWins || first_winner_from(x, o, 0) == GameState::Ongoing,
{
    lemma_first_winner_cases(x, o, 0);
}

/// Walks the table once and reports the first completed line's owner.
pub fn first_winner(x_mask: u64, o_mask: u64, masks: &Vec<u64>) -> (r: GameState)
    requires
        is_line_table(masks@),
    ensures
        r == first_winner_from(x_mask, o_mask, 0),
{
    let mut i: usize = 0;
    while i < 76
        invariant
            0 <= i <= 76,
            is_line_table(masks@),
            first_winner_from(x_mask, o_mask, 0) == first_winner_from(x_mask, o_mask, i as int),
        decreases 76 - i,
    {
        let line = masks[i];
        proof {
            assert(line == mask_at(i as int));
        }
        if (x_mask & line) == line {
            return GameState::XWins;
        }
        if (o_mask & line) == line {
            return GameState::OWins;
        }
        i += 1;
    }
    GameState::Ongoing
}

/// A move at (x, y, z) is accepted: coordinates in range, the cell is
/// free in both masks, and a real player is to move.
pub open spec fn move_accepted(g: Game, x: int, y: int, z: int) -> bool {
    &&& 0 <= x < 4
    &&& 0 <= y < 4
    &&& 0 <= z < 4
    &&& g.board.x_mask & cell_bit(x, y, z) == 0
    &&& g.board.o_mask & cell_bit(x, y, z) == 0
    &&& g.current_player != Player::Nobody
}

pub struct Game {
    pub board: Board,
    pub current_player: Player,
}

impl Game {
    /// A fresh game: empty board, X to move.
    pub fn new() -> (g: Self)
        ensures
            g.board.x_mask == 0,
            g.board.o_mask == 0,
            g.current_player == Player::X,
    {
        Game { board: Board::new(), current_player: Player::X }
    }

    /// Plays at (x, y, z) for the current player and hands the turn over.
    /// Rejects out-of-range coordinates, occupied cells, and a missing
    /// player, leaving the game unchanged.
    pub fn make_move(&mut self, x: i32, y: i32, z: i32) -> (r: bool)
        ensures
            r == move_accepted(*old(self), x as int, y as int, z as int),
            !r ==> *final(self) == *old(self),
            r && old(self).current_player == Player::X ==> *final(self) == (Game {
                board: Board {
                    x_mask: old(self).board.x_mask | cell_bit(x as int, y as int, z as int),
                    o_mask: old(self).board.o_mask,
                },
                current_player: Player::O,
            }),
            r && old(self).current_player == Player::O ==> *final(self) == (Game {
                board: Board {
                    x_mask: old(self).board.x_mask,
                    o_mask: old(self).board.o_mask | cell_bit(x as int, y as int, z as int),
                },
                current_player: Player::X,
            }),
    {
        if x < 0 || x >= 4 || y < 0 || y >= 4 || z < 0 || z >= 4 {
            return false;
        }

        let move_bit = bit_at(x, y, z);
        if (self.board.x_mask & move_bit) != 0 || (self.board.o_mask & move_bit) != 0 {
            return false;
        }

        match self.current_player {
            Player::X => {
                self.board.x_mask = self.board.x_mask | move_bit;
                self.current_player = Player::O;
            },
            Player::O => {
                self.board.o_mask = self.board.o_mask | move_bit;
                self.current_player = Player::X;
            },
            Player::Nobody => {
                return false;
            },
        }
        true
    }

    /// The state of the current board, independent of whose turn it is.
    pub fn check_game_state(&self) -> (r: GameState)
        ensures
            r == game_state_of(self.board),
    {
        let masks = generate_win_masks();

        match first_winner(self.board.x_mask, self.board.o_mask, &masks) {
            GameState::XWins => {
                return GameState::XWins;
            },
            GameState::OWins => {
                return GameState::OWins;
            },
            _ => {},
        }

        let occupied = self.board.x_mask | self.board.o_mask;
        if occupied == 0xffff_ffff_ffff_ffffu64 {
            return GameState::Draw;
        }

        GameState::Ongoing
    }

    /// Clears the board and gives X the move.
    pub fn reset(&mut self)
        ensures
            final(self).board.x_mask == 0,
            final(self).board.o_mask == 0,
            final(self).current_player == Player::X,
    {
        self.board = Board::new();
        self.current_player = Player::X;
    }

    pub fn get_current_player(&self) -> (p: Player)
        ensures
            p == self.current_player,
    {
        self.current_player
    }

    pub fn get_board(&self) -> (b: &Board)
        ensures
            *b == self.board,
    {
        &self.board
    }
}

impl Default for Game {
    /// A fresh game, as `new` builds it.
    fn default() -> (g: Self)
        ensures
            g.board.x_mask == 0,
            g.board.o_mask == 0,
            g.current_player == Player::X,
    {
        Game::new()
    }
}

/// A won, full board is reported as the win, never as a draw.
pub proof fn lemma_win_beats_draw(b: Board)
    requires
        wins(b.x_mask) || wins(b.o_mask),
    ensures
        game_state_of(b) != GameState::Draw,
        game_state_of(b) == GameState::XWins || game_state_of(b) == GameState::OWins,
{
    lemma_first_winner_iff_wins(b.x_mask, b.o_mask);
}

} // verus!
