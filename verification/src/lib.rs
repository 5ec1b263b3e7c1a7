//! A verified Othello (Reversi) engine: a 64-bit board with wraparound-safe
//! directional shifts (`bitboard`), move generation and capture by
//! bitwise ray casting (`othello`), and generic fixed-depth negamax search,
//! plain and alpha-beta pruned, proved to return the same score (`ai`).

use vstd::prelude::*;

pub mod ai;
pub mod bitboard;
pub mod game;
pub mod othello;

verus! {

use crate::bitboard::occ;
use crate::game::GameSituation;
use crate::game::Player;
use crate::othello::OthelloMove;
use crate::othello::OthelloSituation;
use crate::othello::lemma_game_progress;

/// A full game between two players: the driver that alternates them from the
/// opening position until neither side can move, or a player misbehaves.
pub struct OthelloGame<
    B: Player<Situation = OthelloSituation>,
    W: Player<Situation = OthelloSituation>,
> {
    black_player: B,
    white_player: W,
    situation: OthelloSituation,
}

impl<
    B: Player<Situation = OthelloSituation>,
    W: Player<Situation = OthelloSituation>,
> OthelloGame<B, W> {
    /// The position the game has reached.
    pub closed spec fn spec_situation(self) -> OthelloSituation {
        self.situation
    }

    /// A fresh game at the canonical opening position, Black to move.
    pub fn new(black_player: B, white_player: W) -> (r: OthelloGame<B, W>)
        ensures
            r.spec_situation().player_turn() == crate::othello::Player::Black,
            forall|i: int, j: int|
                #[trigger] occ(r.spec_situation().spec_black(), i, j) <==> ((i == 3 && j == 4) || (
                i == 4 && j == 3)),
            forall|i: int, j: int|
                #[trigger] occ(r.spec_situation().spec_white(), i, j) <==> ((i == 3 && j == 3) || (
                i == 4 && j == 4)),
    {
        OthelloGame { black_player, white_player, situation: OthelloSituation::new() }
    }

    /// Plays the game out and reports the winner, or None for a draw.  Each
    /// turn the player to move is asked for a move; a player that hands back
    /// no move, or an illegal one, forfeits, and the other side wins at once.
    /// The loop always ends: a placed disc never leaves the board, so discs
    /// grow with every placement, and a pass hands the turn to a side that
    /// can place one.
    pub fn play(&mut self) -> (r: Option<crate::othello::Player>)
        ensures
            final(self).spec_situation().spec_finished() ==> r == final(
                self).spec_situation().spec_winner(),
            !final(self).spec_situation().spec_finished() ==> r == Some(
                final(self).spec_situation().spec_turn().spec_opposite(),
            ),
    {
        let previous_move: Option<OthelloMove> = None;
        while !self.situation.is_finished()
            decreases
                    2 * (64 - self.situation.total_discs()) + if self.situation.spec_moves_mask()
                        == 0 {
                        1int
                    } else {
                        0int
                    },
        {
            proof {
                use_type_invariant(&self.situation);
            }
            let new_move = match self.situation.get_turn() {
                crate::othello::Player::Black => self.black_player.make_move(
                    &self.situation,
                    previous_move,
                ),
                crate::othello::Player::White => self.white_player.make_move(
                    &self.situation,
                    previous_move,
                ),
            };
            let ghost old_situation = self.situation;
            if let Some(the_move) = new_move {
                if let Some(new_situation) = self.situation.copy_apply(the_move) {
                    proof {
                        lemma_game_progress(old_situation, the_move, new_situation);
                    }
                    self.situation = new_situation;
                } else {
                    return Some(self.situation.get_turn().opposite());
                }
            } else {
                return Some(self.situation.get_turn().opposite());
            }
        }
        self.situation.get_winner()
    }
}

} // verus!
