use vstd::prelude::*;
use crate::ai;
use crate::ai::AlphaBeta;
use crate::ai::MinMaxTraits;
use crate::ai::SituationEvaluator;
use crate::bitboard::count_bits;
use crate::bitboard::lemma_count_bits_range;
use crate::game;
use crate::game::GameSituation;
use crate::othello::OthelloMove;
use crate::othello::OthelloSituation;

verus! {

/// Scores a position by its disc difference; a finished position scores the
/// full bound for a win, its negation for a loss, and zero for a draw.
pub struct SimpleOthelloEvaluator {}

impl SituationEvaluator for SimpleOthelloEvaluator {
    type Situation = OthelloSituation;

    open spec fn spec_eval(situation: &OthelloSituation) -> int {
        if situation.spec_finished() {
            match situation.spec_winner() {
                None => 0,
                Some(winner) => if winner == situation.spec_turn() {
                    64
                } else {
                    -64
                },
            }
        } else {
            situation.spec_score(situation.spec_turn())
        }
    }

    open spec fn spec_max_score() -> int {
        64
    }

    fn max_score() -> (r: i32) {
        64
    }

    fn evaluate_situation(situation: &OthelloSituation) -> (r: i32) {
        let turn = situation.get_turn();
        if situation.is_finished() {
            return match situation.get_winner() {
                None => 0,
                Some(winner) => if winner == turn {
                    64
                } else {
                    -64
                },
            };
        }
        situation.get_score(turn)
    }
}

/// The evaluator's scores always lie within its bound.
proof fn lemma_simple_evaluator_ok()
    ensures
        ai::evaluator_ok::<SimpleOthelloEvaluator>(),
{
    assert forall|s: OthelloSituation|
        -64 <= #[trigger] SimpleOthelloEvaluator::spec_eval(&s) <= 64 by {
        lemma_count_bits_range(s.spec_black(), 64);
        lemma_count_bits_range(s.spec_white(), 64);
        let d = count_bits(s.spec_white(), 64) - count_bits(s.spec_black(), 64);
        assert(d * -1int == -d);
        assert(d * 1int == d);
    }
}

pub struct OthelloMinMaxTraits {}

impl MinMaxTraits for OthelloMinMaxTraits {
    type Situation = OthelloSituation;

    type Evaluator = SimpleOthelloEvaluator;
}

/// Plays whatever legal move is handed out first.
pub struct DummyOthelloPlayer {}

impl DummyOthelloPlayer {
    pub fn new() -> (r: DummyOthelloPlayer) {
        DummyOthelloPlayer {}
    }
}

impl game::Player for DummyOthelloPlayer {
    type Situation = OthelloSituation;

    fn make_move(
        &mut self,
        situation: &OthelloSituation,
        _previous_move: Option<OthelloMove>,
    ) -> Option<OthelloMove> {
        let moves = situation.get_moves();
        if moves.len() == 0 {
            None
        } else {
            Some(moves[0])
        }
    }
}

/// Plays the move a fixed-depth minimax search picks.
pub struct OthelloMinMaxPlayer {
    algorithm: ai::MinMax<OthelloMinMaxTraits>,
    max_depth: u32,
}

impl OthelloMinMaxPlayer {
    #[verifier::type_invariant]
    spec fn inv(self) -> bool {
        self.max_depth >= 1
    }

    /// The search depth must allow at least one ply.
    pub fn new(max_depth: u32) -> (r: OthelloMinMaxPlayer)
        requires
            max_depth >= 1,
    {
        OthelloMinMaxPlayer { algorithm: ai::MinMax::new(), max_depth }
    }
}

impl game::Player for OthelloMinMaxPlayer {
    type Situation = OthelloSituation;

    fn make_move(
        &mut self,
        situation: &OthelloSituation,
        _previous_move: Option<OthelloMove>,
    ) -> Option<OthelloMove> {
        proof {
            use_type_invariant(&*self);
            lemma_simple_evaluator_ok();
        }
        self.algorithm.search_root(situation, self.max_depth).0
    }
}

/// Plays the move a fixed-depth alpha-beta search picks.
pub struct OthelloAlphaBetaPlayer {
    max_depth: u32,
}

impl AlphaBeta for OthelloAlphaBetaPlayer {
    type Situation = OthelloSituation;

    type Evaluator = SimpleOthelloEvaluator;
}

impl OthelloAlphaBetaPlayer {
    #[verifier::type_invariant]
    spec fn inv(self) -> bool {
        self.max_depth >= 1
    }

    /// The search depth must allow at least one ply.
    pub fn new(max_depth: u32) -> (r: OthelloAlphaBetaPlayer)
        requires
            max_depth >= 1,
    {
        OthelloAlphaBetaPlayer { max_depth }
    }
}

impl game::Player for OthelloAlphaBetaPlayer {
    type Situation = OthelloSituation;

    fn make_move(
        &mut self,
        situation: &OthelloSituation,
        _previous_move: Option<OthelloMove>,
    ) -> Option<OthelloMove> {
        proof {
            use_type_invariant(&*self);
            lemma_simple_evaluator_ok();
        }
        self.search_root(situation, self.max_depth).0
    }
}

} // verus!
