use vstd::prelude::*;

verus! {

/// A two-player, perfect-information game position: the capability set that
/// the search algorithms consume and the rules engine provides.
pub trait GameSituation: Sized {
    type Move: Copy;

    type Role;

    /// The moves the side to move may play, in the order `get_moves` hands
    /// them out.
    spec fn spec_moves(&self) -> Seq<Self::Move>;

    /// The position reached by playing `m`, or None when `m` is illegal here.
    spec fn spec_apply(&self, m: Self::Move) -> Option<Self>;

    /// Whose turn it is.
    spec fn spec_turn(&self) -> Self::Role;

    /// Neither the side to move nor its opponent has a legal move left.
    spec fn spec_finished(&self) -> bool;

    /// The winner of a finished position, or None for a draw or an
    /// unfinished position.
    spec fn spec_winner(&self) -> Option<Self::Role>;

    /// Applies a move to a copy of the position; the original is untouched.
    fn copy_apply(&self, the_move: Self::Move) -> (r: Option<Self>)
        ensures
            r == self.spec_apply(the_move),
    ;

    /// Every move handed out here applies successfully.
    fn get_moves(&self) -> (r: Vec<Self::Move>)
        ensures
            r@ == self.spec_moves(),
            forall|i: int| 0 <= i < r@.len() ==> (#[trigger] self.spec_apply(r@[i])) is Some,
    ;

    fn get_turn(&self) -> (r: Self::Role)
        ensures
            r == self.spec_turn(),
    ;

    fn is_finished(&self) -> (r: bool)
        ensures
            r == self.spec_finished(),
    ;

    fn get_winner(&self) -> (r: Option<Self::Role>)
        ensures
            r == self.spec_winner(),
    ;
}

/// A move supplier for one side of a game.  Implementations may be
/// interactive or heuristic, so nothing is promised about the returned move;
/// the driver checks it against the rules before applying it.
pub trait Player {
    type Situation: GameSituation;

    fn make_move(
        &mut self,
        situation: &Self::Situation,
        previous_move: Option<<Self::Situation as GameSituation>::Move>,
    ) -> Option<<Self::Situation as GameSituation>::Move>;
}

} // verus!
