use vstd::prelude::*;
use vstd::pervasive::unreached;
use core::marker::PhantomData;
use crate::game::GameSituation;

verus! {

// Fixed-depth negamax search.  The value of a position is `negamax`: at depth
// 0 or with no moves left it is the static evaluation; otherwise it is the
// greatest negated value of any child.  `MinMax::search` computes it exactly;
// `AlphaBeta::search` computes it up to the window bounds, which is enough
// for both roots to return the same score (`lemma_root_score_unique`).

/// Scores a situation from the perspective of the side to move.
pub trait SituationEvaluator {
    type Situation;

    /// The score `evaluate_situation` returns.
    spec fn spec_eval(situation: &Self::Situation) -> int;

    /// The bound that every score respects; see `evaluator_ok`.
    spec fn spec_max_score() -> int;

    /// A fixed positive bound on scores: a win scores it, a loss scores its
    /// negation, and heuristic scores lie between.
    fn max_score() -> (r: i32)
        ensures
            r == Self::spec_max_score(),
            r > 0,
    ;

    fn evaluate_situation(situation: &Self::Situation) -> (r: i32)
        ensures
            r == Self::spec_eval(situation),
    ;
}

/// The evaluator keeps every score within its own bound.
pub open spec fn evaluator_ok<E: SituationEvaluator>() -> bool {
    &&& 0 < E::spec_max_score() <= 0x7fff_ffff
    &&& forall|s: E::Situation|
        -E::spec_max_score() <= #[trigger] E::spec_eval(&s) <= E::spec_max_score()
}

/// The component types a minimax search runs over.
pub trait MinMaxTraits {
    type Situation: GameSituation;

    type Evaluator: SituationEvaluator<Situation = Self::Situation>;
}

/// The value of playing `m` in `s` and searching `depth - 1` plies deeper:
/// the child's value, negated because the perspective changes.
pub open spec fn child_value<S: GameSituation, E: SituationEvaluator<Situation = S>>(
    s: S,
    m: S::Move,
    depth: nat,
) -> int
    decreases depth, 0nat,
{
    if depth == 0 {
        0
    } else {
        -negamax::<S, E>(s.spec_apply(m).unwrap(), (depth - 1) as nat)
    }
}

/// The greatest `child_value` among the moves of `ms` (meaningful only for a
/// non-empty `ms`).
pub open spec fn best_value<S: GameSituation, E: SituationEvaluator<Situation = S>>(
    s: S,
    ms: Seq<S::Move>,
    depth: nat,
) -> int
    decreases depth, ms.len(),
{
    if ms.len() == 0 {
        0
    } else {
        let cv = child_value::<S, E>(s, ms.last(), depth);
        if ms.len() == 1 {
            cv
        } else {
            let prev = best_value::<S, E>(s, ms.drop_last(), depth);
            if cv > prev {
                cv
            } else {
                prev
            }
        }
    }
}

/// The fixed-depth negamax value of a position.
pub open spec fn negamax<S: GameSituation, E: SituationEvaluator<Situation = S>>(
    s: S,
    depth: nat,
) -> int
    decreases depth, s.spec_moves().len() + 1,
{
    if depth == 0 || s.spec_moves().len() == 0 {
        E::spec_eval(&s)
    } else {
        best_value::<S, E>(s, s.spec_moves(), depth)
    }
}

/// `best_value` bounds every child's value and is attained by one of them.
pub proof fn lemma_best_value_props<S: GameSituation, E: SituationEvaluator<Situation = S>>(
    s: S,
    ms: Seq<S::Move>,
    depth: nat,
)
    requires
        ms.len() >= 1,
    ensures
        forall|i: int|
            0 <= i < ms.len() ==> #[trigger] child_value::<S, E>(s, ms[i], depth) <= best_value::<
                S,
                E,
            >(s, ms, depth),
        exists|i: int|
            0 <= i < ms.len() && #[trigger] child_value::<S, E>(s, ms[i], depth) == best_value::<
                S,
                E,
            >(s, ms, depth),
    decreases ms.len(),
{
    if ms.len() == 1 {
        assert(child_value::<S, E>(s, ms[0], depth) == best_value::<S, E>(s, ms, depth));
    } else {
        lemma_best_value_props::<S, E>(s, ms.drop_last(), depth);
        let prev = best_value::<S, E>(s, ms.drop_last(), depth);
        let cv = child_value::<S, E>(s, ms.last(), depth);
        assert forall|i: int|
            0 <= i < ms.len() implies #[trigger] child_value::<S, E>(s, ms[i], depth)
            <= best_value::<S, E>(s, ms, depth) by {
            if i < ms.len() - 1 {
                assert(ms.drop_last()[i] == ms[i]);
            }
        }
        if cv > prev {
            assert(child_value::<S, E>(s, ms.last(), depth) == best_value::<S, E>(s, ms, depth));
        } else {
            let i = choose|i: int|
                0 <= i < ms.drop_last().len() && #[trigger] child_value::<S, E>(
                    s,
                    ms.drop_last()[i],
                    depth,
                ) == prev;
            assert(ms.drop_last()[i] == ms[i]);
            assert(child_value::<S, E>(s, ms[i], depth) == best_value::<S, E>(s, ms, depth));
        }
    }
}

/// Every negamax value respects the evaluator's bound.
pub proof fn lemma_negamax_bounded<S: GameSituation, E: SituationEvaluator<Situation = S>>(
    s: S,
    depth: nat,
)
    requires
        evaluator_ok::<E>(),
    ensures
        -E::spec_max_score() <= negamax::<S, E>(s, depth) <= E::spec_max_score(),
    decreases depth, s.spec_moves().len() + 1,
{
    if depth == 0 || s.spec_moves().len() == 0 {
        assert(E::spec_eval(&s) <= E::spec_max_score());
    } else {
        lemma_best_value_bounded::<S, E>(s, s.spec_moves(), depth);
    }
}

proof fn lemma_best_value_bounded<S: GameSituation, E: SituationEvaluator<Situation = S>>(
    s: S,
    ms: Seq<S::Move>,
    depth: nat,
)
    requires
        evaluator_ok::<E>(),
        ms.len() >= 1,
        depth >= 1,
    ensures
        -E::spec_max_score() <= best_value::<S, E>(s, ms, depth) <= E::spec_max_score(),
    decreases depth, ms.len(),
{
    lemma_negamax_bounded::<S, E>(s.spec_apply(ms.last()).unwrap(), (depth - 1) as nat);
    assert(child_value::<S, E>(s, ms.last(), depth) == -negamax::<S, E>(
        s.spec_apply(ms.last()).unwrap(),
        (depth - 1) as nat,
    ));
    if ms.len() > 1 {
        lemma_best_value_bounded::<S, E>(s, ms.drop_last(), depth);
    }
}

/// What a search may return at the root: the exact evaluation of a finished
/// position; otherwise a score that bounds every move's value, and is either
/// attained by some move or the floor when there are none.  This pins the
/// score down (`lemma_root_score_unique`), so any two searches that meet it
/// agree.
pub open spec fn root_score_ok<S: GameSituation, E: SituationEvaluator<Situation = S>>(
    s: S,
    depth: nat,
    score: int,
) -> bool {
    if s.spec_finished() {
        score == E::spec_eval(&s)
    } else {
        &&& -E::spec_max_score() <= score <= E::spec_max_score()
        &&& forall|i: int|
            0 <= i < s.spec_moves().len() ==> #[trigger] child_value::<S, E>(
                s,
                s.spec_moves()[i],
                depth,
            ) <= score
        &&& (score == -E::spec_max_score() || exists|i: int|
            0 <= i < s.spec_moves().len() && #[trigger] child_value::<S, E>(
                s,
                s.spec_moves()[i],
                depth,
            ) == score)
    }
}

/// The root score is unique: minimax and alpha-beta agree on it for every
/// position and depth.
pub proof fn lemma_root_score_unique<S: GameSituation, E: SituationEvaluator<Situation = S>>(
    s: S,
    depth: nat,
    score1: int,
    score2: int,
)
    requires
        root_score_ok::<S, E>(s, depth, score1),
        root_score_ok::<S, E>(s, depth, score2),
    ensures
        score1 == score2,
{
    if !s.spec_finished() {
        if score1 != -E::spec_max_score() {
            let i = choose|i: int|
                0 <= i < s.spec_moves().len() && #[trigger] child_value::<S, E>(
                    s,
                    s.spec_moves()[i],
                    depth,
                ) == score1;
            assert(score1 <= score2);
        }
        if score2 != -E::spec_max_score() {
            let i = choose|i: int|
                0 <= i < s.spec_moves().len() && #[trigger] child_value::<S, E>(
                    s,
                    s.spec_moves()[i],
                    depth,
                ) == score2;
            assert(score2 <= score1);
        }
    }
}

/// The pair `x` occurs in `s`.
spec fn pair_in<M>(s: Seq<(M, i32)>, x: (M, i32)) -> bool {
    exists|t: int| 0 <= t < s.len() && s[t] == x
}

/// Some pair of `s` carries the move `m`.
spec fn move_in<M>(s: Seq<(M, i32)>, m: M) -> bool {
    exists|t: int| 0 <= t < s.len() && (#[trigger] s[t]).0 == m
}

/// The move `m` occurs in `ms`.
spec fn mv_in<Mv>(ms: Seq<Mv>, m: Mv) -> bool {
    exists|u: int| 0 <= u < ms.len() && ms[u] == m
}

proof fn lemma_sorted_insert<M>(
    v: Seq<(M, i32)>,
    old_r: Seq<(M, i32)>,
    nr: Seq<(M, i32)>,
    u: int,
    pos: int,
)
    requires
        0 <= u < v.len(),
        old_r.len() == u,
        0 <= pos <= old_r.len(),
        nr.len() == old_r.len() + 1,
        forall|x: int| 0 <= x < pos ==> #[trigger] nr[x] == old_r[x],
        nr[pos] == v[u],
        forall|x: int| pos < x < nr.len() ==> #[trigger] nr[x] == old_r[x - 1],
        forall|t: int| 0 <= t < old_r.len() ==> #[trigger] pair_in(v.take(u), old_r[t]),
        forall|u2: int| 0 <= u2 < u ==> #[trigger] pair_in(old_r, v[u2]),
        forall|a: int, b: int|
            0 <= a <= b < old_r.len() ==> (#[trigger] old_r[a]).1 >= (#[trigger] old_r[b]).1,
        forall|t: int| 0 <= t < pos ==> (#[trigger] old_r[t]).1 > v[u].1,
        pos < old_r.len() ==> old_r[pos].1 <= v[u].1,
    ensures
        forall|t: int| 0 <= t < nr.len() ==> #[trigger] pair_in(v.take(u + 1), nr[t]),
        forall|u2: int| 0 <= u2 < u + 1 ==> #[trigger] pair_in(nr, v[u2]),
        forall|a: int, b: int|
            0 <= a <= b < nr.len() ==> (#[trigger] nr[a]).1 >= (#[trigger] nr[b]).1,
{
    assert forall|t3: int| 0 <= t3 < nr.len() implies #[trigger] pair_in(v.take(u + 1), nr[t3]) by {
        if t3 < pos {
            assert(pair_in(v.take(u), old_r[t3]));
            let u2 = choose|u2: int| 0 <= u2 < v.take(u).len() && v.take(u)[u2] == old_r[t3];
            assert(v.take(u + 1)[u2] == nr[t3]);
        } else if t3 == pos {
            assert(v.take(u + 1)[u] == nr[t3]);
        } else {
            assert(pair_in(v.take(u), old_r[t3 - 1]));
            let u2 = choose|u2: int| 0 <= u2 < v.take(u).len() && v.take(u)[u2] == old_r[t3 - 1];
            assert(v.take(u + 1)[u2] == nr[t3]);
        }
    }
    assert forall|u2: int| 0 <= u2 < u + 1 implies #[trigger] pair_in(nr, v[u2]) by {
        if u2 == u {
            assert(nr[pos] == v[u2]);
        } else {
            assert(pair_in(old_r, v[u2]));
            let t3 = choose|t3: int| 0 <= t3 < old_r.len() && old_r[t3] == v[u2];
            if t3 < pos {
                assert(nr[t3] == v[u2]);
            } else {
                assert(nr[t3 + 1] == v[u2]);
            }
        }
    }
    assert forall|a: int, b: int|
        0 <= a <= b < nr.len() implies (#[trigger] nr[a]).1 >= (#[trigger] nr[b]).1 by {
        if a < pos {
            assert(nr[a] == old_r[a]);
        } else if a > pos {
            assert(nr[a] == old_r[a - 1]);
        }
        if b < pos {
            assert(nr[b] == old_r[b]);
        } else if b > pos {
            assert(nr[b] == old_r[b - 1]);
        }
    }
}

/// Sorts move/score pairs by descending score.  The result holds exactly the
/// given entries, each found in the other list.
fn sort_moves_desc<M: Copy>(v: Vec<(M, i32)>) -> (r: Vec<(M, i32)>)
    ensures
        r@.len() == v@.len(),
        forall|t: int| 0 <= t < r@.len() ==> #[trigger] pair_in(v@, r@[t]),
        forall|u: int| 0 <= u < v@.len() ==> #[trigger] pair_in(r@, v@[u]),
        forall|a: int, b: int|
            0 <= a <= b < r@.len() ==> (#[trigger] r@[a]).1 >= (#[trigger] r@[b]).1,
{
    let mut r: Vec<(M, i32)> = Vec::new();
    let mut u: usize = 0;
    while u < v.len()
        invariant
            0 <= u <= v@.len(),
            r@.len() == u,
            forall|t: int| 0 <= t < r@.len() ==> #[trigger] pair_in(v@.take(u as int), r@[t]),
            forall|u2: int| 0 <= u2 < u ==> #[trigger] pair_in(r@, v@[u2]),
            forall|a: int, b: int|
                0 <= a <= b < r@.len() ==> (#[trigger] r@[a]).1 >= (#[trigger] r@[b]).1,
        decreases v@.len() - u,
    {
        let item = v[u];
        let mut pos: usize = 0;
        while pos < r.len() && r[pos].1 > item.1
            invariant
                0 <= pos <= r@.len(),
                item == v@[u as int],
                u < v@.len(),
                forall|t: int| 0 <= t < pos ==> (#[trigger] r@[t]).1 > item.1,
            decreases r@.len() - pos,
        {
            pos = pos + 1;
        }
        let mut nr: Vec<(M, i32)> = Vec::new();
        let mut t: usize = 0;
        while t < pos
            invariant
                pos <= r@.len(),
                nr@.len() == t,
                t <= pos,
                forall|x: int| 0 <= x < t ==> #[trigger] nr@[x] == r@[x],
            decreases pos - t,
        {
            nr.push(r[t]);
            t = t + 1;
        }
        nr.push(item);
        let mut t2: usize = pos;
        while t2 < r.len()
            invariant
                pos <= t2 <= r@.len(),
                nr@.len() == t2 + 1,
                item == v@[u as int],
                forall|x: int| 0 <= x < pos ==> #[trigger] nr@[x] == r@[x],
                nr@[pos as int] == item,
                forall|x: int| pos < x <= t2 ==> #[trigger] nr@[x] == r@[x - 1],
            decreases r@.len() - t2,
        {
            nr.push(r[t2]);
            t2 = t2 + 1;
        }
        proof {
            lemma_sorted_insert(v@, r@, nr@, u as int, pos as int);
        }
        r = nr;
        u = u + 1;
    }
    proof {
        assert(v@.take(v@.len() as int) =~= v@);
        assert forall|t: int| 0 <= t < r@.len() implies #[trigger] pair_in(v@, r@[t]) by {
            assert(pair_in(v@.take(v@.len() as int), r@[t]));
        }
    }
    r
}

/// Negamax value of `situation` up to the window [alpha, beta]: exact when
/// the value lies inside the window, clamped to the nearer edge otherwise.
fn window_search<S: GameSituation, E: SituationEvaluator<Situation = S>>(
    situation: S,
    depth: u32,
    alpha: i32,
    beta: i32,
) -> (r: i32)
    requires
        evaluator_ok::<E>(),
        -E::spec_max_score() <= alpha <= beta <= E::spec_max_score(),
    ensures
        -E::spec_max_score() <= r <= E::spec_max_score(),
        r >= negamax::<S, E>(situation, depth as nat) || r >= beta,
        r <= negamax::<S, E>(situation, depth as nat) || r <= alpha,
    decreases depth,
{
    if depth == 0 {
        return E::evaluate_situation(&situation);
    }
    let moves = situation.get_moves();
    if moves.len() == 0 {
        return E::evaluate_situation(&situation);
    }
    proof {
        lemma_best_value_props::<S, E>(situation, moves@, depth as nat);
        lemma_best_value_bounded::<S, E>(situation, moves@, depth as nat);
    }
    let ghost m_val = negamax::<S, E>(situation, depth as nat);
    let mut max_value = -E::max_score();
    let mut idx: usize = 0;
    while idx < moves.len()
        invariant
            evaluator_ok::<E>(),
            -E::spec_max_score() <= alpha <= beta <= E::spec_max_score(),
            depth >= 1,
            moves@ == situation.spec_moves(),
            moves@.len() >= 1,
            forall|i: int|
                0 <= i < moves@.len() ==> (#[trigger] situation.spec_apply(moves@[i])) is Some,
            0 <= idx <= moves@.len(),
            m_val == negamax::<S, E>(situation, depth as nat),
            m_val == best_value::<S, E>(situation, moves@, depth as nat),
            -E::spec_max_score() <= m_val <= E::spec_max_score(),
            forall|i: int|
                0 <= i < moves@.len() ==> #[trigger] child_value::<S, E>(
                    situation,
                    moves@[i],
                    depth as nat,
                ) <= m_val,
            exists|i: int|
                0 <= i < moves@.len() && #[trigger] child_value::<S, E>(
                    situation,
                    moves@[i],
                    depth as nat,
                ) == m_val,
            -E::spec_max_score() <= max_value <= E::spec_max_score(),
            forall|i: int|
                0 <= i < idx ==> #[trigger] child_value::<S, E>(situation, moves@[i], depth as nat)
                    <= max_value,
            max_value <= m_val || max_value <= alpha,
        decreases moves@.len() - idx,
    {
        let child = match situation.copy_apply(moves[idx]) {
            Some(c) => c,
            None => unreached(),
        };
        proof {
            lemma_negamax_bounded::<S, E>(
                situation.spec_apply(moves@[idx as int]).unwrap(),
                (depth - 1) as nat,
            );
        }
        let value = -window_search::<S, E>(child, depth - 1, -beta, -alpha);
        proof {
            assert(child_value::<S, E>(situation, moves@[idx as int], depth as nat)
                == -negamax::<S, E>(
                situation.spec_apply(moves@[idx as int]).unwrap(),
                (depth - 1) as nat,
            ));
        }
        if value >= beta {
            return beta;
        }
        if value > max_value {
            max_value = value;
        }
        idx = idx + 1;
    }
    max_value
}

/// Fixed-depth negamax search with alpha-beta pruning.  `search` prunes with
/// a score window; the root orders the moves by a shallow pre-search first.
pub trait AlphaBeta {
    type Situation: GameSituation;

    type Evaluator: SituationEvaluator<Situation = Self::Situation>;

    /// The fixed depth of the root's move-ordering pre-search; a heuristic
    /// that affects only how fast the search prunes, never its result.
    fn presort_depth(&self) -> u32 {
        2
    }

    /// Negamax value of `situation` up to the window [alpha, beta]: exact
    /// when the value lies inside the window, clamped to the nearer edge
    /// when it does not.
    fn search(&self, situation: Self::Situation, depth: u32, alpha: i32, beta: i32) -> (r: i32)
        requires
            evaluator_ok::<Self::Evaluator>(),
            -Self::Evaluator::spec_max_score() <= alpha <= beta
                <= Self::Evaluator::spec_max_score(),
        ensures
            -Self::Evaluator::spec_max_score() <= r <= Self::Evaluator::spec_max_score(),
            r >= negamax::<Self::Situation, Self::Evaluator>(situation, depth as nat) || r >= beta,
            r <= negamax::<Self::Situation, Self::Evaluator>(situation, depth as nat) || r
                <= alpha,
    {
        window_search::<Self::Situation, Self::Evaluator>(situation, depth, alpha, beta)
    }

    /// Orders the moves by a shallow pre-search, then searches each with the
    /// scores found so far as the window, and returns the best move and its
    /// score; on a finished position, no move and the evaluation.  The score
    /// returned is the same one `MinMax::search_root` finds.
    fn search_root(&self, situation: &Self::Situation, depth: u32) -> (r: (
        Option<<Self::Situation as GameSituation>::Move>,
        i32,
    ))
        requires
            evaluator_ok::<Self::Evaluator>(),
            depth >= 1,
        ensures
            root_score_ok::<Self::Situation, Self::Evaluator>(*situation, depth as nat, r.1 as int),
            situation.spec_finished() ==> r.0 is None,
            !situation.spec_finished() ==> (r.0 is Some <==> situation.spec_moves().len() > 0),
            r.0 matches Some(m) ==> exists|i: int|
                0 <= i < situation.spec_moves().len() && situation.spec_moves()[i] == m,
    {
        if situation.is_finished() {
            return (None, Self::Evaluator::evaluate_situation(situation));
        }
        let moves = situation.get_moves();
        let pre_depth = self.presort_depth();
        let mut scored: Vec<(<Self::Situation as GameSituation>::Move, i32)> = Vec::new();
        let mut idx: usize = 0;
        while idx < moves.len()
            invariant
                evaluator_ok::<Self::Evaluator>(),
                moves@ == situation.spec_moves(),
                forall|i: int|
                    0 <= i < moves@.len() ==> (#[trigger] situation.spec_apply(moves@[i])) is Some,
                0 <= idx <= moves@.len(),
                scored@.len() == idx,
                forall|t: int| 0 <= t < idx ==> (#[trigger] scored@[t]).0 == moves@[t],
            decreases moves@.len() - idx,
        {
            let child = match situation.copy_apply(moves[idx]) {
                Some(c) => c,
                None => unreached(),
            };
            let bound = Self::Evaluator::max_score();
            let key = -self.search(child, pre_depth, -bound, bound);
            scored.push((moves[idx], key));
            idx = idx + 1;
        }
        let sorted = sort_moves_desc(scored);
        let ghost ms = situation.spec_moves();
        proof {
            assert forall|t2: int| 0 <= t2 < sorted@.len() implies #[trigger] mv_in(
                ms,
                sorted@[t2].0,
            ) by {
                assert(pair_in(scored@, sorted@[t2]));
                let u = choose|u: int| 0 <= u < scored@.len() && scored@[u] == sorted@[t2];
                assert(ms[u] == sorted@[t2].0);
            }
            assert forall|u: int| 0 <= u < ms.len() implies #[trigger] move_in(sorted@, ms[u]) by {
                assert(pair_in(sorted@, scored@[u]));
                let t2 = choose|t2: int| 0 <= t2 < sorted@.len() && sorted@[t2] == scored@[u];
                assert((sorted@[t2]).0 == ms[u]);
            }
        }
        let mut best_move: Option<<Self::Situation as GameSituation>::Move> = None;
        let mut best_score = -Self::Evaluator::max_score();
        let mut t: usize = 0;
        while t < sorted.len()
            invariant
                evaluator_ok::<Self::Evaluator>(),
                depth >= 1,
                ms == situation.spec_moves(),
                forall|i: int|
                    0 <= i < ms.len() ==> (#[trigger] situation.spec_apply(ms[i])) is Some,
                sorted@.len() == ms.len(),
                forall|t2: int| 0 <= t2 < sorted@.len() ==> #[trigger] mv_in(ms, sorted@[t2].0),
                forall|u: int| 0 <= u < ms.len() ==> #[trigger] move_in(sorted@, ms[u]),
                0 <= t <= sorted@.len(),
                best_move is Some <==> t >= 1,
                best_move matches Some(m) ==> mv_in(ms, m),
                -Self::Evaluator::spec_max_score() <= best_score
                    <= Self::Evaluator::spec_max_score(),
                forall|t2: int|
                    0 <= t2 < t ==> #[trigger] child_value::<Self::Situation, Self::Evaluator>(
                        *situation,
                        sorted@[t2].0,
                        depth as nat,
                    ) <= best_score,
                best_score == -Self::Evaluator::spec_max_score() || exists|t2: int|
                    0 <= t2 < t && #[trigger] child_value::<Self::Situation, Self::Evaluator>(
                        *situation,
                        sorted@[t2].0,
                        depth as nat,
                    ) == best_score,
            decreases sorted@.len() - t,
        {
            let a_move = sorted[t].0;
            proof {
                assert(mv_in(ms, sorted@[t as int].0));
                let u = choose|u: int| 0 <= u < ms.len() && ms[u] == sorted@[t as int].0;
                assert(situation.spec_apply(ms[u]) is Some);
            }
            let child = match situation.copy_apply(a_move) {
                Some(c) => c,
                None => unreached(),
            };
            proof {
                lemma_negamax_bounded::<Self::Situation, Self::Evaluator>(
                    situation.spec_apply(sorted@[t as int].0).unwrap(),
                    (depth - 1) as nat,
                );
            }
            let bound = Self::Evaluator::max_score();
            let child_score = -self.search(child, depth - 1, -bound, -best_score);
            proof {
                assert(child_value::<Self::Situation, Self::Evaluator>(
                    *situation,
                    sorted@[t as int].0,
                    depth as nat,
                ) == -negamax::<Self::Situation, Self::Evaluator>(
                    situation.spec_apply(sorted@[t as int].0).unwrap(),
                    (depth - 1) as nat,
                ));
            }
            if child_score >= best_score {
                best_score = child_score;
                best_move = Some(a_move);
            }
            t = t + 1;
        }
        proof {
            if !(best_score == -Self::Evaluator::spec_max_score()) {
                let t2 = choose|t2: int|
                    0 <= t2 < sorted@.len() && #[trigger] child_value::<
                        Self::Situation,
                        Self::Evaluator,
                    >(*situation, sorted@[t2].0, depth as nat) == best_score;
                assert(mv_in(ms, sorted@[t2].0));
                let u = choose|u: int| 0 <= u < ms.len() && ms[u] == sorted@[t2].0;
                assert(child_value::<Self::Situation, Self::Evaluator>(
                    *situation,
                    ms[u],
                    depth as nat,
                ) == best_score);
            }
            assert forall|i: int| 0 <= i < ms.len() implies #[trigger] child_value::<
                Self::Situation,
                Self::Evaluator,
            >(*situation, ms[i], depth as nat) <= best_score by {
                assert(move_in(sorted@, ms[i]));
                let t2 = choose|t2: int| 0 <= t2 < sorted@.len() && sorted@[t2].0 == ms[i];
                assert(child_value::<Self::Situation, Self::Evaluator>(
                    *situation,
                    sorted@[t2].0,
                    depth as nat,
                ) <= best_score);
            }
        }
        (best_move, best_score)
    }
}

/// Fixed-depth negamax search without pruning.
pub struct MinMax<Traits: MinMaxTraits> {
    phantom: PhantomData<Traits>,
}

impl<Traits: MinMaxTraits> MinMax<Traits> {
    pub fn new() -> (r: Self) {
        MinMax { phantom: PhantomData }
    }

    /// The exact negamax value of `situation`.
    fn search(&self, situation: Traits::Situation, depth: u32) -> (r: i32)
        requires
            evaluator_ok::<Traits::Evaluator>(),
        ensures
            r == negamax::<Traits::Situation, Traits::Evaluator>(situation, depth as nat),
        decreases depth,
    {
        if depth == 0 {
            return Traits::Evaluator::evaluate_situation(&situation);
        }
        let moves = situation.get_moves();
        if moves.len() == 0 {
            return Traits::Evaluator::evaluate_situation(&situation);
        }
        let mut best = -Traits::Evaluator::max_score();
        let mut idx: usize = 0;
        while idx < moves.len()
            invariant
                evaluator_ok::<Traits::Evaluator>(),
                depth >= 1,
                moves@ == situation.spec_moves(),
                moves@.len() >= 1,
                forall|i: int|
                    0 <= i < moves@.len() ==> (#[trigger] situation.spec_apply(moves@[i])) is Some,
                0 <= idx <= moves@.len(),
                idx == 0 ==> best == -Traits::Evaluator::spec_max_score(),
                idx >= 1 ==> best == best_value::<Traits::Situation, Traits::Evaluator>(
                    situation,
                    moves@.take(idx as int),
                    depth as nat,
                ),
                -Traits::Evaluator::spec_max_score() <= best
                    <= Traits::Evaluator::spec_max_score(),
            decreases moves@.len() - idx,
        {
            let child = match situation.copy_apply(moves[idx]) {
                Some(c) => c,
                None => unreached(),
            };
            proof {
                lemma_negamax_bounded::<Traits::Situation, Traits::Evaluator>(
                    situation.spec_apply(moves@[idx as int]).unwrap(),
                    (depth - 1) as nat,
                );
            }
            let value = -self.search(child, depth - 1);
            proof {
                assert(value == child_value::<Traits::Situation, Traits::Evaluator>(
                    situation,
                    moves@[idx as int],
                    depth as nat,
                ));
                assert(moves@.take(idx as int + 1).drop_last() =~= moves@.take(idx as int));
                assert(moves@.take(idx as int + 1).last() == moves@[idx as int]);
            }
            if value > best {
                best = value;
            }
            idx = idx + 1;
        }
        proof {
            assert(moves@.take(moves@.len() as int) =~= moves@);
        }
        best
    }

    /// Searches every move and returns the one with the best score, together
    /// with that score; on a finished position, no move and the evaluation.
    pub fn search_root(&self, situation: &Traits::Situation, depth: u32) -> (r: (
        Option<<Traits::Situation as GameSituation>::Move>,
        i32,
    ))
        requires
            evaluator_ok::<Traits::Evaluator>(),
            depth >= 1,
        ensures
            root_score_ok::<Traits::Situation, Traits::Evaluator>(
                *situation,
                depth as nat,
                r.1 as int,
            ),
            situation.spec_finished() ==> r.0 is None,
            !situation.spec_finished() ==> (r.0 is Some <==> situation.spec_moves().len() > 0),
            r.0 matches Some(m) ==> exists|i: int|
                0 <= i < situation.spec_moves().len() && situation.spec_moves()[i] == m
                    && #[trigger] child_value::<Traits::Situation, Traits::Evaluator>(
                    *situation,
                    situation.spec_moves()[i],
                    depth as nat,
                ) == r.1 && (forall|j: int|
                    i < j < situation.spec_moves().len() ==> #[trigger] child_value::<
                        Traits::Situation,
                        Traits::Evaluator,
                    >(*situation, situation.spec_moves()[j], depth as nat) < r.1),
    {
        if situation.is_finished() {
            return (None, Traits::Evaluator::evaluate_situation(situation));
        }
        let moves = situation.get_moves();
        let mut best_move: Option<<Traits::Situation as GameSituation>::Move> = None;
        let mut best_score = -Traits::Evaluator::max_score();
        let mut idx: usize = 0;
        while idx < moves.len()
            invariant
                evaluator_ok::<Traits::Evaluator>(),
                depth >= 1,
                moves@ == situation.spec_moves(),
                forall|i: int|
                    0 <= i < moves@.len() ==> (#[trigger] situation.spec_apply(moves@[i])) is Some,
                0 <= idx <= moves@.len(),
                best_move is Some <==> idx >= 1,
                best_move matches Some(m) ==> exists|i: int|
                    0 <= i < idx && moves@[i] == m && #[trigger] child_value::<
                        Traits::Situation,
                        Traits::Evaluator,
                    >(*situation, moves@[i], depth as nat) == best_score && (forall|j: int|
                        i < j < idx ==> #[trigger] child_value::<
                            Traits::Situation,
                            Traits::Evaluator,
                        >(*situation, moves@[j], depth as nat) < best_score),
                -Traits::Evaluator::spec_max_score() <= best_score
                    <= Traits::Evaluator::spec_max_score(),
                forall|i: int|
                    0 <= i < idx ==> #[trigger] child_value::<
                        Traits::Situation,
                        Traits::Evaluator,
                    >(*situation, moves@[i], depth as nat) <= best_score,
                best_score == -Traits::Evaluator::spec_max_score() || exists|i: int|
                    0 <= i < idx && #[trigger] child_value::<Traits::Situation, Traits::Evaluator>(
                        *situation,
                        moves@[i],
                        depth as nat,
                    ) == best_score,
            decreases moves@.len() - idx,
        {
            let child = match situation.copy_apply(moves[idx]) {
                Some(c) => c,
                None => unreached(),
            };
            proof {
                lemma_negamax_bounded::<Traits::Situation, Traits::Evaluator>(
                    situation.spec_apply(moves@[idx as int]).unwrap(),
                    (depth - 1) as nat,
                );
            }
            let child_score = -self.search(child, depth - 1);
            proof {
                assert(child_score == child_value::<Traits::Situation, Traits::Evaluator>(
                    *situation,
                    moves@[idx as int],
                    depth as nat,
                ));
            }
            if child_score >= best_score {
                best_score = child_score;
                best_move = Some(moves[idx]);
            }
            idx = idx + 1;
        }
        (best_move, best_score)
    }
}

} // verus!
