pub mod players;

use vstd::prelude::*;
use vstd::pervasive::unreached;
use crate::bitboard::BitBoard;
use crate::bitboard::BoardIterator;
use crate::bitboard::Coord;
use crate::bitboard::Direction;
use crate::bitboard::bit_at;
use crate::bitboard::count_bits;
use crate::bitboard::delta_col;
use crate::bitboard::delta_row;
use crate::bitboard::lemma_bit_at_occ;
use crate::bitboard::lemma_count_pair_plus_one;
use crate::bitboard::lemma_mask_from;
use crate::bitboard::lemma_nonzero_occ;
use crate::bitboard::lemma_occ_eq;
use crate::bitboard::lemma_opposite_dir;
use crate::bitboard::mask_from;
use crate::bitboard::occ;
use crate::bitboard::opposite_dir;
use crate::game::GameSituation;

verus! {

// The rules engine.  A position is a pair of disjoint masks (own, opp);
// legality and captures are defined by rays of opponent discs bounded by an
// own disc, stated square by square over the `occ` model of the masks.

/// The square (r, c) lies on the board and carries no disc of either side.
pub open spec fn free_sq(own: u64, opp: u64, r: int, c: int) -> bool {
    0 <= r < 8 && 0 <= c < 8 && !occ(own, r, c) && !occ(opp, r, c)
}

/// Walking from (mr, mc) in direction d, the first n squares all carry
/// opponent discs, and (r, c) is the n-th of them.
pub open spec fn opp_ray(opp: u64, mr: int, mc: int, d: Direction, n: int, r: int, c: int) -> bool
    decreases n,
{
    n >= 1 && occ(opp, mr + delta_row(d), mc + delta_col(d)) && if n == 1 {
        r == mr + delta_row(d) && c == mc + delta_col(d)
    } else {
        opp_ray(opp, mr + delta_row(d), mc + delta_col(d), d, n - 1, r, c)
    }
}

/// Placing a disc at (mr, mc) captures along direction d: a run of opponent
/// discs starting next to (mr, mc) ends at a disc of `own`.
pub open spec fn legal_dir(own: u64, opp: u64, mr: int, mc: int, d: Direction) -> bool {
    exists|n: int, r: int, c: int|
        opp_ray(opp, mr, mc, d, n, r, c) && occ(own, r + delta_row(d), c + delta_col(d))
}

/// A legal destination for the side owning `own` against `opp`: a free square
/// that captures in at least one direction.
pub open spec fn legal_sq(own: u64, opp: u64, r: int, c: int) -> bool {
    free_sq(own, opp, r, c) && exists|d: Direction| legal_dir(own, opp, r, c, d)
}

/// The disc at (r, c) is captured along direction d when `own` plays at (mr, mc).
pub open spec fn flips_dir(
    own: u64,
    opp: u64,
    mr: int,
    mc: int,
    d: Direction,
    r: int,
    c: int,
) -> bool {
    legal_dir(own, opp, mr, mc, d) && exists|n: int| opp_ray(opp, mr, mc, d, n, r, c)
}

/// The disc at (r, c) is captured when `own` plays at (mr, mc).
pub open spec fn flips(own: u64, opp: u64, mr: int, mc: int, r: int, c: int) -> bool {
    exists|d: Direction| flips_dir(own, opp, mr, mc, d, r, c)
}

/// The two masks claim no square twice.
pub open spec fn disjoint(a: u64, b: u64) -> bool {
    forall|i: int, j: int| !(#[trigger] occ(a, i, j) && #[trigger] occ(b, i, j))
}

/// (r, c) carries an opponent disc and is the k-th square of a ray that
/// starts just after one of `own`'s discs and moves in direction d through
/// opponent discs only.  This is the walking order of the move generator;
/// `lemma_chain_iff_legal` turns it round into `legal_dir`.
spec fn chain(own: u64, opp: u64, d: Direction, k: int, r: int, c: int) -> bool
    decreases k,
{
    k >= 1 && occ(opp, r, c) && if k == 1 {
        occ(own, r - delta_row(d), c - delta_col(d))
    } else {
        chain(own, opp, d, k - 1, r - delta_row(d), c - delta_col(d))
    }
}

/// How far (r, c) lies from the edge of the board through which rays in
/// direction d enter; walking one square in direction d raises it by one.
spec fn prog(d: Direction, r: int, c: int) -> int {
    if delta_row(d) == 1 {
        r
    } else if delta_row(d) == -1 {
        7 - r
    } else if delta_col(d) == 1 {
        c
    } else {
        7 - c
    }
}

/// A ray square lies on the board, `prog` counts its steps, and the step
/// count can never exceed 8.
proof fn lemma_ray_progress(opp: u64, mr: int, mc: int, d: Direction, n: int, r: int, c: int)
    requires
        opp_ray(opp, mr, mc, d, n, r, c),
    ensures
        0 <= r < 8 && 0 <= c < 8,
        prog(d, r, c) == prog(d, mr, mc) + n,
        n <= 8,
    decreases n,
{
    if n > 1 {
        lemma_ray_progress(opp, mr + delta_row(d), mc + delta_col(d), d, n - 1, r, c);
    }
}

/// Two rays of the same length from the same square end on the same square.
proof fn lemma_ray_unique(
    opp: u64,
    mr: int,
    mc: int,
    d: Direction,
    n: int,
    r: int,
    c: int,
    r2: int,
    c2: int,
)
    requires
        opp_ray(opp, mr, mc, d, n, r, c),
        opp_ray(opp, mr, mc, d, n, r2, c2),
    ensures
        r == r2 && c == c2,
    decreases n,
{
    if n > 1 {
        lemma_ray_unique(opp, mr + delta_row(d), mc + delta_col(d), d, n - 1, r, c, r2, c2);
    }
}

/// A ray extends by one square when the next square carries an opponent disc.
proof fn lemma_ray_extend(opp: u64, mr: int, mc: int, d: Direction, n: int, r: int, c: int)
    requires
        opp_ray(opp, mr, mc, d, n, r, c),
        occ(opp, r + delta_row(d), c + delta_col(d)),
    ensures
        opp_ray(opp, mr, mc, d, n + 1, r + delta_row(d), c + delta_col(d)),
    decreases n,
{
    if n == 1 {
        assert(opp_ray(opp, mr + delta_row(d), mc + delta_col(d), d, 1, r + delta_row(d), c
            + delta_col(d)));
    } else {
        lemma_ray_extend(opp, mr + delta_row(d), mc + delta_col(d), d, n - 1, r, c);
        assert(opp_ray(opp, mr + delta_row(d), mc + delta_col(d), d, n, r + delta_row(d), c
            + delta_col(d)));
    }
}

/// Every prefix length of a ray ends on some square.
proof fn lemma_ray_prefix(
    opp: u64,
    mr: int,
    mc: int,
    d: Direction,
    n: int,
    r: int,
    c: int,
    j: int,
) -> (z: (int, int))
    requires
        opp_ray(opp, mr, mc, d, n, r, c),
        1 <= j <= n,
    ensures
        opp_ray(opp, mr, mc, d, j, z.0, z.1),
    decreases n,
{
    if j == 1 {
        (mr + delta_row(d), mc + delta_col(d))
    } else {
        lemma_ray_prefix(opp, mr + delta_row(d), mc + delta_col(d), d, n - 1, r, c, j - 1)
    }
}

/// Peeling a ray at its far end.
proof fn lemma_ray_last(opp: u64, mr: int, mc: int, d: Direction, n: int, r: int, c: int)
    requires
        opp_ray(opp, mr, mc, d, n, r, c),
        n >= 2,
    ensures
        opp_ray(opp, mr, mc, d, n - 1, r - delta_row(d), c - delta_col(d)),
        occ(opp, r, c),
    decreases n,
{
    if n == 2 {
        assert(opp_ray(opp, mr + delta_row(d), mc + delta_col(d), d, 1, r, c));
        assert(opp_ray(opp, mr, mc, d, 1, r - delta_row(d), c - delta_col(d)));
    } else {
        lemma_ray_last(opp, mr + delta_row(d), mc + delta_col(d), d, n - 1, r, c);
        assert(opp_ray(opp, mr, mc, d, n - 1, r - delta_row(d), c - delta_col(d)));
    }
}

/// A chain square lies on the board and its step count never exceeds 7.
proof fn lemma_chain_bound(own: u64, opp: u64, d: Direction, k: int, r: int, c: int)
    requires
        chain(own, opp, d, k, r, c),
    ensures
        1 <= k <= prog(d, r, c),
        prog(d, r, c) <= 7,
        0 <= r < 8 && 0 <= c < 8,
    decreases k,
{
    if k > 1 {
        lemma_chain_bound(own, opp, d, k - 1, r - delta_row(d), c - delta_col(d));
    }
}

/// Once no square continues a chain of length k, no longer chain exists either.
proof fn lemma_chain_dead(own: u64, opp: u64, d: Direction, k: int, k2: int, r: int, c: int)
    requires
        forall|i: int, j: int| !chain(own, opp, d, k, i, j),
        1 <= k <= k2,
    ensures
        !chain(own, opp, d, k2, r, c),
    decreases k2 - k,
{
    if k2 > k {
        if chain(own, opp, d, k2, r, c) {
            lemma_chain_dead(own, opp, d, k, k2 - 1, r - delta_row(d), c - delta_col(d));
        }
    }
}

/// A chain of length k ending next to (i, j) is the same thing as a capture
/// for (i, j) in the opposite direction.
proof fn lemma_chain_to_ray(own: u64, opp: u64, d: Direction, k: int, r: int, c: int) -> (y: (
    int,
    int,
))
    requires
        chain(own, opp, d, k, r, c),
    ensures
        opp_ray(
            opp,
            r + delta_row(d),
            c + delta_col(d),
            opposite_dir(d),
            k,
            y.0,
            y.1,
        ),
        occ(own, y.0 + delta_row(opposite_dir(d)), y.1 + delta_col(opposite_dir(d))),
    decreases k,
{
    lemma_opposite_dir(d);
    let o = opposite_dir(d);
    if k == 1 {
        assert(opp_ray(opp, r + delta_row(d), c + delta_col(d), o, 1, r, c));
        (r, c)
    } else {
        let y = lemma_chain_to_ray(own, opp, d, k - 1, r - delta_row(d), c - delta_col(d));
        assert(opp_ray(opp, r + delta_row(d), c + delta_col(d), o, k, y.0, y.1));
        y
    }
}

/// The converse of `lemma_chain_to_ray`.
proof fn lemma_ray_to_chain(
    own: u64,
    opp: u64,
    t_r: int,
    t_c: int,
    o: Direction,
    n: int,
    r: int,
    c: int,
)
    requires
        opp_ray(opp, t_r, t_c, o, n, r, c),
        occ(own, r + delta_row(o), c + delta_col(o)),
    ensures
        chain(
            own,
            opp,
            opposite_dir(o),
            n,
            t_r + delta_row(o),
            t_c + delta_col(o),
        ),
    decreases n,
{
    lemma_opposite_dir(o);
    let d = opposite_dir(o);
    if n == 1 {
        assert(chain(own, opp, d, 1, t_r + delta_row(o), t_c + delta_col(o)));
    } else {
        lemma_ray_to_chain(own, opp, t_r + delta_row(o), t_c + delta_col(o), o, n - 1, r, c);
        assert(chain(own, opp, d, n, t_r + delta_row(o), t_c + delta_col(o)));
    }
}

/// Captures in some direction d, seen from the walking order of the move
/// generator: a chain ends just before (i, j) exactly when (i, j) captures in
/// the opposite direction.
proof fn lemma_chain_iff_legal(own: u64, opp: u64, d: Direction, cr: int, cc: int)
    ensures
        some_chain(own, opp, d, cr, cc) <==> legal_dir(
            own,
            opp,
            cr + delta_row(d),
            cc + delta_col(d),
            opposite_dir(d),
        ),
{
    lemma_opposite_dir(d);
    let o = opposite_dir(d);
    let i = cr + delta_row(d);
    let j = cc + delta_col(d);
    if some_chain(own, opp, d, cr, cc) {
        let k = choose|k: int| chain(own, opp, d, k, cr, cc);
        let y = lemma_chain_to_ray(own, opp, d, k, cr, cc);
        assert(opp_ray(opp, i, j, o, k, y.0, y.1) && occ(
            own,
            y.0 + delta_row(o),
            y.1 + delta_col(o),
        ));
    }
    if legal_dir(own, opp, i, j, o) {
        let (n, r, c) = choose|n: int, r: int, c: int|
            opp_ray(opp, i, j, o, n, r, c) && occ(own, r + delta_row(o), c + delta_col(o));
        lemma_ray_to_chain(own, opp, i, j, o, n, r, c);
        assert(chain(own, opp, d, n, cr, cc));
    }
}

/// Some chain in direction d ends at (cr, cc).
spec fn some_chain(own: u64, opp: u64, d: Direction, cr: int, cc: int) -> bool {
    exists|k: int| chain(own, opp, d, k, cr, cc)
}

/// Some chain in direction d of fewer than b steps ends at (cr, cc).
spec fn some_chain_below(own: u64, opp: u64, d: Direction, b: int, cr: int, cc: int) -> bool {
    exists|k: int| k < b && chain(own, opp, d, k, cr, cc)
}

/// A capture direction always captures at least the adjacent disc.
proof fn lemma_legal_dir_flips(own: u64, opp: u64, mr: int, mc: int, d: Direction)
    requires
        legal_dir(own, opp, mr, mc, d),
    ensures
        flips_dir(own, opp, mr, mc, d, mr + delta_row(d), mc + delta_col(d)),
{
    let (n, r, c) = choose|n: int, r: int, c: int|
        opp_ray(opp, mr, mc, d, n, r, c) && occ(own, r + delta_row(d), c + delta_col(d));
    let z = lemma_ray_prefix(opp, mr, mc, d, n, r, c, 1);
    assert(opp_ray(opp, mr, mc, d, 1, mr + delta_row(d), mc + delta_col(d)));
}

/// Some ray of at most b steps from (mr, mc) in direction d ends at (r, c).
spec fn some_ray_below(opp: u64, mr: int, mc: int, d: Direction, b: int, r: int, c: int) -> bool {
    exists|n: int| n <= b && opp_ray(opp, mr, mc, d, n, r, c)
}

/// A captured disc always sat on an opponent square.
proof fn lemma_flips_opp(own: u64, opp: u64, mr: int, mc: int, r: int, c: int)
    requires
        flips(own, opp, mr, mc, r, c),
    ensures
        occ(opp, r, c),
{
    let dd = choose|dd: Direction| flips_dir(own, opp, mr, mc, dd, r, c);
    let n = choose|n: int| opp_ray(opp, mr, mc, dd, n, r, c);
    lemma_ray_progress(opp, mr, mc, dd, n, r, c);
    if n == 1 {
    } else {
        lemma_ray_last(opp, mr, mc, dd, n, r, c);
    }
}

/// The side playing the game of one of the two colours.
#[derive(Clone, Copy, Debug, PartialEq, Eq, Structural)]
pub enum Player {
    Black,
    White,
}

impl Player {
    pub open spec fn spec_opposite(self) -> Player {
        if self == Player::Black {
            Player::White
        } else {
            Player::Black
        }
    }

    pub fn opposite(&self) -> (r: Player)
        ensures
            r == self.spec_opposite(),
    {
        if *self == Player::Black {
            Player::White
        } else {
            Player::Black
        }
    }
}

/// Either the placement of a disc at a coordinate, or a pass.  A pass is
/// legal only when no placement is.
#[derive(Clone, Copy, Debug, PartialEq, Eq, Structural)]
pub enum OthelloMove {
    Pass,
    Coord(Coord),
}

impl OthelloMove {
    /// Parses "pass", or algebraic notation as `Coord::from_str` does.
    pub fn from_str(s: &str) -> (r: Option<OthelloMove>)
        ensures
            s@ =~= "pass"@ ==> r == Some(OthelloMove::Pass),
            !(s@ =~= "pass"@) ==> {
                &&& (r is Some <==> s@.len() == 2 && 'a' <= s@[0] <= 'h' && '1' <= s@[1] <= '8')
                &&& (r matches Some(m) ==> (m matches OthelloMove::Coord(co) && co.col() == s@[0]
                    as int - 'a' as int && co.row() == s@[1] as int - '1' as int))
            },
    {
        proof {
            reveal_strlit("pass");
        }
        if s.unicode_len() == 4 && s.get_char(0) == 'p' && s.get_char(1) == 'a' && s.get_char(2)
            == 's' && s.get_char(3) == 's' {
            proof {
                assert(s@ =~= "pass"@);
            }
            Some(OthelloMove::Pass)
        } else {
            match Coord::from_str(s) {
                Some(co) => Some(OthelloMove::Coord(co)),
                None => None,
            }
        }
    }
}

/// The mover's discs after it plays at (mr, mc): the old ones, the new disc,
/// and every captured disc.
pub open spec fn own_after(own: u64, opp: u64, mr: int, mc: int) -> u64 {
    mask_from(
        |i: int|
            occ(own, i / 8, i % 8) || i == mr * 8 + mc || flips(own, opp, mr, mc, i / 8, i % 8),
    )
}

/// The opponent's discs after the mover plays at (mr, mc): the old ones less
/// every captured disc.
pub open spec fn opp_after(own: u64, opp: u64, mr: int, mc: int) -> u64 {
    mask_from(|i: int| occ(opp, i / 8, i % 8) && !flips(own, opp, mr, mc, i / 8, i % 8))
}

/// The legal-destination board of the side owning `own`.
pub open spec fn moves_mask_for(own: u64, opp: u64) -> u64 {
    mask_from(|i: int| legal_sq(own, opp, i / 8, i % 8))
}

pub proof fn lemma_own_after(own: u64, opp: u64, mr: int, mc: int)
    requires
        0 <= mr < 8,
        0 <= mc < 8,
    ensures
        forall|i: int, j: int|
            #[trigger] occ(own_after(own, opp, mr, mc), i, j) <==> (occ(own, i, j) || (i == mr && j
                == mc) || flips(own, opp, mr, mc, i, j)),
{
    lemma_mask_from(
        |i: int|
            occ(own, i / 8, i % 8) || i == mr * 8 + mc || flips(own, opp, mr, mc, i / 8, i % 8),
    );
    crate::bitboard::lemma_sq(mr, mc);
    assert forall|i: int, j: int|
        #[trigger] occ(own_after(own, opp, mr, mc), i, j) <==> (occ(own, i, j) || (i == mr && j
            == mc) || flips(own, opp, mr, mc, i, j)) by {
        if 0 <= i < 8 && 0 <= j < 8 {
            crate::bitboard::lemma_sq(i, j);
            lemma_bit_at_occ(own_after(own, opp, mr, mc), i * 8 + j);
        } else {
            if flips(own, opp, mr, mc, i, j) {
                lemma_flips_opp(own, opp, mr, mc, i, j);
            }
        }
    }
}

pub proof fn lemma_opp_after(own: u64, opp: u64, mr: int, mc: int)
    requires
        0 <= mr < 8,
        0 <= mc < 8,
    ensures
        forall|i: int, j: int|
            #[trigger] occ(opp_after(own, opp, mr, mc), i, j) <==> (occ(opp, i, j) && !flips(
                own,
                opp,
                mr,
                mc,
                i,
                j,
            )),
{
    lemma_mask_from(|i: int| occ(opp, i / 8, i % 8) && !flips(own, opp, mr, mc, i / 8, i % 8));
    assert forall|i: int, j: int|
        #[trigger] occ(opp_after(own, opp, mr, mc), i, j) <==> (occ(opp, i, j) && !flips(
            own,
            opp,
            mr,
            mc,
            i,
            j,
        )) by {
        if 0 <= i < 8 && 0 <= j < 8 {
            crate::bitboard::lemma_sq(i, j);
            lemma_bit_at_occ(opp_after(own, opp, mr, mc), i * 8 + j);
        }
    }
}

pub proof fn lemma_moves_mask_for(own: u64, opp: u64)
    ensures
        forall|i: int, j: int|
            #[trigger] occ(moves_mask_for(own, opp), i, j) <==> legal_sq(own, opp, i, j),
{
    lemma_mask_from(|i: int| legal_sq(own, opp, i / 8, i % 8));
    assert forall|i: int, j: int|
        #[trigger] occ(moves_mask_for(own, opp), i, j) <==> legal_sq(own, opp, i, j) by {
        if 0 <= i < 8 && 0 <= j < 8 {
            crate::bitboard::lemma_sq(i, j);
            lemma_bit_at_occ(moves_mask_for(own, opp), i * 8 + j);
        }
    }
}

/// One direction of the flip computation: walks outward from the move square
/// at (m.0, m.1) through opponent discs, and returns the discs walked over
/// when the walk ends at an own disc; any other end yields the empty board.
fn apply_move_towards(
    own_board: BitBoard,
    other_board: BitBoard,
    move_board: BitBoard,
    direction: Direction,
    m: Ghost<(int, int)>,
) -> (r: BitBoard)
    requires
        disjoint(own_board.0, other_board.0),
        forall|i: int, j: int| #[trigger] occ(move_board.0, i, j) <==> i == m@.0 && j == m@.1,
        0 <= m@.0 < 8 && 0 <= m@.1 < 8,
    ensures
        forall|i: int, j: int|
            #[trigger] occ(r.0, i, j) <==> flips_dir(
                own_board.0,
                other_board.0,
                m@.0,
                m@.1,
                direction,
                i,
                j,
            ),
{
    let ghost own = own_board.0;
    let ghost opp = other_board.0;
    let ghost d = direction;
    let ghost mr = m@.0;
    let ghost mc = m@.1;
    let mut current = move_board.shift(direction).bitand(other_board);
    let mut delta = current;
    let ghost mut k: int = 1;
    proof {
        assert forall|i: int, j: int| #[trigger] occ(current.0, i, j) <==> opp_ray(
            opp,
            mr,
            mc,
            d,
            1,
            i,
            j,
        ) by {}
        assert forall|i: int, j: int| #[trigger] occ(delta.0, i, j) <==> some_ray_below(
            opp,
            mr,
            mc,
            d,
            1,
            i,
            j,
        ) by {
            if occ(delta.0, i, j) {
                assert(opp_ray(opp, mr, mc, d, 1, i, j));
            }
            if some_ray_below(opp, mr, mc, d, 1, i, j) {
                let n = choose|n: int| n <= 1 && opp_ray(opp, mr, mc, d, n, i, j);
                assert(opp_ray(opp, mr, mc, d, n, i, j));
            }
        }
        if current.0 == 0 {
            assert(!legal_dir(own, opp, mr, mc, d)) by {
                if legal_dir(own, opp, mr, mc, d) {
                    let (n, yr, yc) = choose|n: int, yr: int, yc: int|
                        opp_ray(opp, mr, mc, d, n, yr, yc) && occ(
                            own,
                            yr + delta_row(d),
                            yc + delta_col(d),
                        );
                    assert(opp_ray(opp, mr, mc, d, 1, mr + delta_row(d), mc + delta_col(d)));
                    assert(occ(current.0, mr + delta_row(d), mc + delta_col(d)));
                    crate::bitboard::lemma_occ_nonzero(
                        current.0,
                        mr + delta_row(d),
                        mc + delta_col(d),
                    );
                }
            }
        }
    }
    while !current.is_empty()
        invariant
            own_board.0 == own && other_board.0 == opp && direction == d,
            mr == m@.0 && mc == m@.1,
            disjoint(own, opp),
            0 <= mr < 8 && 0 <= mc < 8,
            1 <= k <= 9,
            forall|i: int, j: int|
                #[trigger] occ(current.0, i, j) <==> opp_ray(opp, mr, mc, d, k, i, j),
            current.0 != 0 ==> forall|i: int, j: int|
                #[trigger] occ(delta.0, i, j) <==> some_ray_below(opp, mr, mc, d, k, i, j),
            current.0 == 0 ==> !legal_dir(own, opp, mr, mc, d),
        decreases 10 - k,
    {
        let ghost xy = choose|i: int, j: int| occ(current.0, i, j);
        let ghost xr: int = xy.0;
        let ghost xc: int = xy.1;
        proof {
            assert(opp_ray(opp, mr, mc, d, k, xr, xc));
            lemma_ray_progress(opp, mr, mc, d, k, xr, xc);
        }
        let ghost old_delta = delta;
        current = current.shift(direction);
        proof {
            assert forall|i: int, j: int| #[trigger] occ(current.0, i, j) <==> (i == xr
                + delta_row(d) && j == xc + delta_col(d) && 0 <= i < 8 && 0 <= j < 8) by {
                if 0 <= i < 8 && 0 <= j < 8 && occ(current.0, i, j) {
                    lemma_ray_unique(opp, mr, mc, d, k, i - delta_row(d), j - delta_col(d), xr, xc);
                }
            }
        }
        let hit = current.bitand(own_board);
        if !(hit.is_empty()) {
            proof {
                let nr = xr + delta_row(d);
                let nc = xc + delta_col(d);
                assert(occ(own, nr, nc)) by {
                    let w = choose|i: int, j: int| occ(hit.0, i, j);
                    assert(occ(current.0, w.0, w.1));
                }
                assert(legal_dir(own, opp, mr, mc, d));
                assert forall|i: int, j: int| #[trigger] occ(delta.0, i, j) <==> flips_dir(
                    own,
                    opp,
                    mr,
                    mc,
                    d,
                    i,
                    j,
                ) by {
                    if occ(delta.0, i, j) {
                        let n = choose|n: int| n <= k && opp_ray(opp, mr, mc, d, n, i, j);
                        assert(opp_ray(opp, mr, mc, d, n, i, j));
                    }
                    if flips_dir(own, opp, mr, mc, d, i, j) {
                        let n = choose|n: int| opp_ray(opp, mr, mc, d, n, i, j);
                        if n > k {
                            let z = lemma_ray_prefix(opp, mr, mc, d, n, i, j, k + 1);
                            lemma_ray_last(opp, mr, mc, d, k + 1, z.0, z.1);
                            lemma_ray_unique(
                                opp,
                                mr,
                                mc,
                                d,
                                k,
                                z.0 - delta_row(d),
                                z.1 - delta_col(d),
                                xr,
                                xc,
                            );
                        }
                        assert(some_ray_below(opp, mr, mc, d, k, i, j));
                    }
                }
            }
            return delta;
        }
        delta = delta.bitor(current);
        current = current.bitand(other_board);
        proof {
            let nr = xr + delta_row(d);
            let nc = xc + delta_col(d);
            assert(!occ(own, nr, nc)) by {
                assert(!occ(hit.0, nr, nc));
            }
            k = k + 1;
            if occ(opp, nr, nc) {
                lemma_ray_extend(opp, mr, mc, d, k - 1, xr, xc);
                assert(opp_ray(opp, mr, mc, d, k, nr, nc));
                assert forall|i: int, j: int| #[trigger] occ(current.0, i, j) <==> opp_ray(
                    opp,
                    mr,
                    mc,
                    d,
                    k,
                    i,
                    j,
                ) by {
                    if opp_ray(opp, mr, mc, d, k, i, j) {
                        lemma_ray_last(opp, mr, mc, d, k, i, j);
                        lemma_ray_unique(
                            opp,
                            mr,
                            mc,
                            d,
                            k - 1,
                            i - delta_row(d),
                            j - delta_col(d),
                            xr,
                            xc,
                        );
                    }
                }
                assert(current.0 != 0) by {
                    crate::bitboard::lemma_occ_nonzero(current.0, nr, nc);
                }
                assert forall|i: int, j: int| #[trigger] occ(delta.0, i, j) <==> some_ray_below(
                    opp,
                    mr,
                    mc,
                    d,
                    k,
                    i,
                    j,
                ) by {
                    if occ(delta.0, i, j) {
                        if occ(old_delta.0, i, j) {
                            let n = choose|n: int| n <= k - 1 && opp_ray(opp, mr, mc, d, n, i, j);
                            assert(n <= k && opp_ray(opp, mr, mc, d, n, i, j));
                        } else {
                            assert(opp_ray(opp, mr, mc, d, k, i, j));
                        }
                    } else {
                        if some_ray_below(opp, mr, mc, d, k, i, j) {
                            let n = choose|n: int| n <= k && opp_ray(opp, mr, mc, d, n, i, j);
                            if n <= k - 1 {
                                assert(occ(old_delta.0, i, j));
                            } else {
                                lemma_ray_unique(opp, mr, mc, d, k, i, j, nr, nc);
                            }
                        }
                    }
                }
            } else {
                assert forall|i: int, j: int| !occ(current.0, i, j) by {}
                assert(current.0 == 0) by {
                    if current.0 != 0 {
                        lemma_nonzero_occ(current.0);
                    }
                }
                assert forall|i: int, j: int| #[trigger] occ(current.0, i, j) <==> opp_ray(
                    opp,
                    mr,
                    mc,
                    d,
                    k,
                    i,
                    j,
                ) by {
                    if opp_ray(opp, mr, mc, d, k, i, j) {
                        lemma_ray_last(opp, mr, mc, d, k, i, j);
                        lemma_ray_unique(
                            opp,
                            mr,
                            mc,
                            d,
                            k - 1,
                            i - delta_row(d),
                            j - delta_col(d),
                            xr,
                            xc,
                        );
                    }
                }
                assert(!legal_dir(own, opp, mr, mc, d)) by {
                    if legal_dir(own, opp, mr, mc, d) {
                        let (n, yr, yc) = choose|n: int, yr: int, yc: int|
                            opp_ray(opp, mr, mc, d, n, yr, yc) && occ(
                                own,
                                yr + delta_row(d),
                                yc + delta_col(d),
                            );
                        if n < k - 1 {
                            let z = lemma_ray_prefix(opp, mr, mc, d, k - 1, xr, xc, n + 1);
                            lemma_ray_last(opp, mr, mc, d, n + 1, z.0, z.1);
                            lemma_ray_unique(
                                opp,
                                mr,
                                mc,
                                d,
                                n,
                                z.0 - delta_row(d),
                                z.1 - delta_col(d),
                                yr,
                                yc,
                            );
                        } else if n == k - 1 {
                            lemma_ray_unique(opp, mr, mc, d, n, yr, yc, xr, xc);
                        } else {
                            let z = lemma_ray_prefix(opp, mr, mc, d, n, yr, yc, k);
                            lemma_ray_last(opp, mr, mc, d, k, z.0, z.1);
                            lemma_ray_unique(
                                opp,
                                mr,
                                mc,
                                d,
                                k - 1,
                                z.0 - delta_row(d),
                                z.1 - delta_col(d),
                                xr,
                                xc,
                            );
                        }
                    }
                }
            }
        }
    }
    proof {
        assert forall|i: int, j: int| !flips_dir(own, opp, mr, mc, d, i, j) by {}
    }
    BitBoard::empty()
}

/// Every disc captured by playing on the square at (m.0, m.1); the empty
/// board exactly when that square is not a legal destination.
fn delta_for_move(
    own_board: BitBoard,
    other_board: BitBoard,
    move_board: BitBoard,
    m: Ghost<(int, int)>,
) -> (r: BitBoard)
    requires
        disjoint(own_board.0, other_board.0),
        forall|i: int, j: int| #[trigger] occ(move_board.0, i, j) <==> i == m@.0 && j == m@.1,
        0 <= m@.0 < 8 && 0 <= m@.1 < 8,
    ensures
        forall|i: int, j: int|
            #[trigger] occ(r.0, i, j) <==> free_sq(own_board.0, other_board.0, m@.0, m@.1) && flips(
                own_board.0,
                other_board.0,
                m@.0,
                m@.1,
                i,
                j,
            ),
        r.0 != 0 <==> legal_sq(own_board.0, other_board.0, m@.0, m@.1),
{
    let ghost own = own_board.0;
    let ghost opp = other_board.0;
    let ghost mr = m@.0;
    let ghost mc = m@.1;
    let empty_spaces = own_board.complement().bitand(other_board.complement());
    let t = empty_spaces.bitand(move_board);
    if t.is_empty() {
        proof {
            assert(!occ(t.0, mr, mc));
            assert(!free_sq(own, opp, mr, mc));
            assert(BitBoard(0u64).0 == 0);
        }
        return BitBoard::empty();
    }
    proof {
        assert(free_sq(own, opp, mr, mc)) by {
            let w = choose|i: int, j: int| occ(t.0, i, j);
            assert(occ(empty_spaces.0, w.0, w.1));
        }
    }
    let r = apply_move_towards(own_board, other_board, move_board, Direction::Right, m).bitor(
        apply_move_towards(own_board, other_board, move_board, Direction::UpRight, m),
    ).bitor(apply_move_towards(own_board, other_board, move_board, Direction::Up, m)).bitor(
        apply_move_towards(own_board, other_board, move_board, Direction::UpLeft, m),
    ).bitor(apply_move_towards(own_board, other_board, move_board, Direction::Left, m)).bitor(
        apply_move_towards(own_board, other_board, move_board, Direction::DownLeft, m),
    ).bitor(apply_move_towards(own_board, other_board, move_board, Direction::Down, m)).bitor(
        apply_move_towards(own_board, other_board, move_board, Direction::DownRight, m),
    );
    proof {
        assert forall|i: int, j: int| #[trigger] occ(r.0, i, j) <==> free_sq(own, opp, mr, mc)
            && flips(own, opp, mr, mc, i, j) by {
            if occ(r.0, i, j) {
                assert(flips(own, opp, mr, mc, i, j));
            }
            if flips(own, opp, mr, mc, i, j) {
                let dd = choose|dd: Direction| flips_dir(own, opp, mr, mc, dd, i, j);
                match dd {
                    Direction::Right => {},
                    Direction::UpRight => {},
                    Direction::Up => {},
                    Direction::UpLeft => {},
                    Direction::Left => {},
                    Direction::DownLeft => {},
                    Direction::Down => {},
                    Direction::DownRight => {},
                }
            }
        }
        assert(r.0 != 0 <==> legal_sq(own, opp, mr, mc)) by {
            if r.0 != 0 {
                lemma_nonzero_occ(r.0);
                let w = choose|i: int, j: int| occ(r.0, i, j);
                let dd = choose|dd: Direction| flips_dir(own, opp, mr, mc, dd, w.0, w.1);
                assert(legal_dir(own, opp, mr, mc, dd));
            }
            if legal_sq(own, opp, mr, mc) {
                let dd = choose|dd: Direction| legal_dir(own, opp, mr, mc, dd);
                lemma_legal_dir_flips(own, opp, mr, mc, dd);
                assert(flips(own, opp, mr, mc, mr + delta_row(dd), mc + delta_col(dd)));
                assert(occ(r.0, mr + delta_row(dd), mc + delta_col(dd)));
                crate::bitboard::lemma_occ_nonzero(r.0, mr + delta_row(dd), mc + delta_col(dd));
            }
        }
    }
    r
}

/// One direction of the move generator: collects every free square that lies
/// just past a chain of opponent discs anchored at an own disc.
fn generate_moves_towards(own_board: BitBoard, other_board: BitBoard, direction: Direction) -> (r:
    BitBoard)
    ensures
        forall|i: int, j: int|
            #[trigger] occ(r.0, i, j) <==> free_sq(own_board.0, other_board.0, i, j) && some_chain(
                own_board.0,
                other_board.0,
                direction,
                i - delta_row(direction),
                j - delta_col(direction),
            ),
{
    let empty_spaces = own_board.complement().bitand(other_board.complement());
    let mut moves = BitBoard::empty();
    let mut current = own_board.shift(direction).bitand(other_board);
    let ghost mut k: int = 1;
    proof {
        assert forall|i: int, j: int| #[trigger] occ(current.0, i, j) <==> chain(
            own_board.0,
            other_board.0,
            direction,
            1,
            i,
            j,
        ) by {}
    }
    while !current.is_empty()
        invariant
            1 <= k <= 8,
            forall|i: int, j: int|
                #[trigger] occ(current.0, i, j) <==> chain(
                    own_board.0,
                    other_board.0,
                    direction,
                    k,
                    i,
                    j,
                ),
            forall|i: int, j: int|
                #[trigger] occ(moves.0, i, j) <==> free_sq(own_board.0, other_board.0, i, j)
                    && some_chain_below(
                    own_board.0,
                    other_board.0,
                    direction,
                    k,
                    i - delta_row(direction),
                    j - delta_col(direction),
                ),
            forall|i: int, j: int|
                0 <= i < 8 && 0 <= j < 8 ==> (#[trigger] occ(empty_spaces.0, i, j) <==> free_sq(
                    own_board.0,
                    other_board.0,
                    i,
                    j,
                )),
        decreases 8 - k,
    {
        proof {
            let (wi, wj) = choose|i: int, j: int| occ(current.0, i, j);
            lemma_chain_bound(own_board.0, other_board.0, direction, k, wi, wj);
        }
        let ghost old_moves = moves;
        current = current.shift(direction);
        let moves_generated_this_round = current.bitand(empty_spaces);
        current = current.bitand(other_board);
        moves = moves.bitor(moves_generated_this_round);
        proof {
            let own = own_board.0;
            let opp = other_board.0;
            let d = direction;
            k = k + 1;
            assert forall|i: int, j: int| #[trigger] occ(current.0, i, j) <==> chain(
                own,
                opp,
                d,
                k,
                i,
                j,
            ) by {}
            assert forall|i: int, j: int| #[trigger] occ(moves.0, i, j) <==> free_sq(own, opp, i, j)
                && some_chain_below(
                own,
                opp,
                d,
                k,
                i - delta_row(d),
                j - delta_col(d),
            ) by {
                let cr = i - delta_row(d);
                let cc = j - delta_col(d);
                if occ(moves.0, i, j) {
                    if occ(old_moves.0, i, j) {
                        let k2 = choose|k2: int| k2 < k - 1 && chain(own, opp, d, k2, cr, cc);
                        assert(k2 < k && chain(own, opp, d, k2, cr, cc));
                    } else {
                        assert(chain(own, opp, d, k - 1, cr, cc));
                    }
                } else {
                    if free_sq(own, opp, i, j) && some_chain_below(own, opp, d, k, cr, cc) {
                        let k2 = choose|k2: int| k2 < k && chain(own, opp, d, k2, cr, cc);
                        if k2 < k - 1 {
                            assert(occ(old_moves.0, i, j));
                        } else {
                            assert(chain(own, opp, d, k - 1, cr, cc));
                            assert(occ(moves_generated_this_round.0, i, j));
                        }
                    }
                }
            }
        }
    }
    proof {
        let own = own_board.0;
        let opp = other_board.0;
        let d = direction;
        assert forall|i: int, j: int| !chain(own, opp, d, k, i, j) by {
            if chain(own, opp, d, k, i, j) {
                assert(occ(current.0, i, j));
            }
        }
        assert forall|i: int, j: int| #[trigger] occ(moves.0, i, j) <==> free_sq(own, opp, i, j)
            && some_chain(
            own,
            opp,
            d,
            i - delta_row(d),
            j - delta_col(d),
        ) by {
            let cr = i - delta_row(d);
            let cc = j - delta_col(d);
            if free_sq(own, opp, i, j) && some_chain(own, opp, d, cr, cc) {
                let k2 = choose|k2: int| chain(own, opp, d, k2, cr, cc);
                if k2 >= k {
                    lemma_chain_dead(own, opp, d, k, k2, cr, cc);
                }
                assert(some_chain_below(own, opp, d, k, cr, cc));
            }
            if occ(moves.0, i, j) {
                let k2 = choose|k2: int| k2 < k && chain(own, opp, d, k2, cr, cc);
                assert(chain(own, opp, d, k2, cr, cc));
            }
        }
    }
    moves
}

/// The list of coordinate moves on `mask`, in ascending bit-index order.
pub open spec fn coord_moves_below(mask: u64, n: int) -> Seq<OthelloMove>
    decreases n,
{
    if n <= 0 {
        Seq::empty()
    } else if bit_at(mask, n - 1) {
        coord_moves_below(mask, n - 1).push(OthelloMove::Coord(Coord::from_idx(n - 1)))
    } else {
        coord_moves_below(mask, n - 1)
    }
}

proof fn lemma_coord_moves_elts(mask: u64, n: int)
    requires
        0 <= n <= 64,
    ensures
        forall|t: int|
            0 <= t < coord_moves_below(mask, n).len() ==> (#[trigger] coord_moves_below(mask, n)[t]
                matches OthelloMove::Coord(co) && bit_at(mask, co.idx())),
    decreases n,
{
    if n > 0 {
        lemma_coord_moves_elts(mask, n - 1);
        if bit_at(mask, n - 1) {
            Coord::lemma_from_idx(n - 1);
        }
    }
}

/// The full game state: one board per side, the cached legal-destination
/// board of the side to move, and whose turn it is.
#[derive(Clone, Copy, Debug, PartialEq, Eq, Structural)]
pub struct OthelloSituation {
    black_board: BitBoard,
    white_board: BitBoard,
    moves: BitBoard,
    turn: Player,
}

impl OthelloSituation {
    /// The two sides never claim a square twice, and the cached move board is
    /// exactly the legal-destination set of the side to move.  Every
    /// situation the library hands out satisfies this; `use_type_invariant`
    /// recovers it, and `lemma_wf` spells out what it gives.
    #[verifier::type_invariant]
    pub closed spec fn wf(self) -> bool {
        &&& disjoint(self.black_board.0, self.white_board.0)
        &&& forall|i: int, j: int|
            #[trigger] occ(self.moves.0, i, j) <==> legal_sq(self.own_mask(), self.opp_mask(), i, j)
    }

    /// Black's discs.
    pub closed spec fn spec_black(self) -> u64 {
        self.black_board.0
    }

    /// White's discs.
    pub closed spec fn spec_white(self) -> u64 {
        self.white_board.0
    }

    /// The cached legal-destination board of the side to move.
    pub closed spec fn spec_moves_mask(self) -> u64 {
        self.moves.0
    }

    /// The side to move.
    pub closed spec fn player_turn(self) -> Player {
        self.turn
    }

    /// The discs of the side to move.
    pub open spec fn own_mask(self) -> u64 {
        if self.player_turn() == Player::Black {
            self.spec_black()
        } else {
            self.spec_white()
        }
    }

    /// The discs of the side that just moved.
    pub open spec fn opp_mask(self) -> u64 {
        if self.player_turn() == Player::Black {
            self.spec_white()
        } else {
            self.spec_black()
        }
    }

    /// The number of discs on the board, both sides together.
    pub open spec fn total_discs(self) -> int {
        count_bits(self.spec_black(), 64) + count_bits(self.spec_white(), 64)
    }

    /// The state after the side to move plays at (mr, mc), assuming that
    /// square is a legal destination.
    closed spec fn coord_result(self, mr: int, mc: int) -> OthelloSituation {
        let own = self.own_mask();
        let opp = self.opp_mask();
        let own2 = own_after(own, opp, mr, mc);
        let opp2 = opp_after(own, opp, mr, mc);
        OthelloSituation {
            black_board: BitBoard(
                if self.turn == Player::Black {
                    own2
                } else {
                    opp2
                },
            ),
            white_board: BitBoard(
                if self.turn == Player::Black {
                    opp2
                } else {
                    own2
                },
            ),
            moves: BitBoard(moves_mask_for(opp2, own2)),
            turn: self.turn.spec_opposite(),
        }
    }

    /// The state after the side to move passes: the boards stay, the turn
    /// flips, and the move cache is rebuilt for the other side.
    closed spec fn pass_result(self) -> OthelloSituation {
        OthelloSituation {
            black_board: self.black_board,
            white_board: self.white_board,
            moves: BitBoard(moves_mask_for(self.opp_mask(), self.own_mask())),
            turn: self.turn.spec_opposite(),
        }
    }

    /// What applying a move yields: a coordinate move succeeds exactly on a
    /// legal destination; a pass succeeds exactly when there is none.
    pub closed spec fn apply_spec(self, m: OthelloMove) -> Option<OthelloSituation> {
        match m {
            OthelloMove::Coord(co) => if legal_sq(
                self.own_mask(),
                self.opp_mask(),
                co.row(),
                co.col(),
            ) {
                Some(self.coord_result(co.row(), co.col()))
            } else {
                None
            },
            OthelloMove::Pass => if self.spec_moves_mask() == 0u64 {
                Some(self.pass_result())
            } else {
                None
            },
        }
    }

    /// The canonical opening position: two discs each in the four centre
    /// squares, Black to move.
    pub fn new() -> (r: OthelloSituation)
        ensures
            r.player_turn() == Player::Black,
            forall|i: int, j: int|
                #[trigger] occ(r.spec_black(), i, j) <==> ((i == 3 && j == 4) || (i == 4 && j
                    == 3)),
            forall|i: int, j: int|
                #[trigger] occ(r.spec_white(), i, j) <==> ((i == 3 && j == 3) || (i == 4 && j
                    == 4)),
            forall|i: int, j: int|
                #[trigger] occ(r.spec_moves_mask(), i, j) <==> legal_sq(
                    r.spec_black(),
                    r.spec_white(),
                    i,
                    j,
                ),
    {
        let mut black_board = BitBoard::empty();
        black_board.set_value_at(coord_at(3, 4), true);
        black_board.set_value_at(coord_at(4, 3), true);
        let mut white_board = BitBoard::empty();
        white_board.set_value_at(coord_at(3, 3), true);
        white_board.set_value_at(coord_at(4, 4), true);
        let moves = generate_moves(black_board, white_board);
        OthelloSituation { black_board, white_board, moves, turn: Player::Black }
    }

    /// The board of the side to move.
    fn get_own_board(&self) -> (r: BitBoard)
        ensures
            r.0 == self.own_mask(),
    {
        if self.turn == Player::Black {
            self.black_board
        } else {
            self.white_board
        }
    }

    /// The board of the side that just moved.
    fn get_opponent_board(&self) -> (r: BitBoard)
        ensures
            r.0 == self.opp_mask(),
    {
        if self.turn == Player::Black {
            self.white_board
        } else {
            self.black_board
        }
    }

    /// The disc difference seen from `player`: positive when `player` holds
    /// more discs than the other side.
    pub open spec fn spec_score(self, player: Player) -> int {
        (count_bits(self.spec_white(), 64) - count_bits(self.spec_black(), 64)) * if player
            == Player::Black {
            -1int
        } else {
            1int
        }
    }

    /// Black's board, for rendering and iteration.
    pub fn get_black_board(&self) -> (r: BitBoard)
        ensures
            r.0 == self.spec_black(),
    {
        self.black_board
    }

    /// White's board, for rendering and iteration.
    pub fn get_white_board(&self) -> (r: BitBoard)
        ensures
            r.0 == self.spec_white(),
    {
        self.white_board
    }

    /// The cached legal-destination board of the side to move.
    pub fn get_moves_board(&self) -> (r: BitBoard)
        ensures
            r.0 == self.spec_moves_mask(),
            forall|i: int, j: int|
                #[trigger] occ(r.0, i, j) <==> legal_sq(self.own_mask(), self.opp_mask(), i, j),
    {
        proof {
            use_type_invariant(self);
        }
        self.moves
    }

    pub fn get_score(&self, player: Player) -> (r: i32)
        ensures
            r == self.spec_score(player),
            -64 <= r <= 64,
    {
        (self.white_board.count_ones() - self.black_board.count_ones()) * if player
            == Player::Black {
            -1
        } else {
            1
        }
    }
}

/// No legal destination exists for the side owning `own`.
pub open spec fn no_moves(own: u64, opp: u64) -> bool {
    forall|i: int, j: int| !(#[trigger] legal_sq(own, opp, i, j))
}

impl GameSituation for OthelloSituation {
    type Move = OthelloMove;

    type Role = Player;

    open spec fn spec_moves(&self) -> Seq<OthelloMove> {
        if self.spec_moves_mask() == 0u64 {
            Seq::empty().push(OthelloMove::Pass)
        } else {
            coord_moves_below(self.spec_moves_mask(), 64)
        }
    }

    open spec fn spec_apply(&self, m: OthelloMove) -> Option<OthelloSituation> {
        self.apply_spec(m)
    }

    open spec fn spec_turn(&self) -> Player {
        self.player_turn()
    }

    open spec fn spec_finished(&self) -> bool {
        no_moves(self.own_mask(), self.opp_mask()) && no_moves(self.opp_mask(), self.own_mask())
    }

    open spec fn spec_winner(&self) -> Option<Player> {
        if !self.spec_finished() {
            None
        } else if count_bits(self.spec_white(), 64) > count_bits(self.spec_black(), 64) {
            Some(Player::White)
        } else if count_bits(self.spec_black(), 64) > count_bits(self.spec_white(), 64) {
            Some(Player::Black)
        } else {
            None
        }
    }

    fn copy_apply(&self, the_move: OthelloMove) -> (r: Option<OthelloSituation>) {
        proof {
            use_type_invariant(self);
        }
        match the_move {
            OthelloMove::Coord(move_coord) => {
                let ghost mr: int = move_coord.row();
                let ghost mc: int = move_coord.col();
                let move_as_board = BitBoard::empty().with_one_at(move_coord);
                let own_board = self.get_own_board();
                let opponent_board = self.get_opponent_board();
                let ghost own = own_board.0;
                let ghost opp = opponent_board.0;
                proof {
                    assert(disjoint(own, opp));
                    assert forall|i: int, j: int| #[trigger] occ(move_as_board.0, i, j) <==> (i
                        == mr && j == mc) by {}
                }
                let delta = delta_for_move(own_board, opponent_board, move_as_board, Ghost((mr, mc)));
                if delta.is_empty() {
                    return None;
                }
                proof {
                    assert(legal_sq(own, opp, mr, mc));
                    lemma_own_after(own, opp, mr, mc);
                    lemma_opp_after(own, opp, mr, mc);
                    assert forall|i: int, j: int| flips(own, opp, mr, mc, i, j) implies occ(
                        opp,
                        i,
                        j,
                    ) by {
                        lemma_flips_opp(own, opp, mr, mc, i, j);
                    }
                }
                let ghost own2 = own_after(own, opp, mr, mc);
                let ghost opp2 = opp_after(own, opp, mr, mc);
                let mut black_board = self.black_board.bitxor(delta);
                let mut white_board = self.white_board.bitxor(delta);
                if self.turn == Player::Black {
                    black_board = black_board.bitor(move_as_board);
                } else {
                    white_board = white_board.bitor(move_as_board);
                }
                proof {
                    if self.turn == Player::Black {
                        assert forall|i: int, j: int|
                            0 <= i < 8 && 0 <= j < 8 implies (#[trigger] occ(black_board.0, i, j)
                            <==> occ(own2, i, j)) && (occ(white_board.0, i, j) <==> occ(
                            opp2,
                            i,
                            j,
                        )) by {
                            assert(occ(delta.0, i, j) == (free_sq(own, opp, mr, mc) && flips(
                                own,
                                opp,
                                mr,
                                mc,
                                i,
                                j,
                            )));
                            if flips(own, opp, mr, mc, i, j) {
                                lemma_flips_opp(own, opp, mr, mc, i, j);
                            }
                            assert(occ(own2, i, j) <==> (occ(own, i, j) || (i == mr && j == mc)
                                || flips(own, opp, mr, mc, i, j)));
                            assert(occ(opp2, i, j) <==> (occ(opp, i, j) && !flips(
                                own,
                                opp,
                                mr,
                                mc,
                                i,
                                j,
                            )));
                        }
                        lemma_occ_eq(black_board.0, own2);
                        lemma_occ_eq(white_board.0, opp2);
                    } else {
                        assert forall|i: int, j: int|
                            0 <= i < 8 && 0 <= j < 8 implies (#[trigger] occ(white_board.0, i, j)
                            <==> occ(own2, i, j)) && (occ(black_board.0, i, j) <==> occ(
                            opp2,
                            i,
                            j,
                        )) by {
                            assert(occ(delta.0, i, j) == (free_sq(own, opp, mr, mc) && flips(
                                own,
                                opp,
                                mr,
                                mc,
                                i,
                                j,
                            )));
                            if flips(own, opp, mr, mc, i, j) {
                                lemma_flips_opp(own, opp, mr, mc, i, j);
                            }
                            assert(occ(own2, i, j) <==> (occ(own, i, j) || (i == mr && j == mc)
                                || flips(own, opp, mr, mc, i, j)));
                            assert(occ(opp2, i, j) <==> (occ(opp, i, j) && !flips(
                                own,
                                opp,
                                mr,
                                mc,
                                i,
                                j,
                            )));
                        }
                        lemma_occ_eq(white_board.0, own2);
                        lemma_occ_eq(black_board.0, opp2);
                    }
                    assert(disjoint(own2, opp2));
                }
                let new_own_board = if self.turn == Player::Black {
                    white_board
                } else {
                    black_board
                };
                let new_opp_board = if self.turn == Player::Black {
                    black_board
                } else {
                    white_board
                };
                let moves = generate_moves(new_own_board, new_opp_board);
                proof {
                    lemma_moves_mask_for(opp2, own2);
                    lemma_occ_eq(moves.0, moves_mask_for(opp2, own2));
                }
                let result = OthelloSituation {
                    black_board,
                    white_board,
                    moves,
                    turn: self.turn.opposite(),
                };
                proof {
                    assert(result == self.coord_result(mr, mc));
                    assert(Coord::from_idx(move_coord.idx()) == move_coord) by {
                        Coord::lemma_from_idx(move_coord.idx());
                        Coord::lemma_coord_eq(Coord::from_idx(move_coord.idx()), move_coord);
                    }
                }
                Some(result)
            },
            OthelloMove::Pass => {
                if self.moves.is_empty() {
                    let moves = generate_moves(self.get_opponent_board(), self.get_own_board());
                    proof {
                        lemma_moves_mask_for(self.opp_mask(), self.own_mask());
                        lemma_occ_eq(moves.0, moves_mask_for(self.opp_mask(), self.own_mask()));
                        assert(disjoint(self.black_board.0, self.white_board.0));
                    }
                    let result = OthelloSituation {
                        black_board: self.black_board,
                        white_board: self.white_board,
                        moves,
                        turn: self.turn.opposite(),
                    };
                    proof {
                        assert(result == self.pass_result());
                    }
                    Some(result)
                } else {
                    None
                }
            },
        }
    }

    fn get_moves(&self) -> (r: Vec<OthelloMove>) {
        proof {
            use_type_invariant(self);
        }
        let mut v: Vec<OthelloMove> = Vec::new();
        if self.moves.is_empty() {
            v.push(OthelloMove::Pass);
            proof {
                assert(v@ =~= self.spec_moves());
            }
            return v;
        }
        let ghost mask = self.moves.0;
        let mut i: u32 = 0;
        while i < 64
            invariant
                i <= 64,
                mask == self.moves.0,
                v@ == coord_moves_below(mask, i as int),
            decreases 64 - i,
        {
            let sh: u64 = i as u64;
            if (self.moves.0 >> sh) & 1 == 1 {
                proof {
                    crate::bitboard::lemma_sq(i as int / 8, i as int % 8);
                    vstd::arithmetic::div_mod::lemma_fundamental_div_mod(i as int, 8);
                }
                let row = i / 8;
                let col = i % 8;
                let co = match Coord::new(row, col) {
                    Some(c) => c,
                    None => unreached(),
                };
                v.push(OthelloMove::Coord(co));
                proof {
                    Coord::lemma_from_idx(i as int);
                    Coord::lemma_coord_eq(co, Coord::from_idx(i as int));
                    assert(bit_at(mask, i as int));
                    assert(v@ =~= coord_moves_below(mask, i as int + 1));
                }
            }
            i = i + 1;
        }
        proof {
            lemma_coord_moves_elts(mask, 64);
            assert forall|t: int| 0 <= t < v@.len() implies (#[trigger] self.apply_spec(v@[t]))
                is Some by {
                let m = v@[t];
                let co = m->Coord_0;
                lemma_bit_at_occ(mask, co.idx());
                assert(occ(mask, co.row(), co.col()));
                assert(legal_sq(self.own_mask(), self.opp_mask(), co.row(), co.col()));
            }
        }
        v
    }

    fn get_turn(&self) -> (r: Player) {
        self.turn
    }

    fn is_finished(&self) -> (r: bool) {
        proof {
            use_type_invariant(self);
        }
        if !self.moves.is_empty() {
            proof {
                lemma_nonzero_occ(self.moves.0);
                let w = choose|i: int, j: int| occ(self.moves.0, i, j);
                assert(legal_sq(self.own_mask(), self.opp_mask(), w.0, w.1));
            }
            return false;
        }
        let reply_moves = generate_moves(self.get_opponent_board(), self.get_own_board());
        if reply_moves.is_empty() {
            proof {
                assert forall|i: int, j: int| !(#[trigger] legal_sq(
                    self.own_mask(),
                    self.opp_mask(),
                    i,
                    j,
                )) by {
                    assert(!occ(self.moves.0, i, j));
                }
                assert forall|i: int, j: int| !(#[trigger] legal_sq(
                    self.opp_mask(),
                    self.own_mask(),
                    i,
                    j,
                )) by {
                    assert(!occ(reply_moves.0, i, j));
                }
            }
            true
        } else {
            proof {
                lemma_nonzero_occ(reply_moves.0);
                let w = choose|i: int, j: int| occ(reply_moves.0, i, j);
                assert(legal_sq(self.opp_mask(), self.own_mask(), w.0, w.1));
            }
            false
        }
    }

    fn get_winner(&self) -> (r: Option<Player>) {
        if !self.is_finished() {
            return None;
        }
        let whites = self.white_board.count_ones();
        let blacks = self.black_board.count_ones();
        if whites > blacks {
            Some(Player::White)
        } else if blacks > whites {
            Some(Player::Black)
        } else {
            None
        }
    }
}

/// Yields one Pass when the side to move has no placement, else its legal
/// placements in ascending bit-index order.
pub enum OthelloMoveIterator {
    Empty,
    ExhaustedEmpty,
    Moves(BoardIterator),
}

impl OthelloMoveIterator {
    /// An iterator over the moves that `moves_board` encodes.
    pub fn new(moves_board: BitBoard) -> (r: OthelloMoveIterator)
        ensures
            moves_board.0 == 0 ==> r is Empty,
            moves_board.0 != 0 ==> r == OthelloMoveIterator::Moves(BoardIterator(moves_board)),
    {
        if moves_board.is_empty() {
            OthelloMoveIterator::Empty
        } else {
            OthelloMoveIterator::Moves(moves_board.into_iter())
        }
    }

    /// The next move, if one is left.
    pub fn next(&mut self) -> (r: Option<OthelloMove>)
        ensures
            *old(self) is Empty ==> r == Some(OthelloMove::Pass) && *final(self)
                is ExhaustedEmpty,
            *old(self) is ExhaustedEmpty ==> r is None && *final(self) == *old(self),
            *old(self) matches OthelloMoveIterator::Moves(it) ==> ((it.0.0 == 0 ==> r is None) && (
            it.0.0 != 0 ==> (r matches Some(m) && m matches OthelloMove::Coord(co) && bit_at(
                it.0.0,
                co.idx(),
            )))),
    {
        match self {
            OthelloMoveIterator::Empty => {
                *self = OthelloMoveIterator::ExhaustedEmpty;
                Some(OthelloMove::Pass)
            },
            OthelloMoveIterator::ExhaustedEmpty => None,
            OthelloMoveIterator::Moves(iter) => match iter.next() {
                Some(c) => Some(OthelloMove::Coord(c)),
                None => None,
            },
        }
    }
}

/// What well-formedness gives: disjoint boards and a sound move cache.
pub proof fn lemma_wf(s: OthelloSituation)
    requires
        s.wf(),
    ensures
        disjoint(s.spec_black(), s.spec_white()),
        disjoint(s.own_mask(), s.opp_mask()),
        forall|i: int, j: int|
            #[trigger] occ(s.spec_moves_mask(), i, j) <==> legal_sq(s.own_mask(), s.opp_mask(), i, j),
{
}

/// The cached move board is empty exactly when the side to move has no
/// legal destination.
pub proof fn lemma_moves_mask_empty(s: OthelloSituation)
    requires
        s.wf(),
    ensures
        (s.spec_moves_mask() == 0) <==> no_moves(s.own_mask(), s.opp_mask()),
{
    if s.spec_moves_mask() == 0 {
        assert forall|i: int, j: int| !(#[trigger] legal_sq(s.own_mask(), s.opp_mask(), i, j)) by {
            if legal_sq(s.own_mask(), s.opp_mask(), i, j) {
                assert(occ(s.spec_moves_mask(), i, j));
                crate::bitboard::lemma_occ_nonzero(s.spec_moves_mask(), i, j);
            }
        }
    } else {
        lemma_nonzero_occ(s.spec_moves_mask());
        let w = choose|i: int, j: int| occ(s.spec_moves_mask(), i, j);
        assert(legal_sq(s.own_mask(), s.opp_mask(), w.0, w.1));
    }
}

/// What playing a coordinate move yields: it succeeds exactly on a legal
/// destination; the mover gains the placed disc and every captured one, the
/// opponent loses the captured ones, the turn passes over, the move cache is
/// rebuilt, and the board gains exactly one disc.
pub proof fn lemma_apply_coord(s: OthelloSituation, co: Coord)
    requires
        s.wf(),
    ensures
        s.apply_spec(OthelloMove::Coord(co)) is Some <==> legal_sq(
            s.own_mask(),
            s.opp_mask(),
            co.row(),
            co.col(),
        ),
        s.apply_spec(OthelloMove::Coord(co)) matches Some(s2) ==> ({
            &&& s2.player_turn() == s.player_turn().spec_opposite()
            &&& s2.opp_mask() == own_after(s.own_mask(), s.opp_mask(), co.row(), co.col())
            &&& s2.own_mask() == opp_after(s.own_mask(), s.opp_mask(), co.row(), co.col())
            &&& forall|i: int, j: int|
                #[trigger] occ(s2.spec_moves_mask(), i, j) <==> legal_sq(
                    s2.own_mask(),
                    s2.opp_mask(),
                    i,
                    j,
                )
            &&& s2.total_discs() == s.total_discs() + 1
            &&& s2.wf()
        }),
{
    let mr = co.row();
    let mc = co.col();
    let own = s.own_mask();
    let opp = s.opp_mask();
    if legal_sq(own, opp, mr, mc) {
        let s2 = s.coord_result(mr, mc);
        let own2 = own_after(own, opp, mr, mc);
        let opp2 = opp_after(own, opp, mr, mc);
        lemma_own_after(own, opp, mr, mc);
        lemma_opp_after(own, opp, mr, mc);
        lemma_moves_mask_for(opp2, own2);
        assert(disjoint(own, opp));
        assert forall|i: int, j: int| flips(own, opp, mr, mc, i, j) implies occ(opp, i, j) by {
            lemma_flips_opp(own, opp, mr, mc, i, j);
        }
        assert(disjoint(own2, opp2));
        let mi = mr * 8 + mc;
        crate::bitboard::lemma_sq(mr, mc);
        assert forall|i: int|
            0 <= i < 64 implies ((#[trigger] bit_at(own2, i) || bit_at(opp2, i)) == (bit_at(own, i)
            || bit_at(opp, i) || i == mi)) by {
            lemma_bit_at_occ(own2, i);
            lemma_bit_at_occ(opp2, i);
            lemma_bit_at_occ(own, i);
            lemma_bit_at_occ(opp, i);
            vstd::arithmetic::div_mod::lemma_fundamental_div_mod(i, 8);
            assert(i == mi <==> (i / 8 == mr && i % 8 == mc));
        }
        lemma_bit_at_occ(own, mi);
        lemma_bit_at_occ(opp, mi);
        assert forall|i: int| !(#[trigger] bit_at(own, i) && bit_at(opp, i)) by {
            if 0 <= i < 64 {
                lemma_bit_at_occ(own, i);
                lemma_bit_at_occ(opp, i);
            }
        }
        assert forall|i: int| !(#[trigger] bit_at(own2, i) && bit_at(opp2, i)) by {
            if 0 <= i < 64 {
                lemma_bit_at_occ(own2, i);
                lemma_bit_at_occ(opp2, i);
            }
        }
        lemma_count_pair_plus_one(own, opp, own2, opp2, mi);
        assert(s2.total_discs() == s.total_discs() + 1);
    }
}

/// What passing yields: it succeeds exactly when the mover has no legal
/// destination; the boards stay as they are, the turn passes over, and the
/// move cache is rebuilt for the other side.
pub proof fn lemma_apply_pass(s: OthelloSituation)
    requires
        s.wf(),
    ensures
        s.apply_spec(OthelloMove::Pass) is Some <==> s.spec_moves_mask() == 0,
        s.apply_spec(OthelloMove::Pass) matches Some(s2) ==> ({
            &&& s2.spec_black() == s.spec_black()
            &&& s2.spec_white() == s.spec_white()
            &&& s2.player_turn() == s.player_turn().spec_opposite()
            &&& s2.own_mask() == s.opp_mask()
            &&& s2.opp_mask() == s.own_mask()
            &&& forall|i: int, j: int|
                #[trigger] occ(s2.spec_moves_mask(), i, j) <==> legal_sq(
                    s2.own_mask(),
                    s2.opp_mask(),
                    i,
                    j,
                )
            &&& s2.total_discs() == s.total_discs()
            &&& s2.wf()
        }),
{
    if s.spec_moves_mask() == 0 {
        lemma_moves_mask_for(s.opp_mask(), s.own_mask());
    }
}

/// The board never holds more than its 64 squares' worth of discs.
pub proof fn lemma_total_discs_bounded(s: OthelloSituation)
    requires
        s.wf(),
    ensures
        0 <= s.total_discs() <= 64,
{
    crate::bitboard::lemma_count_bits_range(s.spec_black(), 64);
    crate::bitboard::lemma_count_bits_range(s.spec_white(), 64);
    assert forall|i: int| !(#[trigger] bit_at(s.spec_black(), i) && bit_at(s.spec_white(), i)) by {
        if 0 <= i < 64 {
            lemma_bit_at_occ(s.spec_black(), i);
            lemma_bit_at_occ(s.spec_white(), i);
        }
    }
    crate::bitboard::lemma_count_disjoint_le(s.spec_black(), s.spec_white());
}

/// A game always ends: every applied move lowers this measure, since a
/// placement adds a disc that never leaves the board, and a pass keeps the
/// discs but hands the turn to a side that can place one.
pub proof fn lemma_game_progress(s: OthelloSituation, m: OthelloMove, s2: OthelloSituation)
    requires
        s.wf(),
        !s.spec_finished(),
        s.apply_spec(m) == Some(s2),
    ensures
        s.total_discs() <= s2.total_discs(),
        0 <= s.total_discs() <= 64,
        0 <= s2.total_discs() <= 64,
        2 * (64 - s2.total_discs()) + (if s2.spec_moves_mask() == 0 {
            1int
        } else {
            0int
        }) < 2 * (64 - s.total_discs()) + (if s.spec_moves_mask() == 0 {
            1int
        } else {
            0int
        }),
{
    lemma_total_discs_bounded(s);
    match m {
        OthelloMove::Coord(co) => {
            lemma_apply_coord(s, co);
        },
        OthelloMove::Pass => {
            lemma_apply_pass(s);
            lemma_moves_mask_empty(s);
            assert(no_moves(s.own_mask(), s.opp_mask()));
            let w = choose|i: int, j: int| legal_sq(s.opp_mask(), s.own_mask(), i, j);
            assert(occ(s2.spec_moves_mask(), w.0, w.1));
            crate::bitboard::lemma_occ_nonzero(s2.spec_moves_mask(), w.0, w.1);
        },
    }
    lemma_total_discs_bounded(s2);
}

/// A coordinate already known to lie on the board.
fn coord_at(row: u32, col: u32) -> (r: Coord)
    requires
        row <= 7,
        col <= 7,
    ensures
        r.row() == row,
        r.col() == col,
{
    match Coord::new(row, col) {
        Some(c) => c,
        None => unreached(),
    }
}

/// The complete legal-destination board for the side owning `own_board`.
fn generate_moves(own_board: BitBoard, other_board: BitBoard) -> (r: BitBoard)
    ensures
        forall|i: int, j: int|
            #[trigger] occ(r.0, i, j) <==> legal_sq(own_board.0, other_board.0, i, j),
{
    let m = generate_moves_towards(own_board, other_board, Direction::Right).bitor(
        generate_moves_towards(own_board, other_board, Direction::UpRight),
    ).bitor(generate_moves_towards(own_board, other_board, Direction::Up)).bitor(
        generate_moves_towards(own_board, other_board, Direction::UpLeft),
    ).bitor(generate_moves_towards(own_board, other_board, Direction::Left)).bitor(
        generate_moves_towards(own_board, other_board, Direction::DownLeft),
    ).bitor(generate_moves_towards(own_board, other_board, Direction::Down)).bitor(
        generate_moves_towards(own_board, other_board, Direction::DownRight),
    );
    proof {
        let own = own_board.0;
        let opp = other_board.0;
        assert forall|i: int, j: int| #[trigger] occ(m.0, i, j) <==> legal_sq(own, opp, i, j) by {
            lemma_chain_iff_legal(own, opp, Direction::Right, i - delta_row(Direction::Right), j
                - delta_col(Direction::Right));
            lemma_chain_iff_legal(own, opp, Direction::UpRight, i - delta_row(Direction::UpRight), j
                - delta_col(Direction::UpRight));
            lemma_chain_iff_legal(own, opp, Direction::Up, i - delta_row(Direction::Up), j
                - delta_col(Direction::Up));
            lemma_chain_iff_legal(own, opp, Direction::UpLeft, i - delta_row(Direction::UpLeft), j
                - delta_col(Direction::UpLeft));
            lemma_chain_iff_legal(own, opp, Direction::Left, i - delta_row(Direction::Left), j
                - delta_col(Direction::Left));
            lemma_chain_iff_legal(own, opp, Direction::DownLeft, i - delta_row(
                Direction::DownLeft,
            ), j - delta_col(Direction::DownLeft));
            lemma_chain_iff_legal(own, opp, Direction::Down, i - delta_row(Direction::Down), j
                - delta_col(Direction::Down));
            lemma_chain_iff_legal(own, opp, Direction::DownRight, i - delta_row(
                Direction::DownRight,
            ), j - delta_col(Direction::DownRight));
            if occ(m.0, i, j) {
                let dd = choose|dd: Direction|
                    some_chain(own, opp, dd, i - delta_row(dd), j - delta_col(dd));
                lemma_opposite_dir(dd);
                assert(legal_dir(own, opp, i, j, opposite_dir(dd)));
            }
            if legal_sq(own, opp, i, j) {
                let dd = choose|dd: Direction| legal_dir(own, opp, i, j, dd);
                lemma_opposite_dir(dd);
                lemma_chain_iff_legal(own, opp, opposite_dir(dd), i - delta_row(opposite_dir(dd)), j
                    - delta_col(opposite_dir(dd)));
                assert(some_chain(
                    own,
                    opp,
                    opposite_dir(dd),
                    i - delta_row(opposite_dir(dd)),
                    j - delta_col(opposite_dir(dd)),
                ));
                match opposite_dir(dd) {
                    Direction::Right => {},
                    Direction::UpRight => {},
                    Direction::Up => {},
                    Direction::UpLeft => {},
                    Direction::Left => {},
                    Direction::DownLeft => {},
                    Direction::Down => {},
                    Direction::DownRight => {},
                }
            }
        }
    }
    m
}

} // verus!
