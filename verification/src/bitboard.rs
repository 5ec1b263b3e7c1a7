use vstd::prelude::*;
use vstd::arithmetic::div_mod::lemma_fundamental_div_mod;
use vstd::arithmetic::div_mod::lemma_fundamental_div_mod_converse;
use vstd::std_specs::bits::axiom_u64_trailing_zeros;
use vstd::std_specs::bits::u64_trailing_zeros;
use vstd::string::StrSliceExecFns;

verus! {

// A board is a 64-bit mask, one bit per square, bit index = col + row * 8.
// The spec-level model of a board is the predicate `occ` on (row, col).

/// Bit `n` of the mask `b` is set (bit-vector friendly form).
pub open spec fn bit64(b: u64, n: u64) -> bool {
    (b >> n) & 1u64 == 1u64
}

/// Bit `i` of the mask `b` is set.
pub open spec fn bit_at(b: u64, i: int) -> bool {
    0 <= i < 64 && bit64(b, i as u64)
}

/// The square at (row `r`, column `c`) is occupied on the mask `b`.
/// False whenever (r, c) lies outside the board.
pub open spec fn occ(b: u64, r: int, c: int) -> bool {
    0 <= r < 8 && 0 <= c < 8 && bit_at(b, r * 8 + c)
}

/// Number of set bits among the bit positions below `n`.
pub open spec fn count_bits(b: u64, n: int) -> int
    decreases n,
{
    if n <= 0 {
        0
    } else {
        count_bits(b, n - 1) + if bit_at(b, n - 1) {
            1int
        } else {
            0int
        }
    }
}

/// Row and column of the bit index `i * 8 + j`.
pub proof fn lemma_sq(i: int, j: int)
    requires
        0 <= i < 8,
        0 <= j < 8,
    ensures
        0 <= i * 8 + j < 64,
        (i * 8 + j) / 8 == i,
        (i * 8 + j) % 8 == j,
{
    lemma_fundamental_div_mod_converse(i * 8 + j, 8, i, j);
}

proof fn lemma_bit_zero(i: u64)
    by (bit_vector)
    ensures
        (0u64 >> i) & 1u64 == 0u64,
{
}

proof fn lemma_bit_or(x: u64, y: u64, i: u64)
    by (bit_vector)
    requires
        i < 64,
    ensures
        ((x | y) >> i) & 1u64 == 1u64 <==> ((x >> i) & 1u64 == 1u64 || (y >> i) & 1u64 == 1u64),
{
}

proof fn lemma_occ_zero()
    ensures
        forall|r: int, c: int| !occ(0u64, r, c),
{
    assert forall|r: int, c: int| !occ(0u64, r, c) by {
        if 0 <= r < 8 && 0 <= c < 8 {
            lemma_bit_zero((r * 8 + c) as u64);
        }
    }
}

/// An occupied square makes the mask non-zero.
pub proof fn lemma_occ_nonzero(b: u64, i: int, j: int)
    requires
        occ(b, i, j),
    ensures
        b != 0,
{
    if b == 0 {
        lemma_occ_zero();
    }
}

/// A non-zero mask has an occupied square.
pub proof fn lemma_nonzero_occ(b: u64)
    requires
        b != 0,
    ensures
        exists|r: int, c: int| occ(b, r, c),
{
    broadcast use axiom_u64_trailing_zeros;

    let i = u64_trailing_zeros(b) as int;
    assert(bit_at(b, i));
    lemma_sq(i / 8, i % 8);
    lemma_fundamental_div_mod(i, 8);
    assert(occ(b, i / 8, i % 8));
}

proof fn lemma_bit_xor_ne(x: u64, y: u64, i: u64)
    by (bit_vector)
    requires
        i < 64,
    ensures
        ((x ^ y) >> i) & 1u64 == 1u64 <==> (((x >> i) & 1u64 == 1u64) != ((y >> i) & 1u64 == 1u64)),
{
}

proof fn lemma_xor_nonzero(x: u64, y: u64)
    by (bit_vector)
    requires
        x != y,
    ensures
        x ^ y != 0,
{
}

/// Masks that agree on every square are equal.
pub proof fn lemma_occ_eq(a: u64, b: u64)
    requires
        forall|i: int, j: int|
            0 <= i < 8 && 0 <= j < 8 ==> (#[trigger] occ(a, i, j) <==> occ(b, i, j)),
    ensures
        a == b,
{
    if a != b {
        lemma_xor_nonzero(a, b);
        broadcast use axiom_u64_trailing_zeros;

        let i = u64_trailing_zeros(a ^ b) as int;
        assert(bit_at(a ^ b, i));
        lemma_bit_xor_ne(a, b, i as u64);
        lemma_sq(i / 8, i % 8);
        lemma_fundamental_div_mod(i, 8);
        assert(occ(a, i / 8, i % 8) != occ(b, i / 8, i % 8));
    }
}

/// Bit indices and squares name the same positions.
pub proof fn lemma_bit_at_occ(x: u64, i: int)
    requires
        0 <= i < 64,
    ensures
        bit_at(x, i) == occ(x, i / 8, i % 8),
{
    lemma_sq(i / 8, i % 8);
    lemma_fundamental_div_mod(i, 8);
}

pub closed spec fn mask_from_below(f: spec_fn(int) -> bool, n: int) -> u64
    decreases n,
{
    if n <= 0 {
        0u64
    } else {
        mask_from_below(f, n - 1) | (if f(n - 1) {
            1u64 << ((n - 1) as u64)
        } else {
            0u64
        })
    }
}

/// The mask whose bit `i` is set exactly when `f(i)` holds.
pub open spec fn mask_from(f: spec_fn(int) -> bool) -> u64 {
    mask_from_below(f, 64)
}

proof fn lemma_single_bit(k: u64, i: u64)
    by (bit_vector)
    requires
        i < 64,
        k < 64,
    ensures
        ((1u64 << k) >> i) & 1u64 == 1u64 <==> i == k,
{
}

proof fn lemma_mask_from_below(f: spec_fn(int) -> bool, n: int)
    requires
        0 <= n <= 64,
    ensures
        forall|i: int| 0 <= i < n ==> #[trigger] bit_at(mask_from_below(f, n), i) == f(i),
        forall|i: int| n <= i < 64 ==> !(#[trigger] bit_at(mask_from_below(f, n), i)),
    decreases n,
{
    if n > 0 {
        lemma_mask_from_below(f, n - 1);
        let prev = mask_from_below(f, n - 1);
        let this = mask_from_below(f, n);
        assert forall|i: int| 0 <= i < 64 implies #[trigger] bit_at(this, i) == (bit_at(prev, i)
            || (f(n - 1) && i == n - 1)) by {
            let iu = i as u64;
            let ku = (n - 1) as u64;
            if f(n - 1) {
                lemma_bit_or(prev, 1u64 << ku, iu);
                lemma_single_bit(ku, iu);
            } else {
                assert((prev | 0u64) == prev) by (bit_vector);
            }
        }
    } else {
        assert forall|i: int| 0 <= i < 64 implies !(#[trigger] bit_at(0u64, i)) by {
            lemma_bit_zero(i as u64);
        }
    }
}

/// What `mask_from` builds: bit `i` is set exactly when `f(i)` holds.
pub proof fn lemma_mask_from(f: spec_fn(int) -> bool)
    ensures
        forall|i: int| 0 <= i < 64 ==> #[trigger] bit_at(mask_from(f), i) == f(i),
{
    lemma_mask_from_below(f, 64);
}

/// The number of set bits among the positions below `n` lies in [0, n].
pub proof fn lemma_count_bits_range(b: u64, n: int)
    ensures
        0 <= count_bits(b, n) <= if n <= 0 {
            0int
        } else {
            n
        },
    decreases n,
{
    if n > 0 {
        lemma_count_bits_range(b, n - 1);
    }
}

/// Two masks that claim no bit twice hold at most 64 bits together.
pub proof fn lemma_count_disjoint_le(b: u64, w: u64)
    requires
        forall|i: int| !(#[trigger] bit_at(b, i) && bit_at(w, i)),
    ensures
        count_bits(b, 64) + count_bits(w, 64) <= 64,
{
    lemma_count_disjoint_step(b, w, 64);
}

proof fn lemma_count_disjoint_step(b: u64, w: u64, n: int)
    requires
        forall|i: int| !(#[trigger] bit_at(b, i) && bit_at(w, i)),
    ensures
        count_bits(b, n) + count_bits(w, n) <= if n <= 0 {
            0int
        } else {
            n
        },
    decreases n,
{
    if n > 0 {
        lemma_count_disjoint_step(b, w, n - 1);
        assert(!(bit_at(b, n - 1) && bit_at(w, n - 1)));
    }
}

/// Playing one disc on a free square of disjoint boards raises the total
/// disc count by exactly one, whatever discs change side.
pub proof fn lemma_count_pair_plus_one(b: u64, w: u64, b2: u64, w2: u64, mi: int)
    requires
        0 <= mi < 64,
        forall|i: int|
            0 <= i < 64 ==> ((#[trigger] bit_at(b2, i) || bit_at(w2, i)) == (bit_at(b, i) || bit_at(
                w,
                i,
            ) || i == mi)),
        !bit_at(b, mi) && !bit_at(w, mi),
        forall|i: int| !(#[trigger] bit_at(b, i) && bit_at(w, i)),
        forall|i: int| !(#[trigger] bit_at(b2, i) && bit_at(w2, i)),
    ensures
        count_bits(b2, 64) + count_bits(w2, 64) == count_bits(b, 64) + count_bits(w, 64) + 1,
{
    lemma_count_pair_step(b, w, b2, w2, mi, 64);
}

proof fn lemma_count_pair_step(b: u64, w: u64, b2: u64, w2: u64, mi: int, n: int)
    requires
        0 <= mi < 64,
        n <= 64,
        forall|i: int|
            0 <= i < 64 ==> ((#[trigger] bit_at(b2, i) || bit_at(w2, i)) == (bit_at(b, i) || bit_at(
                w,
                i,
            ) || i == mi)),
        !bit_at(b, mi) && !bit_at(w, mi),
        forall|i: int| !(#[trigger] bit_at(b, i) && bit_at(w, i)),
        forall|i: int| !(#[trigger] bit_at(b2, i) && bit_at(w2, i)),
    ensures
        count_bits(b2, n) + count_bits(w2, n) == count_bits(b, n) + count_bits(w, n) + if mi < n {
            1int
        } else {
            0int
        },
    decreases n,
{
    if n > 0 {
        lemma_count_pair_step(b, w, b2, w2, mi, n - 1);
        assert(bit_at(b2, n - 1) == bit_at(b2, n - 1));
    }
}

/// One of 8 compass values.
#[derive(Clone, Copy)]
pub enum Direction {
    Right,
    UpRight,
    Up,
    UpLeft,
    Left,
    DownLeft,
    Down,
    DownRight,
}

/// Change of the row index when a piece moves one square in direction `d`
/// (row 0 is the top row, so Up decreases the row).
pub open spec fn delta_row(d: Direction) -> int {
    match d {
        Direction::Right => 0,
        Direction::UpRight => -1,
        Direction::Up => -1,
        Direction::UpLeft => -1,
        Direction::Left => 0,
        Direction::DownLeft => 1,
        Direction::Down => 1,
        Direction::DownRight => 1,
    }
}

/// Change of the column index when a piece moves one square in direction `d`.
pub open spec fn delta_col(d: Direction) -> int {
    match d {
        Direction::Right => 1,
        Direction::UpRight => 1,
        Direction::Up => 0,
        Direction::UpLeft => -1,
        Direction::Left => -1,
        Direction::DownLeft => -1,
        Direction::Down => 0,
        Direction::DownRight => 1,
    }
}

/// The direction that undoes `d`.
pub open spec fn opposite_dir(d: Direction) -> Direction {
    match d {
        Direction::Right => Direction::Left,
        Direction::UpRight => Direction::DownLeft,
        Direction::Up => Direction::Down,
        Direction::UpLeft => Direction::DownRight,
        Direction::Left => Direction::Right,
        Direction::DownLeft => Direction::UpRight,
        Direction::Down => Direction::Up,
        Direction::DownRight => Direction::UpLeft,
    }
}

/// The deltas of opposite directions cancel, and `opposite_dir` undoes itself.
pub proof fn lemma_opposite_dir(d: Direction)
    ensures
        delta_row(opposite_dir(d)) == -delta_row(d),
        delta_col(opposite_dir(d)) == -delta_col(d),
        opposite_dir(opposite_dir(d)) == d,
{
    match d {
        Direction::Right => {},
        Direction::UpRight => {},
        Direction::Up => {},
        Direction::UpLeft => {},
        Direction::Left => {},
        Direction::DownLeft => {},
        Direction::Down => {},
        Direction::DownRight => {},
    }
}

/// What a directional shift yields: the disc on each square is the one that
/// sat one step against the direction.
pub open spec fn shift_spec(b: u64, d: Direction) -> u64 {
    mask_from(|i: int| occ(b, i / 8 - delta_row(d), i % 8 - delta_col(d)))
}

pub proof fn lemma_shift_spec(b: u64, d: Direction)
    ensures
        forall|i: int, j: int|
            0 <= i < 8 && 0 <= j < 8 ==> (#[trigger] occ(shift_spec(b, d), i, j) <==> occ(
                b,
                i - delta_row(d),
                j - delta_col(d),
            )),
{
    lemma_mask_from(|i: int| occ(b, i / 8 - delta_row(d), i % 8 - delta_col(d)));
    assert forall|i: int, j: int| 0 <= i < 8 && 0 <= j < 8 implies (#[trigger] occ(
        shift_spec(b, d),
        i,
        j,
    ) <==> occ(b, i - delta_row(d), j - delta_col(d))) by {
        lemma_sq(i, j);
        lemma_bit_at_occ(shift_spec(b, d), i * 8 + j);
    }
}

/// A shift followed by the opposite shift restores every board none of whose
/// discs sat on the edge the first shift pushes across.
pub proof fn lemma_shift_round_trip(b: u64, d: Direction)
    requires
        forall|i: int, j: int|
            #[trigger] occ(b, i, j) ==> 0 <= i + delta_row(d) < 8 && 0 <= j + delta_col(d) < 8,
    ensures
        shift_spec(shift_spec(b, d), opposite_dir(d)) == b,
{
    lemma_opposite_dir(d);
    lemma_shift_spec(b, d);
    lemma_shift_spec(shift_spec(b, d), opposite_dir(d));
    let r = shift_spec(shift_spec(b, d), opposite_dir(d));
    assert forall|i: int, j: int|
        0 <= i < 8 && 0 <= j < 8 implies (#[trigger] occ(r, i, j) <==> occ(b, i, j)) by {
        if 0 <= i + delta_row(d) < 8 && 0 <= j + delta_col(d) < 8 {
            assert(occ(r, i, j) == occ(shift_spec(b, d), i + delta_row(d), j + delta_col(d)));
        } else {
            assert(!occ(b, i, j));
        }
    }
    lemma_occ_eq(r, b);
}

/// A board whose every disc sits on the edge that the shift crosses shifts
/// to the empty board.
pub proof fn lemma_shift_off_edge(b: u64, d: Direction)
    requires
        forall|i: int, j: int|
            #[trigger] occ(b, i, j) ==> !(0 <= i + delta_row(d) < 8 && 0 <= j + delta_col(d) < 8),
    ensures
        shift_spec(b, d) == 0,
{
    lemma_shift_spec(b, d);
    lemma_occ_zero();
    assert forall|i: int, j: int|
        0 <= i < 8 && 0 <= j < 8 implies (#[trigger] occ(shift_spec(b, d), i, j) <==> occ(
        0u64,
        i,
        j,
    )) by {
        if occ(b, i - delta_row(d), j - delta_col(d)) {
            assert(0 <= i < 8 && 0 <= j < 8);
        }
    }
    lemma_occ_eq(shift_spec(b, d), 0);
}

/// Shifting the full board along an axis, in a direction and its opposite,
/// clears exactly the two complementary entry edges: each result misses just
/// the row or column the pieces came in across, and together the two results
/// cover the whole board again.
pub proof fn lemma_shift_full_complement(d: Direction)
    requires
        delta_row(d) == 0 || delta_col(d) == 0,
    ensures
        forall|i: int, j: int|
            0 <= i < 8 && 0 <= j < 8 ==> (#[trigger] occ(shift_spec(0xffffffffffffffffu64, d), i, j)
                <==> (0 <= i - delta_row(d) < 8 && 0 <= j - delta_col(d) < 8)),
        shift_spec(0xffffffffffffffffu64, d) | shift_spec(0xffffffffffffffffu64, opposite_dir(d))
            == 0xffffffffffffffffu64,
{
    let full = 0xffffffffffffffffu64;
    lemma_opposite_dir(d);
    lemma_shift_spec(full, d);
    lemma_shift_spec(full, opposite_dir(d));
    assert forall|i: int, j: int| 0 <= i < 8 && 0 <= j < 8 implies #[trigger] occ(full, i, j) by {
        lemma_sq(i, j);
        let n = (i * 8 + j) as u64;
        assert((0xffffffffffffffffu64 >> n) & 1u64 == 1u64) by (bit_vector)
            requires
                n < 64,
        ;
    }
    let a = shift_spec(full, d);
    let b = shift_spec(full, opposite_dir(d));
    assert forall|i: int, j: int|
        0 <= i < 8 && 0 <= j < 8 implies (#[trigger] occ(a | b, i, j) <==> occ(full, i, j)) by {
        lemma_bit_or(a, b, (i * 8 + j) as u64);
        lemma_sq(i, j);
        assert(occ(shift_spec(full, d), i, j) <==> occ(full, i - delta_row(d), j - delta_col(d)));
        assert(occ(shift_spec(full, opposite_dir(d)), i, j) <==> occ(
            full,
            i - delta_row(opposite_dir(d)),
            j - delta_col(opposite_dir(d)),
        ));
        match d {
            Direction::Right => {},
            Direction::UpRight => {},
            Direction::Up => {},
            Direction::UpLeft => {},
            Direction::Left => {},
            Direction::DownLeft => {},
            Direction::Down => {},
            Direction::DownRight => {},
        }
    }
    lemma_occ_eq(a | b, full);
}

/// The character of a rendered board at text position `a`: a newline before
/// each row, then one '1' or '0' per square.
pub open spec fn render_char(b: u64, a: int) -> char {
    if a % 9 == 0 {
        '\n'
    } else if occ(b, a / 9, a % 9 - 1) {
        '1'
    } else {
        '0'
    }
}

/// Walks a board's occupied squares in ascending bit-index order, clearing
/// each as it is handed out.
#[derive(Debug)]
pub struct BoardIterator(pub BitBoard);

impl BoardIterator {
    /// Pops the occupied square with the lowest bit index, if any.
    pub fn next(&mut self) -> (r: Option<Coord>)
        ensures
            old(self).0.0 == 0 ==> r is None && final(self).0 == old(self).0,
            old(self).0.0 != 0 ==> (r matches Some(co) && bit_at(old(self).0.0, co.idx()) && (
            forall|k: int| 0 <= k < co.idx() ==> !bit_at(old(self).0.0, k)) && (forall|i: int, j: int|
                #[trigger] occ(final(self).0.0, i, j) == (occ(old(self).0.0, i, j) && !(i
                    == co.row() && j == co.col())))),
    {
        let pos = match self.0.first_one() {
            Some(p) => p,
            None => {
                return None;
            },
        };
        self.0.set_value_at(pos, false);
        Some(pos)
    }
}

/// Addresses one of the 64 squares; row and column both lie in [0, 7] and the
/// bit index is col + row * 8.
#[derive(Clone, Copy, Debug, PartialEq, Eq, Structural)]
pub struct Coord(u32);

impl Coord {
    #[verifier::type_invariant]
    spec fn inv(self) -> bool {
        self.0 < 64
    }

    /// The bit index of the square, in [0, 63].
    pub closed spec fn idx(self) -> int {
        self.0 as int
    }

    /// The row of the square, in [0, 7].
    pub open spec fn row(self) -> int {
        self.idx() / 8
    }

    /// The column of the square, in [0, 7].
    pub open spec fn col(self) -> int {
        self.idx() % 8
    }

    /// The coordinate of the square with bit index `i` (spec-level
    /// construction; see `lemma_from_idx`).
    pub closed spec fn from_idx(i: int) -> Coord {
        Coord(i as u32)
    }

    pub proof fn lemma_from_idx(i: int)
        requires
            0 <= i < 64,
        ensures
            Coord::from_idx(i).idx() == i,
    {
    }

    /// A coordinate is determined by its bit index.
    pub proof fn lemma_coord_eq(a: Coord, b: Coord)
        requires
            a.idx() == b.idx(),
        ensures
            a == b,
    {
    }

    /// Construction fails (returns None) exactly when the row or the column
    /// lies outside the board.
    pub fn new(row: u32, col: u32) -> (r: Option<Coord>)
        ensures
            r is Some <==> row <= 7 && col <= 7,
            r matches Some(co) ==> co.row() == row && co.col() == col && co.idx() == col + row * 8,
    {
        if col > 7 || row > 7 {
            None
        } else {
            proof {
                lemma_fundamental_div_mod_converse(row * 8 + col, 8, row as int, col as int);
            }
            Some(Coord(col + row * 8))
        }
    }

    pub fn get_row(&self) -> (r: u32)
        ensures
            r == self.row(),
    {
        proof {
            use_type_invariant(self);
        }
        self.0 / 8
    }

    pub fn get_col(&self) -> (r: u32)
        ensures
            r == self.col(),
    {
        proof {
            use_type_invariant(self);
        }
        self.0 % 8
    }

    pub fn get_idx(&self) -> (r: u32)
        ensures
            r == self.idx(),
            r < 64,
    {
        proof {
            use_type_invariant(self);
        }
        self.0
    }

    /// Parses algebraic notation: a column letter 'a'..'h' followed by a row
    /// digit '1'..'8'.  Anything else fails to parse.
    pub fn from_str(s: &str) -> (r: Option<Coord>)
        ensures
            r is Some <==> s@.len() == 2 && 'a' <= s@[0] <= 'h' && '1' <= s@[1] <= '8',
            r matches Some(co) ==> co.col() == s@[0] as int - 'a' as int && co.row() == s@[1] as int
                - '1' as int,
    {
        if s.unicode_len() != 2 {
            return None;
        }
        let c0 = s.get_char(0);
        let c1 = s.get_char(1);
        if c0 < 'a' || c0 > 'h' || c1 < '1' || c1 > '8' {
            return None;
        }
        let col: u32 = c0 as u32 - 'a' as u32;
        let row: u32 = c1 as u32 - '1' as u32;
        proof {
            lemma_fundamental_div_mod_converse(row * 8 + col, 8, row as int, col as int);
        }
        Some(Coord(col + row * 8))
    }
}

/// A 64-bit set of occupied squares.
#[derive(Clone, Copy, Debug, PartialEq, Eq, Structural)]
pub struct BitBoard(pub u64);

impl BitBoard {
    /// The board with no occupied square.
    pub fn empty() -> (r: BitBoard)
        ensures
            r.0 == 0,
            forall|i: int, j: int| !occ(r.0, i, j),
    {
        proof {
            lemma_occ_zero();
        }
        BitBoard(0)
    }

    /// The board whose occupied squares are exactly column 7.
    pub fn rightmost_column() -> (r: BitBoard)
        ensures
            r.0 == 0x8080808080808080u64,
            forall|i: int, j: int| #[trigger] occ(r.0, i, j) <==> 0 <= i < 8 && j == 7,
    {
        proof {
            assert forall|i: int, j: int|
                #[trigger] occ(0x8080808080808080u64, i, j) <==> 0 <= i < 8 && j == 7 by {
                if 0 <= i < 8 && 0 <= j < 8 {
                    let n = (i * 8 + j) as u64;
                    assert(((0x8080808080808080u64 >> n) & 1u64 == 1u64) <==> n % 8 == 7)
                        by (bit_vector)
                        requires
                            n < 64,
                    ;
                    lemma_sq(i, j);
                }
            }
        }
        BitBoard(0x8080808080808080u64)
    }

    /// The board whose occupied squares are exactly column 0.
    pub fn leftmost_column() -> (r: BitBoard)
        ensures
            r.0 == 0x0101010101010101u64,
            forall|i: int, j: int| #[trigger] occ(r.0, i, j) <==> 0 <= i < 8 && j == 0,
    {
        proof {
            assert forall|i: int, j: int|
                #[trigger] occ(0x0101010101010101u64, i, j) <==> 0 <= i < 8 && j == 0 by {
                if 0 <= i < 8 && 0 <= j < 8 {
                    let n = (i * 8 + j) as u64;
                    assert(((0x0101010101010101u64 >> n) & 1u64 == 1u64) <==> n % 8 == 0)
                        by (bit_vector)
                        requires
                            n < 64,
                    ;
                    lemma_sq(i, j);
                }
            }
        }
        BitBoard(0x0101010101010101u64)
    }

    /// True exactly when no square is occupied.
    pub fn is_empty(&self) -> (r: bool)
        ensures
            r == (self.0 == 0),
            r <==> forall|i: int, j: int| !occ(self.0, i, j),
    {
        proof {
            if self.0 == 0 {
                lemma_occ_zero();
            } else {
                lemma_nonzero_occ(self.0);
            }
        }
        self.0 == 0
    }

    pub fn get_value_at(&self, coord: Coord) -> (r: bool)
        ensures
            r == occ(self.0, coord.row(), coord.col()),
    {
        proof {
            use_type_invariant(coord);
            lemma_sq(coord.row(), coord.col());
            lemma_fundamental_div_mod(coord.idx(), 8);
        }
        let sh: u64 = coord.get_idx() as u64;
        (self.0 >> sh) & 1 == 1
    }

    /// Sets or clears the square at `coord`, leaving every other square alone.
    pub fn set_value_at(&mut self, coord: Coord, value: bool)
        ensures
            forall|i: int, j: int|
                #[trigger] occ(final(self).0, i, j) == if i == coord.row() && j == coord.col() {
                    value
                } else {
                    occ(old(self).0, i, j)
                },
    {
        proof {
            use_type_invariant(coord);
            lemma_fundamental_div_mod(coord.idx(), 8);
        }
        let k: u64 = coord.get_idx() as u64;
        let b = self.0;
        if value {
            self.0 = self.0 | (1u64 << k);
            proof {
                assert forall|i: int, j: int|
                    #[trigger] occ(b | (1u64 << k), i, j) == if i == coord.row() && j
                        == coord.col() {
                        true
                    } else {
                        occ(b, i, j)
                    } by {
                    if 0 <= i < 8 && 0 <= j < 8 {
                        let n = (i * 8 + j) as u64;
                        assert(((b | (1u64 << k)) >> n) & 1u64 == 1u64 <==> ((b >> n) & 1u64
                            == 1u64 || n == k)) by (bit_vector)
                            requires
                                n < 64 && k < 64,
                        ;
                        lemma_sq(i, j);
                    }
                }
            }
        } else {
            self.0 = self.0 & !(1u64 << k);
            proof {
                assert forall|i: int, j: int|
                    #[trigger] occ(b & !(1u64 << k), i, j) == if i == coord.row() && j
                        == coord.col() {
                        false
                    } else {
                        occ(b, i, j)
                    } by {
                    if 0 <= i < 8 && 0 <= j < 8 {
                        let n = (i * 8 + j) as u64;
                        assert(((b & !(1u64 << k)) >> n) & 1u64 == 1u64 <==> ((b >> n) & 1u64
                            == 1u64 && n != k)) by (bit_vector)
                            requires
                                n < 64 && k < 64,
                        ;
                        lemma_sq(i, j);
                    }
                }
            }
        }
    }

    /// The board equal to `self` except that the square at `coord` is occupied.
    pub fn with_one_at(&self, coord: Coord) -> (r: BitBoard)
        ensures
            forall|i: int, j: int|
                #[trigger] occ(r.0, i, j) == if i == coord.row() && j == coord.col() {
                    true
                } else {
                    occ(self.0, i, j)
                },
            0 <= coord.row() < 8 && 0 <= coord.col() < 8,
    {
        proof {
            use_type_invariant(coord);
            lemma_fundamental_div_mod(coord.idx(), 8);
        }
        let mut b = *self;
        b.set_value_at(coord, true);
        b
    }

    /// Moves every piece one row up; pieces on the top row leave the board.
    pub fn shift_up(&self) -> (r: BitBoard)
        ensures
            forall|i: int, j: int|
                0 <= i < 8 && 0 <= j < 8 ==> (#[trigger] occ(r.0, i, j) <==> occ(self.0, i + 1, j)),
    {
        let b = self.0;
        proof {
            assert forall|i: int, j: int| 0 <= i < 8 && 0 <= j < 8 implies (#[trigger] occ(
                b >> 8u64,
                i,
                j,
            ) <==> occ(b, i + 1, j)) by {
                {
                    let n = (i * 8 + j) as u64;
                    assert(((b >> 8u64) >> n) & 1u64 == 1u64 <==> (n < 56 && (b >> ((n + 8) as u64))
                        & 1u64 == 1u64)) by (bit_vector)
                        requires
                            n < 64,
                    ;
                }
            }
        }
        BitBoard(b >> 8u64)
    }

    /// Moves every piece one row down; pieces on the bottom row leave the board.
    pub fn shift_down(&self) -> (r: BitBoard)
        ensures
            forall|i: int, j: int|
                0 <= i < 8 && 0 <= j < 8 ==> (#[trigger] occ(r.0, i, j) <==> occ(self.0, i - 1, j)),
    {
        let b = self.0;
        proof {
            assert forall|i: int, j: int| 0 <= i < 8 && 0 <= j < 8 implies (#[trigger] occ(
                b << 8u64,
                i,
                j,
            ) <==> occ(b, i - 1, j)) by {
                {
                    let n = (i * 8 + j) as u64;
                    assert(((b << 8u64) >> n) & 1u64 == 1u64 <==> (n >= 8 && (b >> ((n - 8) as u64))
                        & 1u64 == 1u64)) by (bit_vector)
                        requires
                            n < 64,
                    ;
                }
            }
        }
        BitBoard(b << 8u64)
    }

    /// Moves every piece one column to the left; pieces on column 0 leave the
    /// board instead of wrapping to the previous row.
    pub fn shift_left(&self) -> (r: BitBoard)
        ensures
            forall|i: int, j: int|
                0 <= i < 8 && 0 <= j < 8 ==> (#[trigger] occ(r.0, i, j) <==> occ(self.0, i, j + 1)),
    {
        let mask = BitBoard::leftmost_column().0;
        let b = self.0;
        proof {
            assert forall|i: int, j: int| 0 <= i < 8 && 0 <= j < 8 implies (#[trigger] occ(
                (b & !mask) >> 1u64,
                i,
                j,
            ) <==> occ(b, i, j + 1)) by {
                {
                    let n = (i * 8 + j) as u64;
                    assert((((b & !0x0101010101010101u64) >> 1u64) >> n) & 1u64 == 1u64 <==> (n % 8
                        != 7 && (b >> ((n + 1) as u64)) & 1u64 == 1u64)) by (bit_vector)
                        requires
                            n < 64,
                    ;
                    lemma_sq(i, j);
                    if j + 1 < 8 {
                        lemma_sq(i, j + 1);
                    }
                }
            }
        }
        BitBoard((b & !mask) >> 1u64)
    }

    /// Moves every piece one column to the right; pieces on column 7 leave the
    /// board instead of wrapping to the next row.
    pub fn shift_right(&self) -> (r: BitBoard)
        ensures
            forall|i: int, j: int|
                0 <= i < 8 && 0 <= j < 8 ==> (#[trigger] occ(r.0, i, j) <==> occ(self.0, i, j - 1)),
    {
        let mask = BitBoard::rightmost_column().0;
        let b = self.0;
        proof {
            assert forall|i: int, j: int| 0 <= i < 8 && 0 <= j < 8 implies (#[trigger] occ(
                (b & !mask) << 1u64,
                i,
                j,
            ) <==> occ(b, i, j - 1)) by {
                {
                    let n = (i * 8 + j) as u64;
                    assert((((b & !0x8080808080808080u64) << 1u64) >> n) & 1u64 == 1u64 <==> (n % 8
                        != 0 && (b >> ((n - 1) as u64)) & 1u64 == 1u64)) by (bit_vector)
                        requires
                            n < 64,
                    ;
                    lemma_sq(i, j);
                    if 0 <= j - 1 {
                        lemma_sq(i, j - 1);
                    }
                }
            }
        }
        BitBoard((b & !mask) << 1u64)
    }

    /// Moves every piece one square in direction `d`; pieces that would leave
    /// the board, or wrap across its left or right edge, are discarded.
    pub fn shift(&self, direction: Direction) -> (r: BitBoard)
        ensures
            forall|i: int, j: int|
                0 <= i < 8 && 0 <= j < 8 ==> (#[trigger] occ(r.0, i, j) <==> occ(
                    self.0,
                    i - delta_row(direction),
                    j - delta_col(direction),
                )),
            r.0 == shift_spec(self.0, direction),
    {
        let r = match direction {
            Direction::Right => self.shift_right(),
            Direction::UpRight => self.shift_right().shift_up(),
            Direction::Up => self.shift_up(),
            Direction::UpLeft => self.shift_left().shift_up(),
            Direction::Left => self.shift_left(),
            Direction::DownLeft => self.shift_left().shift_down(),
            Direction::Down => self.shift_down(),
            Direction::DownRight => self.shift_right().shift_down(),
        };
        proof {
            lemma_shift_spec(self.0, direction);
            lemma_occ_eq(r.0, shift_spec(self.0, direction));
        }
        r
    }

    /// The occupied square with the lowest bit index, if any.
    pub fn first_one(&self) -> (r: Option<Coord>)
        ensures
            r is Some <==> self.0 != 0,
            r matches Some(co) ==> bit_at(self.0, co.idx()) && occ(self.0, co.row(), co.col())
                && forall|k: int| 0 <= k < co.idx() ==> !bit_at(self.0, k),
    {
        proof {
            broadcast use axiom_u64_trailing_zeros;

        }
        if self.is_empty() {
            None
        } else {
            let tz = self.0.trailing_zeros();
            proof {
                let i = tz as int;
                lemma_sq(i / 8, i % 8);
                lemma_fundamental_div_mod(i, 8);
            }
            Some(Coord(tz))
        }
    }

    /// The union of the two boards.
    pub fn bitor(self, other: BitBoard) -> (r: BitBoard)
        ensures
            r.0 == self.0 | other.0,
            forall|i: int, j: int|
                #[trigger] occ(r.0, i, j) <==> occ(self.0, i, j) || occ(other.0, i, j),
    {
        proof {
            assert forall|i: int, j: int|
                #[trigger] occ(self.0 | other.0, i, j) <==> occ(self.0, i, j) || occ(
                    other.0,
                    i,
                    j,
                ) by {
                if 0 <= i < 8 && 0 <= j < 8 {
                    let n = (i * 8 + j) as u64;
                    let x = self.0;
                    let y = other.0;
                    assert(((x | y) >> n) & 1u64 == 1u64 <==> ((x >> n) & 1u64 == 1u64 || (y >> n)
                        & 1u64 == 1u64)) by (bit_vector)
                        requires
                            n < 64,
                    ;
                }
            }
        }
        BitBoard(self.0 | other.0)
    }

    /// The intersection of the two boards.
    pub fn bitand(self, other: BitBoard) -> (r: BitBoard)
        ensures
            r.0 == self.0 & other.0,
            forall|i: int, j: int|
                #[trigger] occ(r.0, i, j) <==> occ(self.0, i, j) && occ(other.0, i, j),
    {
        proof {
            assert forall|i: int, j: int|
                #[trigger] occ(self.0 & other.0, i, j) <==> occ(self.0, i, j) && occ(
                    other.0,
                    i,
                    j,
                ) by {
                if 0 <= i < 8 && 0 <= j < 8 {
                    let n = (i * 8 + j) as u64;
                    let x = self.0;
                    let y = other.0;
                    assert(((x & y) >> n) & 1u64 == 1u64 <==> ((x >> n) & 1u64 == 1u64 && (y >> n)
                        & 1u64 == 1u64)) by (bit_vector)
                        requires
                            n < 64,
                    ;
                }
            }
        }
        BitBoard(self.0 & other.0)
    }

    /// The symmetric difference of the two boards.
    pub fn bitxor(self, other: BitBoard) -> (r: BitBoard)
        ensures
            r.0 == self.0 ^ other.0,
            forall|i: int, j: int|
                #[trigger] occ(r.0, i, j) <==> (occ(self.0, i, j) != occ(other.0, i, j)),
    {
        proof {
            assert forall|i: int, j: int|
                #[trigger] occ(self.0 ^ other.0, i, j) <==> (occ(self.0, i, j) != occ(
                    other.0,
                    i,
                    j,
                )) by {
                if 0 <= i < 8 && 0 <= j < 8 {
                    let n = (i * 8 + j) as u64;
                    let x = self.0;
                    let y = other.0;
                    assert(((x ^ y) >> n) & 1u64 == 1u64 <==> (((x >> n) & 1u64 == 1u64) != ((y
                        >> n) & 1u64 == 1u64))) by (bit_vector)
                        requires
                            n < 64,
                    ;
                }
            }
        }
        BitBoard(self.0 ^ other.0)
    }

    /// The board whose occupied squares are exactly the free squares of `self`.
    pub fn complement(self) -> (r: BitBoard)
        ensures
            r.0 == !self.0,
            forall|i: int, j: int|
                0 <= i < 8 && 0 <= j < 8 ==> (#[trigger] occ(r.0, i, j) <==> !occ(self.0, i, j)),
    {
        proof {
            assert forall|i: int, j: int| 0 <= i < 8 && 0 <= j < 8 implies (#[trigger] occ(
                !self.0,
                i,
                j,
            ) <==> !occ(self.0, i, j)) by {
                let n = (i * 8 + j) as u64;
                let x = self.0;
                assert(((!x) >> n) & 1u64 == 1u64 <==> !((x >> n) & 1u64 == 1u64)) by (bit_vector)
                    requires
                        n < 64,
                ;
            }
        }
        BitBoard(!self.0)
    }

    /// A board iterator over this board's occupied squares.
    pub fn into_iter(self) -> (r: BoardIterator)
        ensures
            r.0 == self,
    {
        BoardIterator(self)
    }

    /// Renders the board as eight rows of '1' and '0', each preceded by a
    /// newline; see `render_char` for the exact character at each position.
    pub fn to_board_string(&self) -> (r: String)
        ensures
            r@.len() == 72,
            forall|a: int| 0 <= a < 72 ==> #[trigger] r@[a] == render_char(self.0, a),
    {
        let mut s = String::new();
        let mut row: u32 = 0;
        while row < 8
            invariant
                row <= 8,
                s@.len() == row * 9,
                forall|a: int| 0 <= a < s@.len() ==> #[trigger] s@[a] == render_char(self.0, a),
            decreases 8 - row,
        {
            proof {
                reveal_strlit("\n");
                lemma_fundamental_div_mod_converse(row as int * 9, 9, row as int, 0);
            }
            s.append("\n");
            let mut col: u32 = 0;
            while col < 8
                invariant
                    row < 8,
                    col <= 8,
                    s@.len() == row * 9 + 1 + col,
                    forall|a: int| 0 <= a < s@.len() ==> #[trigger] s@[a] == render_char(self.0, a),
                decreases 8 - col,
            {
                proof {
                    reveal_strlit("0");
                    reveal_strlit("1");
                    lemma_fundamental_div_mod_converse(
                        row as int * 9 + 1 + col as int,
                        9,
                        row as int,
                        1 + col as int,
                    );
                }
                let co = match Coord::new(row, col) {
                    Some(c) => c,
                    None => unreached(),
                };
                if self.get_value_at(co) {
                    s.append("1");
                } else {
                    s.append("0");
                }
                col = col + 1;
            }
            row = row + 1;
        }
        s
    }

    /// The number of occupied squares, in [0, 64].
    pub fn count_ones(&self) -> (r: i32)
        ensures
            r == count_bits(self.0, 64),
            0 <= r <= 64,
    {
        let mut n: u32 = 0;
        let mut i: u32 = 0;
        while i < 64
            invariant
                i <= 64,
                n == count_bits(self.0, i as int),
                n <= i,
            decreases 64 - i,
    {
            let sh: u64 = i as u64;
            if (self.0 >> sh) & 1 == 1 {
                n = n + 1;
            }
            i = i + 1;
        }
        n as i32
    }
}

} // verus!
