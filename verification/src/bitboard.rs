//! 64-bit bitboards and the attack sets of every piece.
//!
//! Square `s` belongs to bitboard `bb` when bit `s` of `bb` is set. The
//! attack functions are specified geometrically: a square is in the result
//! exactly when the piece could move there on an otherwise empty board
//! (leapers) or along a line whose inner squares are all free (sliders).
use vstd::prelude::*;
use vstd::std_specs::bits::{u64_trailing_zeros, u64_leading_zeros};
use crate::types::{Square, Color, spec_file, spec_rank, make_square, file_of, rank_of};

verus! {

broadcast use vstd::std_specs::bits::group_bits_axioms;

pub type Bitboard = u64;

pub const EMPTY: Bitboard = 0;

/// Square `s` is a member of bitboard `bb`.
pub open spec fn in_bb(bb: u64, s: int) -> bool {
    0 <= s < 64 && (bb >> (s as u64)) & 1u64 == 1u64
}

// ---------------------------------------------------------------------
//  Bit-level facts
// ---------------------------------------------------------------------

pub proof fn lemma_has_or(a: u64, b: u64)
    ensures
        forall|s: int| #[trigger] in_bb(a | b, s) == (in_bb(a, s) || in_bb(b, s)),
{
    assert forall|s: int| #[trigger] in_bb(a | b, s) == (in_bb(a, s) || in_bb(b, s)) by {
        if 0 <= s < 64 {
            let u = s as u64;
            assert(((a | b) >> u) & 1u64 == 1u64 <==> ((a >> u) & 1u64 == 1u64 || (b >> u) & 1u64
                == 1u64)) by (bit_vector);
        }
    }
}

pub proof fn lemma_has_and(a: u64, b: u64)
    ensures
        forall|s: int| #[trigger] in_bb(a & b, s) == (in_bb(a, s) && in_bb(b, s)),
{
    assert forall|s: int| #[trigger] in_bb(a & b, s) == (in_bb(a, s) && in_bb(b, s)) by {
        if 0 <= s < 64 {
            let u = s as u64;
            assert(((a & b) >> u) & 1u64 == 1u64 <==> ((a >> u) & 1u64 == 1u64 && (b >> u) & 1u64
                == 1u64)) by (bit_vector);
        }
    }
}

pub proof fn lemma_has_not(a: u64)
    ensures
        forall|s: int| 0 <= s < 64 ==> #[trigger] in_bb(!a, s) == !in_bb(a, s),
{
    assert forall|s: int| 0 <= s < 64 implies #[trigger] in_bb(!a, s) == !in_bb(a, s) by {
        let u = s as u64;
        assert(((!a) >> u) & 1u64 == 1u64 <==> !((a >> u) & 1u64 == 1u64)) by (bit_vector)
            requires
                u < 64,
        ;
    }
}

pub proof fn lemma_has_zero()
    ensures
        forall|s: int| !#[trigger] in_bb(0u64, s),
{
    assert forall|s: int| !#[trigger] in_bb(0u64, s) by {
        if 0 <= s < 64 {
            let u = s as u64;
            assert((0u64 >> u) & 1u64 == 0u64) by (bit_vector);
        }
    }
}

pub proof fn lemma_has_bit(t: u64)
    requires
        t < 64,
    ensures
        forall|s: int| #[trigger] in_bb(1u64 << t, s) == (s == t),
{
    assert forall|s: int| #[trigger] in_bb(1u64 << t, s) == (s == t) by {
        if 0 <= s < 64 {
            let u = s as u64;
            assert(((1u64 << t) >> u) & 1u64 == 1u64 <==> u == t) by (bit_vector)
                requires
                    t < 64,
                    u < 64,
            ;
        }
    }
}

/// A bitboard with no member is zero, and conversely.
pub proof fn lemma_zero_iff_empty(a: u64)
    ensures
        a == 0 <==> forall|s: int| 0 <= s < 64 ==> !#[trigger] in_bb(a, s),
{
    lemma_has_zero();
    if a != 0 {
        let t = u64_trailing_zeros(a);
        assert(in_bb(a, t as int));
    }
}

/// Two bitboards with the same members are equal.
pub proof fn lemma_bits_ext(a: u64, b: u64)
    requires
        forall|s: int| 0 <= s < 64 ==> #[trigger] in_bb(a, s) == in_bb(b, s),
    ensures
        a == b,
{
    let x = a ^ b;
    assert forall|s: int| 0 <= s < 64 implies !#[trigger] in_bb(x, s) by {
        let u = s as u64;
        assert(in_bb(a, s) == in_bb(b, s));
        assert(((a >> u) & 1u64 == 1u64) == ((b >> u) & 1u64 == 1u64) ==> ((a ^ b) >> u) & 1u64
            == 0u64) by (bit_vector)
            requires
                u < 64,
        ;
    }
    lemma_zero_iff_empty(x);
    assert(a ^ b == 0 ==> a == b) by (bit_vector);
}

/// The bits below the lowest member of `a` are all clear.
proof fn lemma_low_mask_clear(a: u64, t: u64)
    requires
        t < 64,
        forall|s: int| 0 <= s < t ==> !#[trigger] in_bb(a, s),
    ensures
        a & (((1u64 << t) - 1) as u64) == 0,
{
    let m = ((1u64 << t) - 1) as u64;
    lemma_has_and(a, m);
    assert forall|s: int| 0 <= s < 64 implies !#[trigger] in_bb(a & m, s) by {
        let u = s as u64;
        assert((((((1u64 << t) - 1) as u64) >> u) & 1u64 == 1u64) <==> u < t) by (bit_vector)
            requires
                t < 64,
                u < 64,
        ;
    }
    lemma_zero_iff_empty(a & m);
}

/// Clearing the lowest set bit removes exactly the lowest member.
pub proof fn lemma_clear_lowest(a: u64)
    requires
        a != 0,
    ensures
        forall|s: int| #[trigger]
            in_bb(a & ((a - 1) as u64), s) == (in_bb(a, s) && s != u64_trailing_zeros(a) as int),
        in_bb(a, u64_trailing_zeros(a) as int),
        forall|s: int| 0 <= s < u64_trailing_zeros(a) ==> !#[trigger] in_bb(a, s),
        u64_trailing_zeros(a) < 64,
{
    let t = u64_trailing_zeros(a) as u64;
    assert(t < 64);
    assert forall|s: int| 0 <= s < t implies !#[trigger] in_bb(a, s) by {
        let u = s as u64;
        assert((a >> u) & 1u64 == 0u64);
    }
    lemma_low_mask_clear(a, t);
    assert forall|s: int| #[trigger]
        in_bb(a & ((a - 1) as u64), s) == (in_bb(a, s) && s != t) by {
        if 0 <= s < 64 {
            let u = s as u64;
            assert(t < 64 && u < 64 && (a >> t) & 1u64 == 1u64 && a & (((1u64 << t) - 1) as u64)
                == 0 ==> ((((a & ((a - 1) as u64)) >> u) & 1u64 == 1u64) <==> ((a >> u) & 1u64
                == 1u64 && u != t))) by (bit_vector);
        }
    }
}

/// Number of members of `x` among squares `0..n`.
pub open spec fn count_below(x: u64, n: nat) -> nat
    decreases n,
{
    if n == 0 {
        0
    } else {
        count_below(x, (n - 1) as nat) + if in_bb(x, n - 1) {
            1nat
        } else {
            0nat
        }
    }
}

/// Number of members of a bitboard.
pub open spec fn pop_count(x: u64) -> nat {
    count_below(x, 64)
}

proof fn lemma_count_below_clear(a: u64, n: nat)
    requires
        a != 0,
        n <= 64,
    ensures
        count_below(a & ((a - 1) as u64), n) == count_below(a, n) - if u64_trailing_zeros(a) < n {
            1int
        } else {
            0int
        },
    decreases n,
{
    lemma_clear_lowest(a);
    if n > 0 {
        lemma_count_below_clear(a, (n - 1) as nat);
    }
}

proof fn lemma_count_below_bound(a: u64, n: nat)
    ensures
        count_below(a, n) <= n,
    decreases n,
{
    if n > 0 {
        lemma_count_below_bound(a, (n - 1) as nat);
    }
}

proof fn lemma_count_below_zero(n: nat)
    ensures
        count_below(0u64, n) == 0,
    decreases n,
{
    lemma_has_zero();
    if n > 0 {
        lemma_count_below_zero((n - 1) as nat);
    }
}

/// The one-square bitboard of `sq`.
pub fn bit(sq: Square) -> (b: Bitboard)
    requires
        sq < 64,
    ensures
        b == 1u64 << sq,
        forall|s: int| #[trigger] in_bb(b, s) == (s == sq),
{
    proof {
        lemma_has_bit(sq as u64);
    }
    1u64 << sq
}

/// Number of squares in a bitboard.
pub fn popcount(bb: Bitboard) -> (n: u32)
    ensures
        n == pop_count(bb),
        n <= 64,
{
    let mut x = bb;
    let mut n: u32 = 0;
    proof {
        lemma_count_below_bound(bb, 64);
    }
    while x != 0
        invariant
            n + pop_count(x) == pop_count(bb),
            pop_count(bb) <= 64,
        decreases pop_count(x),
    {
        proof {
            lemma_count_below_clear(x, 64);
            lemma_clear_lowest(x);
        }
        x = x & (x - 1);
        n = n + 1;
    }
    proof {
        lemma_count_below_zero(64);
    }
    n
}

/// Lowest member of a bitboard (64 for the empty board).
pub fn lsb(bb: Bitboard) -> (s: Square)
    ensures
        s == u64_trailing_zeros(bb),
        s <= 64,
        bb == 0 <==> s == 64,
        bb != 0 ==> in_bb(bb, s as int),
        forall|t: int| 0 <= t < s ==> !#[trigger] in_bb(bb, t),
{
    proof {
        if bb != 0 {
            lemma_clear_lowest(bb);
        } else {
            lemma_has_zero();
        }
    }
    bb.trailing_zeros() as Square
}

/// Highest member of a non-empty bitboard.
pub fn msb(bb: Bitboard) -> (s: Square)
    requires
        bb != 0,
    ensures
        s < 64,
        in_bb(bb, s as int),
        forall|t: int| s < t < 64 ==> !#[trigger] in_bb(bb, t),
{
    let lz = bb.leading_zeros();
    proof {
        assert(0 <= u64_leading_zeros(bb) < 64);
        assert forall|t: int| 63 - lz < t < 64 implies !#[trigger] in_bb(bb, t) by {
            let u = t as u64;
            assert((bb >> u) & 1u64 == 0u64);
        }
        let v = (63 - lz) as u64;
        assert((bb >> v) & 1u64 != 0u64);
        assert((bb >> v) & 1u64 != 0u64 ==> (bb >> v) & 1u64 == 1u64) by (bit_vector);
    }
    63 - lz as Square
}

/// Removes and returns the lowest member of a non-empty bitboard.
pub fn pop_lsb(bb: &mut Bitboard) -> (s: Square)
    requires
        *old(bb) != 0,
    ensures
        s < 64,
        s == u64_trailing_zeros(*old(bb)),
        in_bb(*old(bb), s as int),
        forall|t: int| 0 <= t < s ==> !#[trigger] in_bb(*old(bb), t),
        *final(bb) == *old(bb) & ((*old(bb) - 1) as u64),
        forall|t: int| #[trigger] in_bb(*final(bb), t) == (in_bb(*old(bb), t) && t != s),
        pop_count(*final(bb)) == pop_count(*old(bb)) - 1,
{
    proof {
        lemma_clear_lowest(*bb);
        lemma_count_below_clear(*bb, 64);
    }
    let s = lsb(*bb);
    *bb = *bb & (*bb - 1);
    s
}

// ---------------------------------------------------------------------
//  Geometry
// ---------------------------------------------------------------------

pub open spec fn abs_int(x: int) -> int {
    if x < 0 {
        -x
    } else {
        x
    }
}

/// File distance, rank distance and king (Chebyshev) distance.
pub open spec fn dfile(a: int, b: int) -> int {
    spec_file(b) - spec_file(a)
}

pub open spec fn drank(a: int, b: int) -> int {
    spec_rank(b) - spec_rank(a)
}

pub open spec fn cheb(a: int, b: int) -> int {
    if abs_int(dfile(a, b)) < abs_int(drank(a, b)) {
        abs_int(drank(a, b))
    } else {
        abs_int(dfile(a, b))
    }
}

pub open spec fn on_board(s: int) -> bool {
    0 <= s < 64
}

/// A knight on `a` attacks `b`.
pub open spec fn knight_step(a: int, b: int) -> bool {
    &&& on_board(a)
    &&& on_board(b)
    &&& ((abs_int(dfile(a, b)) == 1 && abs_int(drank(a, b)) == 2) || (abs_int(dfile(a, b)) == 2
        && abs_int(drank(a, b)) == 1))
}

/// A king on `a` attacks `b`.
pub open spec fn king_step(a: int, b: int) -> bool {
    on_board(a) && on_board(b) && cheb(a, b) == 1
}

/// A pawn of `color` on `a` attacks `b` (diagonal captures only).
pub open spec fn pawn_step(color: Color, a: int, b: int) -> bool {
    &&& on_board(a)
    &&& on_board(b)
    &&& abs_int(dfile(a, b)) == 1
    &&& drank(a, b) == if color == Color::White {
        1int
    } else {
        -1int
    }
}

pub proof fn lemma_square_coords(s: int)
    requires
        on_board(s),
    ensures
        s == spec_rank(s) * 8 + spec_file(s),
        0 <= spec_file(s) < 8,
        0 <= spec_rank(s) < 8,
{
}

pub proof fn lemma_coords_square(f: int, r: int)
    requires
        0 <= f < 8,
        0 <= r < 8,
    ensures
        spec_file(r * 8 + f) == f,
        spec_rank(r * 8 + f) == r,
        on_board(r * 8 + f),
{
}

/// Adds the square at file `nf`, rank `nr` when it lies on the board.
fn add_if_on_board(bb: Bitboard, nf: i32, nr: i32) -> (r: Bitboard)
    ensures
        forall|s: int| #[trigger]
            in_bb(r, s) == (in_bb(bb, s) || (on_board(s) && spec_file(s) == nf && spec_rank(s)
                == nr)),
{
    if 0 <= nf && nf < 8 && 0 <= nr && nr < 8 {
        let sq = make_square(nf as u8, nr as u8);
        let b = bit(sq);
        proof {
            lemma_has_or(bb, b);
            assert forall|s: int| on_board(s) implies (s == sq) == (spec_file(s) == nf
                && spec_rank(s) == nr) by {
                lemma_square_coords(s);
            }
        }
        bb | b
    } else {
        bb
    }
}

/// Squares attacked by a knight on `sq`.
pub fn knight_attacks(sq: Square) -> (r: Bitboard)
    requires
        sq < 64,
    ensures
        forall|s: int| #[trigger] in_bb(r, s) == knight_step(sq as int, s),
{
    let f = file_of(sq) as i32;
    let rk = rank_of(sq) as i32;
    let mut a: u64 = 0;
    proof {
        lemma_has_zero();
    }
    a = add_if_on_board(a, f + 1, rk + 2);
    a = add_if_on_board(a, f + 2, rk + 1);
    a = add_if_on_board(a, f + 2, rk - 1);
    a = add_if_on_board(a, f + 1, rk - 2);
    a = add_if_on_board(a, f - 1, rk - 2);
    a = add_if_on_board(a, f - 2, rk - 1);
    a = add_if_on_board(a, f - 2, rk + 1);
    a = add_if_on_board(a, f - 1, rk + 2);
    proof {
        assert forall|s: int| #[trigger] in_bb(a, s) == knight_step(sq as int, s) by {
            if on_board(s) {
                let df = spec_file(s) - f;
                let dr = spec_rank(s) - rk;
                assert(knight_step(sq as int, s) == ((abs_int(df) == 1 && abs_int(dr) == 2) || (
                abs_int(df) == 2 && abs_int(dr) == 1)));
            }
        }
    }
    a
}

/// Squares attacked by a king on `sq`.
pub fn king_attacks(sq: Square) -> (r: Bitboard)
    requires
        sq < 64,
    ensures
        forall|s: int| #[trigger] in_bb(r, s) == king_step(sq as int, s),
{
    let f = file_of(sq) as i32;
    let rk = rank_of(sq) as i32;
    let mut a: u64 = 0;
    proof {
        lemma_has_zero();
    }
    a = add_if_on_board(a, f - 1, rk - 1);
    a = add_if_on_board(a, f - 1, rk);
    a = add_if_on_board(a, f - 1, rk + 1);
    a = add_if_on_board(a, f, rk - 1);
    a = add_if_on_board(a, f, rk + 1);
    a = add_if_on_board(a, f + 1, rk - 1);
    a = add_if_on_board(a, f + 1, rk);
    a = add_if_on_board(a, f + 1, rk + 1);
    proof {
        assert forall|s: int| #[trigger] in_bb(a, s) == king_step(sq as int, s) by {
            if on_board(s) {
                lemma_square_coords(s);
            }
        }
    }
    a
}

/// Squares attacked by a pawn of `color` on `sq`.
pub fn pawn_attacks(color: Color, sq: Square) -> (r: Bitboard)
    requires
        sq < 64,
    ensures
        forall|s: int| #[trigger] in_bb(r, s) == pawn_step(color, sq as int, s),
{
    let f = file_of(sq) as i32;
    let rk = rank_of(sq) as i32;
    let dr: i32 = match color {
        Color::White => 1,
        Color::Black => -1,
    };
    let mut a: u64 = 0;
    proof {
        lemma_has_zero();
    }
    a = add_if_on_board(a, f - 1, rk + dr);
    a = add_if_on_board(a, f + 1, rk + dr);
    proof {
        assert forall|s: int| #[trigger] in_bb(a, s) == pawn_step(color, sq as int, s) by {
            if on_board(s) {
                lemma_square_coords(s);
            }
        }
    }
    a
}

// ---------------------------------------------------------------------
//  Sliding pieces
// ---------------------------------------------------------------------

/// The eight line directions of sliding pieces.
#[derive(Clone, Copy, PartialEq, Eq, Structural)]
pub enum Dir {
    N,
    S,
    E,
    W,
    NE,
    NW,
    SE,
    SW,
}

pub open spec fn dir_df(d: Dir) -> int {
    match d {
        Dir::N => 0,
        Dir::S => 0,
        Dir::E => 1,
        Dir::W => -1,
        Dir::NE => 1,
        Dir::NW => -1,
        Dir::SE => 1,
        Dir::SW => -1,
    }
}

pub open spec fn dir_dr(d: Dir) -> int {
    match d {
        Dir::N => 1,
        Dir::S => -1,
        Dir::E => 0,
        Dir::W => 0,
        Dir::NE => 1,
        Dir::NW => 1,
        Dir::SE => -1,
        Dir::SW => -1,
    }
}

/// Directions in which square indices grow.
pub open spec fn dir_positive(d: Dir) -> bool {
    d == Dir::N || d == Dir::E || d == Dir::NE || d == Dir::NW
}

/// `b` lies beyond `a` on the line from `a` in direction `d`.
pub open spec fn on_ray(a: int, d: Dir, b: int) -> bool {
    &&& on_board(a)
    &&& on_board(b)
    &&& match d {
        Dir::N => dfile(a, b) == 0 && drank(a, b) > 0,
        Dir::S => dfile(a, b) == 0 && drank(a, b) < 0,
        Dir::E => drank(a, b) == 0 && dfile(a, b) > 0,
        Dir::W => drank(a, b) == 0 && dfile(a, b) < 0,
        Dir::NE => dfile(a, b) == drank(a, b) && drank(a, b) > 0,
        Dir::NW => dfile(a, b) == -drank(a, b) && drank(a, b) > 0,
        Dir::SE => dfile(a, b) == -drank(a, b) && drank(a, b) < 0,
        Dir::SW => dfile(a, b) == drank(a, b) && drank(a, b) < 0,
    }
}

/// A slider on `a` moving in direction `d` reaches `b`: `b` is on the line and
/// every square strictly between them is empty in `occ`.
pub open spec fn slide_hit(a: int, occ: u64, d: Dir, b: int) -> bool {
    &&& on_ray(a, d, b)
    &&& forall|u: int| #[trigger] on_ray(a, d, u) && cheb(a, u) < cheb(a, b) ==> !in_bb(occ, u)
}

pub open spec fn rook_hit(a: int, occ: u64, b: int) -> bool {
    slide_hit(a, occ, Dir::N, b) || slide_hit(a, occ, Dir::S, b) || slide_hit(a, occ, Dir::E, b)
        || slide_hit(a, occ, Dir::W, b)
}

pub open spec fn bishop_hit(a: int, occ: u64, b: int) -> bool {
    slide_hit(a, occ, Dir::NE, b) || slide_hit(a, occ, Dir::NW, b) || slide_hit(a, occ, Dir::SE, b)
        || slide_hit(a, occ, Dir::SW, b)
}

/// Whether the square index grows along `dir`.
fn is_positive(dir: Dir) -> (r: bool)
    ensures
        r == dir_positive(dir),
{
    match dir {
        Dir::N | Dir::E | Dir::NE | Dir::NW => true,
        _ => false,
    }
}

/// One step from (`file`, `rank`) in direction `dir`, if it stays on the board.
fn step(file: i32, rank: i32, dir: Dir) -> (r: Option<(i32, i32)>)
    requires
        -8 <= file <= 8,
        -8 <= rank <= 8,
    ensures
        match r {
            Some((nf, nr)) => nf == file + dir_df(dir) && nr == rank + dir_dr(dir) && 0 <= nf < 8
                && 0 <= nr < 8,
            None => !(0 <= file + dir_df(dir) < 8 && 0 <= rank + dir_dr(dir) < 8),
        },
{
    let (df, dr): (i32, i32) = match dir {
        Dir::N => (0, 1),
        Dir::S => (0, -1),
        Dir::E => (1, 0),
        Dir::W => (-1, 0),
        Dir::NE => (1, 1),
        Dir::NW => (-1, 1),
        Dir::SE => (1, -1),
        Dir::SW => (-1, -1),
    };
    let (nf, nr) = (file + df, rank + dr);
    if 0 <= nf && nf < 8 && 0 <= nr && nr < 8 {
        Some((nf, nr))
    } else {
        None
    }
}

/// Stepping from the `k`-th square of a ray gives its `k+1`-th square.
proof fn lemma_ray_step(a: int, d: Dir, cf: int, cr: int, k: int)
    requires
        on_board(a),
        0 <= cf < 8,
        0 <= cr < 8,
        k >= 0,
        (k == 0 && cf == spec_file(a) && cr == spec_rank(a)) || (on_ray(a, d, cr * 8 + cf) && cheb(
            a,
            cr * 8 + cf,
        ) == k),
    ensures
        (0 <= cf + dir_df(d) < 8 && 0 <= cr + dir_dr(d) < 8) ==> on_ray(
            a,
            d,
            (cr + dir_dr(d)) * 8 + cf + dir_df(d),
        ) && cheb(a, (cr + dir_dr(d)) * 8 + cf + dir_df(d)) == k + 1,
        !(0 <= cf + dir_df(d) < 8 && 0 <= cr + dir_dr(d) < 8) ==> forall|t: int|
            #[trigger] on_ray(a, d, t) ==> cheb(a, t) <= k,
        forall|t: int| #[trigger] on_ray(a, d, t) && cheb(a, t) == k ==> t == cr * 8 + cf,
{
    lemma_square_coords(a);
    lemma_coords_square(cf, cr);
    if 0 <= cf + dir_df(d) < 8 && 0 <= cr + dir_dr(d) < 8 {
        lemma_coords_square(cf + dir_df(d), cr + dir_dr(d));
    }
    assert forall|t: int| #[trigger] on_ray(a, d, t) && cheb(a, t) == k implies t == cr * 8 + cf by {
        lemma_square_coords(t);
    }
    assert forall|t: int| #[trigger] on_ray(a, d, t) && !(0 <= cf + dir_df(d) < 8 && 0 <= cr
        + dir_dr(d) < 8) implies cheb(a, t) <= k by {
        lemma_square_coords(t);
    }
}

/// All squares beyond `sq` in direction `dir`, ignoring occupancy.
fn ray(dir: Dir, sq: Square) -> (r: Bitboard)
    requires
        sq < 64,
    ensures
        forall|t: int| #[trigger] in_bb(r, t) == on_ray(sq as int, dir, t),
{
    let f = file_of(sq) as i32;
    let rk = rank_of(sq) as i32;
    let mut acc: u64 = 0;
    let mut cf = f;
    let mut cr = rk;
    let ghost mut k: int = 0;
    proof {
        lemma_has_zero();
        lemma_square_coords(sq as int);
    }
    loop
        invariant
            sq < 64,
            0 <= cf < 8,
            0 <= cr < 8,
            0 <= k <= 8,
            f == spec_file(sq as int),
            rk == spec_rank(sq as int),
            (k == 0 && cf == f && cr == rk) || (on_ray(sq as int, dir, cr * 8 + cf) && cheb(
                sq as int,
                cr * 8 + cf,
            ) == k),
            forall|t: int| #[trigger]
                in_bb(acc, t) == (on_ray(sq as int, dir, t) && cheb(sq as int, t) <= k),
        ensures
            !(0 <= cf + dir_df(dir) < 8 && 0 <= cr + dir_dr(dir) < 8),
        decreases 8 - k,
    {
        proof {
            lemma_ray_step(sq as int, dir, cf as int, cr as int, k);
        }
        match step(cf, cr, dir) {
            Some((nf, nr)) => {
                let b = bit(make_square(nf as u8, nr as u8));
                proof {
                    lemma_has_or(acc, b);
                    lemma_coords_square(nf as int, nr as int);
                    assert(cheb(sq as int, nr * 8 + nf) <= 7);
                }
                acc = acc | b;
                cf = nf;
                cr = nr;
                proof {
                    k = k + 1;
                }
            },
            None => {
                break ;
            },
        }
    }
    proof {
        assert forall|t: int| #[trigger] in_bb(acc, t) == on_ray(sq as int, dir, t) by {
            lemma_ray_step(sq as int, dir, cf as int, cr as int, k);
        }
    }
    acc
}

/// Along a ray, distance from the origin grows with the square index in the
/// positive directions and shrinks with it in the negative ones.
proof fn lemma_ray_order(a: int, d: Dir, u: int, t: int)
    requires
        on_ray(a, d, u),
        on_ray(a, d, t),
    ensures
        (cheb(a, u) < cheb(a, t)) == if dir_positive(d) {
            u < t
        } else {
            u > t
        },
{
    lemma_square_coords(a);
    lemma_square_coords(u);
    lemma_square_coords(t);
}

/// The squares beyond `b` on a ray through `b` are those of the ray farther out.
proof fn lemma_ray_beyond(a: int, d: Dir, b: int, t: int)
    requires
        on_ray(a, d, b),
    ensures
        on_ray(b, d, t) == (on_ray(a, d, t) && cheb(a, t) > cheb(a, b)),
{
    lemma_square_coords(a);
    lemma_square_coords(b);
    if on_board(t) {
        lemma_square_coords(t);
    }
}

/// Squares reached by a slider on `sq` in direction `dir`, stopping at the
/// first occupied square (which is included).
fn sliding_attacks_dir(sq: Square, occupied: Bitboard, dir: Dir) -> (r: Bitboard)
    requires
        sq < 64,
    ensures
        forall|t: int| #[trigger] in_bb(r, t) == slide_hit(sq as int, occupied, dir, t),
{
    let full_ray = ray(dir, sq);
    let blockers = full_ray & occupied;
    proof {
        lemma_has_and(full_ray, occupied);
    }
    if blockers == 0 {
        proof {
            lemma_zero_iff_empty(blockers);
            assert forall|t: int| #[trigger] in_bb(full_ray, t) == slide_hit(
                sq as int,
                occupied,
                dir,
                t,
            ) by {
                if on_ray(sq as int, dir, t) {
                    assert forall|u: int| #[trigger]
                        on_ray(sq as int, dir, u) && cheb(sq as int, u) < cheb(
                            sq as int,
                            t,
                        ) implies !in_bb(occupied, u) by {
                        assert(!in_bb(blockers, u));
                    }
                }
            }
        }
        return full_ray;
    }
    let blocker_sq = if is_positive(dir) {
        lsb(blockers)
    } else {
        msb(blockers)
    };
    let beyond = ray(dir, blocker_sq);
    let r = full_ray & !beyond;
    proof {
        let b = blocker_sq as int;
        assert(on_ray(sq as int, dir, b));
        lemma_has_not(beyond);
        lemma_has_and(full_ray, !beyond);
        assert forall|t: int| #[trigger] in_bb(r, t) == slide_hit(sq as int, occupied, dir, t) by {
            lemma_ray_beyond(sq as int, dir, b, t);
            if on_ray(sq as int, dir, t) {
                if cheb(sq as int, t) <= cheb(sq as int, b) {
                    assert forall|u: int| #[trigger]
                        on_ray(sq as int, dir, u) && cheb(sq as int, u) < cheb(
                            sq as int,
                            t,
                        ) implies !in_bb(occupied, u) by {
                        lemma_ray_order(sq as int, dir, u, b);
                        assert(!in_bb(blockers, u));
                    }
                } else {
                    assert(on_ray(sq as int, dir, b) && cheb(sq as int, b) < cheb(sq as int, t));
                }
            }
        }
    }
    r
}

/// Squares attacked by a rook on `sq` with the given occupancy.
pub fn rook_attacks(sq: Square, occupied: Bitboard) -> (r: Bitboard)
    requires
        sq < 64,
    ensures
        forall|t: int| #[trigger] in_bb(r, t) == rook_hit(sq as int, occupied, t),
{
    let a = sliding_attacks_dir(sq, occupied, Dir::N);
    let b = sliding_attacks_dir(sq, occupied, Dir::S);
    let c = sliding_attacks_dir(sq, occupied, Dir::E);
    let d = sliding_attacks_dir(sq, occupied, Dir::W);
    proof {
        lemma_has_or(a, b);
        lemma_has_or(a | b, c);
        lemma_has_or((a | b) | c, d);
    }
    a | b | c | d
}

/// Squares attacked by a bishop on `sq` with the given occupancy.
pub fn bishop_attacks(sq: Square, occupied: Bitboard) -> (r: Bitboard)
    requires
        sq < 64,
    ensures
        forall|t: int| #[trigger] in_bb(r, t) == bishop_hit(sq as int, occupied, t),
{
    let a = sliding_attacks_dir(sq, occupied, Dir::NE);
    let b = sliding_attacks_dir(sq, occupied, Dir::NW);
    let c = sliding_attacks_dir(sq, occupied, Dir::SE);
    let d = sliding_attacks_dir(sq, occupied, Dir::SW);
    proof {
        lemma_has_or(a, b);
        lemma_has_or(a | b, c);
        lemma_has_or((a | b) | c, d);
    }
    a | b | c | d
}

/// Squares attacked by a queen on `sq` with the given occupancy.
pub fn queen_attacks(sq: Square, occupied: Bitboard) -> (r: Bitboard)
    requires
        sq < 64,
    ensures
        forall|t: int| #[trigger]
            in_bb(r, t) == (rook_hit(sq as int, occupied, t) || bishop_hit(sq as int, occupied, t)),
{
    let a = rook_attacks(sq, occupied);
    let b = bishop_attacks(sq, occupied);
    proof {
        lemma_has_or(a, b);
    }
    a | b
}

pub open spec fn opposite_dir(d: Dir) -> Dir {
    match d {
        Dir::N => Dir::S,
        Dir::S => Dir::N,
        Dir::E => Dir::W,
        Dir::W => Dir::E,
        Dir::NE => Dir::SW,
        Dir::NW => Dir::SE,
        Dir::SE => Dir::NW,
        Dir::SW => Dir::NE,
    }
}

proof fn lemma_between_sym(a: int, d: Dir, b: int, u: int)
    requires
        on_ray(a, d, b),
    ensures
        (on_ray(a, d, u) && cheb(a, u) < cheb(a, b)) == (on_ray(b, opposite_dir(d), u) && cheb(b, u)
            < cheb(b, a)),
        on_ray(b, opposite_dir(d), a),
{
    lemma_square_coords(a);
    lemma_square_coords(b);
    if on_board(u) {
        lemma_square_coords(u);
    }
}

/// Line attacks are symmetric: a slider on `a` reaches `b` in direction `d`
/// exactly when one on `b` reaches `a` in the opposite direction.
pub proof fn lemma_slide_hit_sym(a: int, occ: u64, d: Dir, b: int)
    ensures
        slide_hit(a, occ, d, b) == slide_hit(b, occ, opposite_dir(d), a),
{
    if on_ray(a, d, b) {
        assert forall|u: int| #[trigger] on_ray(a, d, u) implies (cheb(a, u) < cheb(a, b)) == (on_ray(
            b,
            opposite_dir(d),
            u,
        ) && cheb(b, u) < cheb(b, a)) by {
            lemma_between_sym(a, d, b, u);
        }
        assert forall|u: int| #[trigger] on_ray(b, opposite_dir(d), u) implies (cheb(b, u) < cheb(
            b,
            a,
        )) == (on_ray(a, d, u) && cheb(a, u) < cheb(a, b)) by {
            lemma_between_sym(a, d, b, u);
        }
        lemma_between_sym(a, d, b, a);
    } else if on_ray(b, opposite_dir(d), a) {
        lemma_between_sym(b, opposite_dir(d), a, b);
        assert(opposite_dir(opposite_dir(d)) == d);
    }
}

/// Rook and bishop attacks are symmetric relations between squares.
pub proof fn lemma_hit_sym(a: int, occ: u64, b: int)
    ensures
        rook_hit(a, occ, b) == rook_hit(b, occ, a),
        bishop_hit(a, occ, b) == bishop_hit(b, occ, a),
{
    lemma_slide_hit_sym(a, occ, Dir::N, b);
    lemma_slide_hit_sym(a, occ, Dir::S, b);
    lemma_slide_hit_sym(a, occ, Dir::E, b);
    lemma_slide_hit_sym(a, occ, Dir::W, b);
    lemma_slide_hit_sym(a, occ, Dir::NE, b);
    lemma_slide_hit_sym(a, occ, Dir::NW, b);
    lemma_slide_hit_sym(a, occ, Dir::SE, b);
    lemma_slide_hit_sym(a, occ, Dir::SW, b);
}

/// Knight and king moves are symmetric; a white pawn on `b` attacks `a`
/// exactly when a black pawn on `a` attacks `b`, and conversely.
pub proof fn lemma_step_sym(a: int, b: int)
    ensures
        knight_step(a, b) == knight_step(b, a),
        king_step(a, b) == king_step(b, a),
        pawn_step(Color::Black, a, b) == pawn_step(Color::White, b, a),
        pawn_step(Color::White, a, b) == pawn_step(Color::Black, b, a),
{
}

/// Removing a member lowers the count by one.
pub proof fn lemma_count_remove(a: u64, s: int, n: nat)
    requires
        in_bb(a, s),
        n <= 64,
    ensures
        count_below(a & !(1u64 << (s as u64)), n) == count_below(a, n) - if s < n {
            1int
        } else {
            0int
        },
    decreases n,
{
    let m = 1u64 << (s as u64);
    lemma_has_bit(s as u64);
    lemma_has_not(m);
    lemma_has_and(a, !m);
    if n > 0 {
        lemma_count_remove(a, s, (n - 1) as nat);
    }
}

} // verus!
