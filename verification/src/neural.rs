//! The integer side of the network evaluation: the checksum of a weights
//! file and the indices of the network's input features.
use vstd::prelude::*;
use crate::board::Board;
use crate::bitboard::{in_bb, pop_lsb, lemma_has_and, lemma_has_not};
use crate::types::Color;

verus! {

/// Number of input features: 12 piece kinds on 64 squares, the side to
/// move, and whether the side to move keeps a castling right.
pub const N_ENTRADA: usize = 770;

/// 64-bit FNV-1a hash of `s`.
pub open spec fn fnv1a(s: Seq<u8>) -> u64
    decreases s.len(),
{
    if s.len() == 0 {
        0xcbf29ce484222325u64
    } else {
        vstd::wrapping::u64_specs::wrapping_mul(fnv1a(s.drop_last()) ^ (s.last() as u64), 0x100000001b3u64)
    }
}

/// The FNV-1a checksum of a file's bytes.
pub fn checksum_fnv1a(datos: &[u8]) -> (h: u64)
    ensures
        h == fnv1a(datos@),
{
    let mut hash: u64 = 0xcbf29ce484222325u64;
    let mut i: usize = 0;
    while i < datos.len()
        invariant
            i <= datos@.len(),
            hash == fnv1a(datos@.subrange(0, i as int)),
        decreases datos@.len() - i,
    {
        proof {
            assert(datos@.subrange(0, i as int + 1).drop_last() =~= datos@.subrange(0, i as int));
        }
        hash = hash ^ (datos[i] as u64);
        hash = hash.wrapping_mul(0x100000001b3u64);
        i = i + 1;
    }
    proof {
        assert(datos@.subrange(0, datos@.len() as int) =~= datos@);
    }
    hash
}

/// Index of the feature "a piece of colour `color` (0 white, 1 black) and
/// type `pieza` stands on `sq`".
pub fn feature_pieza(color: usize, pieza: usize, sq: usize) -> (r: usize)
    requires
        color < 2,
        pieza < 6,
        sq < 64,
    ensures
        r == (color * 6 + pieza) * 64 + sq,
        r < 768,
{
    (color * 6 + pieza) * 64 + sq
}

/// The side to move keeps at least one castling right.
pub open spec fn keeps_castling(b: Board) -> bool {
    b.castling_rights & (if b.turn == Color::White { 3u8 } else { 12u8 }) != 0
}

pub fn enroque_del_bando(b: &Board) -> (r: bool)
    ensures
        r == keeps_castling(*b),
{
    let derechos: u8 = match b.turn {
        Color::White => crate::board::CASTLE_WK | crate::board::CASTLE_WQ,
        Color::Black => crate::board::CASTLE_BK | crate::board::CASTLE_BQ,
    };
    proof {
        assert(crate::board::CASTLE_WK | crate::board::CASTLE_WQ == 3u8) by (bit_vector);
        assert(crate::board::CASTLE_BK | crate::board::CASTLE_BQ == 12u8) by (bit_vector);
    }
    b.castling_rights & derechos != 0
}


/// The squares of `x` below `n`, in increasing order.
pub open spec fn squares_of(x: u64, n: int) -> Seq<int>
    decreases n,
{
    if n <= 0 {
        seq![]
    } else {
        squares_of(x, n - 1) + if in_bb(x, n - 1) {
            seq![n - 1]
        } else {
            seq![]
        }
    }
}

proof fn lemma_squares_skip(x: u64, m: int, k: int)
    requires
        0 <= m <= k,
        forall|t: int| m <= t < k ==> !#[trigger] in_bb(x, t),
    ensures
        squares_of(x, k) == squares_of(x, m),
    decreases k - m,
{
    if k > m {
        lemma_squares_skip(x, m, k - 1);
        assert(squares_of(x, k) =~= squares_of(x, k - 1));
    }
}

/// The features of the pieces of colour index `c` and type `p` on the
/// squares of `x`, in square order.
pub open spec fn piece_features(c: int, p: int, x: u64) -> Seq<usize> {
    squares_of(x, 64).map_values(|s: int| ((c * 6 + p) * 64 + s) as usize)
}

/// Appends the features of colour index `c`, type `p`, on the squares of
/// `x`, with sign `sign`.
fn push_features(v: &mut Vec<(usize, bool)>, c: usize, p: usize, x: u64, sign: bool)
    requires
        c < 2,
        p < 6,
    ensures
        final(v)@ == old(v)@ + piece_features(c as int, p as int, x).map_values(|f: usize| (f, sign)),
{
    let ghost start = v@;
    let mut bb = x;
    let ghost mut m: int = 0;
    while bb != 0
        invariant
            c < 2,
            p < 6,
            0 <= m <= 64,
            forall|t: int| #[trigger] in_bb(bb, t) == (in_bb(x, t) && t >= m),
            v@ == start + squares_of(x, m).map_values(|s: int| (((c * 6 + p) * 64 + s) as usize, sign)),
        decreases 64 - m,
    {
        let ghost before = bb;
        let sq = pop_lsb(&mut bb);
        proof {
            assert forall|t: int| m <= t < sq implies !#[trigger] in_bb(x, t) by {
                assert(!in_bb(before, t));
            }
            lemma_squares_skip(x, m, sq as int);
        }
        v.push((feature_pieza(c, p, sq as usize), sign));
        proof {
            assert(squares_of(x, sq + 1) == squares_of(x, sq as int) + seq![sq as int]);
            assert(v@ =~= start + squares_of(x, sq + 1).map_values(|s: int| (((c * 6 + p) * 64 + s) as usize, sign)));
            m = sq + 1;
        }
    }
    proof {
        crate::bitboard::lemma_zero_iff_empty(bb);
        assert forall|t: int| m <= t < 64 implies !#[trigger] in_bb(x, t) by {
            assert(!in_bb(bb, t));
        }
        lemma_squares_skip(x, m, 64);
        assert(squares_of(x, 64).map_values(|s: int| (((c * 6 + p) * 64 + s) as usize, sign))
            =~= piece_features(c as int, p as int, x).map_values(|f: usize| (f, sign)));
    }
}

/// Feature changes for colours and types from index `k = c * 6 + p` on:
/// the features that leave, then those that enter.
pub open spec fn changes_from(a: Board, d: Board, k: int) -> Seq<(usize, bool)>
    decreases 12 - k,
{
    if k >= 12 || k < 0 {
        seq![]
    } else {
        let c = k / 6;
        let p = k % 6;
        let salen = a.pieces[c][p] & !d.pieces[c][p];
        let entran = d.pieces[c][p] & !a.pieces[c][p];
        piece_features(c, p, salen).map_values(|f: usize| (f, false)) + piece_features(c, p, entran).map_values(
            |f: usize| (f, true),
        ) + changes_from(a, d, k + 1)
    }
}

/// A flag feature that turns on (`true`) or off (`false`) between two
/// positions, if it changes.
pub open spec fn flag_change(f: usize, before: bool, after: bool) -> Seq<(usize, bool)> {
    if !before && after {
        seq![(f, true)]
    } else if before && !after {
        seq![(f, false)]
    } else {
        seq![]
    }
}

/// The feature changes from position `a` to position `d`, in the order the
/// network's accumulator applies them: per colour and piece type, the
/// pieces that leave and then those that arrive; then the side to move;
/// then the castling flag. `true` marks a feature that turns on.
pub open spec fn feature_changes(a: Board, d: Board) -> Seq<(usize, bool)> {
    changes_from(a, d, 0) + flag_change(768, a.turn == Color::White, d.turn == Color::White) + flag_change(
        769,
        keeps_castling(a),
        keeps_castling(d),
    )
}

/// The feature changes from `antes` to `despues`.
pub fn cambios_de_features(antes: &Board, despues: &Board) -> (v: Vec<(usize, bool)>)
    ensures
        v@ == feature_changes(*antes, *despues),
{
    let mut v: Vec<(usize, bool)> = Vec::new();
    let mut k: usize = 0;
    while k < 12
        invariant
            k <= 12,
            v@ + changes_from(*antes, *despues, k as int) == changes_from(*antes, *despues, 0),
        decreases 12 - k,
    {
        let c = k / 6;
        let p = k % 6;
        let a_bb = antes.pieces[c][p];
        let d_bb = despues.pieces[c][p];
        let ghost before = v@;
        push_features(&mut v, c, p, a_bb & !d_bb, false);
        push_features(&mut v, c, p, d_bb & !a_bb, true);
        proof {
            let rest = changes_from(*antes, *despues, k as int + 1);
            assert(changes_from(*antes, *despues, k as int) == piece_features(c as int, p as int, a_bb & !d_bb).map_values(
                |f: usize| (f, false),
            ) + piece_features(c as int, p as int, d_bb & !a_bb).map_values(|f: usize| (f, true)) + rest);
            assert(v@ + rest =~= before + changes_from(*antes, *despues, k as int));
        }
        k = k + 1;
    }
    proof {
        assert(v@ =~= changes_from(*antes, *despues, 0));
    }
    let wa = match antes.turn {
        Color::White => true,
        Color::Black => false,
    };
    let wd = match despues.turn {
        Color::White => true,
        Color::Black => false,
    };
    if !wa && wd {
        v.push((768, true));
    } else if wa && !wd {
        v.push((768, false));
    }
    let ca = enroque_del_bando(antes);
    let cd = enroque_del_bando(despues);
    if !ca && cd {
        v.push((769, true));
    } else if ca && !cd {
        v.push((769, false));
    }
    proof {
        assert(v@ =~= feature_changes(*antes, *despues));
    }
    v
}

/// Features of the pieces of colours and types from index `k = c * 6 + p` on.
pub open spec fn features_from(b: Board, k: int) -> Seq<usize>
    decreases 12 - k,
{
    if k >= 12 || k < 0 {
        seq![]
    } else {
        piece_features(k / 6, k % 6, b.pieces[k / 6][k % 6]) + features_from(b, k + 1)
    }
}

/// The active features of a position, in the order the accumulator adds
/// them: per colour and piece type, the occupied squares in order; then
/// the side to move if white; then the castling flag if held.
pub open spec fn board_features(b: Board) -> Seq<usize> {
    features_from(b, 0) + (if b.turn == Color::White {
        seq![768usize]
    } else {
        seq![]
    }) + (if keeps_castling(b) {
        seq![769usize]
    } else {
        seq![]
    })
}

/// Appends the features of colour index `c`, type `p`, on the squares of `x`.
fn push_active(v: &mut Vec<usize>, c: usize, p: usize, x: u64)
    requires
        c < 2,
        p < 6,
    ensures
        final(v)@ == old(v)@ + piece_features(c as int, p as int, x),
{
    let ghost start = v@;
    let mut bb = x;
    let ghost mut m: int = 0;
    while bb != 0
        invariant
            c < 2,
            p < 6,
            0 <= m <= 64,
            forall|t: int| #[trigger] in_bb(bb, t) == (in_bb(x, t) && t >= m),
            v@ == start + squares_of(x, m).map_values(|s: int| ((c * 6 + p) * 64 + s) as usize),
        decreases 64 - m,
    {
        let ghost before = bb;
        let sq = pop_lsb(&mut bb);
        proof {
            assert forall|t: int| m <= t < sq implies !#[trigger] in_bb(x, t) by {
                assert(!in_bb(before, t));
            }
            lemma_squares_skip(x, m, sq as int);
        }
        v.push(feature_pieza(c, p, sq as usize));
        proof {
            assert(squares_of(x, sq + 1) == squares_of(x, sq as int) + seq![sq as int]);
            assert(v@ =~= start + squares_of(x, sq + 1).map_values(|s: int| ((c * 6 + p) * 64 + s) as usize));
            m = sq + 1;
        }
    }
    proof {
        crate::bitboard::lemma_zero_iff_empty(bb);
        assert forall|t: int| m <= t < 64 implies !#[trigger] in_bb(x, t) by {
            assert(!in_bb(bb, t));
        }
        lemma_squares_skip(x, m, 64);
    }
}

/// The active features of `b`.
pub fn features_activas(b: &Board) -> (v: Vec<usize>)
    ensures
        v@ == board_features(*b),
{
    let mut v: Vec<usize> = Vec::new();
    let mut k: usize = 0;
    while k < 12
        invariant
            k <= 12,
            v@ + features_from(*b, k as int) == features_from(*b, 0),
        decreases 12 - k,
    {
        let c = k / 6;
        let p = k % 6;
        let ghost before = v@;
        push_active(&mut v, c, p, b.pieces[c][p]);
        proof {
            assert(v@ + features_from(*b, k as int + 1) =~= before + features_from(*b, k as int));
        }
        k = k + 1;
    }
    proof {
        assert(v@ =~= features_from(*b, 0));
    }
    match b.turn {
        Color::White => v.push(768),
        Color::Black => {},
    }
    if enroque_del_bando(b) {
        v.push(769);
    }
    proof {
        assert(v@ =~= board_features(*b));
    }
    v
}

/// The entries of a `filas` × `columnas` matrix stored row after row, stored
/// column after column instead.
pub fn transponer<T: Copy>(v: &Vec<T>, filas: usize, columnas: usize) -> (r: Vec<T>)
    requires
        v@.len() == filas * columnas,
    ensures
        r@.len() == filas * columnas,
        forall|f: int, c: int|
            0 <= f < filas && 0 <= c < columnas ==> #[trigger] r@[c * filas + f] == v@[f * columnas + c],
{
    let n = v.len();
    let mut r: Vec<T> = Vec::new();
    let mut c: usize = 0;
    while c < columnas
        invariant
            v@.len() == filas * columnas,
            n == v@.len(),
            0 <= c <= columnas,
            r@.len() == c * filas,
            forall|f: int, c2: int|
                0 <= f < filas && 0 <= c2 < c ==> #[trigger] r@[c2 * filas + f] == v@[f * columnas + c2],
        decreases columnas - c,
    {
        let mut f: usize = 0;
        while f < filas
            invariant
                v@.len() == filas * columnas,
                n == v@.len(),
                0 <= c < columnas,
                0 <= f <= filas,
                r@.len() == c * filas + f,
                forall|f2: int, c2: int|
                    0 <= f2 < filas && 0 <= c2 < c ==> #[trigger] r@[c2 * filas + f2] == v@[f2 * columnas + c2],
                forall|f2: int| 0 <= f2 < f ==> #[trigger] r@[c * filas + f2] == v@[f2 * columnas + c],
            decreases filas - f,
        {
            proof {
                assert(f * columnas + c < filas * columnas) by (nonlinear_arith)
                    requires
                        f < filas,
                        c < columnas,
                ;
                assert(0 <= f * columnas) by (nonlinear_arith);
            }
            let x = v[f * columnas + c];
            let ghost antes = r@;
            r.push(x);
            proof {
                assert forall|f2: int, c2: int|
                    0 <= f2 < filas && 0 <= c2 < c implies #[trigger] r@[c2 * filas + f2] == v@[f2 * columnas + c2] by {
                    assert(c2 * filas + f2 < c * filas) by (nonlinear_arith)
                        requires
                            f2 < filas,
                            c2 < c,
                    ;
                    assert(r@[c2 * filas + f2] == antes[c2 * filas + f2]);
                }
                assert forall|f2: int| 0 <= f2 < f + 1 implies #[trigger] r@[c * filas + f2] == v@[f2 * columnas + c] by {
                    if f2 < f {
                        assert(r@[c * filas + f2] == antes[c * filas + f2]);
                    }
                }
            }
            f = f + 1;
        }
        proof {
            assert((c + 1) * filas == c * filas + filas) by (nonlinear_arith);
        }
        c = c + 1;
    }
    proof {
        assert(c * filas == filas * columnas) by (nonlinear_arith)
            requires
                c == columnas,
        ;
    }
    r
}

/// The squares of `x` below `n` are those of `x` that lie in `0..n`.
proof fn lemma_squares_of_contains(x: u64, n: int)
    ensures
        forall|s: int| #[trigger] squares_of(x, n).contains(s) <==> 0 <= s < n && in_bb(x, s),
    decreases n,
{
    if n > 0 {
        lemma_squares_of_contains(x, n - 1);
        let prev = squares_of(x, n - 1);
        let tail = if in_bb(x, n - 1) { seq![n - 1] } else { Seq::<int>::empty() };
        assert(squares_of(x, n) == prev + tail);
        assert forall|s: int| #[trigger] squares_of(x, n).contains(s) <==> 0 <= s < n && in_bb(x, s) by {
            if squares_of(x, n).contains(s) {
                let i = choose|i: int| 0 <= i < squares_of(x, n).len() && squares_of(x, n)[i] == s;
                if i < prev.len() {
                    assert(prev[i] == s);
                    assert(prev.contains(s));
                } else {
                    assert(tail[i - prev.len()] == s);
                }
            }
            if 0 <= s < n && in_bb(x, s) {
                if s < n - 1 {
                    assert(prev.contains(s));
                    let i = choose|i: int| 0 <= i < prev.len() && prev[i] == s;
                    assert(squares_of(x, n)[i] == s);
                } else {
                    assert(squares_of(x, n)[prev.len() as int] == s);
                }
            }
        }
    } else {
        assert forall|s: int| #[trigger] squares_of(x, n).contains(s) <==> 0 <= s < n && in_bb(x, s) by {
            assert(squares_of(x, n).len() == 0);
        }
    }
}

/// The piece-square feature `f` stands for colour index `f / 384`, type
/// `f / 64 % 6` and square `f % 64`.
pub open spec fn piece_feature_on(b: Board, f: int) -> bool {
    0 <= f < 768 && in_bb(b.pieces[f / 64 / 6][f / 64 % 6], f % 64)
}

/// The features of colour index `c` and type `p` on the squares of `x` are
/// the indices of that colour and type whose square `x` holds.
proof fn lemma_piece_features_contains(c: int, p: int, x: u64)
    requires
        0 <= c < 2,
        0 <= p < 6,
    ensures
        forall|f: usize| #[trigger] piece_features(c, p, x).contains(f) <==> f / 64 == c * 6 + p && in_bb(x, (f % 64) as int),
{
    lemma_squares_of_contains(x, 64);
    let sq = squares_of(x, 64);
    let g = |s: int| ((c * 6 + p) * 64 + s) as usize;
    assert forall|f: usize| #[trigger] piece_features(c, p, x).contains(f) <==> f / 64 == c * 6 + p && in_bb(x, (f % 64) as int) by {
        let pf = piece_features(c, p, x);
        assert(pf.len() == sq.len());
        if pf.contains(f) {
            let i = choose|i: int| 0 <= i < pf.len() && pf[i] == f;
            assert(pf[i] == g(sq[i]));
            assert(sq.contains(sq[i]));
            assert(0 <= sq[i] < 64 && in_bb(x, sq[i]));
            assert(f == (c * 6 + p) * 64 + sq[i]);
        }
        if f / 64 == c * 6 + p && in_bb(x, (f % 64) as int) {
            let s = (f % 64) as int;
            assert(sq.contains(s));
            let i = choose|i: int| 0 <= i < sq.len() && sq[i] == s;
            assert(pf[i] == g(s));
            assert(g(s) == f);
        }
    }
}

/// The piece-square features of `b` from colour and type index `k` on.
proof fn lemma_features_from_contains(b: Board, k: int)
    requires
        0 <= k <= 12,
    ensures
        forall|f: usize| #[trigger] features_from(b, k).contains(f) <==> k * 64 <= f && piece_feature_on(b, f as int),
    decreases 12 - k,
{
    if k < 12 {
        lemma_features_from_contains(b, k + 1);
        lemma_piece_features_contains(k / 6, k % 6, b.pieces[k / 6][k % 6]);
        let head = piece_features(k / 6, k % 6, b.pieces[k / 6][k % 6]);
        let rest = features_from(b, k + 1);
        assert(features_from(b, k) == head + rest);
        assert forall|f: usize| #[trigger] features_from(b, k).contains(f) <==> k * 64 <= f && piece_feature_on(b, f as int) by {
            if features_from(b, k).contains(f) {
                let i = choose|i: int| 0 <= i < (head + rest).len() && (head + rest)[i] == f;
                if i < head.len() {
                    assert(head[i] == f);
                    assert(head.contains(f));
                } else {
                    assert(rest[i - head.len()] == f);
                    assert(rest.contains(f));
                }
            }
            if k * 64 <= f && piece_feature_on(b, f as int) {
                if f / 64 == k {
                    assert(head.contains(f));
                    let i = choose|i: int| 0 <= i < head.len() && head[i] == f;
                    assert((head + rest)[i] == f);
                } else {
                    assert(rest.contains(f));
                    let i = choose|i: int| 0 <= i < rest.len() && rest[i] == f;
                    assert((head + rest)[head.len() + i] == f);
                }
            }
        }
    } else {
        assert forall|f: usize| #[trigger] features_from(b, k).contains(f) <==> k * 64 <= f && piece_feature_on(b, f as int) by {
            assert(features_from(b, k).len() == 0);
        }
    }
}

/// The features active in `b`: its piece-square features, 768 when white
/// is to move, 769 when the side to move keeps a castling right.
pub open spec fn active_in(b: Board, f: int) -> bool {
    piece_feature_on(b, f) || (f == 768 && b.turn == Color::White) || (f == 769 && keeps_castling(b))
}

proof fn lemma_board_features_contains(b: Board)
    ensures
        forall|f: usize| #[trigger] board_features(b).contains(f) <==> active_in(b, f as int),
{
    lemma_features_from_contains(b, 0);
    let p = features_from(b, 0);
    let t = if b.turn == Color::White { seq![768usize] } else { Seq::<usize>::empty() };
    let c = if keeps_castling(b) { seq![769usize] } else { Seq::<usize>::empty() };
    assert(board_features(b) == p + t + c);
    assert forall|f: usize| #[trigger] board_features(b).contains(f) <==> active_in(b, f as int) by {
        let all = p + t + c;
        if all.contains(f) {
            let i = choose|i: int| 0 <= i < all.len() && all[i] == f;
            if i < p.len() {
                assert(p[i] == f);
                assert(p.contains(f));
            } else if i < p.len() + t.len() {
                assert(t[i - p.len()] == f);
            } else {
                assert(c[i - p.len() - t.len()] == f);
            }
        }
        if active_in(b, f as int) {
            if piece_feature_on(b, f as int) {
                assert(p.contains(f));
                let i = choose|i: int| 0 <= i < p.len() && p[i] == f;
                assert(all[i] == f);
            } else if f == 768 && b.turn == Color::White {
                assert(all[p.len() as int] == f);
            } else {
                assert(all[(p.len() + t.len()) as int] == f);
            }
        }
    }
}

/// The features of `s`, each with `sign`.
pub open spec fn signed(s: Seq<usize>, sign: bool) -> Seq<(usize, bool)> {
    s.map_values(|h: usize| (h, sign))
}

/// The signed features of colour index `c` and type `p` on `x`.
proof fn lemma_signed_contains(c: int, p: int, x: u64, sign: bool)
    requires
        0 <= c < 2,
        0 <= p < 6,
    ensures
        forall|f: usize, g: bool| #[trigger] signed(piece_features(c, p, x), sign).contains((f, g))
            <==> g == sign && f / 64 == c * 6 + p && in_bb(x, (f % 64) as int),
{
    lemma_piece_features_contains(c, p, x);
    let pf = piece_features(c, p, x);
    let m = signed(pf, sign);
    assert forall|f: usize, g: bool| #[trigger] m.contains((f, g)) <==> g == sign && f / 64 == c * 6 + p && in_bb(x, (f % 64) as int) by {
        if m.contains((f, g)) {
            let i = choose|i: int| 0 <= i < m.len() && m[i] == (f, g);
            assert(m[i] == (pf[i], sign));
            assert(pf.contains(pf[i]));
        }
        if g == sign && f / 64 == c * 6 + p && in_bb(x, (f % 64) as int) {
            assert(pf.contains(f));
            let i = choose|i: int| 0 <= i < pf.len() && pf[i] == f;
            assert(m[i] == (f, g));
        }
    }
}

/// The piece-square changes from `a` to `d`, from colour and type index `k`
/// on: a feature leaves where its piece stood before and not after, and
/// enters where it stands after and not before.
proof fn lemma_changes_from_contains(a: Board, d: Board, k: int)
    requires
        0 <= k <= 12,
    ensures
        forall|f: usize, g: bool| #[trigger] changes_from(a, d, k).contains((f, g)) <==> k * 64 <= f && if g {
            piece_feature_on(d, f as int) && !piece_feature_on(a, f as int)
        } else {
            piece_feature_on(a, f as int) && !piece_feature_on(d, f as int)
        },
    decreases 12 - k,
{
    if k < 12 {
        lemma_changes_from_contains(a, d, k + 1);
        let c = k / 6;
        let p = k % 6;
        let xa = a.pieces[c][p];
        let xd = d.pieces[c][p];
        lemma_signed_contains(c, p, xa & !xd, false);
        lemma_signed_contains(c, p, xd & !xa, true);
        lemma_has_and(xa, !xd);
        lemma_has_and(xd, !xa);
        lemma_has_not(xd);
        lemma_has_not(xa);
        let s1 = signed(piece_features(c, p, xa & !xd), false);
        let s2 = signed(piece_features(c, p, xd & !xa), true);
        let rest = changes_from(a, d, k + 1);
        assert(s1 =~= piece_features(c, p, xa & !xd).map_values(|h: usize| (h, false)));
        assert(s2 =~= piece_features(c, p, xd & !xa).map_values(|h: usize| (h, true)));
        assert(changes_from(a, d, k) == s1 + s2 + rest);
        assert forall|f: usize, g: bool| #[trigger] changes_from(a, d, k).contains((f, g)) <==> k * 64 <= f && if g {
            piece_feature_on(d, f as int) && !piece_feature_on(a, f as int)
        } else {
            piece_feature_on(a, f as int) && !piece_feature_on(d, f as int)
        } by {
            let all = s1 + s2 + rest;
            let sq = (f % 64) as int;
            if all.contains((f, g)) {
                let i = choose|i: int| 0 <= i < all.len() && all[i] == (f, g);
                if i < s1.len() {
                    assert(s1[i] == (f, g));
                    assert(s1.contains((f, g)));
                    assert(in_bb(xa & !xd, sq));
                } else if i < s1.len() + s2.len() {
                    assert(s2[i - s1.len()] == (f, g));
                    assert(s2.contains((f, g)));
                    assert(in_bb(xd & !xa, sq));
                } else {
                    assert(rest[i - s1.len() - s2.len()] == (f, g));
                    assert(rest.contains((f, g)));
                }
            }
            let want = k * 64 <= f && if g {
                piece_feature_on(d, f as int) && !piece_feature_on(a, f as int)
            } else {
                piece_feature_on(a, f as int) && !piece_feature_on(d, f as int)
            };
            if want {
                if f / 64 == k {
                    if g {
                        assert(in_bb(xd & !xa, sq));
                        assert(s2.contains((f, g)));
                        let i = choose|i: int| 0 <= i < s2.len() && s2[i] == (f, g);
                        assert(all[s1.len() + i] == (f, g));
                    } else {
                        assert(in_bb(xa & !xd, sq));
                        assert(s1.contains((f, g)));
                        let i = choose|i: int| 0 <= i < s1.len() && s1[i] == (f, g);
                        assert(all[i] == (f, g));
                    }
                } else {
                    assert(rest.contains((f, g)));
                    let i = choose|i: int| 0 <= i < rest.len() && rest[i] == (f, g);
                    assert(all[s1.len() + s2.len() + i] == (f, g));
                }
            }
        }
    } else {
        assert forall|f: usize, g: bool| #[trigger] changes_from(a, d, k).contains((f, g)) <==> k * 64 <= f && if g {
            piece_feature_on(d, f as int) && !piece_feature_on(a, f as int)
        } else {
            piece_feature_on(a, f as int) && !piece_feature_on(d, f as int)
        } by {
            assert(changes_from(a, d, k).len() == 0);
        }
    }
}

/// The incremental update of the network's inputs is exact: the features
/// that leave were active before and are not after, those that enter were
/// not active before and are after, and the features active after are
/// those active before that did not leave, together with those that enter.
pub proof fn lemma_incremental_features(a: Board, d: Board)
    ensures
        forall|f: usize| #[trigger] feature_changes(a, d).contains((f, false)) ==> board_features(a).contains(f)
            && !board_features(d).contains(f),
        forall|f: usize| #[trigger] feature_changes(a, d).contains((f, true)) ==> !board_features(a).contains(f)
            && board_features(d).contains(f),
        forall|f: usize| #[trigger] board_features(d).contains(f) <==> (board_features(a).contains(f)
            && !feature_changes(a, d).contains((f, false))) || feature_changes(a, d).contains((f, true)),
{
    lemma_board_features_contains(a);
    lemma_board_features_contains(d);
    lemma_changes_from_contains(a, d, 0);
    let cf = changes_from(a, d, 0);
    let t = flag_change(768, a.turn == Color::White, d.turn == Color::White);
    let c = flag_change(769, keeps_castling(a), keeps_castling(d));
    let all = cf + t + c;
    assert(feature_changes(a, d) == all);
    assert forall|f: usize, g: bool| #[trigger] all.contains((f, g)) <==> if g {
        active_in(d, f as int) && !active_in(a, f as int)
    } else {
        active_in(a, f as int) && !active_in(d, f as int)
    } by {
        if all.contains((f, g)) {
            let i = choose|i: int| 0 <= i < all.len() && all[i] == (f, g);
            if i < cf.len() {
                assert(cf[i] == (f, g));
                assert(cf.contains((f, g)));
            } else if i < cf.len() + t.len() {
                assert(t[i - cf.len()] == (f, g));
            } else {
                assert(c[i - cf.len() - t.len()] == (f, g));
            }
        }
        let want = if g {
            active_in(d, f as int) && !active_in(a, f as int)
        } else {
            active_in(a, f as int) && !active_in(d, f as int)
        };
        if want {
            if f < 768 {
                assert(cf.contains((f, g)));
                let i = choose|i: int| 0 <= i < cf.len() && cf[i] == (f, g);
                assert(all[i] == (f, g));
            } else if f == 768 {
                assert(t[0] == (f, g));
                assert(all[cf.len() as int] == (f, g));
            } else {
                assert(c[0] == (f, g));
                assert(all[(cf.len() + t.len()) as int] == (f, g));
            }
        }
    }
}

} // verus!
