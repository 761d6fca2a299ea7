//! Static exchange evaluation: the material balance of the sequence of
//! captures on one square, each side recapturing with its cheapest attacker
//! and free to stop; and a brute-force version that tries every attacker.
use vstd::prelude::*;
use vstd::array::spec_array_update;
use crate::bitboard::{
    in_bb, bit, lsb, pop_lsb, pop_count, count_below, lemma_count_remove, lemma_has_and, lemma_has_not,
    lemma_has_or, lemma_has_bit, lemma_has_zero, knight_attacks, king_attacks, bishop_attacks,
    rook_attacks, pawn_attacks, lemma_hit_sym, lemma_step_sym, Bitboard,
};
use crate::board::{
    Board, consistent, pieces_wf, piece_on, piece_attacks_sq, lemma_piece_on_contents, lemma_contents_on_board,
    lemma_occupancy, contents,
};
use crate::types::{Color, PieceType, Move, MoveFlag, Square, piece_of_idx, spec_file, spec_rank, file_of, rank_of, make_square};

verus! {

broadcast use vstd::array::group_array_axioms;

/// Material value of piece index `p` (pawn, knight, bishop, rook, queen, king).
pub open spec fn piece_value(p: int) -> int {
    if p == 0 {
        100
    } else if p == 1 {
        320
    } else if p == 2 {
        330
    } else if p == 3 {
        500
    } else if p == 4 {
        900
    } else {
        0
    }
}

fn valor(pt: PieceType) -> (v: i32)
    ensures
        v == piece_value(pt.idx()),
{
    match pt {
        PieceType::Pawn => 100,
        PieceType::Knight => 320,
        PieceType::Bishop => 330,
        PieceType::Rook => 500,
        PieceType::Queen => 900,
        PieceType::King => 0,
    }
}

/// Number of pieces in a set of piece bitboards.
pub open spec fn total(bb: [[u64; 6]; 2]) -> nat {
    pop_count(bb[0][0]) + pop_count(bb[0][1]) + pop_count(bb[0][2]) + pop_count(bb[0][3]) + pop_count(
        bb[0][4],
    ) + pop_count(bb[0][5]) + pop_count(bb[1][0]) + pop_count(bb[1][1]) + pop_count(bb[1][2])
        + pop_count(bb[1][3]) + pop_count(bb[1][4]) + pop_count(bb[1][5])
}

/// `bb` with square `s` cleared in bitboard (c, p).
pub open spec fn without(bb: [[u64; 6]; 2], c: int, p: int, s: int) -> [[u64; 6]; 2] {
    spec_array_update(bb, c, spec_array_update(bb[c], p, bb[c][p] & !(1u64 << (s as u64))))
}

pub open spec fn clear_sq(occ: u64, s: int) -> u64 {
    occ & !(1u64 << (s as u64))
}

/// A piece of colour `c` and type index `p` on `s` (other than `to`) attacks `to`.
pub open spec fn cand(to: int, occ: u64, bb: [[u64; 6]; 2], c: Color, p: int, s: int) -> bool {
    &&& s != to
    &&& in_bb(bb[c.idx()][p], s)
    &&& piece_attacks_sq(c, piece_of_idx(p), s, to, occ)
}

pub open spec fn has_cand(to: int, occ: u64, bb: [[u64; 6]; 2], c: Color, p: int) -> bool {
    exists|s: int| cand(to, occ, bb, c, p, s)
}

/// The lowest square of an attacker of type index `p`.
pub open spec fn low_cand(to: int, occ: u64, bb: [[u64; 6]; 2], c: Color, p: int) -> int {
    choose|s: int| cand(to, occ, bb, c, p, s) && forall|t: int| t < s ==> !cand(to, occ, bb, c, p, t)
}

/// Piece types in increasing value, king first.
pub open spec fn order_pt(i: int) -> int {
    if i == 0 {
        5
    } else {
        i - 1
    }
}

/// Type index of the cheapest attacker of colour `c` on `to` (-1 if none).
pub open spec fn first_type(to: int, occ: u64, bb: [[u64; 6]; 2], c: Color) -> int {
    if has_cand(to, occ, bb, c, 5) {
        5
    } else if has_cand(to, occ, bb, c, 0) {
        0
    } else if has_cand(to, occ, bb, c, 1) {
        1
    } else if has_cand(to, occ, bb, c, 2) {
        2
    } else if has_cand(to, occ, bb, c, 3) {
        3
    } else if has_cand(to, occ, bb, c, 4) {
        4
    } else {
        -1
    }
}

pub proof fn lemma_total_without(bb: [[u64; 6]; 2], c: int, p: int, s: int)
    requires
        0 <= c < 2,
        0 <= p < 6,
        in_bb(bb[c][p], s),
    ensures
        total(without(bb, c, p, s)) == total(bb) - 1,
        forall|c2: int, p2: int| 0 <= c2 < 2 && 0 <= p2 < 6 ==> #[trigger] without(bb, c, p, s)[c2][p2] == if c2 == c && p2 == p {
            bb[c][p] & !(1u64 << (s as u64))
        } else {
            bb[c2][p2]
        },
{
    lemma_count_remove(bb[c][p], s, 64);
    let w = without(bb, c, p, s);
    assert forall|c2: int, p2: int| 0 <= c2 < 2 && 0 <= p2 < 6 implies #[trigger] w[c2][p2] == if c2 == c && p2 == p {
        bb[c][p] & !(1u64 << (s as u64))
    } else {
        bb[c2][p2]
    } by {
        assert(w[c2] == if c2 == c { spec_array_update(bb[c], p, bb[c][p] & !(1u64 << (s as u64))) } else { bb[c2] });
    }
}

/// The exchange value for the side `c` to move, when the piece standing on
/// `to` is worth `v`: capture with the cheapest attacker (lowest square among
/// equals) if that gains, otherwise stop.
pub open spec fn see_val(to: int, occ: u64, bb: [[u64; 6]; 2], c: Color, v: int) -> int
    decreases total(bb),
{
    let p = first_type(to, occ, bb, c);
    if p < 0 || p >= 6 {
        0
    } else {
        let s = low_cand(to, occ, bb, c, p);
        if cand(to, occ, bb, c, p, s) {
            proof {
                lemma_total_without(bb, c.idx(), p, s);
            }
            let g = v - see_val(to, clear_sq(occ, s), without(bb, c.idx(), p, s), c.other(), piece_value(p));
            if g > 0 {
                g
            } else {
                0
            }
        } else {
            0
        }
    }
}

/// Attackers of colour `c` on `sq` among the pieces `bb`, blockers `occ`.
pub open spec fn attacker_in(c: Color, sq: int, occ: u64, bb: [[u64; 6]; 2], s: int) -> bool {
    ||| in_bb(bb[c.idx()][0], s) && piece_attacks_sq(c, piece_of_idx(0), s, sq, occ)
    ||| in_bb(bb[c.idx()][1], s) && piece_attacks_sq(c, piece_of_idx(1), s, sq, occ)
    ||| in_bb(bb[c.idx()][2], s) && piece_attacks_sq(c, piece_of_idx(2), s, sq, occ)
    ||| in_bb(bb[c.idx()][3], s) && piece_attacks_sq(c, piece_of_idx(3), s, sq, occ)
    ||| in_bb(bb[c.idx()][4], s) && piece_attacks_sq(c, piece_of_idx(4), s, sq, occ)
    ||| in_bb(bb[c.idx()][5], s) && piece_attacks_sq(c, piece_of_idx(5), s, sq, occ)
}

/// Squares of pieces of `color` in `bb` that attack `sq`, with `occupied`
/// as the blockers.
fn atacantes_a(color: Color, sq: Square, occupied: Bitboard, bb: &[[Bitboard; 6]; 2]) -> (r: Bitboard)
    requires
        sq < 64,
    ensures
        forall|s: int| #[trigger] in_bb(r, s) == attacker_in(color, sq as int, occupied, *bb, s),
{
    let idx = color.index();
    let row = bb[idx];
    let ka = king_attacks(sq);
    let na = knight_attacks(sq);
    let ba = bishop_attacks(sq, occupied);
    let ra = rook_attacks(sq, occupied);
    let pa = pawn_attacks(color.opposite(), sq);
    let x1 = ka & row[5];
    let x2 = na & row[1];
    let bq = row[2] | row[4];
    let x3 = ba & bq;
    let rq = row[3] | row[4];
    let x4 = ra & rq;
    let x5 = pa & row[0];
    proof {
        lemma_has_and(ka, row[5]);
        lemma_has_and(na, row[1]);
        lemma_has_or(row[2], row[4]);
        lemma_has_and(ba, bq);
        lemma_has_or(row[3], row[4]);
        lemma_has_and(ra, rq);
        lemma_has_and(pa, row[0]);
        lemma_has_or(x1, x2);
        lemma_has_or(x1 | x2, x3);
        lemma_has_or((x1 | x2) | x3, x4);
        lemma_has_or(((x1 | x2) | x3) | x4, x5);
        assert forall|s: int| #[trigger] in_bb((((x1 | x2) | x3) | x4) | x5, s) == attacker_in(color, sq as int, occupied, *bb, s) by {
            lemma_hit_sym(sq as int, occupied, s);
            lemma_step_sym(sq as int, s);
        }
    }
    x1 | x2 | x3 | x4 | x5
}

/// Type of the `i`-th piece in increasing value order (king first).
fn order_type(i: usize) -> (pt: PieceType)
    requires
        i < 6,
    ensures
        pt.idx() == order_pt(i as int),
{
    if i == 0 {
        PieceType::King
    } else if i == 1 {
        PieceType::Pawn
    } else if i == 2 {
        PieceType::Knight
    } else if i == 3 {
        PieceType::Bishop
    } else if i == 4 {
        PieceType::Rook
    } else {
        PieceType::Queen
    }
}

proof fn lemma_low_cand(to: int, occ: u64, bb: [[u64; 6]; 2], c: Color, p: int, s: int)
    requires
        cand(to, occ, bb, c, p, s),
        forall|t: int| t < s ==> !cand(to, occ, bb, c, p, t),
    ensures
        low_cand(to, occ, bb, c, p) == s,
        has_cand(to, occ, bb, c, p),
{
    let s2 = low_cand(to, occ, bb, c, p);
    assert(cand(to, occ, bb, c, p, s2) && forall|t: int| t < s2 ==> !cand(to, occ, bb, c, p, t));
    if s2 < s {
    } else if s < s2 {
    }
}

/// Clears square `s` of bitboard (c, p) in a copy of `bb`.
fn remove_from(bb: &[[Bitboard; 6]; 2], c: usize, p: usize, s: Square) -> (r: [[Bitboard; 6]; 2])
    requires
        c < 2,
        p < 6,
        s < 64,
    ensures
        r == without(*bb, c as int, p as int, s as int),
{
    let mut bb2 = *bb;
    let m = !bit(s);
    bb2[c][p] = bb2[c][p] & m;
    proof {
        let w = without(*bb, c as int, p as int, s as int);
        assert(bb2[c as int] =~= w[c as int]);
        assert(bb2 =~= w);
    }
    bb2
}

fn see_recurse(to_sq: Square, occupied: Bitboard, bb: &[[Bitboard; 6]; 2], color_en_turno: Color, valor_en_to: i32) -> (r: i32)
    requires
        to_sq < 64,
        pieces_wf(*bb),
        0 <= valor_en_to <= 900,
    ensures
        r == see_val(to_sq as int, occupied, *bb, color_en_turno, valor_en_to as int),
        0 <= r <= valor_en_to,
    decreases total(*bb),
{
    let att = atacantes_a(color_en_turno, to_sq, occupied, bb);
    let one = bit(to_sq);
    let nt = !one;
    let atacantes = att & nt;
    let c = color_en_turno.index();
    proof {
        lemma_has_not(one);
        lemma_has_and(att, nt);
    }
    let mut i: usize = 0;
    while i < 6
        invariant
            to_sq < 64,
            c == color_en_turno.idx(),
            0 <= i <= 6,
            0 <= valor_en_to <= 900,
            pieces_wf(*bb),
            forall|s: int| #[trigger] in_bb(atacantes, s) == (attacker_in(color_en_turno, to_sq as int, occupied, *bb, s) && s != to_sq),
            forall|k: int| 0 <= k < i ==> !has_cand(to_sq as int, occupied, *bb, color_en_turno, #[trigger] order_pt(k)),
        decreases 6 - i,
    {
        let pt = order_type(i);
        let p = pt.index();
        let disponibles = atacantes & bb[c][p];
        proof {
            lemma_has_and(atacantes, bb[c as int][p as int]);
            assert forall|s: int| #[trigger] in_bb(disponibles, s) == cand(to_sq as int, occupied, *bb, color_en_turno, p as int, s) by {
                lemma_contents_on_board(*bb, s);
            }
        }
        if disponibles != 0 {
            let sq = lsb(disponibles);
            proof {
                assert forall|t: int| t < sq implies !cand(to_sq as int, occupied, *bb, color_en_turno, p as int, t) by {
                    if t >= 0 {
                        assert(!in_bb(disponibles, t));
                    }
                }
                lemma_low_cand(to_sq as int, occupied, *bb, color_en_turno, p as int, sq as int);
                assert(first_type(to_sq as int, occupied, *bb, color_en_turno) == p) by {
                    if i > 0 { assert(!has_cand(to_sq as int, occupied, *bb, color_en_turno, order_pt(0))); }
                    if i > 1 { assert(!has_cand(to_sq as int, occupied, *bb, color_en_turno, order_pt(1))); }
                    if i > 2 { assert(!has_cand(to_sq as int, occupied, *bb, color_en_turno, order_pt(2))); }
                    if i > 3 { assert(!has_cand(to_sq as int, occupied, *bb, color_en_turno, order_pt(3))); }
                    if i > 4 { assert(!has_cand(to_sq as int, occupied, *bb, color_en_turno, order_pt(4))); }
                }
                lemma_total_without(*bb, c as int, p as int, sq as int);
                lemma_without_wf(*bb, c as int, p as int, sq as int);
            }
            let occ2 = occupied & !bit(sq);
            proof {
                assert(occ2 == clear_sq(occupied, sq as int));
            }
            let bb2 = remove_from(bb, c, p, sq);
            let v = valor(pt);
            assert(0 <= v <= 900);
            let rest = see_recurse(to_sq, occ2, &bb2, color_en_turno.opposite(), v);
            assert(0 <= rest <= v);
            let g = valor_en_to - rest;
            return if g > 0 {
                g
            } else {
                0
            };
        }
        proof {
            crate::bitboard::lemma_zero_iff_empty(disponibles);
            assert forall|t: int| !cand(to_sq as int, occupied, *bb, color_en_turno, p as int, t) by {
                if 0 <= t < 64 {
                    assert(!in_bb(disponibles, t));
                }
            }
            assert(!has_cand(to_sq as int, occupied, *bb, color_en_turno, order_pt(i as int)));
        }
        i = i + 1;
    }
    proof {
        assert(!has_cand(to_sq as int, occupied, *bb, color_en_turno, order_pt(0)));
        assert(!has_cand(to_sq as int, occupied, *bb, color_en_turno, order_pt(1)));
        assert(!has_cand(to_sq as int, occupied, *bb, color_en_turno, order_pt(2)));
        assert(!has_cand(to_sq as int, occupied, *bb, color_en_turno, order_pt(3)));
        assert(!has_cand(to_sq as int, occupied, *bb, color_en_turno, order_pt(4)));
        assert(!has_cand(to_sq as int, occupied, *bb, color_en_turno, order_pt(5)));
    }
    0
}

/// Clearing a square keeps the piece bitboards disjoint.
pub proof fn lemma_without_wf(bb: [[u64; 6]; 2], c: int, p: int, s: int)
    requires
        pieces_wf(bb),
        0 <= c < 2,
        0 <= p < 6,
        0 <= s < 64,
    ensures
        pieces_wf(without(bb, c, p, s)),
{
    let w = without(bb, c, p, s);
    let m = 1u64 << (s as u64);
    lemma_has_bit(s as u64);
    lemma_has_not(m);
    lemma_has_and(bb[c][p], !m);
    assert forall|c2: int, p2: int| 0 <= c2 < 2 && 0 <= p2 < 6 implies #[trigger] w[c2][p2] == if c2 == c && p2 == p {
        bb[c][p] & !m
    } else {
        bb[c2][p2]
    } by {
        assert(w[c2] == if c2 == c { spec_array_update(bb[c], p, bb[c][p] & !m) } else { bb[c2] });
    }
    assert forall|c2: int, p2: int, t: int| 0 <= c2 < 2 && 0 <= p2 < 6 implies #[trigger] in_bb(w[c2][p2], t) == (contents(w, t) == Some((c2, p2))) by {
        assert(in_bb(bb[c2][p2], t) == (contents(bb, t) == Some((c2, p2))));
    }
}

/// The position of the exchange after the first capture `mv`: the capturing
/// piece leaves `from`, and an en passant victim leaves its square.
pub open spec fn first_capture(b: Board, mv: Move) -> ([[u64; 6]; 2], u64) {
    let (ca, at) = match piece_on(b, mv.from as int) {
        Some(x) => x,
        None => (Color::White, PieceType::Pawn),
    };
    let bb1 = without(b.pieces, ca.idx(), at.idx(), mv.from as int);
    let occ1 = clear_sq(b.occupied, mv.from as int);
    if mv.flag == MoveFlag::EnPassant {
        let vsq = spec_rank(mv.from as int) * 8 + spec_file(mv.to as int);
        (without(bb1, ca.other().idx(), 0, vsq), clear_sq(occ1, vsq))
    } else {
        (bb1, occ1)
    }
}

/// Value of the piece taken by `mv` (a pawn for en passant).
pub open spec fn victim_value(b: Board, mv: Move) -> int {
    if mv.flag == MoveFlag::EnPassant {
        100
    } else {
        match piece_on(b, mv.to as int) {
            Some((_, pt)) => piece_value(pt.idx()),
            None => 0,
        }
    }
}

/// Value of the piece standing on `to` after `mv`.
pub open spec fn capturer_value(b: Board, mv: Move) -> int {
    match mv.promotion {
        Some(p) => piece_value(p.idx()),
        None => match piece_on(b, mv.from as int) {
            Some((_, at)) => piece_value(at.idx()),
            None => 0,
        },
    }
}

pub open spec fn mover_color(b: Board, mv: Move) -> Color {
    match piece_on(b, mv.from as int) {
        Some((c, _)) => c,
        None => Color::White,
    }
}

/// Static exchange value of `mv`: the captured value minus what the
/// opponent then wins by the cheapest-recapture exchange.
pub open spec fn see_spec(b: Board, mv: Move) -> int {
    let (bb, occ) = first_capture(b, mv);
    victim_value(b, mv) - see_val(mv.to as int, occ, bb, mover_color(b, mv).other(), capturer_value(b, mv))
}

/// The position after the first capture, computed.
fn first_capture_exec(b: &Board, mv: &Move) -> (r: ([[Bitboard; 6]; 2], Bitboard, Color, i32, i32))
    requires
        consistent(*b),
        mv.from < 64,
        mv.to < 64,
        piece_on(*b, mv.from as int) is Some,
    ensures
        (r.0, r.1) == first_capture(*b, *mv),
        pieces_wf(r.0),
        r.2 == mover_color(*b, *mv),
        r.3 == victim_value(*b, *mv),
        r.4 == capturer_value(*b, *mv),
        0 <= r.3 <= 900,
        0 <= r.4 <= 900,
{
    let to_sq = mv.to;
    let from_sq = mv.from;
    let es_al_paso = mv.flag == MoveFlag::EnPassant;
    let gain0: i32 = if es_al_paso {
        valor(PieceType::Pawn)
    } else {
        match b.piece_at(to_sq) {
            Some((_, pt)) => valor(pt),
            None => 0,
        }
    };
    let (color_atacante, atacante_tipo) = match b.piece_at(from_sq) {
        Some(x) => x,
        None => {
            proof {
                assert(false);
            }
            (Color::White, PieceType::Pawn)
        },
    };
    let mut occupied = b.occupied & !bit(from_sq);
    let mut bb = remove_from(&b.pieces, color_atacante.index(), atacante_tipo.index(), from_sq);
    proof {
        lemma_without_wf(b.pieces, color_atacante.idx(), atacante_tipo.idx(), from_sq as int);
    }
    if es_al_paso {
        let them = color_atacante.opposite();
        let victima_sq = make_square(file_of(to_sq), rank_of(from_sq));
        proof {
            lemma_without_wf(bb, them.idx(), 0, victima_sq as int);
        }
        bb = remove_from(&bb, them.index(), 0, victima_sq);
        occupied = occupied & !bit(victima_sq);
    }
    let valor_en_to = match mv.promotion {
        Some(p) => valor(p),
        None => valor(atacante_tipo),
    };
    (bb, occupied, color_atacante, gain0, valor_en_to)
}

/// Static exchange evaluation of the capture `mv`.
pub fn see(b: &Board, mv: &Move) -> (r: i32)
    requires
        consistent(*b),
        mv.from < 64,
        mv.to < 64,
        piece_on(*b, mv.from as int) is Some,
    ensures
        r == see_spec(*b, *mv),
        victim_value(*b, *mv) - capturer_value(*b, *mv) <= r <= victim_value(*b, *mv),
{
    let (bb, occupied, color_atacante, gain0, valor_en_to) = first_capture_exec(b, mv);
    let resto = see_recurse(mv.to, occupied, &bb, color_atacante.opposite(), valor_en_to);
    gain0 - resto
}

/// Exchange value when the side `c` to move may recapture with any of its
/// attackers: the best over all attackers of capturing and letting the
/// opponent answer likewise, or 0 for stopping.
pub open spec fn oracle_val(to: int, occ: u64, bb: [[u64; 6]; 2], c: Color, v: int) -> int
    decreases total(bb), 385nat,
{
    oracle_fold(to, occ, bb, c, v, 384)
}

/// Best value over the first `j` (type, square) pairs, types in increasing
/// value order, squares in increasing order; 0 when none captures.
pub open spec fn oracle_fold(to: int, occ: u64, bb: [[u64; 6]; 2], c: Color, v: int, j: nat) -> int
    decreases total(bb), j,
{
    if j == 0 {
        0
    } else {
        let prev = oracle_fold(to, occ, bb, c, v, (j - 1) as nat);
        let k = j - 1;
        let p = order_pt(k / 64);
        let s = k % 64;
        if 0 <= p < 6 && cand(to, occ, bb, c, p, s) {
            proof {
                lemma_total_without(bb, c.idx(), p, s);
            }
            let g = v - oracle_val(to, clear_sq(occ, s), without(bb, c.idx(), p, s), c.other(), piece_value(p));
            if g > prev {
                g
            } else {
                prev
            }
        } else {
            prev
        }
    }
}

proof fn lemma_oracle_skip(to: int, occ: u64, bb: [[u64; 6]; 2], c: Color, v: int, j1: nat, j2: nat)
    requires
        j1 <= j2,
        forall|k: int| j1 <= k < j2 ==> !#[trigger] cand(to, occ, bb, c, order_pt(k / 64), k % 64),
    ensures
        oracle_fold(to, occ, bb, c, v, j2) == oracle_fold(to, occ, bb, c, v, j1),
    decreases j2,
{
    if j2 > j1 {
        let k = j2 - 1;
        assert(!cand(to, occ, bb, c, order_pt(k / 64), k % 64));
        lemma_oracle_skip(to, occ, bb, c, v, j1, (j2 - 1) as nat);
    }
}

fn oracle_recurse(to_sq: Square, occupied: Bitboard, bb: &[[Bitboard; 6]; 2], color_en_turno: Color, valor_en_to: i32) -> (r: i32)
    requires
        to_sq < 64,
        pieces_wf(*bb),
        0 <= valor_en_to <= 900,
    ensures
        r == oracle_val(to_sq as int, occupied, *bb, color_en_turno, valor_en_to as int),
        0 <= r <= valor_en_to,
    decreases total(*bb),
{
    let att = atacantes_a(color_en_turno, to_sq, occupied, bb);
    let one = bit(to_sq);
    let nt = !one;
    let atacantes = att & nt;
    let c = color_en_turno.index();
    proof {
        lemma_has_not(one);
        lemma_has_and(att, nt);
    }
    let mut mejor: i32 = 0;
    let mut i: usize = 0;
    while i < 6
        invariant
            to_sq < 64,
            c == color_en_turno.idx(),
            0 <= i <= 6,
            0 <= valor_en_to <= 900,
            pieces_wf(*bb),
            forall|s: int| #[trigger] in_bb(atacantes, s) == (attacker_in(color_en_turno, to_sq as int, occupied, *bb, s) && s != to_sq),
            mejor == oracle_fold(to_sq as int, occupied, *bb, color_en_turno, valor_en_to as int, (i * 64) as nat),
            0 <= mejor <= valor_en_to,
        decreases 6 - i,
    {
        let pt = order_type(i);
        let p = pt.index();
        let mut candidatos = atacantes & bb[c][p];
        proof {
            lemma_has_and(atacantes, bb[c as int][p as int]);
        }
        let ghost mut m: int = 0;
        let ghost base: int = (i * 64) as int;
        while candidatos != 0
            invariant
                to_sq < 64,
                c == color_en_turno.idx(),
                i < 6,
                p == order_pt(i as int),
                p == pt.idx(),
                base == i * 64,
                0 <= m <= 64,
                0 <= valor_en_to <= 900,
                pieces_wf(*bb),
                forall|s: int| #[trigger] in_bb(candidatos, s) == (cand(to_sq as int, occupied, *bb, color_en_turno, p as int, s) && s >= m),
                mejor == oracle_fold(to_sq as int, occupied, *bb, color_en_turno, valor_en_to as int, (base + m) as nat),
                0 <= mejor <= valor_en_to,
            decreases 64 - m,
        {
            let ghost before = candidatos;
            let sq = pop_lsb(&mut candidatos);
            proof {
                assert forall|k: int| base + m <= k < base + sq implies !#[trigger] cand(to_sq as int, occupied, *bb, color_en_turno, order_pt(k / 64), k % 64) by {
                    assert(k / 64 == i);
                    assert(!in_bb(before, k % 64));
                }
                lemma_oracle_skip(to_sq as int, occupied, *bb, color_en_turno, valor_en_to as int, (base + m) as nat, (base + sq) as nat);
                assert((base + sq) / 64 == i && (base + sq) % 64 == sq);
                lemma_total_without(*bb, c as int, p as int, sq as int);
                lemma_without_wf(*bb, c as int, p as int, sq as int);
            }
            let occ2 = occupied & !bit(sq);
            proof {
                assert(occ2 == clear_sq(occupied, sq as int));
            }
            let bb2 = remove_from(bb, c, p, sq);
            let v = valor(pt);
            let rest = oracle_recurse(to_sq, occ2, &bb2, color_en_turno.opposite(), v);
            let g = valor_en_to - rest;
            proof {
                let j = (base + sq + 1) as nat;
                assert(j - 1 == base + sq);
                assert(cand(to_sq as int, occupied, *bb, color_en_turno, p as int, sq as int));
            }
            if g > mejor {
                mejor = g;
            }
            proof {
                m = sq + 1;
            }
        }
        proof {
            crate::bitboard::lemma_zero_iff_empty(candidatos);
            assert forall|k: int| base + m <= k < base + 64 implies !#[trigger] cand(to_sq as int, occupied, *bb, color_en_turno, order_pt(k / 64), k % 64) by {
                assert(k / 64 == i);
                assert(!in_bb(candidatos, k % 64));
            }
            lemma_oracle_skip(to_sq as int, occupied, *bb, color_en_turno, valor_en_to as int, (base + m) as nat, (base + 64) as nat);
        }
        i = i + 1;
    }
    mejor
}

/// Exchange value of `mv` when every recapture by every attacker is tried.
pub open spec fn see_oracle_spec(b: Board, mv: Move) -> int {
    let (bb, occ) = first_capture(b, mv);
    victim_value(b, mv) - oracle_val(mv.to as int, occ, bb, mover_color(b, mv).other(), capturer_value(b, mv))
}

/// Brute-force exchange evaluation of the capture `mv`: like [`see`], but at
/// each step every attacker is tried and the best is kept.
pub fn see_oracle(b: &Board, mv: &Move) -> (r: i32)
    requires
        consistent(*b),
        mv.from < 64,
        mv.to < 64,
        piece_on(*b, mv.from as int) is Some,
    ensures
        r == see_oracle_spec(*b, *mv),
        victim_value(*b, *mv) - capturer_value(*b, *mv) <= r <= victim_value(*b, *mv),
{
    let (bb, occupied, color_atacante, gain0, valor_en_to) = first_capture_exec(b, mv);
    let resto = oracle_recurse(mv.to, occupied, &bb, color_atacante.opposite(), valor_en_to);
    gain0 - resto
}

/// The exchange after a capture: the victim's value less what the
/// opponent can win back from the piece left on the destination, which is
/// the promoted piece for a promotion and the moving piece otherwise.
pub proof fn lemma_see_piece_left(b: Board, mv: Move)
    ensures
        mv.promotion matches Some(p) ==> see_spec(b, mv) == victim_value(b, mv) - see_val(
            mv.to as int,
            first_capture(b, mv).1,
            first_capture(b, mv).0,
            mover_color(b, mv).other(),
            piece_value(p.idx()),
        ),
        mv.promotion is None ==> (piece_on(b, mv.from as int) matches Some((_, at)) ==> see_spec(b, mv)
            == victim_value(b, mv) - see_val(
            mv.to as int,
            first_capture(b, mv).1,
            first_capture(b, mv).0,
            mover_color(b, mv).other(),
            piece_value(at.idx()),
        )),
{
}

} // verus!
