//! Pseudo-legal and legal move generation.
use vstd::prelude::*;
use crate::bitboard::{
    lemma_square_coords, lemma_coords_square, in_bb, bit, pop_lsb, lemma_has_and, lemma_has_not, pawn_attacks, pawn_step, Bitboard, EMPTY,
};
use crate::board::{
    CASTLE_WK, CASTLE_WQ, CASTLE_BK, CASTLE_BQ, Board, piece_on, contents, consistent, wf, attacked_by,
    attacker_on, move_ok, board_after, is_after, has_king, king_sq, ep_victim_sq, castle_rook,
    castle_squares_ok, after_piece, moving_type, piece_attacks_sq, piece_attacks, has_sq, lemma_occupancy, lemma_piece_on_contents, lemma_contents_on_board,
};
use crate::types::{Color, PieceType, Move, MoveFlag, Square, spec_file, spec_rank, file_of, rank_of, make_square};

verus! {

/// Square `t` holds a piece of `c`.
pub open spec fn holds_color(b: Board, t: int, c: Color) -> bool {
    piece_on(b, t) matches Some((x, _)) && x == c
}

/// A normal (non-pawn, non-castling) move of a piece of type `pt`: to an
/// attacked square not held by an own piece, flagged as a capture exactly
/// when the target square is occupied.
pub open spec fn piece_move(b: Board, pt: PieceType, m: Move) -> bool {
    let us = b.turn;
    &&& m.from < 64
    &&& m.to < 64
    &&& piece_on(b, m.from as int) == Some((us, pt))
    &&& m.promotion is None
    &&& piece_attacks_sq(us, pt, m.from as int, m.to as int, b.occupied)
    &&& !holds_color(b, m.to as int, us)
    &&& m.flag == if piece_on(b, m.to as int) is Some {
        MoveFlag::Capture
    } else {
        MoveFlag::Quiet
    }
}

/// The moves of `v` from position `n0` on are pairwise distinct.
pub open spec fn distinct_from(v: Seq<Move>, n0: int) -> bool {
    forall|i: int, j: int| n0 <= i < j < v.len() ==> v[i] != v[j]
}

/// `m` occurs in `v` at or after position `n0`.
pub open spec fn occurs_from(v: Seq<Move>, n0: int, m: Move) -> bool {
    exists|i: int| n0 <= i < v.len() && v[i] == m
}

/// Appends the normal moves of all pieces of type `pt` of the side to move.
fn gen_piece_moves(b: &Board, us: Color, pt: PieceType, own: Bitboard, occ: Bitboard, moves: &mut Vec<Move>)
    requires
        consistent(*b),
        us == b.turn,
        own == b.occupied_co[us.idx()],
        occ == b.occupied,
    ensures
        final(moves)@.len() >= old(moves)@.len(),
        forall|i: int| 0 <= i < old(moves)@.len() ==> final(moves)@[i] == old(moves)@[i],
        forall|i: int| old(moves)@.len() <= i < final(moves)@.len() ==> piece_move(*b, pt, #[trigger] final(moves)@[i]),
        forall|m: Move| piece_move(*b, pt, m) ==> occurs_from(final(moves)@, old(moves)@.len() as int, m),
        distinct_from(final(moves)@, old(moves)@.len() as int),
{
    let ghost n0 = moves@.len() as int;
    let ghost orig = b.pieces[us.idx()][pt.idx()];
    proof {
        lemma_occupancy(*b);
    }
    let mut pieces = b.pieces[us.index()][pt.index()];
    while pieces != 0
        invariant
            consistent(*b),
            us == b.turn,
            own == b.occupied_co[us.idx()],
            occ == b.occupied,
            orig == b.pieces[us.idx()][pt.idx()],
            forall|s: int| #[trigger] in_bb(pieces, s) ==> in_bb(orig, s),
            forall|s: int| #[trigger] in_bb(b.occupied, s) == (contents(b.pieces, s) is Some),
            forall|s: int| #[trigger] in_bb(own, s) == (contents(b.pieces, s) matches Some((c, _)) && c == us.idx()),
            moves@.len() >= n0,
            forall|i: int| 0 <= i < n0 ==> moves@[i] == old(moves)@[i],
            n0 == old(moves)@.len(),
            forall|i: int| n0 <= i < moves@.len() ==> piece_move(*b, pt, #[trigger] moves@[i]) && !in_bb(pieces, moves@[i].from as int),
            forall|m: Move| piece_move(*b, pt, m) && !in_bb(pieces, m.from as int) ==> occurs_from(moves@, n0, m),
            distinct_from(moves@, n0),
        decreases crate::bitboard::pop_count(pieces),
    {
        let ghost before = pieces;
        let from = pop_lsb(&mut pieces);
        proof {
            lemma_piece_on_contents(*b, from as int);
            lemma_contents_on_board(b.pieces, from as int);
        }
        let att = piece_attacks(pt, from, occ, us);
        let notown = !own;
        let mut targets = att & notown;
        proof {
            lemma_has_not(own);
            lemma_has_and(att, notown);
        }
        let ghost targets0 = targets;
        let ghost n1 = moves@.len() as int;
        while targets != 0
            invariant
                consistent(*b),
                us == b.turn,
                occ == b.occupied,
                own == b.occupied_co[us.idx()],
                from < 64,
                piece_on(*b, from as int) == Some((us, pt)),
                in_bb(before, from as int),
                !in_bb(pieces, from as int),
                forall|s: int| #[trigger] in_bb(pieces, s) == (in_bb(before, s) && s != from),
                forall|s: int| #[trigger] in_bb(b.occupied, s) == (contents(b.pieces, s) is Some),
                forall|s: int| #[trigger] in_bb(own, s) == (contents(b.pieces, s) matches Some((c, _)) && c == us.idx()),
                forall|t: int| #[trigger] in_bb(targets0, t) == (piece_attacks_sq(us, pt, from as int, t, occ) && 0 <= t < 64 && !in_bb(own, t)),
                forall|t: int| #[trigger] in_bb(targets, t) ==> in_bb(targets0, t),
                n0 <= n1 <= moves@.len(),
                forall|i: int| 0 <= i < n1 ==> moves@[i] == old(moves)@[i] || i >= n0,
                forall|i: int| 0 <= i < n0 ==> moves@[i] == old(moves)@[i],
                n0 == old(moves)@.len(),
                forall|i: int| n0 <= i < n1 ==> piece_move(*b, pt, #[trigger] moves@[i]) && !in_bb(before, moves@[i].from as int),
                forall|i: int| n1 <= i < moves@.len() ==> piece_move(*b, pt, #[trigger] moves@[i]) && moves@[i].from == from && !in_bb(targets, moves@[i].to as int),
                forall|m: Move| piece_move(*b, pt, m) && !in_bb(before, m.from as int) ==> occurs_from(moves@, n0, m),
                forall|m: Move| piece_move(*b, pt, m) && m.from == from && !in_bb(targets, m.to as int) ==> occurs_from(moves@, n0, m),
                distinct_from(moves@, n0),
            decreases crate::bitboard::pop_count(targets),
        {
            let ghost tb = targets;
            let to = pop_lsb(&mut targets);
            let flag = if has_sq(occ, to) {
                MoveFlag::Capture
            } else {
                MoveFlag::Quiet
            };
            let m = Move::new(from, to, None, flag);
            proof {
                lemma_piece_on_contents(*b, to as int);
                lemma_contents_on_board(b.pieces, to as int);
                assert(piece_move(*b, pt, m));
            }
            let ghost prev = moves@;
            moves.push(m);
            proof {
                assert forall|mm: Move| piece_move(*b, pt, mm) && !in_bb(before, mm.from as int) implies occurs_from(moves@, n0, mm) by {
                    let i = choose|i: int| n0 <= i < prev.len() && prev[i] == mm;
                    assert(moves@[i] == mm);
                }
                assert forall|mm: Move| piece_move(*b, pt, mm) && mm.from == from && !in_bb(targets, mm.to as int) implies occurs_from(moves@, n0, mm) by {
                    if mm.to == to {
                        lemma_piece_on_contents(*b, to as int);
                        assert(mm == m);
                        assert(moves@[prev.len() as int] == mm);
                    } else {
                        let i = choose|i: int| n0 <= i < prev.len() && prev[i] == mm;
                        assert(moves@[i] == mm);
                    }
                }
                assert forall|i: int, j: int| n0 <= i < j < moves@.len() implies moves@[i] != moves@[j] by {
                    if j == prev.len() {
                        if i >= n1 {
                            assert(!in_bb(tb, prev[i].to as int) || prev[i].to != to);
                        }
                    }
                }
            }
        }
        proof {
            crate::bitboard::lemma_zero_iff_empty(targets);
            assert forall|m: Move| piece_move(*b, pt, m) && !in_bb(pieces, m.from as int) implies occurs_from(moves@, n0, m) by {
                if m.from == from {
                    lemma_piece_on_contents(*b, m.to as int);
                    lemma_contents_on_board(b.pieces, m.to as int);
                } else {
                    lemma_piece_on_contents(*b, m.from as int);
                    assert(!in_bb(before, m.from as int));
                }
            }
        }
    }
    proof {
        crate::bitboard::lemma_zero_iff_empty(pieces);
        assert forall|m: Move| piece_move(*b, pt, m) implies occurs_from(moves@, n0, m) by {
            lemma_contents_on_board(b.pieces, m.from as int);
        }
    }
}

pub open spec fn pawn_dir(c: Color) -> int {
    if c == Color::White {
        1
    } else {
        -1
    }
}

pub open spec fn start_rank(c: Color) -> int {
    if c == Color::White {
        1
    } else {
        6
    }
}

pub open spec fn promo_rank(c: Color) -> int {
    if c == Color::White {
        7
    } else {
        0
    }
}

/// The promotion field is one of the four promotion pieces when the move
/// reaches the last rank, and empty otherwise.
pub open spec fn promo_ok(p: Option<PieceType>, needed: bool) -> bool {
    if needed {
        p matches Some(x) && (x == PieceType::Queen || x == PieceType::Rook || x == PieceType::Bishop
            || x == PieceType::Knight)
    } else {
        p is None
    }
}

pub open spec fn pawn_single(b: Board, m: Move) -> bool {
    let us = b.turn;
    &&& spec_file(m.to as int) == spec_file(m.from as int)
    &&& spec_rank(m.to as int) == spec_rank(m.from as int) + pawn_dir(us)
    &&& piece_on(b, m.to as int) is None
    &&& m.flag == MoveFlag::Quiet
    &&& promo_ok(m.promotion, spec_rank(m.to as int) == promo_rank(us))
}

pub open spec fn pawn_double(b: Board, m: Move) -> bool {
    let us = b.turn;
    &&& spec_rank(m.from as int) == start_rank(us)
    &&& spec_file(m.to as int) == spec_file(m.from as int)
    &&& spec_rank(m.to as int) == spec_rank(m.from as int) + 2 * pawn_dir(us)
    &&& piece_on(b, m.from + 8 * pawn_dir(us)) is None
    &&& piece_on(b, m.to as int) is None
    &&& m.flag == MoveFlag::DoublePush
    &&& m.promotion is None
}

pub open spec fn pawn_capture(b: Board, m: Move) -> bool {
    let us = b.turn;
    &&& pawn_step(us, m.from as int, m.to as int)
    &&& holds_color(b, m.to as int, us.other())
    &&& m.flag == MoveFlag::Capture
    &&& promo_ok(m.promotion, spec_rank(m.to as int) == promo_rank(us))
}

pub open spec fn pawn_ep(b: Board, m: Move) -> bool {
    &&& b.ep_square == Some(m.to)
    &&& pawn_step(b.turn, m.from as int, m.to as int)
    &&& m.flag == MoveFlag::EnPassant
    &&& m.promotion is None
}

/// A pawn move of the side to move: single or double push to empty squares,
/// diagonal capture of an enemy piece, or en passant capture onto the en
/// passant square; promotions to the last rank come in four versions.
pub open spec fn pawn_move(b: Board, m: Move) -> bool {
    &&& m.from < 64
    &&& m.to < 64
    &&& piece_on(b, m.from as int) == Some((b.turn, PieceType::Pawn))
    &&& (pawn_single(b, m) || pawn_double(b, m) || pawn_capture(b, m) || pawn_ep(b, m))
}

/// Appends `from`-`to` with the given flag: four times, once per promotion
/// piece, when the move promotes, once without promotion otherwise.
fn push_pawn_move(moves: &mut Vec<Move>, from: Square, to: Square, is_promo: bool, flag: MoveFlag)
    ensures
        final(moves)@.len() == old(moves)@.len() + if is_promo {
            4int
        } else {
            1int
        },
        forall|i: int| 0 <= i < old(moves)@.len() ==> final(moves)@[i] == old(moves)@[i],
        forall|i: int|
            old(moves)@.len() <= i < final(moves)@.len() ==> #[trigger] final(moves)@[i].from == from
                && final(moves)@[i].to == to && final(moves)@[i].flag == flag && promo_ok(
                final(moves)@[i].promotion,
                is_promo,
            ),
        forall|m: Move|
            m.from == from && m.to == to && m.flag == flag && promo_ok(m.promotion, is_promo)
                ==> occurs_from(final(moves)@, old(moves)@.len() as int, m),
        distinct_from(final(moves)@, old(moves)@.len() as int),
{
    let ghost n0 = moves@.len() as int;
    if is_promo {
        moves.push(Move::new(from, to, Some(PieceType::Queen), flag));
        moves.push(Move::new(from, to, Some(PieceType::Rook), flag));
        moves.push(Move::new(from, to, Some(PieceType::Bishop), flag));
        moves.push(Move::new(from, to, Some(PieceType::Knight), flag));
        proof {
            assert forall|m: Move|
                m.from == from && m.to == to && m.flag == flag && promo_ok(m.promotion, is_promo)
                    implies occurs_from(moves@, n0, m) by {
                if m.promotion == Some(PieceType::Queen) {
                    assert(moves@[n0] == m);
                } else if m.promotion == Some(PieceType::Rook) {
                    assert(moves@[n0 + 1] == m);
                } else if m.promotion == Some(PieceType::Bishop) {
                    assert(moves@[n0 + 2] == m);
                } else {
                    assert(moves@[n0 + 3] == m);
                }
            }
        }
    } else {
        moves.push(Move::new(from, to, None, flag));
        proof {
            assert forall|m: Move|
                m.from == from && m.to == to && m.flag == flag && promo_ok(m.promotion, is_promo)
                    implies occurs_from(moves@, n0, m) by {
                assert(moves@[n0] == m);
            }
        }
    }
}

pub open spec fn pawn_push_move(b: Board, m: Move) -> bool {
    pawn_single(b, m) || pawn_double(b, m)
}

/// The pushes of the pawn on `from` lie in `v[lo..hi]`, every move there is a
/// push from `from`, and they are distinct.
pub open spec fn segment(v: Seq<Move>, lo: int, hi: int, b: Board, from: int, kind: int) -> bool {
    &&& 0 <= lo <= hi <= v.len()
    &&& forall|i: int|
        lo <= i < hi ==> #[trigger] v[i].from == from && v[i].from < 64 && v[i].to < 64
            && pawn_kind(b, v[i], kind)
    &&& forall|m: Move|
        m.from == from && m.from < 64 && m.to < 64 && pawn_kind(b, m, kind) ==> exists|i: int|
            lo <= i < hi && v[i] == m
    &&& forall|i: int, j: int| lo <= i < j < hi ==> v[i] != v[j]
}

pub open spec fn pawn_kind(b: Board, m: Move, kind: int) -> bool {
    if kind == 0 {
        pawn_push_move(b, m)
    } else if kind == 1 {
        pawn_capture(b, m)
    } else {
        pawn_ep(b, m)
    }
}

proof fn lemma_segment_keep(v: Seq<Move>, w: Seq<Move>, lo: int, hi: int, b: Board, from: int, kind: int)
    requires
        segment(v, lo, hi, b, from, kind),
        w.len() >= v.len(),
        forall|i: int| 0 <= i < v.len() ==> w[i] == v[i],
    ensures
        segment(w, lo, hi, b, from, kind),
{
    assert forall|m: Move|
        m.from == from && m.from < 64 && m.to < 64 && pawn_kind(b, m, kind) implies exists|i: int|
        lo <= i < hi && w[i] == m by {
        let i = choose|i: int| lo <= i < hi && v[i] == m;
        assert(w[i] == m);
    }
}

/// Appends the single and double pushes of the pawn on `from`.
fn gen_pawn_pushes(b: &Board, us: Color, from: Square, occ: Bitboard, moves: &mut Vec<Move>)
    requires
        consistent(*b),
        us == b.turn,
        from < 64,
        piece_on(*b, from as int) == Some((us, PieceType::Pawn)),
        occ == b.occupied,
    ensures
        final(moves)@.len() >= old(moves)@.len(),
        forall|i: int| 0 <= i < old(moves)@.len() ==> final(moves)@[i] == old(moves)@[i],
        segment(final(moves)@, old(moves)@.len() as int, final(moves)@.len() as int, *b, from as int, 0),
{
    proof {
        lemma_occupancy(*b);
        lemma_square_coords(from as int);
    }
    let ghost n0 = moves@.len() as int;
    let f = file_of(from) as i32;
    let r = rank_of(from) as i32;
    let (push_dir, start_rk, promo_rk): (i32, u8, u8) = match us {
        Color::White => (1, 1, 7),
        Color::Black => (-1, 6, 0),
    };
    let one_rank = r + push_dir;
    if 0 <= one_rank && one_rank < 8 {
        let to = make_square(f as u8, one_rank as u8);
        if !has_sq(occ, to) {
            proof {
                lemma_piece_on_contents(*b, to as int);
            }
            push_pawn_move(moves, from, to, promo_rk == one_rank as u8, MoveFlag::Quiet);
            let ghost na = moves@.len() as int;
            let ghost v1 = moves@;
            proof {
                assert(push_dir == pawn_dir(us) && promo_rk == promo_rank(us) && start_rk == start_rank(us));
                assert(piece_on(*b, to as int) is None);
                assert(to == from + 8 * pawn_dir(us));
                assert forall|i: int| n0 <= i < na implies #[trigger] v1[i].from == from && v1[i].from < 64 && v1[i].to < 64 && pawn_kind(*b, v1[i], 0) by {
                    assert(v1[i].from == from);
                    assert(pawn_single(*b, v1[i]));
                }
                assert forall|m: Move|
                    m.from == from && m.from < 64 && m.to < 64 && pawn_single(*b, m) implies exists|i: int|
                    n0 <= i < na && v1[i] == m by {
                    lemma_square_coords(m.to as int);
                    assert(m.to == to);
                    assert(occurs_from(v1, n0, m));
                }
            }
            if rank_of(from) == start_rk {
                let two_rank = r + 2 * push_dir;
                let to2 = make_square(f as u8, two_rank as u8);
                if !has_sq(occ, to2) {
                    proof {
                        lemma_piece_on_contents(*b, to2 as int);
                    }
                    moves.push(Move::new(from, to2, None, MoveFlag::DoublePush));
                    proof {
                        let m2 = moves@[na];
                        assert(pawn_double(*b, m2));
                        assert forall|i: int| n0 <= i < moves@.len() implies #[trigger] moves@[i].from == from && moves@[i].from < 64 && moves@[i].to < 64 && pawn_kind(*b, moves@[i], 0) by {
                            if i < na {
                                assert(moves@[i] == v1[i]);
                                assert(v1[i].from == from);
                            }
                        }
                        assert forall|m: Move|
                            m.from == from && m.from < 64 && m.to < 64 && pawn_kind(*b, m, 0) implies exists|i: int|
                            n0 <= i < moves@.len() && moves@[i] == m by {
                            lemma_square_coords(m.to as int);
                            if m.flag == MoveFlag::DoublePush {
                                assert(m.to == to2);
                                assert(moves@[na] == m);
                            } else {
                                let i = choose|i: int| n0 <= i < na && v1[i] == m;
                                assert(moves@[i] == m);
                            }
                        }
                        assert forall|i: int, j: int| n0 <= i < j < moves@.len() implies moves@[i] != moves@[j] by {
                            if j == na {
                                assert(moves@[i] == v1[i]);
                                assert(v1[i].from == from);
                            }
                        }
                    }
                } else {
                    proof {
                        lemma_piece_on_contents(*b, to2 as int);
                        assert forall|m: Move|
                            m.from == from && m.from < 64 && m.to < 64 && pawn_kind(*b, m, 0) implies exists|i: int|
                            n0 <= i < moves@.len() && moves@[i] == m by {
                            lemma_square_coords(m.to as int);
                        }
                    }
                }
            } else {
                proof {
                    assert forall|m: Move|
                        m.from == from && m.from < 64 && m.to < 64 && pawn_kind(*b, m, 0) implies exists|i: int|
                        n0 <= i < moves@.len() && moves@[i] == m by {
                        lemma_square_coords(m.to as int);
                    }
                }
            }
        } else {
            proof {
                lemma_piece_on_contents(*b, to as int);
                assert forall|m: Move|
                    m.from == from && m.from < 64 && m.to < 64 && pawn_kind(*b, m, 0) implies false by {
                    lemma_square_coords(m.to as int);
                    lemma_piece_on_contents(*b, m.to as int);
                    lemma_piece_on_contents(*b, m.from + 8 * pawn_dir(us));
                }
            }
        }
    } else {
        proof {
            assert forall|m: Move|
                m.from == from && m.from < 64 && m.to < 64 && pawn_kind(*b, m, 0) implies false by {
                lemma_square_coords(m.to as int);
            }
        }
    }
}

/// Appends the diagonal captures of the pawn on `from`.
fn gen_pawn_captures(b: &Board, us: Color, from: Square, enemy: Bitboard, moves: &mut Vec<Move>)
    requires
        consistent(*b),
        us == b.turn,
        from < 64,
        piece_on(*b, from as int) == Some((us, PieceType::Pawn)),
        enemy == b.occupied_co[us.other().idx()],
    ensures
        final(moves)@.len() >= old(moves)@.len(),
        forall|i: int| 0 <= i < old(moves)@.len() ==> final(moves)@[i] == old(moves)@[i],
        segment(final(moves)@, old(moves)@.len() as int, final(moves)@.len() as int, *b, from as int, 1),
{
    proof {
        lemma_occupancy(*b);
    }
    let ghost n1 = moves@.len() as int;
    let promo_rk: u8 = match us {
        Color::White => 7,
        Color::Black => 0,
    };
    let pa = pawn_attacks(us, from);
    let mut att = pa & enemy;
    proof {
        lemma_has_and(pa, enemy);
    }
    let ghost att0 = att;
    while att != 0
        invariant
            consistent(*b),
            us == b.turn,
            from < 64,
            promo_rk as int == promo_rank(us),
            forall|s: int| #[trigger] in_bb(enemy, s) == (contents(b.pieces, s) matches Some((c, _)) && c == us.other().idx()),
            forall|t: int| #[trigger] in_bb(att0, t) == (pawn_step(us, from as int, t) && in_bb(enemy, t)),
            forall|t: int| #[trigger] in_bb(att, t) ==> in_bb(att0, t),
            n1 <= moves@.len(),
            forall|i: int| 0 <= i < n1 ==> moves@[i] == old(moves)@[i],
            n1 == old(moves)@.len(),
            forall|i: int| n1 <= i < moves@.len() ==> #[trigger] moves@[i].from == from && moves@[i].to < 64 && pawn_capture(*b, moves@[i]) && !in_bb(att, moves@[i].to as int),
            forall|m: Move| m.from == from && m.to < 64 && pawn_capture(*b, m) && !in_bb(att, m.to as int) ==> exists|i: int| n1 <= i < moves@.len() && moves@[i] == m,
            forall|i: int, j: int| n1 <= i < j < moves@.len() ==> moves@[i] != moves@[j],
        decreases crate::bitboard::pop_count(att),
    {
        let ghost ab = att;
        let to = pop_lsb(&mut att);
        let is_promo = rank_of(to) == promo_rk;
        let ghost prev = moves@;
        proof {
            lemma_piece_on_contents(*b, to as int);
            lemma_contents_on_board(b.pieces, to as int);
        }
        push_pawn_move(moves, from, to, is_promo, MoveFlag::Capture);
        proof {
            assert(in_bb(enemy, to as int));
            assert(in_bb(att0, to as int));
            assert(holds_color(*b, to as int, us.other()));
            assert forall|i: int| n1 <= i < moves@.len() implies #[trigger] moves@[i].from == from && moves@[i].to < 64 && pawn_capture(*b, moves@[i]) && !in_bb(att, moves@[i].to as int) by {
                if i < prev.len() {
                    assert(moves@[i] == prev[i]);
                    assert(prev[i].from == from);
                    assert(!in_bb(ab, prev[i].to as int));
                } else {
                    assert(moves@[i].from == from);
                    assert(moves@[i].to == to);
                }
            }
            assert forall|i: int, j: int| n1 <= i < j < moves@.len() implies moves@[i] != moves@[j] by {
                if i < prev.len() && j >= prev.len() {
                    assert(moves@[i] == prev[i]);
                    assert(prev[i].from == from);
                    assert(pawn_capture(*b, prev[i]) && !in_bb(ab, prev[i].to as int));
                    assert(moves@[j].from == from);
                    assert(moves@[j].to == to);
                }
            }
            assert forall|m: Move| m.from == from && m.to < 64 && pawn_capture(*b, m) && !in_bb(att, m.to as int) implies exists|i: int| n1 <= i < moves@.len() && moves@[i] == m by {
                if m.to == to {
                    assert(occurs_from(moves@, prev.len() as int, m));
                } else {
                    let i = choose|i: int| n1 <= i < prev.len() && prev[i] == m;
                    assert(moves@[i] == m);
                }
            }
        }
    }
    proof {
        crate::bitboard::lemma_zero_iff_empty(att);
        assert forall|m: Move| m.from == from && m.from < 64 && m.to < 64 && pawn_kind(*b, m, 1) implies exists|i: int| n1 <= i < moves@.len() && moves@[i] == m by {
            lemma_piece_on_contents(*b, m.to as int);
            lemma_contents_on_board(b.pieces, m.to as int);
        }
        assert forall|i: int| n1 <= i < moves@.len() implies #[trigger] moves@[i].from == from && moves@[i].from < 64 && moves@[i].to < 64 && pawn_kind(*b, moves@[i], 1) by {
            assert(moves@[i].from == from);
        }
    }
}

/// Appends the en passant capture of the pawn on `from`, if it has one.
fn gen_pawn_ep(b: &Board, us: Color, from: Square, moves: &mut Vec<Move>)
    requires
        consistent(*b),
        us == b.turn,
        from < 64,
    ensures
        final(moves)@.len() >= old(moves)@.len(),
        forall|i: int| 0 <= i < old(moves)@.len() ==> final(moves)@[i] == old(moves)@[i],
        segment(final(moves)@, old(moves)@.len() as int, final(moves)@.len() as int, *b, from as int, 2),
{
    let ghost n2 = moves@.len() as int;
    let pa = pawn_attacks(us, from);
    match b.ep_square {
        Some(ep) => {
            if has_sq(pa, ep) {
                moves.push(Move::new(from, ep, None, MoveFlag::EnPassant));
                proof {
                    assert forall|m: Move| m.from == from && m.from < 64 && m.to < 64 && pawn_kind(*b, m, 2) implies exists|i: int| n2 <= i < moves@.len() && moves@[i] == m by {
                        assert(moves@[n2] == m);
                    }
                }
            }
        },
        None => {},
    }
}

/// Appends all moves of the pawn on `from`.
fn gen_pawn_from(b: &Board, us: Color, from: Square, enemy: Bitboard, occ: Bitboard, moves: &mut Vec<Move>)
    requires
        consistent(*b),
        us == b.turn,
        from < 64,
        piece_on(*b, from as int) == Some((us, PieceType::Pawn)),
        enemy == b.occupied_co[us.other().idx()],
        occ == b.occupied,
    ensures
        final(moves)@.len() >= old(moves)@.len(),
        forall|i: int| 0 <= i < old(moves)@.len() ==> final(moves)@[i] == old(moves)@[i],
        forall|i: int|
            old(moves)@.len() <= i < final(moves)@.len() ==> pawn_move(*b, #[trigger] final(moves)@[i])
                && final(moves)@[i].from == from,
        forall|m: Move|
            pawn_move(*b, m) && m.from == from ==> occurs_from(final(moves)@, old(moves)@.len() as int, m),
        distinct_from(final(moves)@, old(moves)@.len() as int),
{
    let ghost n0 = moves@.len() as int;
    gen_pawn_pushes(b, us, from, occ, moves);
    let ghost n1 = moves@.len() as int;
    let ghost v1 = moves@;
    gen_pawn_captures(b, us, from, enemy, moves);
    let ghost n2 = moves@.len() as int;
    let ghost v2 = moves@;
    proof {
        lemma_segment_keep(v1, moves@, n0, n1, *b, from as int, 0);
    }
    gen_pawn_ep(b, us, from, moves);
    proof {
        lemma_segment_keep(v2, moves@, n0, n1, *b, from as int, 0);
        lemma_segment_keep(v2, moves@, n1, n2, *b, from as int, 1);
        let n3 = moves@.len() as int;
        assert forall|m: Move| pawn_move(*b, m) && m.from == from implies occurs_from(moves@, n0, m) by {
            if pawn_single(*b, m) || pawn_double(*b, m) {
                assert(pawn_kind(*b, m, 0));
                let i = choose|i: int| n0 <= i < n1 && moves@[i] == m;
            } else if pawn_capture(*b, m) {
                assert(pawn_kind(*b, m, 1));
                let i = choose|i: int| n1 <= i < n2 && moves@[i] == m;
            } else {
                assert(pawn_kind(*b, m, 2));
                let i = choose|i: int| n2 <= i < n3 && moves@[i] == m;
            }
        }
        assert forall|i: int| n0 <= i < n3 implies pawn_move(*b, #[trigger] moves@[i]) && moves@[i].from == from by {
            assert(moves@[i].from == from);
        }
        assert forall|i: int, j: int| n0 <= i < j < n3 implies moves@[i] != moves@[j] by {
            assert(moves@[i].from == from);
            assert(moves@[j].from == from);
            if i < n1 && j >= n1 {
                assert(moves@[i].flag != moves@[j].flag);
            } else if n1 <= i < n2 && j >= n2 {
                assert(moves@[i].flag != moves@[j].flag);
            }
        }
    }
}

/// Appends the moves of all pawns of the side to move.
fn gen_pawn_moves(b: &Board, us: Color, enemy: Bitboard, occ: Bitboard, moves: &mut Vec<Move>)
    requires
        consistent(*b),
        us == b.turn,
        enemy == b.occupied_co[us.other().idx()],
        occ == b.occupied,
    ensures
        final(moves)@.len() >= old(moves)@.len(),
        forall|i: int| 0 <= i < old(moves)@.len() ==> final(moves)@[i] == old(moves)@[i],
        forall|i: int| old(moves)@.len() <= i < final(moves)@.len() ==> pawn_move(*b, #[trigger] final(moves)@[i]),
        forall|m: Move| pawn_move(*b, m) ==> occurs_from(final(moves)@, old(moves)@.len() as int, m),
        distinct_from(final(moves)@, old(moves)@.len() as int),
{
    let ghost n0 = moves@.len() as int;
    let ghost orig = b.pieces[us.idx()][0];
    let mut pawns = b.pieces[us.index()][0];
    while pawns != 0
        invariant
            consistent(*b),
            us == b.turn,
            enemy == b.occupied_co[us.other().idx()],
            occ == b.occupied,
            orig == b.pieces[us.idx()][0],
            forall|s: int| #[trigger] in_bb(pawns, s) ==> in_bb(orig, s),
            moves@.len() >= n0,
            forall|i: int| 0 <= i < n0 ==> moves@[i] == old(moves)@[i],
            n0 == old(moves)@.len(),
            forall|i: int| n0 <= i < moves@.len() ==> pawn_move(*b, #[trigger] moves@[i]) && !in_bb(pawns, moves@[i].from as int),
            forall|m: Move| pawn_move(*b, m) && !in_bb(pawns, m.from as int) ==> occurs_from(moves@, n0, m),
            distinct_from(moves@, n0),
        decreases crate::bitboard::pop_count(pawns),
    {
        let ghost before = pawns;
        let ghost prev = moves@;
        let from = pop_lsb(&mut pawns);
        proof {
            lemma_piece_on_contents(*b, from as int);
            lemma_contents_on_board(b.pieces, from as int);
        }
        gen_pawn_from(b, us, from, enemy, occ, moves);
        proof {
            assert forall|i: int| n0 <= i < moves@.len() implies pawn_move(*b, #[trigger] moves@[i]) && !in_bb(pawns, moves@[i].from as int) by {
                if i < prev.len() {
                    assert(moves@[i] == prev[i]);
                }
            }
            assert forall|m: Move| pawn_move(*b, m) && !in_bb(pawns, m.from as int) implies occurs_from(moves@, n0, m) by {
                if m.from == from {
                    assert(occurs_from(moves@, prev.len() as int, m));
                } else {
                    let i = choose|i: int| n0 <= i < prev.len() && prev[i] == m;
                    assert(moves@[i] == m);
                }
            }
            assert forall|i: int, j: int| n0 <= i < j < moves@.len() implies moves@[i] != moves@[j] by {
                if i < prev.len() && j >= prev.len() {
                    assert(moves@[i] == prev[i]);
                    assert(!in_bb(before, prev[i].from as int));
                    assert(moves@[j].from == from);
                } else if j < prev.len() {
                    assert(moves@[i] == prev[i]);
                    assert(moves@[j] == prev[j]);
                }
            }
        }
    }
    proof {
        crate::bitboard::lemma_zero_iff_empty(pawns);
        assert forall|m: Move| pawn_move(*b, m) implies occurs_from(moves@, n0, m) by {
            lemma_contents_on_board(b.pieces, m.from as int);
        }
    }
}

/// A castling move of the side to move: the right is held, the squares
/// between king and rook are empty, and the king's square, the square it
/// crosses and its destination are not attacked.
pub open spec fn castle_move(b: Board, m: Move) -> bool {
    let occ = b.occupied;
    let cr = b.castling_rights;
    if b.turn == Color::White {
        (m == Move { from: 4, to: 6, promotion: None, flag: MoveFlag::CastleKing } && cr & CASTLE_WK
            != 0 && !in_bb(occ, 5) && !in_bb(occ, 6) && !attacked_by(b, 4, Color::Black)
            && !attacked_by(b, 5, Color::Black) && !attacked_by(b, 6, Color::Black)) || (m == Move {
            from: 4,
            to: 2,
            promotion: None,
            flag: MoveFlag::CastleQueen,
        } && cr & CASTLE_WQ != 0 && !in_bb(occ, 1) && !in_bb(occ, 2) && !in_bb(occ, 3)
            && !attacked_by(b, 4, Color::Black) && !attacked_by(b, 3, Color::Black) && !attacked_by(
            b,
            2,
            Color::Black,
        ))
    } else {
        (m == Move { from: 60, to: 62, promotion: None, flag: MoveFlag::CastleKing } && cr
            & CASTLE_BK != 0 && !in_bb(occ, 61) && !in_bb(occ, 62) && !attacked_by(b, 60, Color::White)
            && !attacked_by(b, 61, Color::White) && !attacked_by(b, 62, Color::White)) || (m == Move {
            from: 60,
            to: 58,
            promotion: None,
            flag: MoveFlag::CastleQueen,
        } && cr & CASTLE_BQ != 0 && !in_bb(occ, 57) && !in_bb(occ, 58) && !in_bb(occ, 59)
            && !attacked_by(b, 60, Color::White) && !attacked_by(b, 59, Color::White) && !attacked_by(
            b,
            58,
            Color::White,
        ))
    }
}

/// Appends the castling moves of the side to move.
fn gen_castling(b: &Board, us: Color, moves: &mut Vec<Move>)
    requires
        consistent(*b),
        us == b.turn,
    ensures
        final(moves)@.len() >= old(moves)@.len(),
        forall|i: int| 0 <= i < old(moves)@.len() ==> final(moves)@[i] == old(moves)@[i],
        forall|i: int| old(moves)@.len() <= i < final(moves)@.len() ==> castle_move(*b, #[trigger] final(moves)@[i]),
        forall|m: Move| castle_move(*b, m) ==> occurs_from(final(moves)@, old(moves)@.len() as int, m),
        distinct_from(final(moves)@, old(moves)@.len() as int),
{
    let ghost n0 = moves@.len() as int;
    let occ = b.occupied;
    match us {
        Color::White => {
            if b.castling_rights & CASTLE_WK != 0 && !has_sq(occ, 5) && !has_sq(occ, 6)
                && !b.is_square_attacked_by(4, Color::Black) && !b.is_square_attacked_by(5, Color::Black)
                && !b.is_square_attacked_by(6, Color::Black) {
                moves.push(Move::new(4, 6, None, MoveFlag::CastleKing));
            }
            let ghost n1 = moves@.len() as int;
            if b.castling_rights & CASTLE_WQ != 0 && !has_sq(occ, 1) && !has_sq(occ, 2) && !has_sq(occ, 3)
                && !b.is_square_attacked_by(4, Color::Black) && !b.is_square_attacked_by(3, Color::Black)
                && !b.is_square_attacked_by(2, Color::Black) {
                moves.push(Move::new(4, 2, None, MoveFlag::CastleQueen));
            }
            proof {
                assert forall|m: Move| castle_move(*b, m) implies occurs_from(moves@, n0, m) by {
                    if m.flag == MoveFlag::CastleKing {
                        assert(moves@[n0] == m);
                    } else {
                        assert(moves@[n1] == m);
                    }
                }
            }
        },
        Color::Black => {
            if b.castling_rights & CASTLE_BK != 0 && !has_sq(occ, 61) && !has_sq(occ, 62)
                && !b.is_square_attacked_by(60, Color::White) && !b.is_square_attacked_by(61, Color::White)
                && !b.is_square_attacked_by(62, Color::White) {
                moves.push(Move::new(60, 62, None, MoveFlag::CastleKing));
            }
            let ghost n1 = moves@.len() as int;
            if b.castling_rights & CASTLE_BQ != 0 && !has_sq(occ, 57) && !has_sq(occ, 58) && !has_sq(occ, 59)
                && !b.is_square_attacked_by(60, Color::White) && !b.is_square_attacked_by(59, Color::White)
                && !b.is_square_attacked_by(58, Color::White) {
                moves.push(Move::new(60, 58, None, MoveFlag::CastleQueen));
            }
            proof {
                assert forall|m: Move| castle_move(*b, m) implies occurs_from(moves@, n0, m) by {
                    if m.flag == MoveFlag::CastleKing {
                        assert(moves@[n0] == m);
                    } else {
                        assert(moves@[n1] == m);
                    }
                }
            }
        },
    }
}

/// A pseudo-legal move: a pawn move, a normal move of a knight, bishop,
/// rook, queen or king, or a castling move. Whether the own king is left in
/// check is not considered.
pub open spec fn pseudo_legal(b: Board, m: Move) -> bool {
    ||| pawn_move(b, m)
    ||| piece_move(b, PieceType::Knight, m)
    ||| piece_move(b, PieceType::Bishop, m)
    ||| piece_move(b, PieceType::Rook, m)
    ||| piece_move(b, PieceType::Queen, m)
    ||| piece_move(b, PieceType::King, m)
    ||| castle_move(b, m)
}

pub open spec fn kind_move(b: Board, k: int, m: Move) -> bool {
    if k == 0 {
        pawn_move(b, m)
    } else if k == 1 {
        piece_move(b, PieceType::Knight, m)
    } else if k == 2 {
        piece_move(b, PieceType::Bishop, m)
    } else if k == 3 {
        piece_move(b, PieceType::Rook, m)
    } else if k == 4 {
        piece_move(b, PieceType::Queen, m)
    } else if k == 5 {
        piece_move(b, PieceType::King, m)
    } else {
        castle_move(b, m)
    }
}

/// `v[lo..hi]` holds exactly the moves of kind `k`, once each.
pub open spec fn kind_segment(v: Seq<Move>, lo: int, hi: int, b: Board, k: int) -> bool {
    &&& 0 <= lo <= hi <= v.len()
    &&& forall|i: int| lo <= i < hi ==> kind_move(b, k, #[trigger] v[i])
    &&& forall|m: Move| kind_move(b, k, m) ==> exists|i: int| lo <= i < hi && v[i] == m
    &&& forall|i: int, j: int| lo <= i < j < hi ==> v[i] != v[j]
}

proof fn lemma_kind_segment_keep(v: Seq<Move>, w: Seq<Move>, lo: int, hi: int, b: Board, k: int)
    requires
        kind_segment(v, lo, hi, b, k),
        w.len() >= v.len(),
        forall|i: int| 0 <= i < v.len() ==> w[i] == v[i],
    ensures
        kind_segment(w, lo, hi, b, k),
{
    assert forall|m: Move| kind_move(b, k, m) implies exists|i: int| lo <= i < hi && w[i] == m by {
        let i = choose|i: int| lo <= i < hi && v[i] == m;
        assert(w[i] == m);
    }
    assert forall|i: int| lo <= i < hi implies kind_move(b, k, #[trigger] w[i]) by {
        assert(w[i] == v[i]);
    }
}

/// Moves of different kinds differ.
proof fn lemma_kinds_disjoint(b: Board, k1: int, k2: int, m1: Move, m2: Move)
    requires
        0 <= k1 < k2 <= 6,
        kind_move(b, k1, m1),
        kind_move(b, k2, m2),
    ensures
        m1 != m2,
{
}

spec fn seg_of(bounds: Seq<int>, i: int) -> int {
    if i < bounds[1] {
        0
    } else if i < bounds[2] {
        1
    } else if i < bounds[3] {
        2
    } else if i < bounds[4] {
        3
    } else if i < bounds[5] {
        4
    } else if i < bounds[6] {
        5
    } else {
        6
    }
}

proof fn lemma_pseudo_list(v: Seq<Move>, bounds: Seq<int>, b: Board)
    requires
        bounds.len() == 8,
        bounds[0] == 0,
        bounds[7] == v.len(),
        forall|k: int| 0 <= k < 7 ==> kind_segment(v, #[trigger] bounds[k], bounds[k + 1], b, k),
    ensures
        forall|m: Move| v.contains(m) <==> pseudo_legal(b, m),
        v.no_duplicates(),
{
    assert(kind_segment(v, bounds[0], bounds[1], b, 0));
    assert(kind_segment(v, bounds[1], bounds[2], b, 1));
    assert(kind_segment(v, bounds[2], bounds[3], b, 2));
    assert(kind_segment(v, bounds[3], bounds[4], b, 3));
    assert(kind_segment(v, bounds[4], bounds[5], b, 4));
    assert(kind_segment(v, bounds[5], bounds[6], b, 5));
    assert(kind_segment(v, bounds[6], bounds[7], b, 6));
    assert forall|m: Move| v.contains(m) <==> pseudo_legal(b, m) by {
        if v.contains(m) {
            let i = choose|i: int| 0 <= i < v.len() && v[i] == m;
            let k = seg_of(bounds, i);
            assert(kind_segment(v, bounds[k], bounds[k + 1], b, k));
            assert(kind_move(b, k, v[i]));
        }
        if pseudo_legal(b, m) {
            let k = if pawn_move(b, m) {
                0
            } else if piece_move(b, PieceType::Knight, m) {
                1
            } else if piece_move(b, PieceType::Bishop, m) {
                2
            } else if piece_move(b, PieceType::Rook, m) {
                3
            } else if piece_move(b, PieceType::Queen, m) {
                4
            } else if piece_move(b, PieceType::King, m) {
                5
            } else {
                6
            };
            assert(kind_move(b, k, m));
            assert(kind_segment(v, bounds[k], bounds[k + 1], b, k));
            let i = choose|i: int| bounds[k] <= i < bounds[k + 1] && v[i] == m;
            assert(v[i] == m);
        }
    }
    assert forall|i: int, j: int| 0 <= i < v.len() && 0 <= j < v.len() && i != j implies v[i] != v[j] by {
        let (a, c) = if i < j { (i, j) } else { (j, i) };
        let k1 = seg_of(bounds, a);
        let k2 = seg_of(bounds, c);
        assert(kind_segment(v, bounds[k1], bounds[k1 + 1], b, k1));
        assert(kind_segment(v, bounds[k2], bounds[k2 + 1], b, k2));
        if k1 == k2 {
        } else if k1 < k2 {
            lemma_kinds_disjoint(b, k1, k2, v[a], v[c]);
        } else {
            lemma_kinds_disjoint(b, k2, k1, v[c], v[a]);
        }
    }
}

/// All pseudo-legal moves of the side to move, each once.
pub fn generate_pseudo_legal(b: &Board) -> (moves: Vec<Move>)
    requires
        consistent(*b),
    ensures
        forall|m: Move| moves@.contains(m) <==> pseudo_legal(*b, m),
        moves@.no_duplicates(),
{
    let mut moves: Vec<Move> = Vec::with_capacity(48);
    let us = b.turn;
    let them = us.opposite();
    let own = b.occupied_co[us.index()];
    let enemy = b.occupied_co[them.index()];
    let occ = b.occupied;
    let ghost v0 = moves@;
    gen_pawn_moves(b, us, enemy, occ, &mut moves);
    let ghost n1 = moves@.len() as int;
    proof {
        assert(kind_segment(moves@, v0.len() as int, n1, *b, 0));
    }
    let ghost v1 = moves@;
    gen_piece_moves(b, us, PieceType::Knight, own, occ, &mut moves);
    let ghost n2 = moves@.len() as int;
    proof {
        assert(kind_segment(moves@, v1.len() as int, n2, *b, 1));
        lemma_kind_segment_keep(v1, moves@, v0.len() as int, v1.len() as int, *b, 0);
    }
    let ghost v2 = moves@;
    gen_piece_moves(b, us, PieceType::Bishop, own, occ, &mut moves);
    let ghost n3 = moves@.len() as int;
    proof {
        assert(kind_segment(moves@, v2.len() as int, n3, *b, 2));
        lemma_kind_segment_keep(v2, moves@, v0.len() as int, v1.len() as int, *b, 0);
        lemma_kind_segment_keep(v2, moves@, v1.len() as int, v2.len() as int, *b, 1);
    }
    let ghost v3 = moves@;
    gen_piece_moves(b, us, PieceType::Rook, own, occ, &mut moves);
    let ghost n4 = moves@.len() as int;
    proof {
        assert(kind_segment(moves@, v3.len() as int, n4, *b, 3));
        lemma_kind_segment_keep(v3, moves@, v0.len() as int, v1.len() as int, *b, 0);
        lemma_kind_segment_keep(v3, moves@, v1.len() as int, v2.len() as int, *b, 1);
        lemma_kind_segment_keep(v3, moves@, v2.len() as int, v3.len() as int, *b, 2);
    }
    let ghost v4 = moves@;
    gen_piece_moves(b, us, PieceType::Queen, own, occ, &mut moves);
    let ghost n5 = moves@.len() as int;
    proof {
        assert(kind_segment(moves@, v4.len() as int, n5, *b, 4));
        lemma_kind_segment_keep(v4, moves@, v0.len() as int, v1.len() as int, *b, 0);
        lemma_kind_segment_keep(v4, moves@, v1.len() as int, v2.len() as int, *b, 1);
        lemma_kind_segment_keep(v4, moves@, v2.len() as int, v3.len() as int, *b, 2);
        lemma_kind_segment_keep(v4, moves@, v3.len() as int, v4.len() as int, *b, 3);
    }
    let ghost v5 = moves@;
    gen_piece_moves(b, us, PieceType::King, own, occ, &mut moves);
    let ghost n6 = moves@.len() as int;
    proof {
        assert(kind_segment(moves@, v5.len() as int, n6, *b, 5));
        lemma_kind_segment_keep(v5, moves@, v0.len() as int, v1.len() as int, *b, 0);
        lemma_kind_segment_keep(v5, moves@, v1.len() as int, v2.len() as int, *b, 1);
        lemma_kind_segment_keep(v5, moves@, v2.len() as int, v3.len() as int, *b, 2);
        lemma_kind_segment_keep(v5, moves@, v3.len() as int, v4.len() as int, *b, 3);
        lemma_kind_segment_keep(v5, moves@, v4.len() as int, v5.len() as int, *b, 4);
    }
    let ghost v6 = moves@;
    gen_castling(b, us, &mut moves);
    let ghost n7 = moves@.len() as int;
    proof {
        assert(kind_segment(moves@, v6.len() as int, n7, *b, 6));
        lemma_kind_segment_keep(v6, moves@, v0.len() as int, v1.len() as int, *b, 0);
        lemma_kind_segment_keep(v6, moves@, v1.len() as int, v2.len() as int, *b, 1);
        lemma_kind_segment_keep(v6, moves@, v2.len() as int, v3.len() as int, *b, 2);
        lemma_kind_segment_keep(v6, moves@, v3.len() as int, v4.len() as int, *b, 3);
        lemma_kind_segment_keep(v6, moves@, v4.len() as int, v5.len() as int, *b, 4);
        lemma_kind_segment_keep(v6, moves@, v5.len() as int, v6.len() as int, *b, 5);
    }
    proof {
        let bounds = seq![0int, v1.len() as int, v2.len() as int, v3.len() as int, v4.len() as int, v5.len() as int, v6.len() as int, n7];
        assert(bounds[0] == 0);
        assert forall|k: int| 0 <= k < 7 implies kind_segment(moves@, #[trigger] bounds[k], bounds[k + 1], *b, k) by {
            if k == 0 {
            } else if k == 1 {
            } else if k == 2 {
            } else if k == 3 {
            } else if k == 4 {
            } else if k == 5 {
            } else {
            }
        }
        lemma_pseudo_list(moves@, bounds, *b);
    }
    moves
}

// ---------------------------------------------------------------------
//  Legal moves
// ---------------------------------------------------------------------

/// The en passant square, if any, is empty, on the rank a double push of
/// the opponent crosses, with the opponent's pawn just beyond it.
pub open spec fn ep_valid(b: Board) -> bool {
    match b.ep_square {
        None => true,
        Some(e) => {
            &&& piece_on(b, e as int) is None
            &&& spec_rank(e as int) == if b.turn == Color::White {
                5int
            } else {
                2int
            }
            &&& piece_on(b, e - 8 * pawn_dir(b.turn)) == Some((b.turn.other(), PieceType::Pawn))
        },
    }
}

/// Each castling right still held has its king and rook on their original
/// squares.
pub open spec fn castling_valid(b: Board) -> bool {
    let cr = b.castling_rights;
    &&& cr & CASTLE_WK != 0 ==> piece_on(b, 4) == Some((Color::White, PieceType::King)) && piece_on(
        b,
        7,
    ) == Some((Color::White, PieceType::Rook))
    &&& cr & CASTLE_WQ != 0 ==> piece_on(b, 4) == Some((Color::White, PieceType::King)) && piece_on(
        b,
        0,
    ) == Some((Color::White, PieceType::Rook))
    &&& cr & CASTLE_BK != 0 ==> piece_on(b, 60) == Some((Color::Black, PieceType::King)) && piece_on(
        b,
        63,
    ) == Some((Color::Black, PieceType::Rook))
    &&& cr & CASTLE_BQ != 0 ==> piece_on(b, 60) == Some((Color::Black, PieceType::King)) && piece_on(
        b,
        56,
    ) == Some((Color::Black, PieceType::Rook))
}

/// The castling rights of `b` whose king and rook stand on their original
/// squares.
pub open spec fn sound_rights(b: Board) -> u8 {
    let wk = piece_on(b, 4) == Some((Color::White, PieceType::King));
    let bk = piece_on(b, 60) == Some((Color::Black, PieceType::King));
    let keep: u8 = (if wk && piece_on(b, 7) == Some((Color::White, PieceType::Rook)) { 1u8 } else { 0u8 }) | (if wk
        && piece_on(b, 0) == Some((Color::White, PieceType::Rook)) { 2u8 } else { 0u8 }) | (if bk && piece_on(b, 63)
        == Some((Color::Black, PieceType::Rook)) { 4u8 } else { 0u8 }) | (if bk && piece_on(b, 56) == Some(
        (Color::Black, PieceType::Rook),
    ) { 8u8 } else { 0u8 });
    b.castling_rights & keep
}

/// The en passant square of `b`, where it is sound; none otherwise.
pub open spec fn sound_ep(b: Board) -> Option<Square> {
    match b.ep_square {
        Some(e) => if e < 64 && ep_valid(b) {
            Some(e)
        } else {
            None
        },
        None => None,
    }
}

proof fn lemma_keep_bits(cr: u8, a: bool, b: bool, c: bool, d: bool)
    by (bit_vector)
    requires
        cr < 16,
    ensures
        ({
            let keep: u8 = (if a { 1u8 } else { 0u8 }) | (if b { 2u8 } else { 0u8 }) | (if c { 4u8 } else { 0u8 }) | (
            if d { 8u8 } else { 0u8 });
            let r = cr & keep;
            &&& r < 16
            &&& (r & 1u8 != 0 ==> a) && (r & 2u8 != 0 ==> b) && (r & 4u8 != 0 ==> c) && (r & 8u8 != 0 ==> d)
            &&& ((cr & 1u8 != 0 ==> a) && (cr & 2u8 != 0 ==> b) && (cr & 4u8 != 0 ==> c) && (cr & 8u8 != 0 ==> d))
                ==> r == cr
        }),
{
}

impl Board {
    /// The same position with the castling rights whose king or rook has
    /// left its square dropped, and an en passant square dropped unless it
    /// is empty, on the crossed rank, with the opponent's pawn beyond it.
    /// A position whose rights and en passant square are sound is returned
    /// as it is.
    pub fn normalizado(&self) -> (r: Board)
        requires
            wf(*self),
        ensures
            wf(r),
            castling_valid(r),
            ep_valid(r),
            r.pieces == self.pieces,
            r.turn == self.turn,
            r.halfmove_clock == self.halfmove_clock,
            r.fullmove_number == self.fullmove_number,
            r.castling_rights == sound_rights(*self),
            r.ep_square == sound_ep(*self),
            castling_valid(*self) && ep_valid(*self) ==> r == *self,
    {
        let wk = match self.piece_at(4) {
            Some((Color::White, PieceType::King)) => true,
            _ => false,
        };
        let bk = match self.piece_at(60) {
            Some((Color::Black, PieceType::King)) => true,
            _ => false,
        };
        let r_h1 = match self.piece_at(7) {
            Some((Color::White, PieceType::Rook)) => true,
            _ => false,
        };
        let r_a1 = match self.piece_at(0) {
            Some((Color::White, PieceType::Rook)) => true,
            _ => false,
        };
        let r_h8 = match self.piece_at(63) {
            Some((Color::Black, PieceType::Rook)) => true,
            _ => false,
        };
        let r_a8 = match self.piece_at(56) {
            Some((Color::Black, PieceType::Rook)) => true,
            _ => false,
        };
        let a = wk && r_h1;
        let b2 = wk && r_a1;
        let c = bk && r_h8;
        let d = bk && r_a8;
        let keep: u8 = (if a { 1u8 } else { 0u8 }) | (if b2 { 2u8 } else { 0u8 }) | (if c { 4u8 } else { 0u8 }) | (if d {
            8u8
        } else {
            0u8
        });
        proof {
            lemma_keep_bits(self.castling_rights, a, b2, c, d);
            assert(CASTLE_WK == 1u8 && CASTLE_WQ == 2u8 && CASTLE_BK == 4u8 && CASTLE_BQ == 8u8);
        }
        let cr = self.castling_rights & keep;
        let ep = match self.ep_square {
            Some(e) => {
                let detras: i32 = if self.turn == Color::White {
                    e as i32 - 8
                } else {
                    e as i32 + 8
                };
                let fila_ok = if self.turn == Color::White {
                    e / 8 == 5
                } else {
                    e / 8 == 2
                };
                if fila_ok && self.piece_at(e).is_none() && 0 <= detras && detras < 64 && match self.piece_at(detras as u8) {
                    Some((col, PieceType::Pawn)) => col == self.turn.opposite(),
                    _ => false,
                } {
                    Some(e)
                } else {
                    None
                }
            },
            None => None,
        };
        let mut r = *self;
        r.castling_rights = cr;
        r.ep_square = ep;
        r.recompute_zobrist();
        proof {
            if castling_valid(*self) && ep_valid(*self) {
                assert(r == *self);
            }
        }
        r
    }
}

/// The side that just moved is not in check (no king of it is attacked).
pub open spec fn opponent_safe(b: Board) -> bool {
    forall|s: int|
        #[trigger] piece_on(b, s) == Some((b.turn.other(), PieceType::King)) ==> !attacked_by(
            b,
            s,
            b.turn,
        )
}

/// The positions on which legal move generation runs: consistent, with a
/// sound en passant square and castling rights, a king for the side to move,
/// the other side not in check, and move counters that can still grow.
pub open spec fn gen_ok(b: Board) -> bool {
    &&& wf(b)
    &&& ep_valid(b)
    &&& castling_valid(b)
    &&& has_king(b, b.turn)
    &&& opponent_safe(b)
    &&& b.halfmove_clock < 0xffff_ffff
    &&& b.fullmove_number < 0xffff_ffff
}

/// Playing `m` on `b` leaves the mover's king attacked.
pub open spec fn leaves_in_check(b: Board, m: Move) -> bool {
    let a = board_after(b, m);
    attacked_by(a, king_sq(a, b.turn), b.turn.other())
}

pub open spec fn is_legal(b: Board, m: Move) -> bool {
    pseudo_legal(b, m) && !leaves_in_check(b, m)
}

pub proof fn lemma_has_king(b: Board, c: Color)
    requires
        consistent(b),
    ensures
        has_king(b, c) <==> exists|s: int| #[trigger] piece_on(b, s) == Some((c, PieceType::King)),
{
    let k = b.pieces[c.idx()][5];
    crate::bitboard::lemma_zero_iff_empty(k);
    if has_king(b, c) {
        let s = choose|s: int| 0 <= s < 64 && in_bb(k, s);
        lemma_piece_on_contents(b, s);
        assert(piece_on(b, s) == Some((c, PieceType::King)));
    }
    if exists|s: int| #[trigger] piece_on(b, s) == Some((c, PieceType::King)) {
        let s = choose|s: int| #[trigger] piece_on(b, s) == Some((c, PieceType::King));
        lemma_piece_on_contents(b, s);
        assert(in_bb(k, s));
    }
}

/// A piece of the mover attacks the target of its normal or capturing move.
proof fn lemma_target_attacked(b: Board, m: Move)
    requires
        consistent(b),
        pawn_move(b, m) && pawn_capture(b, m) || piece_move(b, PieceType::Knight, m) || piece_move(
            b,
            PieceType::Bishop,
            m,
        ) || piece_move(b, PieceType::Rook, m) || piece_move(b, PieceType::Queen, m) || piece_move(
            b,
            PieceType::King,
            m,
        ),
    ensures
        attacker_on(b, m.from as int, m.to as int, b.occupied),
{
}

/// Under `gen_ok`, every pseudo-legal move can be played by `make_move`.
pub proof fn lemma_pseudo_move_ok(b: Board, m: Move)
    requires
        gen_ok(b),
        pseudo_legal(b, m),
    ensures
        move_ok(b, m),
{
    let us = b.turn;
    lemma_occupancy(b);
    lemma_square_coords(m.from as int);
    lemma_square_coords(m.to as int);
    if castle_move(b, m) {
        lemma_piece_on_contents(b, 5);
        lemma_piece_on_contents(b, 6);
        lemma_piece_on_contents(b, 2);
        lemma_piece_on_contents(b, 3);
        lemma_piece_on_contents(b, 61);
        lemma_piece_on_contents(b, 62);
        lemma_piece_on_contents(b, 58);
        lemma_piece_on_contents(b, 59);
        assert(castle_squares_ok(b, m, m.flag == MoveFlag::CastleKing));
    } else {
        // The target of a capture is never the opponent's king.
        if piece_on(b, m.to as int) == Some((us.other(), PieceType::King)) {
            {
                if pawn_move(b, m) && pawn_capture(b, m) || !pawn_move(b, m) {
                    lemma_target_attacked(b, m);
                    assert(attacker_on(b, m.from as int, m.to as int, b.occupied) && (piece_on(
                        b,
                        m.from as int,
                    ) matches Some((c, _)) && c == us));
                    assert(attacked_by(b, m.to as int, us));
                }
            }
        }
        if pawn_move(b, m) && pawn_ep(b, m) {
            assert(ep_victim_sq(m) == m.to - 8 * pawn_dir(us));
        }
    }
}

/// The mover's king survives any pseudo-legal move.
pub proof fn lemma_king_survives(b: Board, m: Move, a: Board)
    requires
        gen_ok(b),
        pseudo_legal(b, m),
        is_after(b, m, a),
    ensures
        has_king(a, b.turn),
{
    let us = b.turn;
    lemma_has_king(b, us);
    lemma_has_king(a, us);
    let s = choose|s: int| #[trigger] piece_on(b, s) == Some((us, PieceType::King));
    lemma_pseudo_move_ok(b, m);
    if s == m.from {
        assert(piece_on(a, m.to as int) == Some((us, PieceType::King)));
    } else {
        lemma_occupancy(b);
        lemma_piece_on_contents(b, 5);
        lemma_piece_on_contents(b, 3);
        lemma_piece_on_contents(b, 61);
        lemma_piece_on_contents(b, 59);
        assert(piece_on(a, s) == Some((us, PieceType::King)));
    }
}

/// All legal moves of the side to move, each once: the pseudo-legal moves
/// after which the mover's king is not attacked.
pub fn generate_legal(b: &Board) -> (moves: Vec<Move>)
    requires
        gen_ok(*b),
    ensures
        forall|m: Move| moves@.contains(m) <==> is_legal(*b, m),
        moves@.no_duplicates(),
{
    let us = b.turn;
    let pseudo = generate_pseudo_legal(b);
    let mut res: Vec<Move> = Vec::new();
    let mut i: usize = 0;
    while i < pseudo.len()
        invariant
            gen_ok(*b),
            us == b.turn,
            0 <= i <= pseudo@.len(),
            forall|m: Move| pseudo@.contains(m) <==> pseudo_legal(*b, m),
            pseudo@.no_duplicates(),
            forall|k: int| 0 <= k < res@.len() ==> exists|j: int| 0 <= j < i && #[trigger] res@[k] == pseudo@[j],
            forall|k: int| 0 <= k < res@.len() ==> is_legal(*b, #[trigger] res@[k]),
            forall|j: int| 0 <= j < i && is_legal(*b, #[trigger] pseudo@[j]) ==> res@.contains(pseudo@[j]),
            res@.no_duplicates(),
        decreases pseudo@.len() - i,
    {
        let mv = pseudo[i];
        proof {
            assert(pseudo@.contains(mv));
            lemma_pseudo_move_ok(*b, mv);
        }
        let after = b.make_move(&mv);
        proof {
            lemma_king_survives(*b, mv, after);
        }
        let chk = after.in_check(us);
        if !chk {
            let ghost prev = res@;
            proof {
                assert forall|k: int| 0 <= k < prev.len() implies prev[k] != mv by {
                    let j = choose|j: int| 0 <= j < i && #[trigger] prev[k] == pseudo@[j];
                }
            }
            res.push(mv);
            proof {
                assert forall|k: int| 0 <= k < res@.len() implies exists|j: int| 0 <= j < i + 1 && #[trigger] res@[k] == pseudo@[j] by {
                    if k < prev.len() {
                        assert(res@[k] == prev[k]);
                        let j = choose|j: int| 0 <= j < i && #[trigger] prev[k] == pseudo@[j];
                    } else {
                        assert(res@[k] == pseudo@[i as int]);
                    }
                }
                assert forall|j: int| 0 <= j < i + 1 && is_legal(*b, #[trigger] pseudo@[j]) implies res@.contains(pseudo@[j]) by {
                    if j < i {
                        assert(prev.contains(pseudo@[j]));
                        let k = choose|k: int| 0 <= k < prev.len() && prev[k] == pseudo@[j];
                        assert(res@[k] == pseudo@[j]);
                    } else {
                        assert(res@[prev.len() as int] == pseudo@[j]);
                    }
                }
                assert forall|k: int| 0 <= k < res@.len() implies is_legal(*b, #[trigger] res@[k]) by {
                    if k < prev.len() {
                        assert(res@[k] == prev[k]);
                    }
                }
            }
        } else {
            proof {
                assert forall|j: int| 0 <= j < i + 1 && is_legal(*b, #[trigger] pseudo@[j]) implies res@.contains(pseudo@[j]) by {
                    if j == i {
                        assert(!is_legal(*b, mv));
                    }
                }
                assert forall|k: int| 0 <= k < res@.len() implies exists|j: int| 0 <= j < i + 1 && #[trigger] res@[k] == pseudo@[j] by {
                    let j = choose|j: int| 0 <= j < i && #[trigger] res@[k] == pseudo@[j];
                }
            }
        }
        i = i + 1;
    }
    proof {
        assert forall|m: Move| res@.contains(m) <==> is_legal(*b, m) by {
            if is_legal(*b, m) {
                assert(pseudo@.contains(m));
                let j = choose|j: int| 0 <= j < pseudo@.len() && pseudo@[j] == m;
                assert(is_legal(*b, pseudo@[j]));
            }
            if res@.contains(m) {
                let k = choose|k: int| 0 <= k < res@.len() && res@[k] == m;
                assert(is_legal(*b, res@[k]));
            }
        }
    }
    res
}

/// At most one king of colour `c`.
pub open spec fn unique_king(b: Board, c: Color) -> bool {
    forall|s1: int, s2: int|
        #[trigger] piece_on(b, s1) == Some((c, PieceType::King)) && #[trigger] piece_on(b, s2) == Some(
            (c, PieceType::King),
        ) ==> s1 == s2
}

/// A position in which play can go on: legal move generation applies, both
/// sides have exactly one king.
pub open spec fn playable(b: Board) -> bool {
    &&& gen_ok(b)
    &&& has_king(b, b.turn.other())
    &&& unique_king(b, Color::White)
    &&& unique_king(b, Color::Black)
}

/// The king square of a side with a single king is where its king stands.
pub proof fn lemma_king_sq(b: Board, c: Color)
    requires
        consistent(b),
        has_king(b, c),
    ensures
        0 <= king_sq(b, c) < 64,
        piece_on(b, king_sq(b, c)) == Some((c, PieceType::King)),
{
    crate::bitboard::lemma_clear_lowest(b.pieces[c.idx()][5]);
    lemma_piece_on_contents(b, king_sq(b, c));
}

/// A castling right that survives a move was held before it, its rook
/// corner was neither left nor entered, and the king of its side did not
/// move.
proof fn lemma_rights_after(b: Board, m: Move)
    requires
        b.castling_rights < 16,
    ensures
        crate::board::rights_after(b, m) & CASTLE_WK != 0 ==> b.castling_rights & CASTLE_WK != 0 && m.from != 7 && m.to != 7 && !(crate::board::moving_type(b, m) == PieceType::King && b.turn == Color::White),
        crate::board::rights_after(b, m) & CASTLE_WQ != 0 ==> b.castling_rights & CASTLE_WQ != 0 && m.from != 0 && m.to != 0 && !(crate::board::moving_type(b, m) == PieceType::King && b.turn == Color::White),
        crate::board::rights_after(b, m) & CASTLE_BK != 0 ==> b.castling_rights & CASTLE_BK != 0 && m.from != 63 && m.to != 63 && !(crate::board::moving_type(b, m) == PieceType::King && b.turn == Color::Black),
        crate::board::rights_after(b, m) & CASTLE_BQ != 0 ==> b.castling_rights & CASTLE_BQ != 0 && m.from != 56 && m.to != 56 && !(crate::board::moving_type(b, m) == PieceType::King && b.turn == Color::Black),
{
    let cr = b.castling_rights;
    assert(forall|x: u8, y: u8| #![auto] (x & y) & 1u8 != 0 ==> x & 1u8 != 0 && y & 1u8 != 0) by (bit_vector);
    assert(forall|x: u8, y: u8| #![auto] (x & y) & 2u8 != 0 ==> x & 2u8 != 0 && y & 2u8 != 0) by (bit_vector);
    assert(forall|x: u8, y: u8| #![auto] (x & y) & 4u8 != 0 ==> x & 4u8 != 0 && y & 4u8 != 0) by (bit_vector);
    assert(forall|x: u8, y: u8| #![auto] (x & y) & 8u8 != 0 ==> x & 8u8 != 0 && y & 8u8 != 0) by (bit_vector);
    assert(!1u8 & 1u8 == 0u8 && !2u8 & 2u8 == 0u8 && !4u8 & 4u8 == 0u8 && !8u8 & 8u8 == 0u8) by (bit_vector);
    assert(!(1u8 | 2u8) & 1u8 == 0u8 && !(1u8 | 2u8) & 2u8 == 0u8 && !(4u8 | 8u8) & 4u8 == 0u8 && !(4u8 | 8u8) & 8u8 == 0u8) by (bit_vector);
}

proof fn lemma_after_ep_valid(b: Board, m: Move, a: Board)
    requires
        gen_ok(b),
        pseudo_legal(b, m),
        is_after(b, m, a),
    ensures
        ep_valid(a),
{
    if m.flag == MoveFlag::DoublePush {
        let us = b.turn;
        lemma_square_coords(m.from as int);
        lemma_square_coords(m.to as int);
        let mid = m.from + 8 * pawn_dir(us);
        assert(pawn_double(b, m));
        assert(mid == (((spec_rank(m.from as int) + spec_rank(m.to as int)) / 2) * 8 + spec_file(m.from as int)));
        assert(a.ep_square == Some(mid as u8));
        assert(piece_on(a, mid) == after_piece(b, m, mid));
        assert(piece_on(a, m.to as int) == after_piece(b, m, m.to as int));
        assert(mid - 8 * pawn_dir(a.turn) == m.to);
    }
}

proof fn lemma_after_castling_valid(b: Board, m: Move, a: Board)
    requires
        gen_ok(b),
        pseudo_legal(b, m),
        is_after(b, m, a),
    ensures
        castling_valid(a),
{
    lemma_pseudo_move_ok(b, m);
    lemma_rights_after(b, m);
    lemma_square_coords(m.from as int);
    lemma_square_coords(m.to as int);
    let us = b.turn;
    // The squares that a castling right relies on are untouched unless the
    // right is dropped.
    assert(piece_on(a, 4) == after_piece(b, m, 4));
    assert(piece_on(a, 7) == after_piece(b, m, 7));
    assert(piece_on(a, 0) == after_piece(b, m, 0));
    assert(piece_on(a, 60) == after_piece(b, m, 60));
    assert(piece_on(a, 63) == after_piece(b, m, 63));
    assert(piece_on(a, 56) == after_piece(b, m, 56));
    let ra = a.castling_rights;
    if ra & CASTLE_WK != 0 || ra & CASTLE_WQ != 0 {
        assert(m.from != 4);
        assert(m.to != 4);
    }
    if ra & CASTLE_BK != 0 || ra & CASTLE_BQ != 0 {
        assert(m.from != 60);
        assert(m.to != 60);
    }
}

proof fn lemma_after_kings(b: Board, m: Move, a: Board)
    requires
        playable(b),
        pseudo_legal(b, m),
        is_after(b, m, a),
    ensures
        has_king(a, Color::White),
        has_king(a, Color::Black),
        unique_king(a, Color::White),
        unique_king(a, Color::Black),
{
    lemma_pseudo_move_ok(b, m);
    lemma_king_survives(b, m, a);
    let us = b.turn;
    let them = us.other();
    lemma_has_king(b, them);
    lemma_has_king(a, them);
    let t = choose|s: int| #[trigger] piece_on(b, s) == Some((them, PieceType::King));
    assert(piece_on(a, t) == after_piece(b, m, t));
    assert(piece_on(a, t) == Some((them, PieceType::King)));
    assert forall|c: Color| #![auto] c == Color::White || c == Color::Black implies unique_king(a, c) by {
        assert forall|s1: int, s2: int|
            #[trigger] piece_on(a, s1) == Some((c, PieceType::King)) && #[trigger] piece_on(a, s2) == Some(
                (c, PieceType::King),
            ) implies s1 == s2 by {
            assert(piece_on(a, s1) == after_piece(b, m, s1));
            assert(piece_on(a, s2) == after_piece(b, m, s2));
            if s1 == m.to && s2 != m.to {
                assert(piece_on(b, m.from as int) == Some((c, PieceType::King)));
            } else if s2 == m.to && s1 != m.to {
                assert(piece_on(b, m.from as int) == Some((c, PieceType::King)));
            }
        }
    }
}

/// Playing a legal move in a playable position gives a playable position;
/// the move counters grow by at most one.
pub proof fn lemma_legal_keeps_playable(b: Board, m: Move, a: Board)
    requires
        playable(b),
        is_legal(b, m),
        is_after(b, m, a),
        b.halfmove_clock < 0xffff_fffe,
        b.fullmove_number < 0xffff_fffe,
    ensures
        playable(a),
        a.halfmove_clock <= b.halfmove_clock + 1,
        a.fullmove_number <= b.fullmove_number + 1,
{
    crate::board::lemma_after_unique(b, m, a);
    lemma_after_ep_valid(b, m, a);
    lemma_after_castling_valid(b, m, a);
    lemma_after_kings(b, m, a);
    let us = b.turn;
    lemma_king_sq(a, us);
    assert forall|s: int| #[trigger] piece_on(a, s) == Some((a.turn.other(), PieceType::King)) implies !attacked_by(a, s, a.turn) by {
        assert(a.turn.other() == us);
        assert(s == king_sq(a, us));
    }
}

/// The fifty-move counter after a move of the rules: back to 0 after a pawn
/// move or a move that takes a piece (one stands on the destination, or the
/// move is en passant), one more than before after any other move.
pub proof fn lemma_halfmove_after_move(b: Board, m: Move, r: Board)
    requires
        gen_ok(b),
        pseudo_legal(b, m),
        is_after(b, m, r),
    ensures
        (piece_on(b, m.from as int) == Some((b.turn, PieceType::Pawn)) || piece_on(b, m.to as int) is Some
            || m.flag == MoveFlag::EnPassant) ==> r.halfmove_clock == 0,
        !(piece_on(b, m.from as int) == Some((b.turn, PieceType::Pawn)) || piece_on(b, m.to as int) is Some
            || m.flag == MoveFlag::EnPassant) ==> r.halfmove_clock == b.halfmove_clock + 1,
{
    lemma_occupancy(b);
    lemma_piece_on_contents(b, m.to as int);
    if castle_move(b, m) {
        assert(piece_on(b, m.to as int) is None);
        if b.turn == Color::White {
            assert(piece_on(b, 4) == Some((Color::White, PieceType::King)));
        } else {
            assert(piece_on(b, 60) == Some((Color::Black, PieceType::King)));
        }
        assert(moving_type(b, m) == PieceType::King);
    }
}

/// Castling is never legal out of check: when the side to move castles
/// legally, its king is not attacked.
pub proof fn lemma_no_castling_in_check(b: Board, m: Move)
    requires
        playable(b),
        is_legal(b, m),
        m.flag == MoveFlag::CastleKing || m.flag == MoveFlag::CastleQueen,
    ensures
        !attacked_by(b, king_sq(b, b.turn), b.turn.other()),
{
    assert(castle_move(b, m));
    lemma_king_sq(b, b.turn);
    let k = king_sq(b, b.turn);
    if b.turn == Color::White {
        assert(piece_on(b, 4) == Some((Color::White, PieceType::King)));
        assert(k == 4);
    } else {
        assert(piece_on(b, 60) == Some((Color::Black, PieceType::King)));
        assert(k == 60);
    }
}

/// A legal castle needs the right for its side, and moves the king two
/// squares along its home rank, across squares that are empty (and, on the
/// queen side, past the rook's neighbour, also empty); neither the king's
/// square nor any square it crosses or reaches is attacked by the opponent.
pub proof fn lemma_castling_path(b: Board, m: Move)
    requires
        playable(b),
        is_legal(b, m),
        m.flag == MoveFlag::CastleKing || m.flag == MoveFlag::CastleQueen,
    ensures
        m.from == king_sq(b, b.turn),
        m.flag == MoveFlag::CastleKing ==> {
            &&& m.to == m.from + 2
            &&& b.castling_rights & (if b.turn == Color::White { CASTLE_WK } else { CASTLE_BK }) != 0
            &&& !in_bb(b.occupied, m.from + 1) && !in_bb(b.occupied, m.from + 2)
            &&& forall|s: int| m.from <= s <= m.from + 2 ==> !#[trigger] attacked_by(b, s, b.turn.other())
        },
        m.flag == MoveFlag::CastleQueen ==> {
            &&& m.to == m.from - 2
            &&& b.castling_rights & (if b.turn == Color::White { CASTLE_WQ } else { CASTLE_BQ }) != 0
            &&& !in_bb(b.occupied, m.from - 1) && !in_bb(b.occupied, m.from - 2) && !in_bb(b.occupied, m.from - 3)
            &&& forall|s: int| m.from - 2 <= s <= m.from ==> !#[trigger] attacked_by(b, s, b.turn.other())
        },
{
    assert(castle_move(b, m));
    lemma_king_sq(b, b.turn);
    if b.turn == Color::White {
        assert(piece_on(b, 4) == Some((Color::White, PieceType::King)));
    } else {
        assert(piece_on(b, 60) == Some((Color::Black, PieceType::King)));
    }
}

} // verus!
