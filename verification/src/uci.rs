//! Moves given as UCI text: finding the legal move they name, playing it,
//! and building a move from its squares alone.
use vstd::prelude::*;
use vstd::string::StringSliceAdditionalSpecFns;
use crate::board::{Board, consistent, piece_on, wf, is_after};
use crate::movegen::{generate_legal, gen_ok, is_legal, playable, pseudo_legal, pawn_move, piece_move, castle_move};
use crate::types::{Move, MoveFlag, PieceType, Square, piece_from_letter, piece_letter};
use crate::fen::uci_text;
use vstd::utf8::{encode_utf8, is_ascii_chars};

verus! {

/// The square named by the bytes of a file letter and a rank digit.
pub open spec fn square_of_bytes(x: u8, y: u8) -> Option<Square> {
    if 97 <= x <= 104 && 49 <= y <= 56 {
        Some(((y - 49) * 8 + (x - 97)) as Square)
    } else {
        None
    }
}

/// Origin, destination and promotion named by UCI text: two square names,
/// then, from the fifth byte on, the promotion letter, if any.
pub open spec fn uci_request(bytes: Seq<u8>) -> Option<(Square, Square, Option<PieceType>)> {
    if bytes.len() < 4 {
        None
    } else {
        match (square_of_bytes(bytes[0], bytes[1]), square_of_bytes(bytes[2], bytes[3])) {
            (Some(f), Some(t)) => Some(
                (
                    f,
                    t,
                    if bytes.len() >= 5 {
                        piece_from_letter(bytes[4] as char)
                    } else {
                        None
                    },
                ),
            ),
            _ => None,
        }
    }
}

/// The text can be cut after its second and fourth bytes where reading it
/// gets that far.
pub open spec fn uci_cuttable(bytes: Seq<u8>) -> bool {
    bytes.len() >= 4 ==> vstd::utf8::is_char_boundary(bytes, 2) && (square_of_bytes(bytes[0], bytes[1]) is Some
        ==> vstd::utf8::is_char_boundary(bytes, 4))
}

fn square_from_bytes(x: u8, y: u8) -> (r: Option<Square>)
    ensures
        r == square_of_bytes(x, y),
{
    if 97 <= x && x <= 104 && 49 <= y && y <= 56 {
        Some((y - 49) * 8 + (x - 97))
    } else {
        None
    }
}

/// The legal move of `b` named by the UCI text `uci`, if there is one.
pub fn parse_uci_move(b: &Board, uci: &str) -> (r: Option<Move>)
    requires
        gen_ok(*b),
        uci_cuttable(uci.spec_bytes()),
    ensures
        match uci_request(uci.spec_bytes()) {
            None => r is None,
            Some((f, t, p)) => match r {
                Some(m) => is_legal(*b, m) && m.from == f && m.to == t && m.promotion == p,
                None => forall|m: Move| is_legal(*b, m) ==> !(m.from == f && m.to == t && m.promotion == p),
            },
        },
{
    let moves = generate_legal(b);
    let bytes = uci.as_bytes();
    if bytes.len() < 4 {
        return None;
    }
    let from = match square_from_bytes(bytes[0], bytes[1]) {
        Some(s) => s,
        None => {
            return None;
        },
    };
    let to = match square_from_bytes(bytes[2], bytes[3]) {
        Some(s) => s,
        None => {
            return None;
        },
    };
    let promo = if bytes.len() >= 5 {
        PieceType::from_char(bytes[4] as char)
    } else {
        None
    };
    assert(uci_request(uci.spec_bytes()) == Some((from, to, promo)));
    let mut i: usize = 0;
    while i < moves.len()
        invariant
            uci_request(uci.spec_bytes()) == Some((from, to, promo)),
            i <= moves@.len(),
            forall|m: Move| moves@.contains(m) <==> is_legal(*b, m),
            forall|k: int| 0 <= k < i ==> !(#[trigger] moves@[k].from == from && moves@[k].to == to
                && moves@[k].promotion == promo),
        decreases moves@.len() - i,
    {
        let m = moves[i];
        if m.from == from && m.to == to && same_promotion(m.promotion, promo) {
            assert(moves@.contains(m));
            return Some(m);
        }
        i = i + 1;
    }
    proof {
        assert forall|m: Move| is_legal(*b, m) implies !(m.from == from && m.to == to && m.promotion == promo) by {
            assert(moves@.contains(m));
            let k = choose|k: int| 0 <= k < moves@.len() && moves@[k] == m;
        }
    }
    None
}

fn same_promotion(a: Option<PieceType>, b: Option<PieceType>) -> (r: bool)
    ensures
        r == (a == b),
{
    match (a, b) {
        (Some(x), Some(y)) => {
            let r = x.index() == y.index();
            proof {
                assert(x.idx() == y.idx() ==> x == y);
            }
            r
        },
        (None, None) => true,
        _ => false,
    }
}

/// The position after the legal move named by `uci`, which must be one.
pub fn aplicar_uci(b: &Board, uci: &str) -> (r: Board)
    requires
        playable(*b),
        uci_cuttable(uci.spec_bytes()),
        uci_request(uci.spec_bytes()) matches Some((f, t, p)) && exists|m: Move|
            is_legal(*b, m) && m.from == f && m.to == t && m.promotion == p,
    ensures
        exists|m: Move| #[trigger]
            is_legal(*b, m) && (uci_request(uci.spec_bytes()) matches Some((f, t, p)) && m.from == f && m.to == t
                && m.promotion == p) && r == crate::board::board_after(*b, m),
{
    let mv = parse_uci_move(b, uci);
    match mv {
        Some(m) => {
            proof {
                crate::movegen::lemma_pseudo_move_ok(*b, m);
            }
            b.make_move(&m)
        },
        None => {
            proof {
                let m = choose|m: Move|
                    is_legal(*b, m) && (uci_request(uci.spec_bytes()) matches Some((f, t, p)) && m.from == f && m.to
                        == t && m.promotion == p);
                assert(false);
            }
            *b
        },
    }
}

/// The flag a move from `from` to `to` gets from the board alone: en
/// passant for a pawn moving to the en passant square, capture onto an
/// occupied square, quiet otherwise.
pub open spec fn synthetic_flag(b: Board, from: Square, to: Square) -> MoveFlag {
    if (piece_on(b, from as int) matches Some((_, pt)) && pt == PieceType::Pawn) && b.ep_square == Some(to) {
        MoveFlag::EnPassant
    } else if piece_on(b, to as int) is Some {
        MoveFlag::Capture
    } else {
        MoveFlag::Quiet
    }
}

/// A move built from the two square names that start `uci`, flagged from
/// the board alone, without checking that it can be played.
pub fn jugada_sintetica(b: &Board, uci: &str) -> (m: Move)
    requires
        consistent(*b),
        uci.spec_bytes().len() >= 4,
        vstd::utf8::is_char_boundary(uci.spec_bytes(), 2),
        vstd::utf8::is_char_boundary(uci.spec_bytes(), 4),
        square_of_bytes(uci.spec_bytes()[0], uci.spec_bytes()[1]) is Some,
        square_of_bytes(uci.spec_bytes()[2], uci.spec_bytes()[3]) is Some,
    ensures
        Some(m.from) == square_of_bytes(uci.spec_bytes()[0], uci.spec_bytes()[1]),
        Some(m.to) == square_of_bytes(uci.spec_bytes()[2], uci.spec_bytes()[3]),
        m.promotion is None,
        m.flag == synthetic_flag(*b, m.from, m.to),
{
    let bytes = uci.as_bytes();
    let from = match square_from_bytes(bytes[0], bytes[1]) {
        Some(s) => s,
        None => 0,
    };
    let to = match square_from_bytes(bytes[2], bytes[3]) {
        Some(s) => s,
        None => 0,
    };
    let es_pawn = match b.piece_at(from) {
        Some((_, pt)) => match pt {
            PieceType::Pawn => true,
            _ => false,
        },
        None => false,
    };
    let es_al_paso = es_pawn && match b.ep_square {
        Some(e) => e == to,
        None => false,
    };
    let flag = if es_al_paso {
        MoveFlag::EnPassant
    } else if b.piece_at(to).is_some() {
        MoveFlag::Capture
    } else {
        MoveFlag::Quiet
    };
    Move::new(from, to, None, flag)
}

/// The UCI text of a move reads back as the move's squares and promotion, and
/// can be cut where reading it cuts it.
pub proof fn lemma_uci_text_reads_back(m: Move)
    requires
        m.from < 64,
        m.to < 64,
    ensures
        uci_cuttable(encode_utf8(uci_text(m))),
        uci_request(encode_utf8(uci_text(m))) == Some((m.from, m.to, m.promotion)),
{
    let t = uci_text(m);
    assert(is_ascii_chars(t)) by {
        assert forall|i: int| 0 <= i < t.len() implies '\0' <= #[trigger] t[i] <= '\u{7f}' by {
            if i >= 4 {
                let p = m.promotion->0;
                assert(t[i] == piece_letter(p));
            }
        }
    }
    vstd::utf8::is_ascii_chars_encode_utf8(t);
    vstd::utf8::encode_utf8_valid_utf8(t);
    let bytes = encode_utf8(t);
    assert(bytes[0] == t[0] as u8 && bytes[1] == t[1] as u8 && bytes[2] == t[2] as u8 && bytes[3] == t[3] as u8);
    assert(square_of_bytes(bytes[0], bytes[1]) == Some(m.from));
    assert(square_of_bytes(bytes[2], bytes[3]) == Some(m.to));
    vstd::utf8::is_char_boundary_iff_not_is_continuation_byte(bytes, 2);
    if bytes.len() > 4 {
        vstd::utf8::is_char_boundary_iff_not_is_continuation_byte(bytes, 4);
        let p = m.promotion->0;
        assert(t[4] == piece_letter(p));
        assert(bytes[4] == t[4] as u8);
        assert(piece_from_letter(bytes[4] as char) == Some(p));
    } else {
        vstd::utf8::is_char_boundary_start_end_of_seq(bytes);
    }
}

/// Two moves of the rules from one position with the same origin,
/// destination and promotion are the same move: the kind of move follows
/// from the pieces on the board.
pub proof fn lemma_move_named_once(b: Board, m1: Move, m2: Move)
    requires
        gen_ok(b),
        pseudo_legal(b, m1),
        pseudo_legal(b, m2),
        m1.from == m2.from,
        m1.to == m2.to,
        m1.promotion == m2.promotion,
    ensures
        m1 == m2,
{
    lemma_move_kind(b, m1, m2);
    lemma_move_kind(b, m2, m1);
}

/// With the same origin, destination and promotion, a second move has the
/// flag of the first.
proof fn lemma_move_kind(b: Board, m1: Move, m2: Move)
    requires
        gen_ok(b),
        pseudo_legal(b, m1),
        pseudo_legal(b, m2),
        m1.from == m2.from,
        m1.to == m2.to,
        m1.promotion == m2.promotion,
    ensures
        m1.flag == m2.flag,
{
    let us = b.turn;
    if castle_move(b, m1) {
        assert(piece_on(b, m1.from as int) == Some((us, PieceType::King)));
        assert(!crate::bitboard::king_step(m1.from as int, m1.to as int));
        if castle_move(b, m2) {
        } else {
            assert(!pawn_move(b, m2));
            assert(!piece_move(b, PieceType::King, m2));
        }
    } else if pawn_move(b, m1) {
        assert(!castle_move(b, m2)) by {
            if castle_move(b, m2) {
                assert(piece_on(b, m2.from as int) == Some((us, PieceType::King)));
            }
        }
        assert(pawn_move(b, m2));
        if let Some(e) = b.ep_square {
            assert(piece_on(b, e as int) is None);
        }
    } else {
        assert(!castle_move(b, m2)) by {
            if castle_move(b, m2) {
                assert(piece_on(b, m2.from as int) == Some((us, PieceType::King)));
                assert(!crate::bitboard::king_step(m2.from as int, m2.to as int));
            }
        }
        assert(!pawn_move(b, m2));
    }
}

/// Reading the UCI text of a legal move gives back that move: the text names
/// its squares and promotion, and no other legal move has them.
pub proof fn lemma_uci_round_trip(b: Board, m: Move)
    requires
        gen_ok(b),
        is_legal(b, m),
    ensures
        uci_cuttable(encode_utf8(uci_text(m))),
        uci_request(encode_utf8(uci_text(m))) == Some((m.from, m.to, m.promotion)),
        forall|m2: Move|
            is_legal(b, m2) && m2.from == m.from && m2.to == m.to && m2.promotion == m.promotion ==> m2 == m,
{
    lemma_uci_text_reads_back(m);
    assert forall|m2: Move|
        is_legal(b, m2) && m2.from == m.from && m2.to == m.to && m2.promotion == m.promotion implies m2 == m by {
        lemma_move_named_once(b, m, m2);
    }
}

} // verus!
