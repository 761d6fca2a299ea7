//! Board state: piece bitboards, side to move, castling rights, en passant
//! square, move counters and the Zobrist hash, with the moves that change it.
use vstd::prelude::*;
use crate::bitboard::{
    in_bb, bit, lsb, queen_attacks, knight_attacks, king_attacks, pawn_attacks, rook_attacks, bishop_attacks,
    knight_step, king_step, pawn_step, rook_hit, bishop_hit, lemma_hit_sym, lemma_step_sym, lemma_has_or, lemma_has_and, lemma_has_not, lemma_has_zero, lemma_bits_ext,
    Bitboard, EMPTY,
};
use crate::types::{
    Color, PieceType, Move, MoveFlag, Square, color_of_idx, piece_of_idx, spec_file, spec_rank,
    file_of, rank_of, make_square,
};
use crate::zobrist::{
    piece_hash, piece_hash_upto, key_of, piece_key_index, castling_key_index, ep_key_index,
    side_key_index, piece_square_key, castling_key, en_passant_key, side_key, feat_c, feat_p,
    feat_sq, lemma_piece_hash_toggle, lemma_piece_hash_skip, lemma_xor_facts, lemma_feat_range,
};

verus! {

broadcast use vstd::array::group_array_axioms;

pub const CASTLE_WK: u8 = 1;

pub const CASTLE_WQ: u8 = 2;

pub const CASTLE_BK: u8 = 4;

pub const CASTLE_BQ: u8 = 8;

#[derive(Clone, Copy, Debug)]
pub struct Board {
    /// `pieces[colour][piece type]`
    pub pieces: [[Bitboard; 6]; 2],
    pub occupied_co: [Bitboard; 2],
    pub occupied: Bitboard,
    pub turn: Color,
    pub castling_rights: u8,
    pub ep_square: Option<Square>,
    pub halfmove_clock: u32,
    pub fullmove_number: u32,
    pub zobrist: u64,
}

/// What stands on square `s`: (colour index, piece index), looking the
/// bitboards up in a fixed order.
pub open spec fn contents(pieces: [[u64; 6]; 2], s: int) -> Option<(int, int)> {
    if in_bb(pieces[0][0], s) {
        Some((0, 0))
    } else if in_bb(pieces[0][1], s) {
        Some((0, 1))
    } else if in_bb(pieces[0][2], s) {
        Some((0, 2))
    } else if in_bb(pieces[0][3], s) {
        Some((0, 3))
    } else if in_bb(pieces[0][4], s) {
        Some((0, 4))
    } else if in_bb(pieces[0][5], s) {
        Some((0, 5))
    } else if in_bb(pieces[1][0], s) {
        Some((1, 0))
    } else if in_bb(pieces[1][1], s) {
        Some((1, 1))
    } else if in_bb(pieces[1][2], s) {
        Some((1, 2))
    } else if in_bb(pieces[1][3], s) {
        Some((1, 3))
    } else if in_bb(pieces[1][4], s) {
        Some((1, 4))
    } else if in_bb(pieces[1][5], s) {
        Some((1, 5))
    } else {
        None
    }
}

/// No square holds two pieces.
pub open spec fn pieces_wf(pieces: [[u64; 6]; 2]) -> bool {
    forall|c: int, p: int, s: int|
        0 <= c < 2 && 0 <= p < 6 ==> #[trigger] in_bb(pieces[c][p], s) == (contents(pieces, s)
            == Some((c, p)))
}

pub open spec fn union6(row: [u64; 6]) -> u64 {
    ((((row[0] | row[1]) | row[2]) | row[3]) | row[4]) | row[5]
}

/// The occupancy bitboards agree with the piece bitboards.
pub open spec fn derived_ok(b: Board) -> bool {
    &&& b.occupied_co[0] == union6(b.pieces[0])
    &&& b.occupied_co[1] == union6(b.pieces[1])
    &&& b.occupied == b.occupied_co[0] | b.occupied_co[1]
}

pub open spec fn ep_hash(ep: Option<Square>) -> u64 {
    match ep {
        Some(e) => key_of(ep_key_index(spec_file(e as int)) as u64),
        None => 0u64,
    }
}

pub open spec fn side_hash(turn: Color) -> u64 {
    if turn == Color::Black {
        key_of(side_key_index() as u64)
    } else {
        0u64
    }
}

/// The Zobrist hash of a position: the XOR of the keys of its features.
pub open spec fn spec_hash(pieces: [[u64; 6]; 2], cr: u8, ep: Option<Square>, turn: Color) -> u64 {
    ((piece_hash(pieces) ^ key_of(castling_key_index(cr as int) as u64)) ^ ep_hash(ep)) ^ side_hash(
        turn,
    )
}

/// One piece per square at most, occupancy in agreement with the pieces,
/// castling rights within their four flags, en passant square on the board.
pub open spec fn consistent(b: Board) -> bool {
    &&& pieces_wf(b.pieces)
    &&& derived_ok(b)
    &&& b.castling_rights < 16
    &&& match b.ep_square {
        Some(e) => e < 64,
        None => true,
    }
}

/// A consistent board whose hash field is the hash of its features.
pub open spec fn wf(b: Board) -> bool {
    &&& consistent(b)
    &&& b.zobrist == spec_hash(b.pieces, b.castling_rights, b.ep_square, b.turn)
}

/// The piece standing on `s`, if any.
pub open spec fn piece_on(b: Board, s: int) -> Option<(Color, PieceType)> {
    match contents(b.pieces, s) {
        Some((c, p)) => Some((color_of_idx(c), piece_of_idx(p))),
        None => None,
    }
}

pub proof fn lemma_contents_on_board(pieces: [[u64; 6]; 2], s: int)
    ensures
        contents(pieces, s) is Some ==> 0 <= s < 64,
        contents(pieces, s) matches Some((c, p)) ==> 0 <= c < 2 && 0 <= p < 6,
{
}

/// Under a consistent board the occupancy bitboards say which squares hold
/// pieces, and of which colour.
pub proof fn lemma_occupancy(b: Board)
    requires
        pieces_wf(b.pieces),
        derived_ok(b),
    ensures
        forall|s: int| #[trigger] in_bb(b.occupied, s) == (contents(b.pieces, s) is Some),
        forall|s: int| #[trigger]
            in_bb(b.occupied_co[0], s) == (contents(b.pieces, s) matches Some((c, _)) && c == 0),
        forall|s: int| #[trigger]
            in_bb(b.occupied_co[1], s) == (contents(b.pieces, s) matches Some((c, _)) && c == 1),
{
    let r0 = b.pieces[0];
    let r1 = b.pieces[1];
    lemma_has_or(r0[0], r0[1]);
    lemma_has_or(r0[0] | r0[1], r0[2]);
    lemma_has_or((r0[0] | r0[1]) | r0[2], r0[3]);
    lemma_has_or(((r0[0] | r0[1]) | r0[2]) | r0[3], r0[4]);
    lemma_has_or((((r0[0] | r0[1]) | r0[2]) | r0[3]) | r0[4], r0[5]);
    lemma_has_or(r1[0], r1[1]);
    lemma_has_or(r1[0] | r1[1], r1[2]);
    lemma_has_or((r1[0] | r1[1]) | r1[2], r1[3]);
    lemma_has_or(((r1[0] | r1[1]) | r1[2]) | r1[3], r1[4]);
    lemma_has_or((((r1[0] | r1[1]) | r1[2]) | r1[3]) | r1[4], r1[5]);
    lemma_has_or(b.occupied_co[0], b.occupied_co[1]);
}

impl Board {
    /// The board with no pieces, white to move, no castling rights and a zero
    /// hash field.
    pub fn empty() -> (b: Board)
        ensures
            consistent(b),
            b.zobrist == 0,
            forall|s: int| piece_on(b, s) is None,
            b.turn == Color::White,
            b.castling_rights == 0,
            b.ep_square is None,
            b.halfmove_clock == 0,
            b.fullmove_number == 1,
    {
        let b = Board {
            pieces: [[EMPTY; 6]; 2],
            occupied_co: [EMPTY; 2],
            occupied: EMPTY,
            turn: Color::White,
            castling_rights: 0,
            ep_square: None,
            halfmove_clock: 0,
            fullmove_number: 1,
            zobrist: 0,
        };
        proof {
            lemma_has_zero();
            assert(0u64 | 0u64 == 0u64) by (bit_vector);
            assert forall|c: int, p: int| 0 <= c < 2 && 0 <= p < 6 implies b.pieces[c][p] == 0 by {
            }
            assert(union6(b.pieces[0]) == 0);
            assert(union6(b.pieces[1]) == 0);
        }
        b
    }
}

/// Membership test of one square.
pub fn has_sq(bb: Bitboard, sq: Square) -> (r: bool)
    requires
        sq < 64,
    ensures
        r == in_bb(bb, sq as int),
{
    let b = bit(sq);
    proof {
        lemma_has_and(bb, b);
        crate::bitboard::lemma_zero_iff_empty(bb & b);
        if in_bb(bb, sq as int) {
            assert(in_bb(bb & b, sq as int));
        }
    }
    bb & b != 0
}

/// `b` equals `a` except that feature (c, p, sq) may differ.
pub open spec fn same_except(a: [[u64; 6]; 2], b: [[u64; 6]; 2], c: int, p: int, sq: int) -> bool {
    forall|c2: int, p2: int, s: int|
        0 <= c2 < 2 && 0 <= p2 < 6 && !(c2 == c && p2 == p && s == sq) ==> #[trigger] in_bb(
            b[c2][p2],
            s,
        ) == in_bb(a[c2][p2], s)
}

proof fn lemma_toggle_hash(a: [[u64; 6]; 2], b: [[u64; 6]; 2], c: int, p: int, sq: int)
    requires
        0 <= c < 2,
        0 <= p < 6,
        0 <= sq < 64,
        same_except(a, b, c, p, sq),
        in_bb(a[c][p], sq) != in_bb(b[c][p], sq),
    ensures
        piece_hash(b) == piece_hash(a) ^ key_of(piece_key_index(c, p, sq) as u64),
{
    let j = piece_key_index(c, p, sq);
    assert forall|i: int|
        0 <= i < 768 && i != j implies (in_bb(a[feat_c(i)][feat_p(i)], feat_sq(i)) == in_bb(
        b[feat_c(i)][feat_p(i)],
        feat_sq(i),
    )) by {
        lemma_feat_range(i);
    }
    lemma_feat_range(j);
    lemma_piece_hash_toggle(a, b, j, 768);
}

impl Board {
    /// The piece on `sq`, if any.
    pub fn piece_at(&self, sq: Square) -> (r: Option<(Color, PieceType)>)
        requires
            consistent(*self),
            sq < 64,
        ensures
            r == piece_on(*self, sq as int),
    {
        proof {
            lemma_occupancy(*self);
        }
        if !has_sq(self.occupied, sq) {
            return None;
        }
        let color = if has_sq(self.occupied_co[0], sq) {
            Color::White
        } else {
            Color::Black
        };
        let ci = color.index();
        let mut i: usize = 0;
        while i < 5
            invariant
                consistent(*self),
                sq < 64,
                ci == color.idx(),
                0 <= i <= 5,
                contents(self.pieces, sq as int) matches Some((c, p)) && c == ci && p >= i,
            decreases 5 - i,
        {
            if has_sq(self.pieces[ci][i], sq) {
                return Some((color, PieceType::from_index(i)));
            }
            i = i + 1;
        }
        Some((color, PieceType::King))
    }

    /// Recomputes the occupancy bitboards from the piece bitboards.
    fn recompute_derived(&mut self)
        ensures
            derived_ok(*final(self)),
            final(self).pieces == old(self).pieces,
            final(self).turn == old(self).turn,
            final(self).castling_rights == old(self).castling_rights,
            final(self).ep_square == old(self).ep_square,
            final(self).halfmove_clock == old(self).halfmove_clock,
            final(self).fullmove_number == old(self).fullmove_number,
            final(self).zobrist == old(self).zobrist,
    {
        let w = self.pieces[0];
        let bl = self.pieces[1];
        self.occupied_co[0] = ((((w[0] | w[1]) | w[2]) | w[3]) | w[4]) | w[5];
        self.occupied_co[1] = ((((bl[0] | bl[1]) | bl[2]) | bl[3]) | bl[4]) | bl[5];
        self.occupied = self.occupied_co[0] | self.occupied_co[1];
    }

    /// Takes a piece of `color` and type `pt` off `sq`, toggling its key.
    fn remove_piece(&mut self, color: Color, pt: PieceType, sq: Square)
        requires
            sq < 64,
            pieces_wf(old(self).pieces),
            contents(old(self).pieces, sq as int) == Some((color.idx(), pt.idx())),
        ensures
            pieces_wf(final(self).pieces),
            forall|s: int| #[trigger]
                contents(final(self).pieces, s) == if s == sq {
                    None
                } else {
                    contents(old(self).pieces, s)
                },
            piece_hash(final(self).pieces) == piece_hash(old(self).pieces) ^ key_of(
                piece_key_index(color.idx(), pt.idx(), sq as int) as u64,
            ),
            final(self).zobrist == old(self).zobrist ^ key_of(
                piece_key_index(color.idx(), pt.idx(), sq as int) as u64,
            ),
            final(self).occupied_co == old(self).occupied_co,
            final(self).occupied == old(self).occupied,
            final(self).turn == old(self).turn,
            final(self).castling_rights == old(self).castling_rights,
            final(self).ep_square == old(self).ep_square,
            final(self).halfmove_clock == old(self).halfmove_clock,
            final(self).fullmove_number == old(self).fullmove_number,
    {
        let c = color.index();
        let p = pt.index();
        let one = bit(sq);
        let mask = !one;
        let nb = self.pieces[c][p] & mask;
        let ghost a = self.pieces;
        self.pieces[c][p] = nb;
        proof {
            lemma_has_not(one);
            lemma_has_and(a[c as int][p as int], mask);
            assert(same_except(a, self.pieces, c as int, p as int, sq as int));
            lemma_toggle_hash(a, self.pieces, c as int, p as int, sq as int);
            assert forall|s: int| #[trigger]
                contents(self.pieces, s) == if s == sq {
                    None
                } else {
                    contents(a, s)
                } by {
                assert(in_bb(a[c as int][p as int], sq as int));
            }
        }
        self.zobrist = self.zobrist ^ piece_square_key(c, p, sq);
    }
}

impl Board {
    /// Puts a piece of `color` and type `pt` on the empty square `sq`,
    /// toggling its key.
    fn add_piece(&mut self, color: Color, pt: PieceType, sq: Square)
        requires
            sq < 64,
            pieces_wf(old(self).pieces),
            contents(old(self).pieces, sq as int) is None,
        ensures
            pieces_wf(final(self).pieces),
            forall|s: int| #[trigger]
                contents(final(self).pieces, s) == if s == sq {
                    Some((color.idx(), pt.idx()))
                } else {
                    contents(old(self).pieces, s)
                },
            piece_hash(final(self).pieces) == piece_hash(old(self).pieces) ^ key_of(
                piece_key_index(color.idx(), pt.idx(), sq as int) as u64,
            ),
            final(self).zobrist == old(self).zobrist ^ key_of(
                piece_key_index(color.idx(), pt.idx(), sq as int) as u64,
            ),
            final(self).occupied_co == old(self).occupied_co,
            final(self).occupied == old(self).occupied,
            final(self).turn == old(self).turn,
            final(self).castling_rights == old(self).castling_rights,
            final(self).ep_square == old(self).ep_square,
            final(self).halfmove_clock == old(self).halfmove_clock,
            final(self).fullmove_number == old(self).fullmove_number,
    {
        let c = color.index();
        let p = pt.index();
        let one = bit(sq);
        let nb = self.pieces[c][p] | one;
        let ghost a = self.pieces;
        self.pieces[c][p] = nb;
        proof {
            lemma_has_or(a[c as int][p as int], one);
            assert(same_except(a, self.pieces, c as int, p as int, sq as int));
            assert(!in_bb(a[c as int][p as int], sq as int));
            lemma_toggle_hash(a, self.pieces, c as int, p as int, sq as int);
        }
        self.zobrist = self.zobrist ^ piece_square_key(c, p, sq);
    }

    /// Recomputes the hash field from scratch.
    pub(crate) fn recompute_zobrist(&mut self)
        requires
            old(self).castling_rights < 16,
            match old(self).ep_square {
                Some(e) => e < 64,
                None => true,
            },
        ensures
            final(self).zobrist == spec_hash(
                old(self).pieces,
                old(self).castling_rights,
                old(self).ep_square,
                old(self).turn,
            ),
            final(self).pieces == old(self).pieces,
            final(self).occupied_co == old(self).occupied_co,
            final(self).occupied == old(self).occupied,
            final(self).turn == old(self).turn,
            final(self).castling_rights == old(self).castling_rights,
            final(self).ep_square == old(self).ep_square,
            final(self).halfmove_clock == old(self).halfmove_clock,
            final(self).fullmove_number == old(self).fullmove_number,
    {
        let mut z: u64 = 0;
        let mut c: usize = 0;
        while c < 2
            invariant
                0 <= c <= 2,
                z == piece_hash_upto(self.pieces, (c * 384) as nat),
            decreases 2 - c,
        {
            let mut p: usize = 0;
            while p < 6
                invariant
                    c < 2,
                    0 <= p <= 6,
                    z == piece_hash_upto(self.pieces, (c * 384 + p * 64) as nat),
                decreases 6 - p,
            {
                let mut bb = self.pieces[c][p];
                let ghost base: int = (c * 384 + p * 64) as int;
                let ghost mut m: int = 0;
                while bb != 0
                    invariant
                        c < 2,
                        p < 6,
                        base == c * 384 + p * 64,
                        0 <= m <= 64,
                        z == piece_hash_upto(self.pieces, (base + m) as nat),
                        forall|s: int| #[trigger]
                            in_bb(bb, s) == (in_bb(self.pieces[c as int][p as int], s) && s >= m),
                    decreases 64 - m,
                {
                    let ghost old_bb = bb;
                    let sq = pop_lsb_local(&mut bb);
                    proof {
                        assert forall|i: int| base + m <= i < base + sq implies !#[trigger] in_bb(
                            self.pieces[feat_c(i)][feat_p(i)],
                            feat_sq(i),
                        ) by {
                            lemma_feat_range(i);
                            assert(feat_c(i) == c && feat_p(i) == p && feat_sq(i) == i - base);
                            assert(!in_bb(old_bb, i - base));
                        }
                        lemma_piece_hash_skip(self.pieces, (base + m) as nat, (base + sq) as nat);
                        lemma_feat_range(base + sq);
                        assert(feat_c(base + sq) == c && feat_p(base + sq) == p && feat_sq(base + sq)
                            == sq);
                    }
                    z = z ^ piece_square_key(c, p, sq);
                    proof {
                        m = sq + 1;
                    }
                }
                proof {
                    crate::bitboard::lemma_zero_iff_empty(bb);
                    assert forall|i: int| base + m <= i < base + 64 implies !#[trigger] in_bb(
                        self.pieces[feat_c(i)][feat_p(i)],
                        feat_sq(i),
                    ) by {
                        lemma_feat_range(i);
                        assert(feat_c(i) == c && feat_p(i) == p && feat_sq(i) == i - base);
                        assert(!in_bb(bb, i - base));
                    }
                    lemma_piece_hash_skip(self.pieces, (base + m) as nat, (base + 64) as nat);
                }
                p = p + 1;
            }
            c = c + 1;
        }
        proof {
            let cr = self.castling_rights;
            assert(cr < 16 ==> cr & 0xF == cr) by (bit_vector);
        }
        z = z ^ castling_key(self.castling_rights & 0xF);
        match self.ep_square {
            Some(ep) => {
                z = z ^ en_passant_key(file_of(ep));
            },
            None => {
                proof {
                    lemma_xor_facts(z, 0, 0);
                }
            },
        }
        if self.turn == Color::Black {
            z = z ^ side_key();
        } else {
            proof {
                lemma_xor_facts(z, 0, 0);
            }
        }
        self.zobrist = z;
    }
}

/// Removes and returns the lowest member of a non-empty bitboard.
fn pop_lsb_local(bb: &mut Bitboard) -> (s: Square)
    requires
        *old(bb) != 0,
    ensures
        s < 64,
        in_bb(*old(bb), s as int),
        forall|t: int| 0 <= t < s ==> !#[trigger] in_bb(*old(bb), t),
        forall|t: int| #[trigger] in_bb(*final(bb), t) == (in_bb(*old(bb), t) && t != s),
{
    crate::bitboard::pop_lsb(bb)
}

/// A piece of `color` and type `pt` on `from` attacks `to` when the squares
/// in `occ` are occupied.
pub open spec fn piece_attacks_sq(color: Color, pt: PieceType, from: int, to: int, occ: u64) -> bool {
    match pt {
        PieceType::Pawn => pawn_step(color, from, to),
        PieceType::Knight => knight_step(from, to),
        PieceType::Bishop => bishop_hit(from, occ, to),
        PieceType::Rook => rook_hit(from, occ, to),
        PieceType::Queen => rook_hit(from, occ, to) || bishop_hit(from, occ, to),
        PieceType::King => king_step(from, to),
    }
}

/// The piece on `s` (of either colour) attacks `sq` under occupancy `occ`.
pub open spec fn attacker_on(b: Board, s: int, sq: int, occ: u64) -> bool {
    match piece_on(b, s) {
        Some((c, pt)) => piece_attacks_sq(c, pt, s, sq, occ),
        None => false,
    }
}

/// Some piece of `by` attacks `sq` on board `b`.
pub open spec fn attacked_by(b: Board, sq: int, by: Color) -> bool {
    exists|s: int| #[trigger]
        attacker_on(b, s, sq, b.occupied) && (piece_on(b, s) matches Some((c, _)) && c == by)
}

/// The (lowest) square holding a king of `color`; 64 when there is none.
pub open spec fn king_sq(b: Board, color: Color) -> int {
    vstd::std_specs::bits::u64_trailing_zeros(b.pieces[color.idx()][5]) as int
}

pub open spec fn has_king(b: Board, color: Color) -> bool {
    b.pieces[color.idx()][5] != 0
}

impl Board {
    /// Squares of all pieces, of both colours, that attack `sq` when the
    /// squares in `occupied` are taken to be occupied.
    pub fn attackers_to(&self, sq: Square, occupied: Bitboard) -> (r: Bitboard)
        requires
            consistent(*self),
            sq < 64,
        ensures
            forall|s: int| #[trigger] in_bb(r, s) == attacker_on(*self, s, sq as int, occupied),
    {
        let white = self.pieces[0];
        let black = self.pieces[1];
        let mut attackers: u64 = 0;
        let ka = knight_attacks(sq);
        let kn = ka & (white[1] | black[1]);
        let kga = king_attacks(sq);
        let kg = kga & (white[5] | black[5]);
        let bishops_queens = white[2] | white[4] | black[2] | black[4];
        let ba = bishop_attacks(sq, occupied);
        let bq = ba & bishops_queens;
        let rooks_queens = white[3] | white[4] | black[3] | black[4];
        let ra = rook_attacks(sq, occupied);
        let rq = ra & rooks_queens;
        let pbl = pawn_attacks(Color::Black, sq);
        let wp = pbl & white[0];
        let pwh = pawn_attacks(Color::White, sq);
        let bp = pwh & black[0];
        attackers = attackers | kn;
        attackers = attackers | kg;
        attackers = attackers | bq;
        attackers = attackers | rq;
        attackers = attackers | wp;
        attackers = attackers | bp;
        proof {
            lemma_has_zero();
            lemma_has_or(white[1], black[1]);
            lemma_has_or(white[5], black[5]);
            lemma_has_or(white[2], white[4]);
            lemma_has_or(white[2] | white[4], black[2]);
            lemma_has_or((white[2] | white[4]) | black[2], black[4]);
            lemma_has_or(white[3], white[4]);
            lemma_has_or(white[3] | white[4], black[3]);
            lemma_has_or((white[3] | white[4]) | black[3], black[4]);
            lemma_has_and(ka, white[1] | black[1]);
            lemma_has_and(kga, white[5] | black[5]);
            lemma_has_and(ba, bishops_queens);
            lemma_has_and(ra, rooks_queens);
            lemma_has_and(pbl, white[0]);
            lemma_has_and(pwh, black[0]);
            lemma_has_or(0u64, kn);
            lemma_has_or(0u64 | kn, kg);
            lemma_has_or((0u64 | kn) | kg, bq);
            lemma_has_or(((0u64 | kn) | kg) | bq, rq);
            lemma_has_or((((0u64 | kn) | kg) | bq) | rq, wp);
            lemma_has_or(((((0u64 | kn) | kg) | bq) | rq) | wp, bp);
            assert forall|s: int| #[trigger] in_bb(attackers, s) == attacker_on(
                *self,
                s,
                sq as int,
                occupied,
            ) by {
                lemma_hit_sym(sq as int, occupied, s);
                lemma_step_sym(sq as int, s);
                crate::board::lemma_contents_on_board(self.pieces, s);
            }
        }
        attackers
    }
}

impl Board {
    /// Whether some piece of `by_color` attacks `sq`.
    pub fn is_square_attacked_by(&self, sq: Square, by_color: Color) -> (r: bool)
        requires
            consistent(*self),
            sq < 64,
        ensures
            r == attacked_by(*self, sq as int, by_color),
    {
        let att = self.attackers_to(sq, self.occupied);
        let mine = self.occupied_co[by_color.index()];
        let x = att & mine;
        proof {
            lemma_occupancy(*self);
            lemma_has_and(att, mine);
            crate::bitboard::lemma_zero_iff_empty(x);
            if x != 0 {
                let s = choose|s: int| 0 <= s < 64 && in_bb(x, s);
                assert(attacker_on(*self, s, sq as int, self.occupied));
            }
            if attacked_by(*self, sq as int, by_color) {
                let s = choose|s: int| #[trigger]
                    attacker_on(*self, s, sq as int, self.occupied) && (piece_on(*self, s) matches Some(
                        (c, _),
                    ) && c == by_color);
                lemma_contents_on_board(self.pieces, s);
                assert(in_bb(x, s));
            }
        }
        x != 0
    }

    /// Square of the king of `color` (the lowest one; 64 when there is none).
    pub fn king_square(&self, color: Color) -> (r: Square)
        requires
            consistent(*self),
        ensures
            r == king_sq(*self, color),
            has_king(*self, color) ==> r < 64 && piece_on(*self, r as int) == Some(
                (color, PieceType::King),
            ),
    {
        let r = lsb(self.pieces[color.index()][5]);
        proof {
            if has_king(*self, color) {
                assert(in_bb(self.pieces[color.idx()][5], r as int));
            }
        }
        r
    }

    /// Whether the king of `color` is attacked.
    pub fn in_check(&self, color: Color) -> (r: bool)
        requires
            consistent(*self),
            has_king(*self, color),
        ensures
            r == attacked_by(*self, king_sq(*self, color), color.other()),
    {
        self.is_square_attacked_by(self.king_square(color), color.opposite())
    }

    /// The same position with the other side to move and no en passant square.
    pub fn make_null_move(&self) -> (b: Board)
        requires
            wf(*self),
        ensures
            wf(b),
            b.pieces == self.pieces,
            b.occupied_co == self.occupied_co,
            b.occupied == self.occupied,
            b.turn == self.turn.other(),
            b.ep_square is None,
            b.castling_rights == self.castling_rights,
            b.halfmove_clock == self.halfmove_clock,
            b.fullmove_number == self.fullmove_number,
    {
        let mut b = *self;
        let ghost h0 = piece_hash(self.pieces) ^ key_of(
            castling_key_index(self.castling_rights as int) as u64,
        );
        match b.ep_square {
            Some(ep) => {
                let k = en_passant_key(file_of(ep));
                proof {
                    lemma_xor_facts(h0, k, side_hash(self.turn));
                    lemma_xor_facts(h0 ^ side_hash(self.turn), k, k);
                }
                b.zobrist = b.zobrist ^ k;
            },
            None => {
                proof {
                    lemma_xor_facts(h0, 0, side_hash(self.turn));
                }
            },
        }
        b.ep_square = None;
        b.turn = b.turn.opposite();
        let sk = side_key();
        proof {
            lemma_xor_facts(h0, 0, 0);
            lemma_xor_facts(h0, sk, sk);
            lemma_xor_facts(h0 ^ 0, sk, 0);
        }
        b.zobrist = b.zobrist ^ sk;
        b
    }
}

/// `n` is `b` with the move passed: the same pieces, rights and counters,
/// the other side to move, no en passant square, and a consistent hash.
pub open spec fn is_null_of(b: Board, n: Board) -> bool {
    &&& wf(n)
    &&& n.pieces == b.pieces
    &&& n.occupied_co == b.occupied_co
    &&& n.occupied == b.occupied
    &&& n.turn == b.turn.other()
    &&& n.ep_square is None
    &&& n.castling_rights == b.castling_rights
    &&& n.halfmove_clock == b.halfmove_clock
    &&& n.fullmove_number == b.fullmove_number
}

/// Passing the move twice from a position without an en passant square
/// gives the position back, hash included.
pub proof fn lemma_null_twice(b: Board, n1: Board, n2: Board)
    requires
        wf(b),
        b.ep_square is None,
        is_null_of(b, n1),
        is_null_of(n1, n2),
    ensures
        n2 == b,
{
    assert(n2.turn == b.turn);
}

// ---------------------------------------------------------------------
//  Making a move
// ---------------------------------------------------------------------

/// Square of the pawn taken en passant by `mv`.
pub open spec fn ep_victim_sq(mv: Move) -> int {
    spec_rank(mv.from as int) * 8 + spec_file(mv.to as int)
}

/// (from, to) squares of the rook in a castling move of `us`.
pub open spec fn castle_rook(us: Color, king_side: bool) -> (int, int) {
    if us == Color::White {
        if king_side {
            (7, 5)
        } else {
            (0, 3)
        }
    } else {
        if king_side {
            (63, 61)
        } else {
            (56, 59)
        }
    }
}

/// Type of the piece standing on `mv.from`.
pub open spec fn moving_type(b: Board, mv: Move) -> PieceType {
    match piece_on(b, mv.from as int) {
        Some((_, pt)) => pt,
        None => PieceType::Pawn,
    }
}

/// The conditions under which `make_move` applies `mv` to `b` without
/// failing and keeps the board consistent: a piece of the side to move on
/// `from`, no own piece and no king on `to`, and the squares that en passant
/// and castling moves rely on holding what those moves expect.
pub open spec fn move_ok(b: Board, mv: Move) -> bool {
    let us = b.turn;
    &&& mv.from < 64
    &&& mv.to < 64
    &&& mv.from != mv.to
    &&& (piece_on(b, mv.from as int) matches Some((c, _)) && c == us)
    &&& match piece_on(b, mv.to as int) {
        Some((c, pt)) => c != us && pt != PieceType::King && mv.flag != MoveFlag::EnPassant,
        None => true,
    }
    &&& mv.flag == MoveFlag::EnPassant ==> piece_on(b, ep_victim_sq(mv)) == Some(
        (us.other(), PieceType::Pawn),
    )
    &&& mv.flag == MoveFlag::CastleKing ==> castle_squares_ok(b, mv, true)
    &&& mv.flag == MoveFlag::CastleQueen ==> castle_squares_ok(b, mv, false)
    &&& b.halfmove_clock < 0xffff_ffff
    &&& b.fullmove_number < 0xffff_ffff
}

pub open spec fn castle_squares_ok(b: Board, mv: Move, king_side: bool) -> bool {
    let (rf, rt) = castle_rook(b.turn, king_side);
    &&& piece_on(b, rf) == Some((b.turn, PieceType::Rook))
    &&& piece_on(b, rt) is None
    &&& rf != mv.from
    &&& rf != mv.to
    &&& rt != mv.to
}

/// What stands on `s` after `mv` is played on `b`.
pub open spec fn after_piece(b: Board, mv: Move, s: int) -> Option<(Color, PieceType)> {
    let us = b.turn;
    let placed = match mv.promotion {
        Some(p) => p,
        None => moving_type(b, mv),
    };
    let ks = castle_rook(us, true);
    let qs = castle_rook(us, false);
    if s == mv.to {
        Some((us, placed))
    } else if s == mv.from {
        None
    } else if mv.flag == MoveFlag::EnPassant && s == ep_victim_sq(mv) {
        None
    } else if mv.flag == MoveFlag::CastleKing && s == ks.0 {
        None
    } else if mv.flag == MoveFlag::CastleKing && s == ks.1 {
        Some((us, PieceType::Rook))
    } else if mv.flag == MoveFlag::CastleQueen && s == qs.0 {
        None
    } else if mv.flag == MoveFlag::CastleQueen && s == qs.1 {
        Some((us, PieceType::Rook))
    } else {
        piece_on(b, s)
    }
}

/// Clears the castling right lost when a rook square is touched.
pub open spec fn touch_rights(sq: int, cr: u8) -> u8 {
    if sq == 0 {
        cr & !CASTLE_WQ
    } else if sq == 7 {
        cr & !CASTLE_WK
    } else if sq == 56 {
        cr & !CASTLE_BQ
    } else if sq == 63 {
        cr & !CASTLE_BK
    } else {
        cr
    }
}

/// Castling rights after `mv`: a king move drops both rights of its side, and
/// moving from or to a corner drops the right of that corner's rook.
pub open spec fn rights_after(b: Board, mv: Move) -> u8 {
    let cr0 = b.castling_rights;
    let cr1 = if moving_type(b, mv) == PieceType::King {
        if b.turn == Color::White {
            cr0 & !(CASTLE_WK | CASTLE_WQ)
        } else {
            cr0 & !(CASTLE_BK | CASTLE_BQ)
        }
    } else {
        cr0
    };
    touch_rights(mv.to as int, touch_rights(mv.from as int, cr1))
}

/// Castling rights never come back: after any move, the side's rights are
/// among those held before.
pub proof fn lemma_rights_never_return(b: Board, mv: Move)
    ensures
        rights_after(b, mv) & !b.castling_rights == 0,
{
    let cr0 = b.castling_rights;
    assert(forall|x: u8, a: u8| #![trigger x & a] x & !cr0 == 0 ==> (x & a) & !cr0 == 0) by (bit_vector);
    assert(cr0 & !cr0 == 0) by (bit_vector);
}

/// Halfmove clock after `mv`: reset by pawn moves and capture moves; a move
/// flagged as non-capturing that lands on a piece restarts the count at one.
pub open spec fn halfmove_after(b: Board, mv: Move) -> int {
    if moving_type(b, mv) == PieceType::Pawn || mv.captures() {
        0
    } else if piece_on(b, mv.to as int) is Some {
        1
    } else {
        b.halfmove_clock + 1
    }
}

pub open spec fn ep_after(mv: Move) -> Option<Square> {
    if mv.flag == MoveFlag::DoublePush {
        Some(
            (((spec_rank(mv.from as int) + spec_rank(mv.to as int)) / 2) * 8 + spec_file(
                mv.from as int,
            )) as Square,
        )
    } else {
        None
    }
}

proof fn lemma_hash_parts(ph: u64, ck: u64, ek: u64, sk: u64, k: u64)
    ensures
        ((((ph ^ ck) ^ ek) ^ sk) ^ k) == (((ph ^ k) ^ ck) ^ ek) ^ sk,
        ((((ph ^ ck) ^ ek) ^ sk) ^ k) == (((ph ^ (ck ^ k)) ^ ek) ^ sk),
        ((((ph ^ ck) ^ ek) ^ sk) ^ k) == (((ph ^ ck) ^ (ek ^ k)) ^ sk),
        ((((ph ^ ck) ^ ek) ^ sk) ^ k) == (((ph ^ ck) ^ ek) ^ (sk ^ k)),
        k ^ k == 0,
        0 ^ k == k,
        (ck ^ k) ^ k == ck,
{
    assert(((((ph ^ ck) ^ ek) ^ sk) ^ k) == (((ph ^ k) ^ ck) ^ ek) ^ sk) by (bit_vector);
    assert(((((ph ^ ck) ^ ek) ^ sk) ^ k) == (((ph ^ (ck ^ k)) ^ ek) ^ sk)) by (bit_vector);
    assert(((((ph ^ ck) ^ ek) ^ sk) ^ k) == (((ph ^ ck) ^ (ek ^ k)) ^ sk)) by (bit_vector);
    assert(((((ph ^ ck) ^ ek) ^ sk) ^ k) == (((ph ^ ck) ^ ek) ^ (sk ^ k))) by (bit_vector);
    assert(k ^ k == 0) by (bit_vector);
    assert(0 ^ k == k) by (bit_vector);
    assert((ck ^ k) ^ k == ck) by (bit_vector);
}

/// The hash field agrees with the board's features.
pub open spec fn hash_ok(b: Board) -> bool {
    b.zobrist == spec_hash(b.pieces, b.castling_rights, b.ep_square, b.turn)
}

impl Board {
    /// Removes a piece while keeping the hash field in step.
    fn take_off(&mut self, color: Color, pt: PieceType, sq: Square)
        requires
            sq < 64,
            pieces_wf(old(self).pieces),
            hash_ok(*old(self)),
            contents(old(self).pieces, sq as int) == Some((color.idx(), pt.idx())),
        ensures
            pieces_wf(final(self).pieces),
            hash_ok(*final(self)),
            forall|s: int| #[trigger]
                contents(final(self).pieces, s) == if s == sq {
                    None
                } else {
                    contents(old(self).pieces, s)
                },
            final(self).turn == old(self).turn,
            final(self).castling_rights == old(self).castling_rights,
            final(self).ep_square == old(self).ep_square,
            final(self).halfmove_clock == old(self).halfmove_clock,
            final(self).fullmove_number == old(self).fullmove_number,
    {
        let ghost ph = piece_hash(self.pieces);
        self.remove_piece(color, pt, sq);
        proof {
            lemma_hash_parts(
                ph,
                key_of(castling_key_index(self.castling_rights as int) as u64),
                ep_hash(self.ep_square),
                side_hash(self.turn),
                key_of(piece_key_index(color.idx(), pt.idx(), sq as int) as u64),
            );
        }
    }

    /// Places a piece while keeping the hash field in step.
    fn put_on(&mut self, color: Color, pt: PieceType, sq: Square)
        requires
            sq < 64,
            pieces_wf(old(self).pieces),
            hash_ok(*old(self)),
            contents(old(self).pieces, sq as int) is None,
        ensures
            pieces_wf(final(self).pieces),
            hash_ok(*final(self)),
            forall|s: int| #[trigger]
                contents(final(self).pieces, s) == if s == sq {
                    Some((color.idx(), pt.idx()))
                } else {
                    contents(old(self).pieces, s)
                },
            final(self).turn == old(self).turn,
            final(self).castling_rights == old(self).castling_rights,
            final(self).ep_square == old(self).ep_square,
            final(self).halfmove_clock == old(self).halfmove_clock,
            final(self).fullmove_number == old(self).fullmove_number,
    {
        let ghost ph = piece_hash(self.pieces);
        self.add_piece(color, pt, sq);
        proof {
            lemma_hash_parts(
                ph,
                key_of(castling_key_index(self.castling_rights as int) as u64),
                ep_hash(self.ep_square),
                side_hash(self.turn),
                key_of(piece_key_index(color.idx(), pt.idx(), sq as int) as u64),
            );
        }
    }
}

pub proof fn lemma_piece_on_contents(b: Board, s: int)
    ensures
        piece_on(b, s) matches Some((c, pt)) ==> contents(b.pieces, s) == Some((c.idx(), pt.idx())),
        piece_on(b, s) is None <==> contents(b.pieces, s) is None,
{
    lemma_contents_on_board(b.pieces, s);
}

proof fn lemma_rights_small(cr: u8, m: u8)
    requires
        cr < 16,
    ensures
        cr & m < 16,
{
    assert(cr < 16 ==> cr & m < 16) by (bit_vector);
}

/// Drops the castling right of the rook corner `sq`, if it is one.
fn touches(sq: Square, cr: u8) -> (r: u8)
    requires
        cr < 16,
    ensures
        r == touch_rights(sq as int, cr),
        r < 16,
{
    proof {
        lemma_rights_small(cr, !CASTLE_WQ);
        lemma_rights_small(cr, !CASTLE_WK);
        lemma_rights_small(cr, !CASTLE_BQ);
        lemma_rights_small(cr, !CASTLE_BK);
    }
    if sq == 0 {
        cr & !CASTLE_WQ
    } else if sq == 7 {
        cr & !CASTLE_WK
    } else if sq == 56 {
        cr & !CASTLE_BQ
    } else if sq == 63 {
        cr & !CASTLE_BK
    } else {
        cr
    }
}

impl Board {
    #[verifier::rlimit(100)]
    fn apply_move(&self, mv: &Move) -> (r: Board)
        requires
            wf(*self),
            move_ok(*self, *mv),
        ensures
            wf(r),
            forall|s: int| #[trigger] piece_on(r, s) == after_piece(*self, *mv, s),
            r.turn == self.turn.other(),
            r.castling_rights == rights_after(*self, *mv),
            r.ep_square == ep_after(*mv),
            r.halfmove_clock == halfmove_after(*self, *mv),
            r.fullmove_number == if self.turn == Color::Black {
                self.fullmove_number + 1
            } else {
                self.fullmove_number as int
            },
    {
        let mut b = *self;
        let us = b.turn;
        let them = us.opposite();
        let ghost ph0 = piece_hash(self.pieces);
        let ghost ck0 = key_of(castling_key_index(self.castling_rights as int) as u64);
        let ghost sk0 = side_hash(us);

        // Clear the previous en passant key.
        match b.ep_square {
            Some(ep) => {
                let k = en_passant_key(file_of(ep));
                proof {
                    lemma_hash_parts(ph0, ck0, k, sk0, k);
                    lemma_xor_facts(ph0 ^ ck0, 0, 0);
                }
                b.zobrist = b.zobrist ^ k;
            },
            None => {},
        }
        b.ep_square = None;

        proof {
            lemma_piece_on_contents(*self, mv.from as int);
            lemma_piece_on_contents(*self, mv.to as int);
            lemma_piece_on_contents(*self, ep_victim_sq(*mv));
            lemma_piece_on_contents(*self, castle_rook(us, true).0);
            lemma_piece_on_contents(*self, castle_rook(us, true).1);
            lemma_piece_on_contents(*self, castle_rook(us, false).0);
            lemma_piece_on_contents(*self, castle_rook(us, false).1);
        }
        let moving_pt = match self.piece_at(mv.from) {
            Some((_, pt)) => pt,
            None => {
                proof {
                    assert(false);
                }
                PieceType::Pawn
            },
        };

        // Capture (ordinary or en passant).
        if mv.flag == MoveFlag::EnPassant {
            let captured_sq = make_square(file_of(mv.to), rank_of(mv.from));
            b.take_off(them, PieceType::Pawn, captured_sq);
            b.halfmove_clock = 0;
        } else {
            match self.piece_at(mv.to) {
                Some((_, captured_pt)) => {
                    b.take_off(them, captured_pt, mv.to);
                    b.halfmove_clock = 0;
                },
                None => {},
            }
        }

        b.take_off(us, moving_pt, mv.from);
        match mv.promotion {
            Some(promo) => b.put_on(us, promo, mv.to),
            None => b.put_on(us, moving_pt, mv.to),
        }

        if moving_pt == PieceType::Pawn || mv.is_capture() {
            b.halfmove_clock = 0;
        } else {
            b.halfmove_clock = b.halfmove_clock + 1;
        }

        // Castling: the rook moves too.
        if mv.flag == MoveFlag::CastleKing {
            let (rook_from, rook_to) = match us {
                Color::White => (make_square(7, 0), make_square(5, 0)),
                Color::Black => (make_square(7, 7), make_square(5, 7)),
            };
            b.take_off(us, PieceType::Rook, rook_from);
            b.put_on(us, PieceType::Rook, rook_to);
        } else if mv.flag == MoveFlag::CastleQueen {
            let (rook_from, rook_to) = match us {
                Color::White => (make_square(0, 0), make_square(3, 0)),
                Color::Black => (make_square(0, 7), make_square(3, 7)),
            };
            b.take_off(us, PieceType::Rook, rook_from);
            b.put_on(us, PieceType::Rook, rook_to);
        }

        // A double pawn push sets the en passant square.
        if mv.flag == MoveFlag::DoublePush {
            let ep_sq = make_square(file_of(mv.from), (rank_of(mv.from) + rank_of(mv.to)) / 2);
            let k = en_passant_key(file_of(ep_sq));
            proof {
                lemma_hash_parts(
                    piece_hash(b.pieces),
                    key_of(castling_key_index(b.castling_rights as int) as u64),
                    0,
                    sk0,
                    k,
                );
            }
            b.ep_square = Some(ep_sq);
            b.zobrist = b.zobrist ^ k;
        }

        // Castling rights.
        let old_cr = b.castling_rights;
        let mut new_cr = old_cr;
        if moving_pt == PieceType::King {
            let keep = match us {
                Color::White => !(CASTLE_WK | CASTLE_WQ),
                Color::Black => !(CASTLE_BK | CASTLE_BQ),
            };
            proof {
                lemma_rights_small(new_cr, keep);
            }
            new_cr = new_cr & keep;
        }
        new_cr = touches(mv.from, new_cr);
        new_cr = touches(mv.to, new_cr);
        if new_cr != old_cr {
            let ko = castling_key(old_cr);
            let kn = castling_key(new_cr);
            proof {
                let ph = piece_hash(b.pieces);
                let ek = ep_hash(b.ep_square);
                lemma_hash_parts(ph, ko, ek, sk0, ko);
                lemma_hash_parts(ph, 0, ek, sk0, kn);
                lemma_xor_facts(ph, 0, 0);
            }
            b.zobrist = b.zobrist ^ ko;
            b.zobrist = b.zobrist ^ kn;
            b.castling_rights = new_cr;
        }

        if us == Color::Black {
            b.fullmove_number = b.fullmove_number + 1;
        }
        b.turn = them;
        let sk = side_key();
        proof {
            lemma_hash_parts(
                piece_hash(b.pieces),
                key_of(castling_key_index(b.castling_rights as int) as u64),
                ep_hash(b.ep_square),
                sk0,
                sk,
            );
            lemma_xor_facts(0, sk, sk);
        }
        b.zobrist = b.zobrist ^ sk;

        b.recompute_derived();
        proof {
            assert forall|s: int| #[trigger] piece_on(b, s) == after_piece(*self, *mv, s) by {
                lemma_piece_on_contents(*self, s);
            }
        }
        b
    }

    /// Plays `mv` (assumed pseudo-legal) and returns the new board; `self` is
    /// left as it was.
    pub fn make_move(&self, mv: &Move) -> (r: Board)
        requires
            wf(*self),
            move_ok(*self, *mv),
        ensures
            is_after(*self, *mv, r),
            r == board_after(*self, *mv),
    {
        let r = self.apply_move(mv);
        proof {
            lemma_after_unique(*self, *mv, r);
        }
        r
    }
}

/// Everything `make_move` states of its result.
pub open spec fn is_after(b: Board, mv: Move, r: Board) -> bool {
    &&& wf(r)
    &&& forall|s: int| #[trigger] piece_on(r, s) == after_piece(b, mv, s)
    &&& r.turn == b.turn.other()
    &&& r.castling_rights == rights_after(b, mv)
    &&& r.ep_square == ep_after(mv)
    &&& r.halfmove_clock == halfmove_after(b, mv)
    &&& r.fullmove_number == if b.turn == Color::Black {
        b.fullmove_number + 1
    } else {
        b.fullmove_number as int
    }
}

/// The board reached by playing `mv` on `b`.
pub open spec fn board_after(b: Board, mv: Move) -> Board {
    choose|r: Board| is_after(b, mv, r)
}

/// Two consistent boards with the same pieces on every square have the same
/// piece and occupancy bitboards.
pub proof fn lemma_same_pieces(r1: Board, r2: Board)
    requires
        consistent(r1),
        consistent(r2),
        forall|s: int| #[trigger] piece_on(r1, s) == piece_on(r2, s),
    ensures
        r1.pieces == r2.pieces,
        r1.occupied_co == r2.occupied_co,
        r1.occupied == r2.occupied,
{
    assert forall|c: int, p: int| 0 <= c < 2 && 0 <= p < 6 implies r1.pieces[c][p]
        == r2.pieces[c][p] by {
        assert forall|s: int| 0 <= s < 64 implies #[trigger] in_bb(r1.pieces[c][p], s) == in_bb(
            r2.pieces[c][p],
            s,
        ) by {
            assert(piece_on(r1, s) == piece_on(r2, s));
            lemma_contents_on_board(r1.pieces, s);
            lemma_contents_on_board(r2.pieces, s);
        }
        lemma_bits_ext(r1.pieces[c][p], r2.pieces[c][p]);
    }
    assert(r1.pieces[0] =~= r2.pieces[0]);
    assert(r1.pieces[1] =~= r2.pieces[1]);
    assert(r1.pieces =~= r2.pieces);
    assert(r1.occupied_co =~= r2.occupied_co);
}

/// `make_move`'s postcondition determines its result.
pub proof fn lemma_after_unique(b: Board, mv: Move, r: Board)
    requires
        is_after(b, mv, r),
    ensures
        board_after(b, mv) == r,
{
    let r2 = board_after(b, mv);
    assert(is_after(b, mv, r2));
    lemma_same_pieces(r, r2);
}

/// Squares attacked by a piece of type `pt` and colour `color` on `sq`.
pub fn piece_attacks(pt: PieceType, sq: Square, occ: Bitboard, color: Color) -> (r: Bitboard)
    requires
        sq < 64,
    ensures
        forall|t: int| #[trigger] in_bb(r, t) == piece_attacks_sq(color, pt, sq as int, t, occ),
{
    match pt {
        PieceType::Pawn => pawn_attacks(color, sq),
        PieceType::Knight => knight_attacks(sq),
        PieceType::Bishop => bishop_attacks(sq, occ),
        PieceType::Rook => rook_attacks(sq, occ),
        PieceType::Queen => queen_attacks(sq, occ),
        PieceType::King => king_attacks(sq),
    }
}

impl Board {
    /// Sets the bit of a piece of `color` and type `pt` on the empty square `sq`.
    pub(crate) fn set_piece(&mut self, color: Color, pt: PieceType, sq: Square)
        requires
            sq < 64,
            pieces_wf(old(self).pieces),
            contents(old(self).pieces, sq as int) is None,
        ensures
            pieces_wf(final(self).pieces),
            forall|s: int| #[trigger]
                contents(final(self).pieces, s) == if s == sq {
                    Some((color.idx(), pt.idx()))
                } else {
                    contents(old(self).pieces, s)
                },
            final(self).occupied_co == old(self).occupied_co,
            final(self).occupied == old(self).occupied,
            final(self).turn == old(self).turn,
            final(self).castling_rights == old(self).castling_rights,
            final(self).ep_square == old(self).ep_square,
            final(self).halfmove_clock == old(self).halfmove_clock,
            final(self).fullmove_number == old(self).fullmove_number,
            final(self).zobrist == old(self).zobrist,
    {
        let c = color.index();
        let p = pt.index();
        let one = bit(sq);
        let nb = self.pieces[c][p] | one;
        let ghost a = self.pieces;
        self.pieces[c][p] = nb;
        proof {
            lemma_has_or(a[c as int][p as int], one);
            assert(same_except(a, self.pieces, c as int, p as int, sq as int));
            assert(!in_bb(a[c as int][p as int], sq as int));
        }
    }

    /// Sets the occupancy bitboards and the hash field from the pieces.
    pub(crate) fn finish_setup(&mut self)
        requires
            pieces_wf(old(self).pieces),
            old(self).castling_rights < 16,
            match old(self).ep_square {
                Some(e) => e < 64,
                None => true,
            },
        ensures
            wf(*final(self)),
            final(self).pieces == old(self).pieces,
            final(self).turn == old(self).turn,
            final(self).castling_rights == old(self).castling_rights,
            final(self).ep_square == old(self).ep_square,
            final(self).halfmove_clock == old(self).halfmove_clock,
            final(self).fullmove_number == old(self).fullmove_number,
    {
        self.recompute_derived();
        self.recompute_zobrist();
    }
}

} // verus!
