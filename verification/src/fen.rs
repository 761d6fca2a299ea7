//! FEN text: reading a position from it and writing a position as it, plus
//! square names and UCI move text.
use vstd::prelude::*;
use vstd::string::{StrSliceExecFns, StringExecFns};
use crate::board::{Board, contents, pieces_wf, piece_on, wf, lemma_contents_on_board};
use crate::types::{Color, Move, PieceType, Square, piece_char, piece_letter, piece_from_letter, spec_file, spec_rank, make_square, file_of, rank_of};

verus! {

/// Unicode white space, the separators of FEN fields.
pub open spec fn is_ws(c: char) -> bool {
    let u = c as u32;
    (0x09 <= u <= 0x0d) || u == 0x20 || u == 0x85 || u == 0xa0 || u == 0x1680 || (0x2000 <= u
        <= 0x200a) || u == 0x2028 || u == 0x2029 || u == 0x202f || u == 0x205f || u == 0x3000
}

fn is_whitespace(c: char) -> (r: bool)
    ensures
        r == is_ws(c),
{
    let u = c as u32;
    (0x09 <= u && u <= 0x0d) || u == 0x20 || u == 0x85 || u == 0xa0 || u == 0x1680 || (0x2000 <= u
        && u <= 0x200a) || u == 0x2028 || u == 0x2029 || u == 0x202f || u == 0x205f || u == 0x3000
}

/// The characters of a string.
pub(crate) fn chars_of(s: &str) -> (r: Vec<char>)
    ensures
        r@ == s@,
{
    let n = s.unicode_len();
    let mut v: Vec<char> = Vec::new();
    let mut i: usize = 0;
    while i < n
        invariant
            n == s@.len(),
            0 <= i <= n,
            v@ == s@.subrange(0, i as int),
        decreases n - i,
    {
        v.push(s.get_char(i));
        i = i + 1;
        assert(v@ == s@.subrange(0, i as int));
    }
    assert(v@ == s@);
    v
}

/// End of the run of non-separator characters starting at `i`.
pub open spec fn tok_end(s: Seq<char>, i: int) -> int
    decreases s.len() - i,
{
    if i >= s.len() || i < 0 || is_ws(s[i]) {
        i
    } else {
        tok_end(s, i + 1)
    }
}

/// Bounds of the whitespace-separated fields of `s` from position `i` on.
pub open spec fn tok_list(s: Seq<char>, i: int) -> Seq<(int, int)>
    decreases s.len() - i, 1int,
{
    if i >= s.len() || i < 0 {
        seq![]
    } else if is_ws(s[i]) {
        tok_list(s, i + 1)
    } else {
        proof {
            lemma_tok_end(s, i);
        }
        seq![(i, tok_end(s, i))] + tok_list(s, tok_end(s, i))
    }
}

pub proof fn lemma_tok_end(s: Seq<char>, i: int)
    requires
        0 <= i < s.len(),
        !is_ws(s[i]),
    ensures
        i < tok_end(s, i) <= s.len(),
        forall|k: int| i <= k < tok_end(s, i) ==> !is_ws(#[trigger] s[k]),
        tok_end(s, i) < s.len() ==> is_ws(s[tok_end(s, i)]),
    decreases s.len() - i,
{
    assert(tok_end(s, i) == tok_end(s, i + 1));
    if i + 1 < s.len() && !is_ws(s[i + 1]) {
        lemma_tok_end(s, i + 1);
    } else {
        assert(tok_end(s, i + 1) == i + 1);
    }
}

pub open spec fn bounds_view(v: Seq<(usize, usize)>) -> Seq<(int, int)> {
    v.map_values(|p: (usize, usize)| (p.0 as int, p.1 as int))
}

/// Bounds of the whitespace-separated fields of `s`.
pub(crate) fn tokenize(s: &Vec<char>) -> (r: Vec<(usize, usize)>)
    ensures
        bounds_view(r@) == tok_list(s@, 0),
{
    let n = s.len();
    let mut r: Vec<(usize, usize)> = Vec::new();
    let mut i: usize = 0;
    while i < n
        invariant
            n == s@.len(),
            0 <= i <= n,
            bounds_view(r@) + tok_list(s@, i as int) == tok_list(s@, 0),
        decreases n - i,
    {
        if is_whitespace(s[i]) {
            i = i + 1;
        } else {
            let start = i;
            proof {
                lemma_tok_end(s@, start as int);
            }
            while i < n && !is_whitespace(s[i])
                invariant
                    n == s@.len(),
                    start <= i <= n,
                    start < n,
                    !is_ws(s@[start as int]),
                    tok_end(s@, i as int) == tok_end(s@, start as int),
                decreases n - i,
            {
                i = i + 1;
            }
            let ghost old_r = bounds_view(r@);
            r.push((start, i));
            proof {
                assert(tok_end(s@, start as int) == i);
                assert(bounds_view(r@) == old_r + seq![(start as int, i as int)]);
            }
        }
    }
    r
}

/// The `k`-th whitespace-separated field of `s`.
pub open spec fn field(s: Seq<char>, k: int) -> Seq<char> {
    let t = tok_list(s, 0);
    s.subrange(t[k].0, t[k].1)
}

/// End of the part of `t` from `i` up to the next '/'.
pub open spec fn slash_end(t: Seq<char>, i: int) -> int
    decreases t.len() - i,
{
    if i >= t.len() || i < 0 || t[i] == '/' {
        i
    } else {
        slash_end(t, i + 1)
    }
}

pub proof fn lemma_slash_end(t: Seq<char>, i: int)
    requires
        0 <= i <= t.len(),
    ensures
        i <= slash_end(t, i) <= t.len(),
        forall|k: int| i <= k < slash_end(t, i) ==> #[trigger] t[k] != '/',
        slash_end(t, i) < t.len() ==> t[slash_end(t, i)] == '/',
    decreases t.len() - i,
{
    if i < t.len() && t[i] != '/' {
        lemma_slash_end(t, i + 1);
    }
}

/// The parts of `t` from `i` on between '/' separators (empty parts kept).
pub open spec fn slash_split(t: Seq<char>, i: int) -> Seq<Seq<char>>
    decreases t.len() - i,
{
    if i < 0 || i > t.len() {
        seq![]
    } else {
        let j = slash_end(t, i);
        proof {
            lemma_slash_end(t, i);
        }
        if j < t.len() {
            seq![t.subrange(i, j)] + slash_split(t, j + 1)
        } else {
            seq![t.subrange(i, t.len() as int)]
        }
    }
}

pub open spec fn is_digit(c: char) -> bool {
    '0' <= c <= '9'
}

pub open spec fn digit_val(c: char) -> int {
    (c as u32) - ('0' as u32)
}

/// The colour a FEN piece letter stands for.
pub open spec fn letter_color(c: char) -> Color {
    if 'A' <= c <= 'Z' {
        Color::White
    } else {
        Color::Black
    }
}

/// Pieces placed by the rank text `seg` of rank `rank`, reading from
/// character `k` with the next piece going to file `file`; or the message of
/// the first bad character.
pub open spec fn rank_parse(seg: Seq<char>, k: int, file: int, rank: int) -> Result<Seq<(int, Color, PieceType)>, Seq<char>>
    decreases seg.len() - k,
{
    if k >= seg.len() || k < 0 {
        Ok(seq![])
    } else {
        let ch = seg[k];
        if is_digit(ch) {
            rank_parse(seg, k + 1, file + digit_val(ch), rank)
        } else {
            match piece_from_letter(ch) {
                None => Err("carácter de pieza inválido: "@ + seq![ch]),
                Some(pt) => if file >= 8 {
                    Err("pieza fuera del tablero: "@ + seq![ch])
                } else {
                    match rank_parse(seg, k + 1, file + 1, rank) {
                        Ok(l) => Ok(seq![(rank * 8 + file, letter_color(ch), pt)] + l),
                        Err(e) => Err(e),
                    }
                },
            }
        }
    }
}

/// Pieces placed by rank texts `segs[i..8]`, `segs[i]` describing rank `7 - i`.
pub open spec fn placement_parse(segs: Seq<Seq<char>>, i: int) -> Result<Seq<(int, Color, PieceType)>, Seq<char>>
    decreases 8 - i,
{
    if i >= 8 || i < 0 {
        Ok(seq![])
    } else {
        match rank_parse(segs[i], 0, 0, 7 - i) {
            Err(e) => Err(e),
            Ok(l) => match placement_parse(segs, i + 1) {
                Err(e) => Err(e),
                Ok(l2) => Ok(l + l2),
            },
        }
    }
}

/// Decimal digits of `n`.
pub open spec fn dec(n: nat) -> Seq<char>
    decreases n,
{
    if n < 10 {
        seq![(n + 48) as char]
    } else {
        dec(n / 10) + seq![((n % 10) + 48) as char]
    }
}

/// Value of a run of decimal digits.
pub open spec fn digits_value(t: Seq<char>) -> nat
    decreases t.len(),
{
    if t.len() == 0 {
        0
    } else {
        digits_value(t.drop_last()) * 10 + digit_val(t.last()) as nat
    }
}

pub open spec fn all_digits(t: Seq<char>) -> bool {
    forall|i: int| 0 <= i < t.len() ==> is_digit(#[trigger] t[i])
}

/// `u32` parsing of Rust's standard library: an optional '+' followed by
/// at least one decimal digit, with a value that fits.
pub open spec fn parse_u32_spec(t: Seq<char>) -> Option<u32> {
    let d = if t.len() > 1 && t[0] == '+' {
        t.subrange(1, t.len() as int)
    } else {
        t
    };
    if d.len() > 0 && all_digits(d) && digits_value(d) <= 0xffff_ffff {
        Some(digits_value(d) as u32)
    } else {
        None
    }
}

/// The square named by a file letter 'a'..'h' and a rank digit '1'..'8'.
pub open spec fn square_of_name(t: Seq<char>) -> Option<Square> {
    if t.len() == 2 && 'a' <= t[0] <= 'h' && '1' <= t[1] <= '8' {
        Some((((t[1] as u32) - 49) * 8 + ((t[0] as u32) - 97)) as Square)
    } else {
        None
    }
}

/// Castling rights named by the letters of `t[k..]` added to `cr`, or the
/// message of the first letter that names none.
pub open spec fn castle_parse(t: Seq<char>, k: int, cr: u8) -> Result<u8, Seq<char>>
    decreases t.len() - k,
{
    if k >= t.len() || k < 0 {
        Ok(cr)
    } else {
        let ch = t[k];
        if ch == 'K' {
            castle_parse(t, k + 1, cr | 1)
        } else if ch == 'Q' {
            castle_parse(t, k + 1, cr | 2)
        } else if ch == 'k' {
            castle_parse(t, k + 1, cr | 4)
        } else if ch == 'q' {
            castle_parse(t, k + 1, cr | 8)
        } else {
            Err("derecho de enroque inválido: "@ + seq![ch])
        }
    }
}

/// What a FEN text describes: placed pieces (square, colour, type), side to
/// move, castling rights, en passant square, halfmove clock and fullmove
/// number; or the message of its first error.
pub open spec fn parse_fen(s: Seq<char>) -> Result<(Seq<(int, Color, PieceType)>, Color, u8, Option<Square>, u32, u32), Seq<char>> {
    let t = tok_list(s, 0);
    if t.len() < 4 {
        Err("FEN incompleto: "@ + s)
    } else {
        let segs = slash_split(field(s, 0), 0);
        if segs.len() != 8 {
            Err("FEN con "@ + dec(segs.len()) + " filas, se esperaban 8"@)
        } else {
            match placement_parse(segs, 0) {
                Err(e) => Err(e),
                Ok(pl) => {
                    let f1 = field(s, 1);
                    if f1 != seq!['w'] && f1 != seq!['b'] {
                        Err("turno inválido: "@ + f1)
                    } else {
                        let turn = if f1 == seq!['w'] {
                            Color::White
                        } else {
                            Color::Black
                        };
                        let f2 = field(s, 2);
                        let cr = if f2 == seq!['-'] {
                            Ok(0u8)
                        } else {
                            castle_parse(f2, 0, 0)
                        };
                        match cr {
                            Err(e) => Err(e),
                            Ok(cr) => {
                                let f3 = field(s, 3);
                                let ep = if f3 == seq!['-'] {
                                    None
                                } else {
                                    square_of_name(f3)
                                };
                                let hm = if t.len() > 4 {
                                    match parse_u32_spec(field(s, 4)) {
                                        Some(v) => v,
                                        None => 0u32,
                                    }
                                } else {
                                    0u32
                                };
                                let fm = if t.len() > 5 {
                                    match parse_u32_spec(field(s, 5)) {
                                        Some(v) => v,
                                        None => 1u32,
                                    }
                                } else {
                                    1u32
                                };
                                Ok((pl, turn, cr, ep, hm, fm))
                            },
                        }
                    }
                },
            }
        }
    }
}

/// `b` is a well-formed board with what the FEN text `s` describes.
pub open spec fn describes(s: Seq<char>, b: Board) -> bool {
    parse_fen(s) matches Ok((pl, turn, cr, ep, hm, fm)) && wf(b) && (forall|sq: int|
        #[trigger] piece_on(b, sq) == placed_at(pl, sq)) && b.turn == turn && b.castling_rights == cr
        && b.ep_square == ep && b.halfmove_clock == hm && b.fullmove_number == fm
}

/// `String::push` of the standard library: appends one character.
#[verifier::external_body]
pub(crate) fn push_char(s: &mut String, c: char)
    ensures
        final(s)@ == old(s)@.push(c),
{
    s.push(c);
}

/// Appends the decimal digits of `n`.
fn push_decimal(s: &mut String, n: u64)
    ensures
        final(s)@ == old(s)@ + dec(n as nat),
    decreases n,
{
    if n < 10 {
        let c = ((n as u8) + 48) as char;
        push_char(s, c);
        proof {
            assert(old(s)@.push(c) =~= old(s)@ + dec(n as nat));
        }
    } else {
        push_decimal(s, n / 10);
        let c = (((n % 10) as u8) + 48) as char;
        let ghost mid = s@;
        push_char(s, c);
        proof {
            assert(mid.push(c) =~= old(s)@ + dec(n as nat));
        }
    }
}

/// A copy of `v[lo..hi]`.
fn sub_chars(v: &Vec<char>, lo: usize, hi: usize) -> (r: Vec<char>)
    requires
        lo <= hi <= v@.len(),
    ensures
        r@ == v@.subrange(lo as int, hi as int),
{
    let mut r: Vec<char> = Vec::new();
    let mut i = lo;
    while i < hi
        invariant
            lo <= i <= hi <= v@.len(),
            r@ == v@.subrange(lo as int, i as int),
        decreases hi - i,
    {
        r.push(v[i]);
        i = i + 1;
        assert(r@ == v@.subrange(lo as int, i as int));
    }
    r
}

pub open spec fn views(v: Seq<Vec<char>>) -> Seq<Seq<char>> {
    v.map_values(|x: Vec<char>| x@)
}

/// The parts of `t` between '/' separators.
fn split_slashes(t: &Vec<char>) -> (r: Vec<Vec<char>>)
    ensures
        views(r@) == slash_split(t@, 0),
{
    let n = t.len();
    let mut r: Vec<Vec<char>> = Vec::new();
    let mut i: usize = 0;
    loop
        invariant
            n == t@.len(),
            0 <= i <= n,
            views(r@) + slash_split(t@, i as int) == slash_split(t@, 0),
        decreases n - i,
    {
        let start = i;
        proof {
            lemma_slash_end(t@, i as int);
        }
        while i < n && t[i] != '/'
            invariant
                n == t@.len(),
                start <= i <= n,
                slash_end(t@, i as int) == slash_end(t@, start as int),
            decreases n - i,
        {
            i = i + 1;
        }
        let part = sub_chars(t, start, i);
        let ghost old_r = views(r@);
        r.push(part);
        proof {
            assert(slash_end(t@, start as int) == i);
            assert(views(r@) == old_r + seq![part@]);
        }
        if i < n {
            i = i + 1;
        } else {
            return r;
        }
    }
}

/// The piece the placement list `l` puts on `sq`, if any.
pub open spec fn placed_at(l: Seq<(int, Color, PieceType)>, sq: int) -> Option<(Color, PieceType)>
    decreases l.len(),
{
    if l.len() == 0 {
        None
    } else if l[0].0 == sq {
        Some((l[0].1, l[0].2))
    } else {
        placed_at(l.drop_first(), sq)
    }
}

pub open spec fn join_places(pl: Seq<(int, Color, PieceType)>, r: Result<Seq<(int, Color, PieceType)>, Seq<char>>) -> Result<Seq<(int, Color, PieceType)>, Seq<char>> {
    match r {
        Ok(l) => Ok(pl + l),
        Err(e) => Err(e),
    }
}

proof fn lemma_rank_parse_cap(seg: Seq<char>, k: int, f1: int, f2: int, rank: int)
    requires
        f1 >= 8,
        f2 >= 8,
    ensures
        rank_parse(seg, k, f1, rank) == rank_parse(seg, k, f2, rank),
    decreases seg.len() - k,
{
    if 0 <= k < seg.len() {
        let ch = seg[k];
        if is_digit(ch) {
            lemma_rank_parse_cap(seg, k + 1, f1 + digit_val(ch), f2 + digit_val(ch), rank);
        }
    }
}

/// The squares a rank text places pieces on lie on its rank, beyond `file`.
proof fn lemma_rank_parse_squares(seg: Seq<char>, k: int, file: int, rank: int)
    requires
        file >= 0,
    ensures
        rank_parse(seg, k, file, rank) matches Ok(l) ==> forall|i: int| 0 <= i < l.len() ==> file <= #[trigger] l[i].0 - rank * 8 < 8,
    decreases seg.len() - k,
{
    if 0 <= k < seg.len() {
        let ch = seg[k];
        if is_digit(ch) {
            lemma_rank_parse_squares(seg, k + 1, file + digit_val(ch), rank);
        } else {
            lemma_rank_parse_squares(seg, k + 1, file + 1, rank);
        }
    }
}

pub(crate) proof fn lemma_placed_at_append(a: Seq<(int, Color, PieceType)>, b: Seq<(int, Color, PieceType)>, sq: int)
    ensures
        placed_at(a + b, sq) == match placed_at(a, sq) {
            Some(x) => Some(x),
            None => placed_at(b, sq),
        },
    decreases a.len(),
{
    if a.len() > 0 {
        assert((a + b).drop_first() =~= a.drop_first() + b);
        lemma_placed_at_append(a.drop_first(), b, sq);
    } else {
        assert(a + b =~= b);
    }
}

pub(crate) proof fn lemma_placed_at_none(a: Seq<(int, Color, PieceType)>, sq: int)
    requires
        forall|i: int| 0 <= i < a.len() ==> #[trigger] a[i].0 != sq,
    ensures
        placed_at(a, sq) is None,
    decreases a.len(),
{
    if a.len() > 0 {
        lemma_placed_at_none(a.drop_first(), sq);
    }
}

pub open spec fn idx_pair(x: Option<(Color, PieceType)>) -> Option<(int, int)> {
    match x {
        Some((c, p)) => Some((c.idx(), p.idx())),
        None => None,
    }
}

/// Places the pieces of one rank text on rank `rank` of `b`.
fn parse_rank(seg: &Vec<char>, rank: u8, b: &mut Board) -> (r: Result<(), String>)
    requires
        rank < 8,
        pieces_wf(old(b).pieces),
        forall|f: int| 0 <= f < 8 ==> #[trigger] contents(old(b).pieces, rank * 8 + f) is None,
    ensures
        match r {
            Ok(_) => rank_parse(seg@, 0, 0, rank as int) matches Ok(l) && pieces_wf(final(b).pieces)
                && forall|sq: int| #[trigger] contents(final(b).pieces, sq) == match placed_at(l, sq) {
                    Some(x) => idx_pair(Some(x)),
                    None => contents(old(b).pieces, sq),
                },
            Err(e) => rank_parse(seg@, 0, 0, rank as int) == Err::<Seq<(int, Color, PieceType)>, Seq<char>>(e@),
        },
        final(b).turn == old(b).turn,
        final(b).castling_rights == old(b).castling_rights,
        final(b).ep_square == old(b).ep_square,
        final(b).halfmove_clock == old(b).halfmove_clock,
        final(b).fullmove_number == old(b).fullmove_number,
{
    let n = seg.len();
    let mut k: usize = 0;
    let mut file: u64 = 0;
    let ghost mut pl: Seq<(int, Color, PieceType)> = seq![];
    while k < n
        invariant
            n == seg@.len(),
            rank < 8,
            0 <= k <= n,
            file <= 64,
            rank_parse(seg@, 0, 0, rank as int) == join_places(pl, rank_parse(seg@, k as int, file as int, rank as int)),
            forall|i: int| 0 <= i < pl.len() ==> 0 <= #[trigger] pl[i].0 - rank * 8 < file && pl[i].0 - rank * 8 < 8,
            pieces_wf(b.pieces),
            forall|sq: int| #[trigger] contents(b.pieces, sq) == match placed_at(pl, sq) {
                Some(x) => idx_pair(Some(x)),
                None => contents(old(b).pieces, sq),
            },
            forall|f: int| 0 <= f < 8 ==> #[trigger] contents(old(b).pieces, rank * 8 + f) is None,
            b.turn == old(b).turn,
            b.castling_rights == old(b).castling_rights,
            b.ep_square == old(b).ep_square,
            b.halfmove_clock == old(b).halfmove_clock,
            b.fullmove_number == old(b).fullmove_number,
        decreases n - k,
    {
        let ch = seg[k];
        if '0' <= ch && ch <= '9' {
            let d = (ch as u32 - '0' as u32) as u64;
            let nf = if file + d > 64 {
                64
            } else {
                file + d
            };
            proof {
                if file + d > 64 {
                    lemma_rank_parse_cap(seg@, k + 1, file + d, 64, rank as int);
                }
            }
            file = nf;
        } else {
            match PieceType::from_char(ch) {
                None => {
                    let mut e = String::from_str("carácter de pieza inválido: ");
                    push_char(&mut e, ch);
                    proof {
                        assert(e@ =~= "carácter de pieza inválido: "@ + seq![ch]);
                        assert(rank_parse(seg@, k as int, file as int, rank as int) == Err::<Seq<(int, Color, PieceType)>, Seq<char>>(e@));
                    }
                    return Err(e);
                },
                Some(pt) => {
                    if file >= 8 {
                        let mut e = String::from_str("pieza fuera del tablero: ");
                        push_char(&mut e, ch);
                        proof {
                            assert(e@ =~= "pieza fuera del tablero: "@ + seq![ch]);
                            assert(rank_parse(seg@, k as int, file as int, rank as int) == Err::<Seq<(int, Color, PieceType)>, Seq<char>>(e@));
                        }
                        return Err(e);
                    }
                    let color = if 'A' <= ch && ch <= 'Z' {
                        Color::White
                    } else {
                        Color::Black
                    };
                    let sq = make_square(file as u8, rank);
                    proof {
                        assert forall|i: int| 0 <= i < pl.len() implies #[trigger] pl[i].0 != sq by {}
                        lemma_placed_at_none(pl, sq as int);
                        assert(contents(old(b).pieces, rank * 8 + file) is None);
                    }
                    let ghost pl_old = pl;
                    b.set_piece(color, pt, sq);
                    proof {
                        let entry = (sq as int, color, pt);
                        pl = pl + seq![entry];
                        assert forall|q: int| #[trigger] contents(b.pieces, q) == match placed_at(pl, q) {
                            Some(x) => idx_pair(Some(x)),
                            None => contents(old(b).pieces, q),
                        } by {
                            lemma_placed_at_append(pl_old, seq![entry], q);
                            assert(seq![entry].drop_first() =~= Seq::<(int, Color, PieceType)>::empty());
                            assert(placed_at(Seq::<(int, Color, PieceType)>::empty(), q) is None);
                            if q == sq {
                                assert(placed_at(pl_old, q) is None);
                                assert(placed_at(seq![entry], q) == Some((color, pt)));
                            } else {
                                assert(placed_at(seq![entry], q) is None);
                            }
                        }
                        assert(rank_parse(seg@, k as int, file as int, rank as int) == join_places(seq![entry], rank_parse(seg@, k + 1, file + 1, rank as int)));
                        assert forall|r: Result<Seq<(int, Color, PieceType)>, Seq<char>>| #![auto] join_places(pl_old, join_places(seq![entry], r)) == join_places(pl, r) by {
                            match r {
                                Ok(l) => {
                                    assert(pl_old + (seq![entry] + l) =~= pl + l);
                                },
                                Err(_) => {},
                            }
                        }
                    }
                    file = file + 1;
                },
            }
        }
        k = k + 1;
    }
    proof {
        assert(pl + Seq::<(int, Color, PieceType)>::empty() =~= pl);
    }
    Ok(())
}

/// Places the pieces of the eight rank texts, `segs[i]` describing rank `7 - i`.
fn parse_placement(segs: &Vec<Vec<char>>, b: &mut Board) -> (r: Result<(), String>)
    requires
        segs@.len() == 8,
        pieces_wf(old(b).pieces),
        forall|sq: int| #[trigger] contents(old(b).pieces, sq) is None,
    ensures
        match r {
            Ok(_) => placement_parse(views(segs@), 0) matches Ok(l) && pieces_wf(final(b).pieces)
                && forall|sq: int| #[trigger] contents(final(b).pieces, sq) == idx_pair(placed_at(l, sq)),
            Err(e) => placement_parse(views(segs@), 0) == Err::<Seq<(int, Color, PieceType)>, Seq<char>>(e@),
        },
        final(b).turn == old(b).turn,
        final(b).castling_rights == old(b).castling_rights,
        final(b).ep_square == old(b).ep_square,
        final(b).halfmove_clock == old(b).halfmove_clock,
        final(b).fullmove_number == old(b).fullmove_number,
{
    let ghost sv = views(segs@);
    let ghost mut pl: Seq<(int, Color, PieceType)> = seq![];
    let mut i: usize = 0;
    while i < 8
        invariant
            segs@.len() == 8,
            sv == views(segs@),
            0 <= i <= 8,
            placement_parse(sv, 0) == join_places(pl, placement_parse(sv, i as int)),
            forall|j: int| 0 <= j < pl.len() ==> 8 - i <= #[trigger] pl[j].0 / 8 < 8 && pl[j].0 >= 0,
            pieces_wf(b.pieces),
            forall|sq: int| #[trigger] contents(b.pieces, sq) == idx_pair(placed_at(pl, sq)),
            b.turn == old(b).turn,
            b.castling_rights == old(b).castling_rights,
            b.ep_square == old(b).ep_square,
            b.halfmove_clock == old(b).halfmove_clock,
            b.fullmove_number == old(b).fullmove_number,
        decreases 8 - i,
    {
        let rank = (7 - i) as u8;
        proof {
            assert forall|f: int| 0 <= f < 8 implies #[trigger] contents(b.pieces, rank * 8 + f) is None by {
                assert forall|j: int| 0 <= j < pl.len() implies #[trigger] pl[j].0 != rank * 8 + f by {}
                lemma_placed_at_none(pl, rank * 8 + f);
            }
            assert(sv[i as int] == segs@[i as int]@);
            lemma_rank_parse_squares(segs@[i as int]@, 0, 0, rank as int);
        }
        let ghost before = b.pieces;
        let res = parse_rank(&segs[i], rank, b);
        match res {
            Err(e) => {
                proof {
                    assert(placement_parse(sv, i as int) == Err::<Seq<(int, Color, PieceType)>, Seq<char>>(e@));
                }
                return Err(e);
            },
            Ok(_) => {
                proof {
                    let l = rank_parse(sv[i as int], 0, 0, rank as int)->Ok_0;
                    let pl_old = pl;
                    pl = pl + l;
                    assert forall|sq: int| #[trigger] contents(b.pieces, sq) == idx_pair(placed_at(pl, sq)) by {
                        lemma_placed_at_append(pl_old, l, sq);
                        if placed_at(l, sq) is Some {
                            if placed_at(pl_old, sq) is Some {
                                lemma_placed_at_some(pl_old, sq);
                                lemma_placed_at_some(l, sq);
                            }
                        }
                    }
                    assert forall|j: int| 0 <= j < pl.len() implies 8 - (i + 1) <= #[trigger] pl[j].0 / 8 < 8 && pl[j].0 >= 0 by {
                        if j >= pl_old.len() {
                            assert(pl[j] == l[j - pl_old.len()]);
                        }
                    }
                    assert forall|r: Result<Seq<(int, Color, PieceType)>, Seq<char>>| #![auto] join_places(pl_old, join_places(l, r)) == join_places(pl, r) by {
                        match r {
                            Ok(l2) => {
                                assert(pl_old + (l + l2) =~= pl + l2);
                            },
                            Err(_) => {},
                        }
                    }
                }
            },
        }
        i = i + 1;
    }
    proof {
        assert(pl + Seq::<(int, Color, PieceType)>::empty() =~= pl);
    }
    Ok(())
}

/// A placed square is one of the list's squares.
proof fn lemma_placed_at_some(a: Seq<(int, Color, PieceType)>, sq: int)
    requires
        placed_at(a, sq) is Some,
    ensures
        exists|j: int| 0 <= j < a.len() && #[trigger] a[j].0 == sq,
    decreases a.len(),
{
    if a[0].0 != sq {
        lemma_placed_at_some(a.drop_first(), sq);
        let j = choose|j: int| 0 <= j < a.drop_first().len() && #[trigger] a.drop_first()[j].0 == sq;
        assert(a[j + 1].0 == sq);
    } else {
        assert(a[0].0 == sq);
    }
}

/// Castling rights named by the letters of `t`.
fn parse_castling(t: &Vec<char>) -> (r: Result<u8, String>)
    ensures
        match r {
            Ok(v) => castle_parse(t@, 0, 0) == Ok::<u8, Seq<char>>(v) && v < 16,
            Err(e) => castle_parse(t@, 0, 0) == Err::<u8, Seq<char>>(e@),
        },
{
    let n = t.len();
    let mut cr: u8 = 0;
    let mut k: usize = 0;
    while k < n
        invariant
            n == t@.len(),
            0 <= k <= n,
            cr < 16,
            castle_parse(t@, 0, 0) == castle_parse(t@, k as int, cr),
        decreases n - k,
    {
        let ch = t[k];
        proof {
            assert(cr < 16 ==> (cr | 1) < 16 && (cr | 2) < 16 && (cr | 4) < 16 && (cr | 8) < 16) by (bit_vector);
        }
        if ch == 'K' {
            cr = cr | 1;
        } else if ch == 'Q' {
            cr = cr | 2;
        } else if ch == 'k' {
            cr = cr | 4;
        } else if ch == 'q' {
            cr = cr | 8;
        } else {
            let mut e = String::from_str("derecho de enroque inválido: ");
            push_char(&mut e, ch);
            proof {
                assert(e@ =~= "derecho de enroque inválido: "@ + seq![ch]);
            }
            return Err(e);
        }
        k = k + 1;
    }
    Ok(cr)
}

pub(crate) proof fn lemma_digits_value_grows(t: Seq<char>, i: int)
    requires
        0 <= i <= t.len(),
        all_digits(t),
    ensures
        digits_value(t.subrange(0, i)) <= digits_value(t),
    decreases t.len() - i,
{
    if i < t.len() {
        lemma_digits_value_grows(t, i + 1);
        assert(t.subrange(0, i + 1).drop_last() =~= t.subrange(0, i));
    } else {
        assert(t.subrange(0, i) =~= t);
    }
}

/// Decimal value of `t[lo..]` if it is all digits and fits in a `u32`.
fn parse_digits(t: &Vec<char>, lo: usize) -> (r: Option<u32>)
    requires
        lo <= t@.len(),
    ensures
        ({
            let d = t@.subrange(lo as int, t@.len() as int);
            r == if all_digits(d) && digits_value(d) <= 0xffff_ffff {
                Some(digits_value(d) as u32)
            } else {
                None::<u32>
            }
        }),
{
    let ghost d = t@.subrange(lo as int, t@.len() as int);
    let n = t.len();
    let mut v: u64 = 0;
    let mut i: usize = lo;
    while i < n
        invariant
            n == t@.len(),
            lo <= i <= n,
            d == t@.subrange(lo as int, n as int),
            all_digits(d.subrange(0, i - lo)),
            v == digits_value(d.subrange(0, i - lo)),
            v <= 0xffff_ffff,
        decreases n - i,
    {
        let ch = t[i];
        if !('0' <= ch && ch <= '9') {
            proof {
                assert(!is_digit(d[i - lo]));
            }
            return None;
        }
        let nv = v * 10 + (ch as u32 - '0' as u32) as u64;
        proof {
            assert(d.subrange(0, i + 1 - lo).drop_last() =~= d.subrange(0, i - lo));
            assert(d.subrange(0, i + 1 - lo).last() == ch);
        }
        if nv > 0xffff_ffff {
            proof {
                if all_digits(d) {
                    lemma_digits_value_grows(d, i + 1 - lo);
                }
            }
            return None;
        }
        v = nv;
        i = i + 1;
    }
    proof {
        assert(d.subrange(0, n - lo) =~= d);
    }
    Some(v as u32)
}

/// `u32` parsing as the standard library does it.
fn parse_u32(t: &Vec<char>) -> (r: Option<u32>)
    ensures
        r == parse_u32_spec(t@),
{
    if t.len() > 1 && t[0] == '+' {
        parse_digits(t, 1)
    } else {
        let r = parse_digits(t, 0);
        proof {
            assert(t@.subrange(0, t@.len() as int) =~= t@);
        }
        if t.len() == 0 {
            None
        } else {
            r
        }
    }
}

/// The square named by the characters `t` ("a1" .. "h8").
fn square_from_chars(t: &Vec<char>) -> (r: Option<Square>)
    ensures
        r == square_of_name(t@),
{
    if t.len() == 2 && 'a' <= t[0] && t[0] <= 'h' && '1' <= t[1] && t[1] <= '8' {
        let f = (t[0] as u32 - 97) as u8;
        let rk = (t[1] as u32 - 49) as u8;
        Some(rk * 8 + f)
    } else {
        None
    }
}

/// The square with the given name ("a1" .. "h8"), if it is one.
pub fn square_from_name(name: &str) -> (r: Option<Square>)
    ensures
        r == square_of_name(name@),
{
    let v = chars_of(name);
    square_from_chars(&v)
}

/// Name of a square: file letter and rank digit.
pub open spec fn name_of(sq: int) -> Seq<char> {
    seq![(spec_file(sq) + 97) as char, (spec_rank(sq) + 49) as char]
}

fn push_square(s: &mut String, sq: Square)
    requires
        sq < 64,
    ensures
        final(s)@ == old(s)@ + name_of(sq as int),
{
    let f = file_of(sq);
    let r = rank_of(sq);
    push_char(s, (f + 97) as char);
    push_char(s, (r + 49) as char);
    proof {
        assert(s@ =~= old(s)@ + name_of(sq as int));
    }
}

/// Name of a square, such as "e4".
pub fn square_name(sq: Square) -> (r: String)
    requires
        sq < 64,
    ensures
        r@ == name_of(sq as int),
{
    let mut s = String::new();
    push_square(&mut s, sq);
    proof {
        assert(s@ =~= name_of(sq as int));
    }
    s
}

/// A square's name reads back as that square.
pub proof fn lemma_square_name_round_trip(sq: int)
    requires
        0 <= sq < 64,
    ensures
        square_of_name(name_of(sq)) == Some(sq as Square),
{
}

pub(crate) proof fn lemma_tok_list_bounds(s: Seq<char>, i: int)
    requires
        0 <= i,
    ensures
        forall|k: int| 0 <= k < tok_list(s, i).len() ==> i <= #[trigger] tok_list(s, i)[k].0 < tok_list(s, i)[k].1 <= s.len(),
    decreases s.len() - i,
{
    if i < s.len() {
        if is_ws(s[i]) {
            lemma_tok_list_bounds(s, i + 1);
            assert(tok_list(s, i) == tok_list(s, i + 1));
        } else {
            lemma_tok_end(s, i);
            let e = tok_end(s, i);
            lemma_tok_list_bounds(s, e);
            let rest = tok_list(s, e);
            assert(tok_list(s, i) == seq![(i, e)] + rest);
            assert forall|k: int| 0 <= k < tok_list(s, i).len() implies i <= #[trigger] tok_list(
                s,
                i,
            )[k].0 < tok_list(s, i)[k].1 <= s.len() by {
                if k > 0 {
                    assert(tok_list(s, i)[k] == rest[k - 1]);
                }
            }
        }
    }
}

/// The characters of field `k`.
pub(crate) fn field_chars(chars: &Vec<char>, toks: &Vec<(usize, usize)>, k: usize) -> (r: Vec<char>)
    requires
        bounds_view(toks@) == tok_list(chars@, 0),
        k < toks@.len(),
    ensures
        r@ == field(chars@, k as int),
{
    proof {
        lemma_tok_list_bounds(chars@, 0);
        assert(bounds_view(toks@)[k as int] == tok_list(chars@, 0)[k as int]);
    }
    let (lo, hi) = toks[k];
    sub_chars(chars, lo, hi)
}

impl Board {
    /// Reads a position from FEN text. Fields are separated by white space;
    /// the halfmove clock and fullmove number may be left out (0 and 1).
    pub fn from_fen(fen: &str) -> (r: Result<Board, String>)
        ensures
            match r {
                Ok(b) => describes(fen@, b),
                Err(e) => parse_fen(fen@) == Err::<(Seq<(int, Color, PieceType)>, Color, u8, Option<Square>, u32, u32), Seq<char>>(e@),
            },
    {
        let chars = chars_of(fen);
        let toks = tokenize(&chars);
        if toks.len() < 4 {
            let mut e = String::from_str("FEN incompleto: ");
            e.append(fen);
            return Err(e);
        }
        let f0 = field_chars(&chars, &toks, 0);
        let segs = split_slashes(&f0);
        if segs.len() != 8 {
            let mut e = String::from_str("FEN con ");
            push_decimal(&mut e, segs.len() as u64);
            e.append(" filas, se esperaban 8");
            proof {
                assert(views(segs@).len() == segs@.len());
            }
            return Err(e);
        }
        let mut b = Board::empty();
        proof {
            assert forall|sq: int| #[trigger] contents(b.pieces, sq) is None by {
                crate::board::lemma_piece_on_contents(b, sq);
            }
        }
        match parse_placement(&segs, &mut b) {
            Err(e) => {
                return Err(e);
            },
            Ok(_) => {},
        }
        let ghost pl = placement_parse(views(segs@), 0)->Ok_0;
        let f1 = field_chars(&chars, &toks, 1);
        if f1.len() == 1 && f1[0] == 'w' {
            b.turn = Color::White;
            proof {
                assert(f1@ =~= seq!['w']);
            }
        } else if f1.len() == 1 && f1[0] == 'b' {
            b.turn = Color::Black;
            proof {
                assert(f1@ =~= seq!['b']);
            }
        } else {
            let mut e = String::from_str("turno inválido: ");
            let mut i: usize = 0;
            while i < f1.len()
                invariant
                    0 <= i <= f1@.len(),
                    e@ == "turno inválido: "@ + f1@.subrange(0, i as int),
                decreases f1@.len() - i,
            {
                push_char(&mut e, f1[i]);
                i = i + 1;
                proof {
                    assert(e@ =~= "turno inválido: "@ + f1@.subrange(0, i as int));
                }
            }
            proof {
                assert(f1@.subrange(0, f1@.len() as int) =~= f1@);
                assert(f1@ != seq!['w']);
                assert(f1@ != seq!['b']);
            }
            return Err(e);
        }
        let f2 = field_chars(&chars, &toks, 2);
        if f2.len() == 1 && f2[0] == '-' {
            b.castling_rights = 0;
            proof {
                assert(f2@ =~= seq!['-']);
            }
        } else {
            proof {
                assert(f2@ != seq!['-']);
            }
            match parse_castling(&f2) {
                Ok(cr) => {
                    b.castling_rights = cr;
                },
                Err(e) => {
                    return Err(e);
                },
            }
        }
        let f3 = field_chars(&chars, &toks, 3);
        if f3.len() == 1 && f3[0] == '-' {
            b.ep_square = None;
            proof {
                assert(f3@ =~= seq!['-']);
            }
        } else {
            proof {
                assert(f3@ != seq!['-']);
            }
            b.ep_square = square_from_chars(&f3);
        }
        b.halfmove_clock = if toks.len() > 4 {
            let f4 = field_chars(&chars, &toks, 4);
            match parse_u32(&f4) {
                Some(v) => v,
                None => 0,
            }
        } else {
            0
        };
        b.fullmove_number = if toks.len() > 5 {
            let f5 = field_chars(&chars, &toks, 5);
            match parse_u32(&f5) {
                Some(v) => v,
                None => 1,
            }
        } else {
            1
        };
        proof {
            assert(toks@.len() == tok_list(chars@, 0).len());
            assert forall|sq: int| #[trigger] piece_on(b, sq) == placed_at(pl, sq) by {
                assert(contents(b.pieces, sq) == idx_pair(placed_at(pl, sq)));
            }
        }
        b.finish_setup();
        Ok(b)
    }

    /// The initial chess position.
    pub fn startpos() -> (r: Board)
        ensures
            wf(r),
            forall|sq: int| #[trigger] piece_on(r, sq) == start_piece(sq),
            r.turn == Color::White,
            r.castling_rights == 15,
            r.ep_square is None,
            r.halfmove_clock == 0,
            r.fullmove_number == 1,
    {
        let mut b = Board::empty();
        proof {
            assert forall|sq: int| #[trigger] contents(b.pieces, sq) is None by {
                crate::board::lemma_piece_on_contents(b, sq);
            }
        }
        let mut f: u8 = 0;
        while f < 8
            invariant
                0 <= f <= 8,
                pieces_wf(b.pieces),
                forall|sq: int| #[trigger] contents(b.pieces, sq) == if 0 <= sq < 64 && spec_file(sq) < f {
                    idx_pair(start_piece(sq))
                } else {
                    None
                },
                b.turn == Color::White,
                b.castling_rights == 0,
                b.ep_square is None,
                b.halfmove_clock == 0,
                b.fullmove_number == 1,
            decreases 8 - f,
        {
            let back = back_rank_piece(f);
            b.set_piece(Color::White, back, f);
            b.set_piece(Color::White, PieceType::Pawn, 8 + f);
            b.set_piece(Color::Black, PieceType::Pawn, 48 + f);
            b.set_piece(Color::Black, back, 56 + f);
            f = f + 1;
        }
        b.castling_rights = 15;
        proof {
            assert forall|sq: int| #[trigger] piece_on(b, sq) == start_piece(sq) by {
                assert(contents(b.pieces, sq) == idx_pair(start_piece(sq)));
            }
        }
        b.finish_setup();
        b
    }
}

/// The back-rank piece on file `f` in the initial position.
pub open spec fn back_piece(f: int) -> PieceType {
    if f == 0 || f == 7 {
        PieceType::Rook
    } else if f == 1 || f == 6 {
        PieceType::Knight
    } else if f == 2 || f == 5 {
        PieceType::Bishop
    } else if f == 3 {
        PieceType::Queen
    } else {
        PieceType::King
    }
}

/// What stands on `sq` in the initial position.
pub open spec fn start_piece(sq: int) -> Option<(Color, PieceType)> {
    if 0 <= sq < 8 {
        Some((Color::White, back_piece(sq)))
    } else if 8 <= sq < 16 {
        Some((Color::White, PieceType::Pawn))
    } else if 48 <= sq < 56 {
        Some((Color::Black, PieceType::Pawn))
    } else if 56 <= sq < 64 {
        Some((Color::Black, back_piece(sq - 56)))
    } else {
        None
    }
}

fn back_rank_piece(f: u8) -> (pt: PieceType)
    ensures
        pt == back_piece(f as int),
{
    if f == 0 || f == 7 {
        PieceType::Rook
    } else if f == 1 || f == 6 {
        PieceType::Knight
    } else if f == 2 || f == 5 {
        PieceType::Bishop
    } else if f == 3 {
        PieceType::Queen
    } else {
        PieceType::King
    }
}


/// The digit of a run of `n` empty squares, or nothing when the run is empty.
pub open spec fn run_digit(n: int) -> Seq<char> {
    if n > 0 {
        seq![(n + 48) as char]
    } else {
        seq![]
    }
}

/// FEN text of rank `rank` from file `file` on, after a run of `run` empty
/// squares: pieces by their letters, empty runs by their lengths.
pub open spec fn rank_text(b: Board, rank: int, file: int, run: int) -> Seq<char>
    decreases 8 - file,
{
    if file >= 8 || file < 0 {
        run_digit(run)
    } else {
        match piece_on(b, rank * 8 + file) {
            None => rank_text(b, rank, file + 1, run + 1),
            Some((c, p)) => run_digit(run) + seq![piece_char(p, c)] + rank_text(b, rank, file + 1, 0),
        }
    }
}

/// FEN text of the first `n` ranks written, from the eighth rank down, each
/// but the last followed by '/'.
pub open spec fn placement_text(b: Board, n: int) -> Seq<char>
    decreases n,
{
    if n <= 0 {
        seq![]
    } else {
        placement_text(b, n - 1) + rank_text(b, 8 - n, 0, 0) + if n - 1 != 7 {
            seq!['/']
        } else {
            seq![]
        }
    }
}

/// The castling field: "-" or the letters of the rights held, in KQkq order.
pub open spec fn castle_text(cr: u8) -> Seq<char> {
    if cr == 0 {
        seq!['-']
    } else {
        (if cr & 1 != 0 { seq!['K'] } else { seq![] }) + (if cr & 2 != 0 {
            seq!['Q']
        } else {
            seq![]
        }) + (if cr & 4 != 0 { seq!['k'] } else { seq![] }) + (if cr & 8 != 0 {
            seq!['q']
        } else {
            seq![]
        })
    }
}

/// The FEN text of a board, all six fields separated by single spaces.
pub open spec fn fen_text(b: Board) -> Seq<char> {
    placement_text(b, 8) + seq![' '] + seq![if b.turn == Color::White { 'w' } else { 'b' }] + seq![' ']
        + castle_text(b.castling_rights) + seq![' '] + match b.ep_square {
        Some(sq) => name_of(sq as int),
        None => seq!['-'],
    } + seq![' '] + dec(b.halfmove_clock as nat) + seq![' '] + dec(b.fullmove_number as nat)
}

/// Appends the digit of a run of empty squares, if the run is not empty.
fn push_run(s: &mut String, run: u8)
    requires
        run <= 8,
    ensures
        final(s)@ == old(s)@ + run_digit(run as int),
{
    if run > 0 {
        push_char(s, (run + 48) as char);
    }
    proof {
        assert(s@ =~= old(s)@ + run_digit(run as int));
    }
}

/// Appends the FEN text of one rank.
fn push_rank(b: &Board, rank: u8, s: &mut String)
    requires
        crate::board::consistent(*b),
        rank < 8,
    ensures
        final(s)@ == old(s)@ + rank_text(*b, rank as int, 0, 0),
{
    let mut file: u8 = 0;
    let mut run: u8 = 0;
    while file < 8
        invariant
            crate::board::consistent(*b),
            rank < 8,
            file <= 8,
            run <= file,
            s@ + rank_text(*b, rank as int, file as int, run as int) == old(s)@ + rank_text(
                *b,
                rank as int,
                0,
                0,
            ),
        decreases 8 - file,
    {
        let sq = make_square(file, rank);
        let ghost before = s@;
        match b.piece_at(sq) {
            None => {
                run = run + 1;
            },
            Some((color, pt)) => {
                push_run(s, run);
                push_char(s, pt.to_char(color));
                proof {
                    let rest = rank_text(*b, rank as int, file + 1, 0);
                    assert(before + (run_digit(run as int) + seq![piece_char(pt, color)] + rest) =~= s@
                        + rest);
                }
                run = 0;
            },
        }
        file = file + 1;
    }
    push_run(s, run);
}

/// Appends the castling field.
fn push_castling(s: &mut String, cr: u8)
    ensures
        final(s)@ == old(s)@ + castle_text(cr),
{
    if cr == 0 {
        push_char(s, '-');
    } else {
        if cr & 1 != 0 {
            push_char(s, 'K');
        }
        if cr & 2 != 0 {
            push_char(s, 'Q');
        }
        if cr & 4 != 0 {
            push_char(s, 'k');
        }
        if cr & 8 != 0 {
            push_char(s, 'q');
        }
    }
    proof {
        assert(s@ =~= old(s)@ + castle_text(cr));
    }
}

impl Board {
    /// The FEN text of the position.
    pub fn to_fen(&self) -> (r: String)
        requires
            crate::board::consistent(*self),
        ensures
            r@ == fen_text(*self),
    {
        let mut s = String::new();
        let mut i: u8 = 0;
        while i < 8
            invariant
                crate::board::consistent(*self),
                i <= 8,
                s@ == placement_text(*self, i as int),
            decreases 8 - i,
        {
            push_rank(self, 7 - i, &mut s);
            if i != 7 {
                push_char(&mut s, '/');
            }
            i = i + 1;
            proof {
                assert(s@ =~= placement_text(*self, i as int));
            }
        }
        let ghost p = s@;
        push_char(&mut s, ' ');
        push_char(&mut s, if self.turn == Color::White { 'w' } else { 'b' });
        push_char(&mut s, ' ');
        push_castling(&mut s, self.castling_rights);
        let ghost c = s@;
        push_char(&mut s, ' ');
        match self.ep_square {
            Some(sq) => push_square(&mut s, sq),
            None => push_char(&mut s, '-'),
        }
        let ghost e = s@;
        let ghost ep_t = match self.ep_square {
            Some(sq) => name_of(sq as int),
            None => seq!['-'],
        };
        assert(e =~= c + seq![' '] + ep_t);
        push_char(&mut s, ' ');
        push_decimal(&mut s, self.halfmove_clock as u64);
        push_char(&mut s, ' ');
        push_decimal(&mut s, self.fullmove_number as u64);
        proof {
            let head = placement_text(*self, 8) + seq![' '] + seq![
                if self.turn == Color::White {
                    'w'
                } else {
                    'b'
                },
            ] + seq![' '] + castle_text(self.castling_rights);
            assert(c =~= head);
            assert(s@ =~= e + seq![' '] + dec(self.halfmove_clock as nat) + seq![' '] + dec(
                self.fullmove_number as nat,
            ));
            assert(fen_text(*self) =~= head + seq![' '] + ep_t + seq![' '] + dec(
                self.halfmove_clock as nat,
            ) + seq![' '] + dec(self.fullmove_number as nat));
        }
        s
    }
}

/// The UCI text of a move: origin and destination squares, then the
/// lower-case letter of the promotion piece, if any.
pub open spec fn uci_text(m: Move) -> Seq<char> {
    name_of(m.from as int) + name_of(m.to as int) + match m.promotion {
        Some(p) => seq![piece_letter(p)],
        None => seq![],
    }
}

impl Move {
    /// The move in UCI notation, such as "e2e4" or "e7e8q".
    pub fn to_uci(&self) -> (r: String)
        requires
            self.from < 64,
            self.to < 64,
        ensures
            r@ == uci_text(*self),
    {
        let mut s = String::new();
        push_square(&mut s, self.from);
        push_square(&mut s, self.to);
        match self.promotion {
            Some(p) => push_char(&mut s, p.to_char(Color::Black)),
            None => {},
        }
        proof {
            assert(s@ =~= uci_text(*self));
        }
        s
    }
}

} // verus!
