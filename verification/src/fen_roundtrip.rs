//! Reading back the FEN text of a position gives the position again.
use vstd::prelude::*;
use crate::board::{Board, consistent, piece_on, wf};
use crate::fen::{
    is_ws, tok_end, tok_list, lemma_tok_end, field, slash_end, slash_split, lemma_slash_end, rank_parse,
    placement_parse, is_digit, digit_val, letter_color, dec, digits_value, all_digits, parse_u32_spec,
    square_of_name, castle_parse, parse_fen, placed_at, name_of, run_digit, rank_text, placement_text,
    castle_text, fen_text, describes,
};
use crate::types::{Color, PieceType, piece_char, piece_from_letter};

verus! {

/// `t` shifted right by `d`.
pub open spec fn shift(t: Seq<(int, int)>, d: int) -> Seq<(int, int)> {
    t.map_values(|p: (int, int)| (p.0 + d, p.1 + d))
}

/// No character of `w` is white space.
pub open spec fn no_ws(w: Seq<char>) -> bool {
    forall|i: int| 0 <= i < w.len() ==> !is_ws(#[trigger] w[i])
}

proof fn lemma_tok_end_shift(p: Seq<char>, q: Seq<char>, j: int)
    requires
        0 <= j <= q.len(),
    ensures
        tok_end(p + q, p.len() + j) == p.len() + tok_end(q, j),
    decreases q.len() - j,
{
    let s = p + q;
    if j < q.len() {
        assert(s[p.len() + j] == q[j]);
        if !is_ws(q[j]) {
            lemma_tok_end_shift(p, q, j + 1);
        }
    }
}

proof fn lemma_tok_list_shift(p: Seq<char>, q: Seq<char>, j: int)
    requires
        0 <= j <= q.len(),
    ensures
        tok_list(p + q, p.len() + j) == shift(tok_list(q, j), p.len() as int),
    decreases q.len() - j, 0int,
{
    let s = p + q;
    if j < q.len() {
        assert(s[p.len() + j] == q[j]);
        if is_ws(q[j]) {
            lemma_tok_list_shift(p, q, j + 1);
        } else {
            lemma_tok_end(q, j);
            lemma_tok_end_shift(p, q, j);
            let e = tok_end(q, j);
            lemma_tok_list_shift(p, q, e);
            assert(tok_list(s, p.len() + j) == seq![(p.len() + j, p.len() + e)] + tok_list(s, p.len() + e));
            assert(tok_list(q, j) == seq![(j, e)] + tok_list(q, e));
            assert(shift(tok_list(q, j), p.len() as int) =~= seq![(p.len() + j, p.len() + e)] + shift(
                tok_list(q, e),
                p.len() as int,
            ));
        }
    } else {
        assert(shift(tok_list(q, j), p.len() as int) =~= Seq::<(int, int)>::empty());
    }
}

proof fn lemma_tok_end_word(s: Seq<char>, i: int, j: int)
    requires
        0 <= i <= j <= s.len(),
        forall|k: int| i <= k < j ==> !is_ws(#[trigger] s[k]),
        j == s.len() || is_ws(s[j]),
    ensures
        tok_end(s, i) == j,
    decreases j - i,
{
    if i < j {
        lemma_tok_end_word(s, i + 1, j);
    }
}

/// A word followed by a space and more text: the word is the first field.
proof fn lemma_tok_word(w: Seq<char>, rest: Seq<char>)
    requires
        w.len() > 0,
        no_ws(w),
    ensures
        tok_list(w + seq![' '] + rest, 0) == seq![(0int, w.len() as int)] + shift(tok_list(rest, 0), w.len() as int + 1),
{
    let s = w + seq![' '] + rest;
    let n = w.len() as int;
    assert forall|k: int| 0 <= k < n implies !is_ws(#[trigger] s[k]) by {
        assert(s[k] == w[k]);
    }
    assert(s[n] == ' ');
    assert(is_ws(' '));
    lemma_tok_end_word(s, 0, n);
    assert(tok_list(s, 0) == seq![(0int, n)] + tok_list(s, n));
    assert(tok_list(s, n) == tok_list(s, n + 1));
    assert(s =~= (w + seq![' ']) + rest);
    lemma_tok_list_shift(w + seq![' '], rest, 0);
}

/// A lone word is a single field.
proof fn lemma_tok_last(w: Seq<char>)
    requires
        w.len() > 0,
        no_ws(w),
    ensures
        tok_list(w, 0) == seq![(0int, w.len() as int)],
{
    lemma_tok_end_word(w, 0, w.len() as int);
    assert(tok_list(w, 0) == seq![(0int, w.len() as int)] + tok_list(w, w.len() as int));
    assert(seq![(0int, w.len() as int)] + Seq::<(int, int)>::empty() =~= seq![(0int, w.len() as int)]);
}

/// Fields of a word followed by a space and more text.
proof fn lemma_field_word(w: Seq<char>, rest: Seq<char>)
    requires
        w.len() > 0,
        no_ws(w),
    ensures
        tok_list(w + seq![' '] + rest, 0).len() == 1 + tok_list(rest, 0).len(),
        field(w + seq![' '] + rest, 0) == w,
        forall|k: int| 1 <= k <= tok_list(rest, 0).len() ==> #[trigger] field(w + seq![' '] + rest, k) == field(rest, k - 1),
{
    let s = w + seq![' '] + rest;
    let d = w.len() as int + 1;
    lemma_tok_word(w, rest);
    let t = tok_list(s, 0);
    let u = tok_list(rest, 0);
    assert(t[0] == (0int, w.len() as int));
    assert(s.subrange(0, w.len() as int) =~= w);
    crate::fen::lemma_tok_list_bounds(rest, 0);
    assert forall|k: int| 1 <= k <= u.len() implies #[trigger] field(s, k) == field(rest, k - 1) by {
        assert(t[k] == (u[k - 1].0 + d, u[k - 1].1 + d));
        assert(0 <= u[k - 1].0 < u[k - 1].1 <= rest.len());
        assert(s.subrange(u[k - 1].0 + d, u[k - 1].1 + d) =~= rest.subrange(u[k - 1].0, u[k - 1].1));
    }
}


/// A character of a rank's text: an empty-run digit or a piece letter.
pub open spec fn rank_char(c: char) -> bool {
    ('1' <= c <= '8') || piece_from_letter(c) is Some
}

proof fn lemma_piece_char(p: PieceType, c: Color)
    ensures
        piece_from_letter(piece_char(p, c)) == Some(p),
        letter_color(piece_char(p, c)) == c,
        !is_digit(piece_char(p, c)),
        piece_char(p, c) != '/',
        !is_ws(piece_char(p, c)),
{
}

proof fn lemma_rank_char(c: char)
    requires
        rank_char(c),
    ensures
        c != '/',
        !is_ws(c),
{
}

/// The text of a rank from file `f` on, after `run` empty squares, is made
/// of rank characters, and is empty only when nothing is left to write.
proof fn lemma_rank_text_chars(b: Board, r: int, f: int, run: int)
    requires
        0 <= f <= 8,
        0 <= run <= f,
    ensures
        forall|i: int| 0 <= i < rank_text(b, r, f, run).len() ==> rank_char(#[trigger] rank_text(b, r, f, run)[i]),
        (f < 8 || run > 0) ==> rank_text(b, r, f, run).len() > 0,
    decreases 8 - f,
{
    let t = rank_text(b, r, f, run);
    if f >= 8 {
        if run > 0 {
            assert(t == seq![(run + 48) as char]);
            assert(t[0] == (run + 48) as char);
        } else {
            assert(t.len() == 0);
        }
    } else {
        match piece_on(b, r * 8 + f) {
            None => {
                lemma_rank_text_chars(b, r, f + 1, run + 1);
            },
            Some((c, p)) => {
                lemma_rank_text_chars(b, r, f + 1, 0);
                lemma_piece_char(p, c);
                let d = run_digit(run);
                let rest = rank_text(b, r, f + 1, 0);
                assert(t == d + seq![piece_char(p, c)] + rest);
                assert forall|i: int| 0 <= i < t.len() implies rank_char(#[trigger] t[i]) by {
                    if i < d.len() {
                        assert(t[i] == d[i]);
                        assert(d[i] == (run + 48) as char);
                    } else if i == d.len() {
                        assert(t[i] == piece_char(p, c));
                    } else {
                        assert(t[i] == rest[i - d.len() - 1]);
                    }
                }
            },
        }
    }
}

/// The slash parts of `p + "/" + w`: those of `p`, then `w`.
proof fn lemma_slash_snoc(p: Seq<char>, w: Seq<char>, i: int)
    requires
        0 <= i <= p.len(),
        forall|k: int| 0 <= k < w.len() ==> #[trigger] w[k] != '/',
    ensures
        slash_split(p + seq!['/'] + w, i) == slash_split(p, i).push(w),
    decreases p.len() - i,
{
    let s = p + seq!['/'] + w;
    lemma_slash_end(s, i);
    lemma_slash_end(p, i);
    let j = slash_end(p, i);
    assert forall|k: int| i <= k < p.len() implies s[k] == p[k] by {}
    if j < p.len() {
        assert(slash_end(s, i) == j) by {
            lemma_slash_end_same(s, p, i, j);
        }
        lemma_slash_snoc(p, w, j + 1);
        assert(s.subrange(i, j) =~= p.subrange(i, j));
        assert(slash_split(s, i) =~= seq![p.subrange(i, j)] + slash_split(s, j + 1));
        assert(slash_split(p, i) =~= seq![p.subrange(i, j)] + slash_split(p, j + 1));
    } else {
        assert(j == p.len());
        assert(slash_end(s, i) == p.len()) by {
            lemma_slash_end_same(s, p, i, j);
        }
        assert(s[p.len() as int] == '/');
        let k = p.len() as int + 1;
        lemma_slash_end(s, k);
        assert(slash_end(s, k) == s.len()) by {
            lemma_slash_end_none(s, k);
        }
        assert(s.subrange(i, p.len() as int) =~= p.subrange(i, p.len() as int));
        assert(s.subrange(k, s.len() as int) =~= w);
        assert(slash_split(s, i) =~= seq![p.subrange(i, p.len() as int)] + slash_split(s, k));
        assert(slash_split(s, k) =~= seq![w]);
        assert(slash_split(p, i) =~= seq![p.subrange(i, p.len() as int)]);
    }
}

proof fn lemma_slash_end_same(s: Seq<char>, p: Seq<char>, i: int, j: int)
    requires
        0 <= i <= j <= p.len() < s.len(),
        forall|k: int| 0 <= k < p.len() ==> s[k] == p[k],
        j == slash_end(p, i),
        j < p.len() ==> p[j] == '/',
        j == p.len() ==> s[j] == '/',
        forall|k: int| i <= k < j ==> #[trigger] p[k] != '/',
    ensures
        slash_end(s, i) == j,
    decreases j - i,
{
    if i < j {
        assert(s[i] == p[i]);
        lemma_slash_end(p, i + 1);
        lemma_slash_end_same(s, p, i + 1, j);
    } else {
        assert(s[i] == '/');
    }
}

proof fn lemma_slash_end_none(s: Seq<char>, k: int)
    requires
        0 <= k <= s.len(),
        forall|m: int| k <= m < s.len() ==> #[trigger] s[m] != '/',
    ensures
        slash_end(s, k) == s.len(),
    decreases s.len() - k,
{
    if k < s.len() {
        lemma_slash_end_none(s, k + 1);
    }
}

/// The texts of the first `n` ranks from the eighth down, separated by '/'.
pub open spec fn ranks_upto(b: Board, n: int) -> Seq<char>
    decreases n,
{
    if n <= 1 {
        rank_text(b, 7, 0, 0)
    } else {
        ranks_upto(b, n - 1) + seq!['/'] + rank_text(b, 8 - n, 0, 0)
    }
}

proof fn lemma_placement_ranks(b: Board, n: int)
    requires
        1 <= n <= 8,
    ensures
        placement_text(b, n) == if n < 8 {
            ranks_upto(b, n) + seq!['/']
        } else {
            ranks_upto(b, n)
        },
        slash_split(ranks_upto(b, n), 0) == Seq::new(n as nat, |i: int| rank_text(b, 7 - i, 0, 0)),
        forall|i: int| 0 <= i < ranks_upto(b, n).len() ==> (rank_char(#[trigger] ranks_upto(b, n)[i]) || ranks_upto(b, n)[i] == '/'),
        ranks_upto(b, n).len() > 0,
    decreases n,
{
    lemma_rank_text_chars(b, 8 - n, 0, 0);
    let w = rank_text(b, 8 - n, 0, 0);
    assert forall|k: int| 0 <= k < w.len() implies #[trigger] w[k] != '/' by {
        lemma_rank_char(w[k]);
    }
    if n == 1 {
        assert(placement_text(b, 0) == Seq::<char>::empty());
        assert(placement_text(b, 1) =~= ranks_upto(b, 1) + seq!['/']);
        lemma_slash_end_none(w, 0);
        assert(w.subrange(0, w.len() as int) =~= w);
        assert(slash_split(w, 0) =~= seq![w]);
        assert(slash_split(ranks_upto(b, n), 0) =~= Seq::new(n as nat, |i: int| rank_text(b, 7 - i, 0, 0)));
    } else {
        lemma_placement_ranks(b, n - 1);
        let p = ranks_upto(b, n - 1);
        assert(placement_text(b, n) =~= if n < 8 {
            ranks_upto(b, n) + seq!['/']
        } else {
            ranks_upto(b, n)
        });
        lemma_slash_snoc(p, w, 0);
        assert(slash_split(ranks_upto(b, n), 0) =~= Seq::new(n as nat, |i: int| rank_text(b, 7 - i, 0, 0)));
        let q = ranks_upto(b, n);
        assert forall|i: int| 0 <= i < q.len() implies (rank_char(#[trigger] q[i]) || q[i] == '/') by {
            if i < p.len() {
                assert(q[i] == p[i]);
            } else if i > p.len() {
                assert(q[i] == w[i - p.len() - 1]);
            }
        }
    }
}

/// The pieces of rank `r` from file `f` on, in file order.
pub open spec fn rank_pieces(b: Board, r: int, f: int) -> Seq<(int, Color, PieceType)>
    decreases 8 - f,
{
    if f >= 8 || f < 0 {
        seq![]
    } else {
        match piece_on(b, r * 8 + f) {
            None => rank_pieces(b, r, f + 1),
            Some((c, p)) => seq![(r * 8 + f, c, p)] + rank_pieces(b, r, f + 1),
        }
    }
}

proof fn lemma_rank_parse_offset(x: Seq<char>, y: Seq<char>, k: int, file: int, r: int)
    requires
        0 <= k <= y.len(),
    ensures
        rank_parse(x + y, x.len() + k, file, r) == rank_parse(y, k, file, r),
    decreases y.len() - k,
{
    if k < y.len() {
        assert((x + y)[x.len() + k] == y[k]);
        let ch = y[k];
        if is_digit(ch) {
            lemma_rank_parse_offset(x, y, k + 1, file + digit_val(ch), r);
        } else {
            lemma_rank_parse_offset(x, y, k + 1, file + 1, r);
        }
    }
}

proof fn lemma_rank_parse_text(b: Board, r: int, f: int, run: int)
    requires
        0 <= f <= 8,
        0 <= run <= f,
    ensures
        rank_parse(rank_text(b, r, f, run), 0, f - run, r) == Ok::<Seq<(int, Color, PieceType)>, Seq<char>>(rank_pieces(b, r, f)),
    decreases 8 - f,
{
    let t = rank_text(b, r, f, run);
    if f >= 8 {
        if run > 0 {
            assert(t == seq![(run + 48) as char]);
            assert(is_digit(t[0]) && digit_val(t[0]) == run);
        }
    } else {
        match piece_on(b, r * 8 + f) {
            None => {
                lemma_rank_parse_text(b, r, f + 1, run + 1);
            },
            Some((c, p)) => {
                lemma_rank_parse_text(b, r, f + 1, 0);
                lemma_piece_char(p, c);
                let pc = piece_char(p, c);
                let rest = rank_text(b, r, f + 1, 0);
                let x = run_digit(run) + seq![pc];
                assert(t =~= x + rest);
                lemma_rank_parse_offset(x, rest, 0, f + 1, r);
                if run > 0 {
                    assert(t[0] == (run + 48) as char);
                    assert(is_digit(t[0]) && digit_val(t[0]) == run);
                    assert(t[1] == pc);
                    assert(rank_parse(t, 0, f - run, r) == rank_parse(t, 1, f, r));
                } else {
                    assert(t[0] == pc);
                }
            },
        }
    }
}

proof fn lemma_placed_rank(b: Board, r: int, f: int, sq: int)
    requires
        0 <= f <= 8,
        0 <= r < 8,
    ensures
        placed_at(rank_pieces(b, r, f), sq) == if r * 8 + f <= sq < r * 8 + 8 {
            piece_on(b, sq)
        } else {
            None
        },
    decreases 8 - f,
{
    if f < 8 {
        lemma_placed_rank(b, r, f + 1, sq);
        match piece_on(b, r * 8 + f) {
            None => {},
            Some((c, p)) => {
                let l = seq![(r * 8 + f, c, p)] + rank_pieces(b, r, f + 1);
                assert(l[0] == (r * 8 + f, c, p));
                assert(l.drop_first() =~= rank_pieces(b, r, f + 1));
            },
        }
    } else {
        assert(rank_pieces(b, r, f).len() == 0);
    }
}

/// The pieces of ranks `7 - i` down to the first, rank by rank.
pub open spec fn all_pieces(b: Board, i: int) -> Seq<(int, Color, PieceType)>
    decreases 8 - i,
{
    if i >= 8 || i < 0 {
        seq![]
    } else {
        rank_pieces(b, 7 - i, 0) + all_pieces(b, i + 1)
    }
}

proof fn lemma_placement_parse(b: Board, i: int)
    requires
        0 <= i <= 8,
    ensures
        placement_parse(Seq::new(8, |k: int| rank_text(b, 7 - k, 0, 0)), i) == Ok::<Seq<(int, Color, PieceType)>, Seq<char>>(all_pieces(b, i)),
        forall|sq: int| #[trigger] placed_at(all_pieces(b, i), sq) == if 0 <= sq < (8 - i) * 8 {
            piece_on(b, sq)
        } else {
            None
        },
    decreases 8 - i,
{
    if i < 8 {
        lemma_placement_parse(b, i + 1);
        lemma_rank_parse_text(b, 7 - i, 0, 0);
        let segs = Seq::new(8, |k: int| rank_text(b, 7 - k, 0, 0));
        assert(segs[i] == rank_text(b, 7 - i, 0, 0));
        assert forall|sq: int| #[trigger] placed_at(all_pieces(b, i), sq) == if 0 <= sq < (8 - i) * 8 {
            piece_on(b, sq)
        } else {
            None
        } by {
            crate::fen::lemma_placed_at_append(rank_pieces(b, 7 - i, 0), all_pieces(b, i + 1), sq);
            lemma_placed_rank(b, 7 - i, 0, sq);
        }
    }
}

proof fn lemma_castle_parse_split(x: Seq<char>, y: Seq<char>, k: int, acc: u8)
    requires
        0 <= k <= x.len(),
    ensures
        castle_parse(x + y, k, acc) == match castle_parse(x, k, acc) {
            Ok(a) => castle_parse(y, 0, a),
            Err(e) => Err(e),
        },
    decreases x.len() + y.len() - k,
{
    let s = x + y;
    if k < x.len() {
        assert(s[k] == x[k]);
        let ch = x[k];
        if ch == 'K' {
            lemma_castle_parse_split(x, y, k + 1, acc | 1);
        } else if ch == 'Q' {
            lemma_castle_parse_split(x, y, k + 1, acc | 2);
        } else if ch == 'k' {
            lemma_castle_parse_split(x, y, k + 1, acc | 4);
        } else if ch == 'q' {
            lemma_castle_parse_split(x, y, k + 1, acc | 8);
        }
    } else {
        lemma_castle_parse_offset(x, y, 0, acc);
    }
}

proof fn lemma_castle_parse_offset(x: Seq<char>, y: Seq<char>, k: int, acc: u8)
    requires
        0 <= k <= y.len(),
    ensures
        castle_parse(x + y, x.len() + k, acc) == castle_parse(y, k, acc),
    decreases y.len() - k,
{
    if k < y.len() {
        assert((x + y)[x.len() + k] == y[k]);
        let ch = y[k];
        if ch == 'K' {
            lemma_castle_parse_offset(x, y, k + 1, acc | 1);
        } else if ch == 'Q' {
            lemma_castle_parse_offset(x, y, k + 1, acc | 2);
        } else if ch == 'k' {
            lemma_castle_parse_offset(x, y, k + 1, acc | 4);
        } else if ch == 'q' {
            lemma_castle_parse_offset(x, y, k + 1, acc | 8);
        }
    }
}

/// The letter of one castling right, if held: `l` for bit `m` of `cr`.
pub open spec fn right_letter(cr: u8, m: u8, l: char) -> Seq<char> {
    if cr & m != 0 {
        seq![l]
    } else {
        seq![]
    }
}

proof fn lemma_castle_letter(cr: u8, m: u8, l: char, acc: u8)
    requires
        (m == 1 && l == 'K') || (m == 2 && l == 'Q') || (m == 4 && l == 'k') || (m == 8 && l == 'q'),
    ensures
        castle_parse(right_letter(cr, m, l), 0, acc) == Ok::<u8, Seq<char>>(if cr & m != 0 { acc | m } else { acc }),
{
    let t = right_letter(cr, m, l);
    if cr & m != 0 {
        assert(t[0] == l);
        assert(castle_parse(t, 1, acc | m) == Ok::<u8, Seq<char>>(acc | m));
    } else {
        assert(t.len() == 0);
    }
}

proof fn lemma_rights_rebuilt(cr: u8)
    requires
        cr < 16,
    ensures
        ({
            let a1: u8 = if cr & 1 != 0 { 0u8 | 1u8 } else { 0u8 };
            let a2: u8 = if cr & 2 != 0 { a1 | 2u8 } else { a1 };
            let a4: u8 = if cr & 4 != 0 { a2 | 4u8 } else { a2 };
            let a8: u8 = if cr & 8 != 0 { a4 | 8u8 } else { a4 };
            a8 == cr
        }),
{
    assert({
        let a1: u8 = if cr & 1 != 0 { 0u8 | 1u8 } else { 0u8 };
        let a2: u8 = if cr & 2 != 0 { a1 | 2u8 } else { a1 };
        let a4: u8 = if cr & 4 != 0 { a2 | 4u8 } else { a2 };
        let a8: u8 = if cr & 8 != 0 { a4 | 8u8 } else { a4 };
        a8 == cr
    }) by (bit_vector)
        requires
            cr < 16,
    ;
}

/// The castling field reads back as the rights it was written from.
proof fn lemma_castle_round_trip(cr: u8)
    requires
        cr < 16,
    ensures
        cr == 0 ==> castle_text(cr) == seq!['-'],
        cr != 0 ==> castle_text(cr) != seq!['-'] && castle_parse(castle_text(cr), 0, 0) == Ok::<u8, Seq<char>>(cr),
        castle_text(cr).len() > 0,
        no_ws(castle_text(cr)),
{
    if cr != 0 {
        let t1 = right_letter(cr, 1, 'K');
        let t2 = right_letter(cr, 2, 'Q');
        let t4 = right_letter(cr, 4, 'k');
        let t8 = right_letter(cr, 8, 'q');
        assert(castle_text(cr) == t1 + t2 + t4 + t8);
        let a1: u8 = if cr & 1 != 0 { 0u8 | 1u8 } else { 0u8 };
        let a2: u8 = if cr & 2 != 0 { a1 | 2u8 } else { a1 };
        let a4: u8 = if cr & 4 != 0 { a2 | 4u8 } else { a2 };
        let a8: u8 = if cr & 8 != 0 { a4 | 8u8 } else { a4 };
        lemma_castle_letter(cr, 1, 'K', 0);
        lemma_castle_letter(cr, 2, 'Q', a1);
        lemma_castle_letter(cr, 4, 'k', a2);
        lemma_castle_letter(cr, 8, 'q', a4);
        lemma_castle_parse_split(t1, t2, 0, 0);
        lemma_castle_parse_split(t1 + t2, t4, 0, 0);
        lemma_castle_parse_split(t1 + t2 + t4, t8, 0, 0);
        lemma_rights_rebuilt(cr);
        let t = castle_text(cr);
        assert(t.len() > 0) by {
            assert(cr & 1 != 0 || cr & 2 != 0 || cr & 4 != 0 || cr & 8 != 0) by (bit_vector)
                requires
                    cr != 0,
                    cr < 16,
            ;
        }
        assert(t[0] == 'K' || t[0] == 'Q' || t[0] == 'k' || t[0] == 'q');
        assert forall|i: int| 0 <= i < t.len() implies !is_ws(#[trigger] t[i]) by {
            assert(t[i] == 'K' || t[i] == 'Q' || t[i] == 'k' || t[i] == 'q');
        }
    } else {
        assert(castle_text(cr) =~= seq!['-']);
        assert(!is_ws('-'));
    }
}

proof fn lemma_dec(n: nat)
    ensures
        dec(n).len() > 0,
        all_digits(dec(n)),
        digits_value(dec(n)) == n,
        no_ws(dec(n)),
    decreases n,
{
    let t = dec(n);
    if n < 10 {
        assert(t == seq![(n + 48) as char]);
        assert(t.drop_last() =~= Seq::<char>::empty());
        assert(digit_val(t.last()) == n);
        assert(digits_value(Seq::<char>::empty()) == 0);
        assert(digits_value(t) == digits_value(t.drop_last()) * 10 + digit_val(t.last()) as nat);
    } else {
        lemma_dec(n / 10);
        let h = dec(n / 10);
        let c = ((n % 10) + 48) as char;
        assert(t == h + seq![c]);
        assert(t.drop_last() =~= h);
        assert(t.last() == c);
        assert(digit_val(c) == n % 10);
        assert(n == (n / 10) * 10 + n % 10);
        assert(digits_value(t) == digits_value(t.drop_last()) * 10 + digit_val(t.last()) as nat);
        assert(digits_value(h) == n / 10);
        assert forall|i: int| 0 <= i < t.len() implies is_digit(#[trigger] t[i]) && !is_ws(t[i]) by {
            if i < h.len() {
                assert(t[i] == h[i]);
            }
        }
    }
}

proof fn lemma_dec_parse(n: u32)
    ensures
        parse_u32_spec(dec(n as nat)) == Some(n),
        dec(n as nat).len() > 0,
        no_ws(dec(n as nat)),
{
    lemma_dec(n as nat);
    let t = dec(n as nat);
    assert(is_digit(t[0]));
}

proof fn lemma_name_no_ws(sq: int)
    requires
        0 <= sq < 64,
    ensures
        name_of(sq).len() == 2,
        no_ws(name_of(sq)),
        name_of(sq) != seq!['-'],
{
    let t = name_of(sq);
    assert(!is_ws(t[0]) && !is_ws(t[1]));
}

/// The six fields of the FEN text of a consistent position.
proof fn lemma_fen_fields(b: Board)
    requires
        consistent(b),
    ensures
        tok_list(fen_text(b), 0).len() == 6,
        field(fen_text(b), 0) == placement_text(b, 8),
        field(fen_text(b), 1) == seq![if b.turn == Color::White { 'w' } else { 'b' }],
        field(fen_text(b), 2) == castle_text(b.castling_rights),
        field(fen_text(b), 3) == match b.ep_square {
            Some(sq) => name_of(sq as int),
            None => seq!['-'],
        },
        field(fen_text(b), 4) == dec(b.halfmove_clock as nat),
        field(fen_text(b), 5) == dec(b.fullmove_number as nat),
{
    let p = placement_text(b, 8);
    let tc = seq![if b.turn == Color::White { 'w' } else { 'b' }];
    let c = castle_text(b.castling_rights);
    let e = match b.ep_square {
        Some(sq) => name_of(sq as int),
        None => seq!['-'],
    };
    let h = dec(b.halfmove_clock as nat);
    let f = dec(b.fullmove_number as nat);
    let sp = seq![' '];
    let r4 = h + sp + f;
    let r3 = e + sp + r4;
    let r2 = c + sp + r3;
    let r1 = tc + sp + r2;
    let s = fen_text(b);
    assert(s =~= p + sp + r1);
    lemma_placement_ranks(b, 8);
    assert(p == ranks_upto(b, 8));
    assert forall|i: int| 0 <= i < p.len() implies !is_ws(#[trigger] p[i]) by {
        if p[i] != '/' {
            lemma_rank_char(p[i]);
        }
    }
    assert(!is_ws(tc[0]));
    lemma_castle_round_trip(b.castling_rights);
    match b.ep_square {
        Some(sq) => lemma_name_no_ws(sq as int),
        None => {
            assert(!is_ws(e[0]));
        },
    }
    lemma_dec_parse(b.halfmove_clock);
    lemma_dec_parse(b.fullmove_number);
    lemma_tok_last(f);
    lemma_field_word(h, f);
    lemma_field_word(e, r4);
    lemma_field_word(c, r3);
    lemma_field_word(tc, r2);
    lemma_field_word(p, r1);
    assert(f.subrange(0, f.len() as int) =~= f);
    assert(field(f, 0) == f);
    assert(field(r4, 1) == f);
    assert(field(r3, 2) == f);
    assert(field(r3, 1) == h);
    assert(field(r2, 3) == f);
    assert(field(r2, 2) == h);
    assert(field(r2, 1) == e);
    assert(field(r1, 4) == f);
    assert(field(r1, 3) == h);
    assert(field(r1, 2) == e);
    assert(field(r1, 1) == c);
}

/// The FEN text of a consistent position reads back as its pieces, side to
/// move, castling rights, en passant square and counters.
#[verifier::rlimit(40)]
pub proof fn lemma_fen_text_parses(b: Board)
    requires
        consistent(b),
    ensures
        parse_fen(fen_text(b)) == Ok::<(Seq<(int, Color, PieceType)>, Color, u8, Option<crate::types::Square>, u32, u32), Seq<char>>(
            (all_pieces(b, 0), b.turn, b.castling_rights, b.ep_square, b.halfmove_clock, b.fullmove_number),
        ),
        forall|sq: int| #[trigger] placed_at(all_pieces(b, 0), sq) == piece_on(b, sq),
{
    let s = fen_text(b);
    lemma_fen_fields(b);
    lemma_placement_ranks(b, 8);
    lemma_castle_round_trip(b.castling_rights);
    lemma_dec_parse(b.halfmove_clock);
    lemma_dec_parse(b.fullmove_number);
    let segs = Seq::new(8, |k: int| rank_text(b, 7 - k, 0, 0));
    assert(slash_split(field(s, 0), 0) == segs);
    lemma_placement_parse(b, 0);
    if b.turn == Color::White {
        assert(field(s, 1) == seq!['w']);
    } else {
        assert(field(s, 1) == seq!['b']);
        assert(seq!['b'] != seq!['w']) by {
            assert(seq!['b'][0] != seq!['w'][0]);
        }
    }
    match b.ep_square {
        Some(sq) => {
            crate::fen::lemma_square_name_round_trip(sq as int);
            lemma_name_no_ws(sq as int);
        },
        None => {},
    }
    assert forall|sq: int| #[trigger] placed_at(all_pieces(b, 0), sq) == piece_on(b, sq) by {
        crate::board::lemma_contents_on_board(b.pieces, sq);
    }
}

/// A well-formed position is determined by its pieces, side to move,
/// castling rights, en passant square and counters.
pub proof fn lemma_board_determined(b1: Board, b2: Board)
    requires
        wf(b1),
        wf(b2),
        forall|sq: int| #[trigger] piece_on(b1, sq) == piece_on(b2, sq),
        b1.turn == b2.turn,
        b1.castling_rights == b2.castling_rights,
        b1.ep_square == b2.ep_square,
        b1.halfmove_clock == b2.halfmove_clock,
        b1.fullmove_number == b2.fullmove_number,
    ensures
        b1 == b2,
{
    crate::board::lemma_same_pieces(b1, b2);
}

/// Reading back the FEN text of a well-formed position succeeds, and any
/// board it describes is that position.
pub proof fn lemma_fen_round_trip(b: Board, r: Board)
    requires
        wf(b),
        describes(fen_text(b), r),
    ensures
        parse_fen(fen_text(b)) is Ok,
        r == b,
{
    lemma_fen_text_parses(b);
    assert forall|sq: int| #[trigger] piece_on(r, sq) == piece_on(b, sq) by {
        assert(placed_at(all_pieces(b, 0), sq) == piece_on(b, sq));
    }
    lemma_board_determined(r, b);
}
} // verus!
