//! The integer side of the static evaluation: the evaluation personality
//! and the terms that the evaluation weighs.
use vstd::prelude::*;
use crate::bitboard::{in_bb, pop_count, count_below, popcount, pop_lsb, Bitboard};
use crate::board::{Board, consistent, piece_attacks_sq, has_king, king_sq};
use crate::types::{Color, PieceType, Square};

verus! {

broadcast use vstd::array::group_array_axioms;

/// The two evaluation personalities: the aggressive one and the classical
/// one.
#[derive(Clone, Copy, PartialEq, Eq, Structural, Debug)]
pub enum Personalidad {
    Tal,
    Universal,
}

/// `s` spells the lower-case ASCII word `w` in any mix of cases.
pub open spec fn spells(s: Seq<char>, w: Seq<char>) -> bool {
    s.len() == w.len() && forall|i: int| 0 <= i < s.len() ==> (#[trigger] s[i] == w[i] || 'a' <= w[i] <= 'z' && s[i] as u32
        == w[i] as u32 - 32)
}

fn spells_exec(s: &Vec<char>, w: &Vec<char>) -> (r: bool)
    ensures
        r == spells(s@, w@),
{
    if s.len() != w.len() {
        return false;
    }
    let mut i: usize = 0;
    while i < s.len()
        invariant
            s@.len() == w@.len(),
            i <= s@.len(),
            forall|k: int| 0 <= k < i ==> (#[trigger] s@[k] == w@[k] || 'a' <= w@[k] <= 'z' && s@[k] as u32
                == w@[k] as u32 - 32),
        decreases s@.len() - i,
    {
        let a = s[i];
        let c = w[i];
        if !(a == c || 'a' <= c && c <= 'z' && a as u32 == (c as u32) - 32) {
            return false;
        }
        i = i + 1;
    }
    true
}

/// The personality named by `s`, in any mix of upper and lower case.
/// (Lower-casing maps no character other than the ASCII capitals to the
/// letters of these words, so this matches comparing the lower-cased text.)
pub fn personalidad_desde_texto(s: &str) -> (r: Option<Personalidad>)
    ensures
        r == if spells(s@, seq!['t', 'a', 'l']) {
            Some(Personalidad::Tal)
        } else if spells(s@, seq!['u', 'n', 'i', 'v', 'e', 'r', 's', 'a', 'l']) {
            Some(Personalidad::Universal)
        } else {
            None
        },
{
    let v = crate::fen::chars_of(s);
    let tal = vec!['t', 'a', 'l'];
    let universal = vec!['u', 'n', 'i', 'v', 'e', 'r', 's', 'a', 'l'];
    proof {
        assert(tal@ =~= seq!['t', 'a', 'l']);
        assert(universal@ =~= seq!['u', 'n', 'i', 'v', 'e', 'r', 's', 'a', 'l']);
    }
    if spells_exec(&v, &tal) {
        Some(Personalidad::Tal)
    } else if spells_exec(&v, &universal) {
        Some(Personalidad::Universal)
    } else {
        None
    }
}


/// Material values of pawn, knight, bishop, rook, queen and king.
pub const VALOR: [i32; 6] = [100, 320, 330, 500, 900, 0];

/// Mobility weight of each piece type.
pub const PESO_MOV: [i32; 6] = [0, 4, 4, 3, 1, 0];

/// King attack weight of each piece type.
pub const PESO_ATQ: [i32; 6] = [0, 2, 2, 3, 5, 0];

/// King safety by attack units.
pub const TABLA_SEGURIDAD: [i32; 62] = [0, 0, 1, 2, 3, 5, 7, 9, 12, 15, 18, 22, 26, 30, 35, 39, 44, 50, 56, 62, 68, 75, 82, 85, 89, 97, 105, 113, 122, 131, 140, 150, 169, 180, 191, 202, 213, 225, 237, 248, 260, 272, 283, 295, 307, 318, 330, 342, 354, 366, 377, 389, 401, 412, 424, 436, 448, 459, 471, 483, 494, 500];

/// Passed pawn bonus by advance.
pub const PASO_BONUS: [i32; 8] = [0, 5, 10, 20, 35, 60, 100, 150];

/// Outpost bonus by piece type (knights and bishops only).
pub const BONUS_PUESTO: [i32; 6] = [0, 25, 12, 0, 0, 0];

// Piece-square tables, written from the eighth rank down: index 0 is a8.
pub const PEON_MG: [i32; 64] = [
    0, 0, 0, 0, 0, 0, 0, 0,
    50, 50, 50, 50, 50, 50, 50, 50,
    10, 10, 20, 30, 30, 20, 10, 10,
    5, 5, 10, 25, 25, 10, 5, 5,
    0, 0, 0, 20, 20, 0, 0, 0,
    5, -5, -10, 0, 0, -10, -5, 5,
    5, 10, 10, -20, -20, 10, 10, 5,
    0, 0, 0, 0, 0, 0, 0, 0,
];

pub const PEON_EG: [i32; 64] = [
    0, 0, 0, 0, 0, 0, 0, 0,
    80, 80, 80, 80, 80, 80, 80, 80,
    50, 50, 50, 50, 50, 50, 50, 50,
    30, 30, 30, 30, 30, 30, 30, 30,
    15, 15, 15, 15, 15, 15, 15, 15,
    5, 5, 5, 5, 5, 5, 5, 5,
    0, 0, 0, 0, 0, 0, 0, 0,
    0, 0, 0, 0, 0, 0, 0, 0,
];

pub const CABALLO: [i32; 64] = [
    -50, -40, -30, -30, -30, -30, -40, -50,
    -40, -20, 0, 0, 0, 0, -20, -40,
    -30, 0, 10, 15, 15, 10, 0, -30,
    -30, 5, 15, 20, 20, 15, 5, -30,
    -30, 0, 15, 20, 20, 15, 0, -30,
    -30, 5, 10, 15, 15, 10, 5, -30,
    -40, -20, 0, 5, 5, 0, -20, -40,
    -50, -40, -30, -30, -30, -30, -40, -50,
];

pub const ALFIL: [i32; 64] = [
    -20, -10, -10, -10, -10, -10, -10, -20,
    -10, 0, 0, 0, 0, 0, 0, -10,
    -10, 0, 5, 10, 10, 5, 0, -10,
    -10, 5, 5, 10, 10, 5, 5, -10,
    -10, 0, 10, 10, 10, 10, 0, -10,
    -10, 10, 10, 10, 10, 10, 10, -10,
    -10, 5, 0, 0, 0, 0, 5, -10,
    -20, -10, -10, -10, -10, -10, -10, -20,
];

pub const TORRE: [i32; 64] = [
    0, 0, 0, 0, 0, 0, 0, 0,
    5, 10, 10, 10, 10, 10, 10, 5,
    -5, 0, 0, 0, 0, 0, 0, -5,
    -5, 0, 0, 0, 0, 0, 0, -5,
    -5, 0, 0, 0, 0, 0, 0, -5,
    -5, 0, 0, 0, 0, 0, 0, -5,
    -5, 0, 0, 0, 0, 0, 0, -5,
    0, 0, 0, 5, 5, 0, 0, 0,
];

pub const DAMA: [i32; 64] = [
    -20, -10, -10, -5, -5, -10, -10, -20,
    -10, 0, 0, 0, 0, 0, 0, -10,
    -10, 0, 5, 5, 5, 5, 0, -10,
    -5, 0, 5, 5, 5, 5, 0, -5,
    0, 0, 5, 5, 5, 5, 0, -5,
    -10, 5, 5, 5, 5, 5, 0, -10,
    -10, 0, 5, 0, 0, 0, 0, -10,
    -20, -10, -10, -5, -5, -10, -10, -20,
];

pub const REY_MG: [i32; 64] = [
    -30, -40, -40, -50, -50, -40, -40, -30,
    -30, -40, -40, -50, -50, -40, -40, -30,
    -30, -40, -40, -50, -50, -40, -40, -30,
    -30, -40, -40, -50, -50, -40, -40, -30,
    -20, -30, -30, -40, -40, -30, -30, -20,
    -10, -20, -20, -20, -20, -20, -20, -10,
    20, 20, 0, 0, 0, 0, 20, 20,
    20, 30, 10, 0, 0, 10, 30, 20,
];

pub const REY_EG: [i32; 64] = [
    -50, -40, -30, -20, -20, -30, -40, -50,
    -30, -20, -10, 0, 0, -10, -20, -30,
    -30, -10, 20, 30, 30, 20, -10, -30,
    -30, -10, 30, 40, 40, 30, -10, -30,
    -30, -10, 30, 40, 40, 30, -10, -30,
    -30, -10, 20, 30, 30, 20, -10, -30,
    -30, -30, 0, 0, 0, 0, -30, -30,
    -50, -30, -30, -30, -30, -30, -30, -50,
];

/// Middle-game table value of piece type `p` at table index `i`.
pub open spec fn pst_mg_val(p: int, i: int) -> int {
    if p == 0 {
        PEON_MG[i] as int
    } else if p == 1 {
        CABALLO[i] as int
    } else if p == 2 {
        ALFIL[i] as int
    } else if p == 3 {
        TORRE[i] as int
    } else if p == 4 {
        DAMA[i] as int
    } else {
        REY_MG[i] as int
    }
}

/// End-game table value of piece type `p` at table index `i`.
pub open spec fn pst_eg_val(p: int, i: int) -> int {
    if p == 0 {
        PEON_EG[i] as int
    } else if p == 1 {
        CABALLO[i] as int
    } else if p == 2 {
        ALFIL[i] as int
    } else if p == 3 {
        TORRE[i] as int
    } else if p == 4 {
        DAMA[i] as int
    } else {
        REY_EG[i] as int
    }
}

/// The middle-game table of a piece type.
pub fn pst_mg(pt: PieceType) -> (t: &'static [i32; 64])
    ensures
        forall|i: int| 0 <= i < 64 ==> #[trigger] t[i] == pst_mg_val(pt.idx(), i),
{
    match pt {
        PieceType::Pawn => &PEON_MG,
        PieceType::Knight => &CABALLO,
        PieceType::Bishop => &ALFIL,
        PieceType::Rook => &TORRE,
        PieceType::Queen => &DAMA,
        PieceType::King => &REY_MG,
    }
}

/// The end-game table of a piece type.
pub fn pst_eg(pt: PieceType) -> (t: &'static [i32; 64])
    ensures
        forall|i: int| 0 <= i < 64 ==> #[trigger] t[i] == pst_eg_val(pt.idx(), i),
{
    match pt {
        PieceType::Pawn => &PEON_EG,
        PieceType::Knight => &CABALLO,
        PieceType::Bishop => &ALFIL,
        PieceType::Rook => &TORRE,
        PieceType::Queen => &DAMA,
        PieceType::King => &REY_EG,
    }
}


/// Sum of `f` over the squares below `n` that are in `x`.
pub open spec fn bb_sum(x: u64, f: spec_fn(int) -> int, n: int) -> int
    decreases n,
{
    if n <= 0 {
        0
    } else {
        bb_sum(x, f, n - 1) + if in_bb(x, n - 1) {
            f(n - 1)
        } else {
            0
        }
    }
}

proof fn lemma_bb_sum_skip(x: u64, f: spec_fn(int) -> int, m: int, k: int)
    requires
        0 <= m <= k,
        forall|t: int| m <= t < k ==> !#[trigger] in_bb(x, t),
    ensures
        bb_sum(x, f, k) == bb_sum(x, f, m),
    decreases k - m,
{
    if k > m {
        lemma_bb_sum_skip(x, f, m, k - 1);
    }
}

proof fn lemma_bb_sum_step(x: u64, f: spec_fn(int) -> int, m: int, s: int)
    requires
        0 <= m <= s,
        in_bb(x, s),
        forall|t: int| m <= t < s ==> !#[trigger] in_bb(x, t),
    ensures
        bb_sum(x, f, s + 1) == bb_sum(x, f, m) + f(s),
{
    lemma_bb_sum_skip(x, f, m, s);
}

/// Number of `t` below `n` that satisfy `p`.
pub open spec fn count_sat(p: spec_fn(int) -> bool, n: int) -> int
    decreases n,
{
    if n <= 0 {
        0
    } else {
        count_sat(p, n - 1) + if p(n - 1) {
            1int
        } else {
            0int
        }
    }
}

proof fn lemma_count_sat(r: u64, p: spec_fn(int) -> bool, n: int)
    requires
        forall|t: int| 0 <= t < 64 ==> #[trigger] in_bb(r, t) == p(t),
        0 <= n <= 64,
    ensures
        count_below(r, n as nat) == count_sat(p, n),
    decreases n,
{
    if n > 0 {
        lemma_count_sat(r, p, n - 1);
        assert(in_bb(r, n - 1) == p(n - 1));
    }
}

/// Sum of `g(p)` over the piece types `p` below `k`.
pub open spec fn sum_types(g: spec_fn(int) -> int, k: int) -> int
    decreases k,
{
    if k <= 0 {
        0
    } else {
        sum_types(g, k - 1) + g(k - 1)
    }
}

/// Index into the piece-square tables of a piece of colour index `c` on
/// `s`: white pieces read the tables upside down.
pub open spec fn pst_index(c: int, s: int) -> int {
    if c == 0 {
        (7 - s / 8) * 8 + s % 8
    } else {
        s
    }
}

/// Squares attacked by a piece of colour index `c` and type `p` on `s`.
pub open spec fn attack_count(c: int, p: int, s: int, occ: u64) -> int {
    count_sat(|t: int| piece_attacks_sq(crate::types::color_of_idx(c), crate::types::piece_of_idx(p), s, t, occ), 64)
}

/// Material of colour index `c`.
pub open spec fn material(b: Board, c: int) -> int {
    sum_types(|p: int| VALOR[p] * pop_count(b.pieces[c][p]), 6)
}

/// Middle-game piece-square sum of colour index `c`.
pub open spec fn pst_mg_sum(b: Board, c: int) -> int {
    sum_types(|p: int| bb_sum(b.pieces[c][p], |s: int| pst_mg_val(p, pst_index(c, s)), 64), 6)
}

/// End-game piece-square sum of colour index `c`.
pub open spec fn pst_eg_sum(b: Board, c: int) -> int {
    sum_types(|p: int| bb_sum(b.pieces[c][p], |s: int| pst_eg_val(p, pst_index(c, s)), 64), 6)
}

/// Mobility of colour index `c`: attacked squares, weighted by piece type.
pub open spec fn mobility(b: Board, c: int) -> int {
    sum_types(|p: int| PESO_MOV[p] * bb_sum(b.pieces[c][p], |s: int| attack_count(c, p, s, b.occupied), 64), 6)
}

/// Material, piece-square sums and mobility of one side.
fn piece_terms(b: &Board, color: Color) -> (r: (i64, i64, i64, i64))
    requires
        consistent(*b),
    ensures
        r.0 == material(*b, color.idx()),
        r.1 == pst_mg_sum(*b, color.idx()),
        r.2 == pst_eg_sum(*b, color.idx()),
        r.3 == mobility(*b, color.idx()),
{
    let c = color.index();
    let ghost gm = |p: int| VALOR[p] * pop_count(b.pieces[c as int][p]);
    let ghost g1 = |p: int| bb_sum(b.pieces[c as int][p], |s: int| pst_mg_val(p, pst_index(c as int, s)), 64);
    let ghost g2 = |p: int| bb_sum(b.pieces[c as int][p], |s: int| pst_eg_val(p, pst_index(c as int, s)), 64);
    let ghost g3 = |p: int| PESO_MOV[p] * bb_sum(b.pieces[c as int][p], |s: int| attack_count(c as int, p, s, b.occupied), 64);
    let mut mat: i64 = 0;
    let mut mg: i64 = 0;
    let mut eg: i64 = 0;
    let mut mob: i64 = 0;
    let mut pi: usize = 0;
    while pi < 6
        invariant
            consistent(*b),
            c == color.idx(),
            pi <= 6,
            mat == sum_types(gm, pi as int),
            mg == sum_types(g1, pi as int),
            eg == sum_types(g2, pi as int),
            mob == sum_types(g3, pi as int),
            -(pi * 64) * 2147483648 <= mg <= (pi * 64) * 2147483648,
            -(pi * 64) * 2147483648 <= eg <= (pi * 64) * 2147483648,
            0 <= mat <= pi * 64 * 900,
            0 <= mob <= pi * 64 * 256,
            gm == (|p: int| VALOR[p] * pop_count(b.pieces[c as int][p])),
            g1 == (|p: int| bb_sum(b.pieces[c as int][p], |s: int| pst_mg_val(p, pst_index(c as int, s)), 64)),
            g2 == (|p: int| bb_sum(b.pieces[c as int][p], |s: int| pst_eg_val(p, pst_index(c as int, s)), 64)),
            g3 == (|p: int| PESO_MOV[p] * bb_sum(b.pieces[c as int][p], |s: int| attack_count(c as int, p, s, b.occupied), 64)),
        decreases 6 - pi,
    {
        let pt = PieceType::from_index(pi);
        let x = b.pieces[c][pi];
        let n = popcount(x);
        assert(0 <= VALOR[pi as int] <= 900);
        assert(0 <= PESO_MOV[pi as int] <= 4);
        let v = VALOR[pi] as i64;
        let nn = n as i64;
        assert(0 <= v * nn <= 900 * 64) by (nonlinear_arith)
            requires
                0 <= v <= 900,
                0 <= nn <= 64,
        ;
        mat = mat + v * nn;
        let tm = pst_mg(pt);
        let te = pst_eg(pt);
        let peso = PESO_MOV[pi] as i64;
        let ghost f1 = |s: int| pst_mg_val(pi as int, pst_index(c as int, s));
        let ghost f2 = |s: int| pst_eg_val(pi as int, pst_index(c as int, s));
        let ghost f3 = |s: int| attack_count(c as int, pi as int, s, b.occupied);
        let mut a1: i64 = 0;
        let mut a2: i64 = 0;
        let mut a3: i64 = 0;
        let mut bb = x;
        let ghost mut m: int = 0;
        while bb != 0
            invariant
                consistent(*b),
                c == color.idx(),
                pi < 6,
                pt == crate::types::piece_of_idx(pi as int),
                x == b.pieces[c as int][pi as int],
                0 <= m <= 64,
                forall|t: int| #[trigger] in_bb(bb, t) == (in_bb(x, t) && t >= m),
                forall|i: int| 0 <= i < 64 ==> #[trigger] tm[i] == pst_mg_val(pi as int, i),
                forall|i: int| 0 <= i < 64 ==> #[trigger] te[i] == pst_eg_val(pi as int, i),
                f1 == (|s: int| pst_mg_val(pi as int, pst_index(c as int, s))),
                f2 == (|s: int| pst_eg_val(pi as int, pst_index(c as int, s))),
                f3 == (|s: int| attack_count(c as int, pi as int, s, b.occupied)),
                a1 == bb_sum(x, f1, m),
                a2 == bb_sum(x, f2, m),
                a3 == bb_sum(x, f3, m),
                -m * 2147483648 <= a1 <= m * 2147483648,
                -m * 2147483648 <= a2 <= m * 2147483648,
                0 <= a3 <= m * 64,
            decreases 64 - m,
        {
            let ghost before = bb;
            let sq = pop_lsb(&mut bb);
            proof {
                assert forall|t: int| m <= t < sq implies !#[trigger] in_bb(x, t) by {
                    assert(!in_bb(before, t));
                }
                lemma_bb_sum_step(x, f1, m, sq as int);
                lemma_bb_sum_step(x, f2, m, sq as int);
                lemma_bb_sum_step(x, f3, m, sq as int);
            }
            let idx: usize = if c == 0 {
                ((7 - sq / 8) * 8 + sq % 8) as usize
            } else {
                sq as usize
            };
            a1 = a1 + tm[idx] as i64;
            a2 = a2 + te[idx] as i64;
            let att = crate::board::piece_attacks(pt, sq, b.occupied, color);
            let k = popcount(att);
            proof {
                lemma_count_sat(att, |t: int| piece_attacks_sq(crate::types::color_of_idx(c as int), crate::types::piece_of_idx(pi as int), sq as int, t, b.occupied), 64);
                assert(crate::types::color_of_idx(c as int) == color);
            }
            a3 = a3 + k as i64;
            proof {
                m = sq + 1;
            }
        }
        proof {
            crate::bitboard::lemma_zero_iff_empty(bb);
            assert forall|t: int| m <= t < 64 implies !#[trigger] in_bb(x, t) by {
                assert(!in_bb(bb, t));
            }
            lemma_bb_sum_skip(x, f1, m, 64);
            lemma_bb_sum_skip(x, f2, m, 64);
            lemma_bb_sum_skip(x, f3, m, 64);
            assert(g1(pi as int) == bb_sum(x, f1, 64));
            assert(g2(pi as int) == bb_sum(x, f2, 64));
            assert(g3(pi as int) == peso * bb_sum(x, f3, 64));
        }
        mg = mg + a1;
        eg = eg + a2;
        assert(0 <= peso * a3 <= 4 * 64 * 64) by (nonlinear_arith)
            requires
                0 <= peso <= 4,
                0 <= a3 <= 64 * 64,
        ;
        mob = mob + peso * a3;
        pi = pi + 1;
    }
    (mat, mg, eg, mob)
}

/// The squares of file `f`.
pub const FILE_A: u64 = 0x0101010101010101u64;

proof fn lemma_file_mask(f: u64)
    requires
        f < 8,
    ensures
        forall|t: int| #[trigger] in_bb(FILE_A << f, t) == (0 <= t < 64 && t % 8 == f),
{
    assert forall|t: int| #[trigger] in_bb(FILE_A << f, t) == (0 <= t < 64 && t % 8 == f) by {
        if 0 <= t < 64 {
            let u = t as u64;
            assert(((0x0101010101010101u64 << f) >> u) & 1u64 == 1u64 <==> u % 8 == f) by (bit_vector)
                requires
                    f < 8,
                    u < 64,
            ;
        }
    }
}

proof fn lemma_rank_masks(k: u64)
    requires
        1 <= k <= 7,
    ensures
        forall|t: int| #[trigger] in_bb(!0u64 << (k * 8), t) == (8 * k <= t < 64),
{
    assert forall|t: int| #[trigger] in_bb(!0u64 << (k * 8), t) == (8 * k <= t < 64) by {
        if 0 <= t < 64 {
            let u = t as u64;
            assert(((!0u64 << (k * 8)) >> u) & 1u64 == 1u64 <==> 8 * k <= u) by (bit_vector)
                requires
                    1 <= k <= 7,
                    u < 64,
            ;
        }
    }
}

/// The files `f - 1`, `f`, `f + 1` that lie on the board.
fn near_files(f: u8) -> (r: u64)
    requires
        f < 8,
    ensures
        forall|t: int| #[trigger] in_bb(r, t) == (0 <= t < 64 && f - 1 <= t % 8 <= f + 1),
{
    let mut columnas: u64 = 0;
    let mut df: i32 = -1;
    proof {
        crate::bitboard::lemma_has_zero();
    }
    while df <= 1
        invariant
            f < 8,
            -1 <= df <= 2,
            forall|t: int| #[trigger] in_bb(columnas, t) == (0 <= t < 64 && f - 1 <= t % 8 < f + df),
        decreases 2 - df,
    {
        let nf = f as i32 + df;
        let ghost before = columnas;
        if 0 <= nf && nf < 8 {
            let m = FILE_A << (nf as u64);
            proof {
                lemma_file_mask(nf as u64);
                crate::bitboard::lemma_has_or(columnas, m);
            }
            columnas = columnas | m;
        }
        df = df + 1;
        proof {
            assert forall|t: int| #[trigger] in_bb(columnas, t) == (0 <= t < 64 && f - 1 <= t % 8 < f + df) by {
                if 0 <= t < 64 {
                    assert(in_bb(before, t) == (f - 1 <= t % 8 < f + df - 1));
                }
            }
        }
    }
    columnas
}

/// `t` lies ahead of `s` for a pawn of `color`.
pub open spec fn ahead(color: Color, s: int, t: int) -> bool {
    if color == Color::White {
        t / 8 > s / 8
    } else {
        t / 8 < s / 8
    }
}

/// No pawn of `rivales` stands ahead of `sq`, for a pawn of `color`, on its
/// file or the files next to it.
pub open spec fn passed(color: Color, sq: int, rivales: u64) -> bool {
    forall|t: int| #[trigger] in_bb(rivales, t) ==> !(sq % 8 - 1 <= t % 8 <= sq % 8 + 1 && ahead(color, sq, t))
}

/// Whether a pawn of `color` on `sq` is passed.
pub fn es_pasado(color: Color, sq: Square, peones_rivales: Bitboard) -> (r: bool)
    requires
        sq < 64,
    ensures
        r == passed(color, sq as int, peones_rivales),
{
    let f = sq % 8;
    let r = sq / 8;
    let columnas = near_files(f);
    let filas_delante: u64 = match color {
        Color::White => if r == 7 {
            0
        } else {
            let k = (r + 1) as u64;
            proof {
                lemma_rank_masks(k);
            }
            !0u64 << (k * 8)
        },
        Color::Black => if r == 0 {
            0
        } else {
            let k = r as u64;
            let m = !0u64 << (k * 8);
            proof {
                lemma_rank_masks(k);
                crate::bitboard::lemma_has_not(m);
            }
            !m
        },
    };
    proof {
        crate::bitboard::lemma_has_zero();
        assert forall|t: int| 0 <= t < 64 implies #[trigger] in_bb(filas_delante, t) == ahead(color, sq as int, t) by {}
        crate::bitboard::lemma_has_and(peones_rivales, columnas);
        crate::bitboard::lemma_has_and(peones_rivales & columnas, filas_delante);
    }
    let x = peones_rivales & columnas & filas_delante;
    proof {
        crate::bitboard::lemma_zero_iff_empty(x);
        if x == 0 {
            assert forall|t: int| #[trigger] in_bb(peones_rivales, t) implies !(sq % 8 - 1 <= t % 8 <= sq % 8 + 1 && ahead(color, sq as int, t)) by {
                assert(!in_bb(x, t));
            }
        } else {
            let t = choose|t: int| 0 <= t < 64 && in_bb(x, t);
            assert(in_bb(peones_rivales, t));
        }
    }
    x == 0
}

/// Number of pawns of `x` on file `f`.
pub open spec fn file_count(x: u64, f: int) -> int {
    count_sat(|t: int| in_bb(x, t) && t % 8 == f, 64)
}

/// No pawn of `x` stands on a file next to `f`.
pub open spec fn no_neighbours(x: u64, f: int) -> bool {
    forall|t: int| #[trigger] in_bb(x, t) ==> t % 8 != f - 1 && t % 8 != f + 1
}

/// Penalty of the pawns of `x` on file `f`: each pawn past the first is
/// doubled, and all of them are isolated when no pawn stands next to them.
pub open spec fn file_penalty(x: u64, f: int, peso: int) -> int {
    let c = file_count(x, f);
    if c > 0 {
        (if c > 1 { peso * (c - 1) } else { 0 }) + (if no_neighbours(x, f) { peso * c } else { 0 })
    } else {
        0
    }
}

/// Pawn structure score of the pawns `x`: minus the penalties of all files.
pub open spec fn structure(x: u64, peso: int) -> int {
    -sum_types(|f: int| file_penalty(x, f, peso), 8)
}

/// Pawn structure score of the pawns `x`, with penalty `peso`.
fn pawn_structure(x: u64, peso: i32) -> (r: i64)
    requires
        0 <= peso <= 16,
    ensures
        r == structure(x, peso as int),
{
    let ghost g = |f: int| file_penalty(x, f, peso as int);
    let mut acc: i64 = 0;
    let mut f: u8 = 0;
    while f < 8
        invariant
            0 <= peso <= 16,
            f <= 8,
            g == (|f: int| file_penalty(x, f, peso as int)),
            acc == -sum_types(g, f as int),
            -(f as int) * 2048 <= acc <= 0,
        decreases 8 - f,
    {
        let fm = FILE_A << (f as u64);
        let left: u64 = if f > 0 {
            FILE_A << ((f - 1) as u64)
        } else {
            0
        };
        let right: u64 = if f < 7 {
            FILE_A << ((f + 1) as u64)
        } else {
            0
        };
        let adyacentes = left | right;
        let cw = popcount(x & fm) as i64;
        proof {
            lemma_file_mask(f as u64);
            if f > 0 {
                lemma_file_mask((f - 1) as u64);
            }
            if f < 7 {
                lemma_file_mask((f + 1) as u64);
            }
            crate::bitboard::lemma_has_zero();
            crate::bitboard::lemma_has_or(left, right);
            crate::bitboard::lemma_has_and(x, fm);
            crate::bitboard::lemma_has_and(x, adyacentes);
            lemma_count_sat(x & fm, |t: int| in_bb(x, t) && t % 8 == f, 64);
            crate::bitboard::lemma_zero_iff_empty(x & adyacentes);
            if x & adyacentes == 0 {
                assert forall|t: int| #[trigger] in_bb(x, t) implies t % 8 != f - 1 && t % 8 != f + 1 by {
                    assert(!in_bb(x & adyacentes, t));
                }
            } else {
                let t = choose|t: int| 0 <= t < 64 && in_bb(x & adyacentes, t);
                assert(in_bb(x, t));
            }
        }
        let p = peso as i64;
        assert(0 <= p * cw <= 1024 && (cw > 0 ==> 0 <= p * (cw - 1) <= 1024)) by (nonlinear_arith)
            requires
                0 <= p <= 16,
                0 <= cw <= 64,
        ;
        let mut pen: i64 = 0;
        if cw > 0 {
            if cw > 1 {
                pen = pen + p * (cw - 1);
            }
            if x & adyacentes == 0 {
                pen = pen + p * cw;
            }
        }
        assert(0 <= pen <= 2048) by (nonlinear_arith)
            requires
                0 <= p <= 16,
                0 <= cw <= 64,
                pen == (if cw > 0 { (if cw > 1 { p * (cw - 1) } else { 0 }) + (if x & adyacentes == 0 { p * cw } else { 0 }) } else { 0 }),
        ;
        assert(pen == g(f as int));
        acc = acc - pen;
        f = f + 1;
    }
    acc
}

/// Chebyshev distance between two squares.
pub fn distancia_chebyshev(a: Square, b: Square) -> (d: i32)
    requires
        a < 64,
        b < 64,
    ensures
        d == crate::bitboard::cheb(a as int, b as int),
        0 <= d <= 7,
{
    let fa = (a % 8) as i32;
    let ra = (a / 8) as i32;
    let fb = (b % 8) as i32;
    let rb = (b / 8) as i32;
    let df = if fa > fb {
        fa - fb
    } else {
        fb - fa
    };
    let dr = if ra > rb {
        ra - rb
    } else {
        rb - ra
    };
    if df < dr {
        dr
    } else {
        df
    }
}

/// Advance of a pawn of `color` on `sq` towards promotion: 0 on its own
/// back rank, 7 on the promotion rank.
pub open spec fn advance(color: Color, sq: int) -> int {
    if color == Color::White {
        sq / 8
    } else {
        7 - sq / 8
    }
}

pub fn indice_avance(color: Color, sq: Square) -> (r: usize)
    requires
        sq < 64,
    ensures
        r == advance(color, sq as int),
        r < 8,
{
    let r = (sq / 8) as usize;
    match color {
        Color::White => r,
        Color::Black => 7 - r,
    }
}

/// `sq` is in the opponent's half for `color`.
pub open spec fn in_enemy_half(color: Color, sq: int) -> bool {
    if color == Color::White {
        sq / 8 >= 4
    } else {
        sq / 8 <= 3
    }
}

pub fn en_territorio_rival(color: Color, sq: Square) -> (r: bool)
    ensures
        r == in_enemy_half(color, sq as int),
{
    let r = sq / 8;
    match color {
        Color::White => r >= 4,
        Color::Black => r <= 3,
    }
}

/// No rival pawn can ever attack a piece of `color` on `sq`: the passed
/// pawn condition.
pub fn puesto_avanzado_seguro(color: Color, sq: Square, peones_rivales: Bitboard) -> (r: bool)
    requires
        sq < 64,
    ensures
        r == passed(color, sq as int, peones_rivales),
{
    es_pasado(color, sq, peones_rivales)
}

/// The squares around a king on `ksq`, the king's own, and the three
/// squares two ranks ahead of it (towards the opponent for `color`).
pub open spec fn in_king_zone(ksq: int, color: Color, t: int) -> bool {
    let r2 = ksq / 8 + if color == Color::White { 2int } else { -2int };
    ||| crate::bitboard::king_step(ksq, t)
    ||| t == ksq
    ||| (0 <= r2 < 8 && 0 <= t < 64 && t / 8 == r2 && ksq % 8 - 1 <= t % 8 <= ksq % 8 + 1)
}

pub fn king_zone(ksq: Square, color: Color) -> (z: Bitboard)
    requires
        ksq < 64,
    ensures
        forall|t: int| #[trigger] in_bb(z, t) == in_king_zone(ksq as int, color, t),
{
    let ka = crate::bitboard::king_attacks(ksq);
    let kb = crate::bitboard::bit(ksq);
    proof {
        crate::bitboard::lemma_has_or(ka, kb);
    }
    let mut z = ka | kb;
    let f = (ksq % 8) as i32;
    let r = (ksq / 8) as i32 + match color {
        Color::White => 2i32,
        Color::Black => -2i32,
    };
    if 0 <= r && r < 8 {
        let ghost z0 = z;
        let mut df: i32 = -1;
        while df <= 1
            invariant
                ksq < 64,
                0 <= r < 8,
                f == ksq % 8,
                r == ksq / 8 + if color == Color::White { 2int } else { -2int },
                -1 <= df <= 2,
                forall|t: int| #[trigger] in_bb(z0, t) == (crate::bitboard::king_step(ksq as int, t) || t == ksq),
                forall|t: int| #[trigger] in_bb(z, t) == (in_bb(z0, t) || (0 <= t < 64 && t / 8 == r && f - 1 <= t % 8 < f + df)),
            decreases 2 - df,
        {
            let nf = f + df;
            let ghost before = z;
            if 0 <= nf && nf < 8 {
                let sq = crate::types::make_square(nf as u8, r as u8);
                let m = crate::bitboard::bit(sq);
                proof {
                    crate::bitboard::lemma_has_or(z, m);
                }
                z = z | m;
            }
            df = df + 1;
            proof {
                assert forall|t: int| #[trigger] in_bb(z, t) == (in_bb(z0, t) || (0 <= t < 64 && t / 8 == r && f - 1 <= t % 8 < f + df)) by {
                    assert(in_bb(before, t) == (in_bb(z0, t) || (0 <= t < 64 && t / 8 == r && f - 1 <= t % 8 < f + df - 1)));
                }
            }
        }
    }
    z
}

/// Shield of the king on `ksq` from its own pawns `propios` on file `nf`:
/// 12 for a pawn just in front of it, else 6 for one two ranks ahead.
pub open spec fn shield_file(ksq: int, color: Color, propios: u64, nf: int) -> int {
    let dr = if color == Color::White { 1int } else { -1int };
    let r1 = ksq / 8 + dr;
    let r2 = ksq / 8 + 2 * dr;
    if 0 <= nf < 8 {
        if 0 <= r1 < 8 && in_bb(propios, r1 * 8 + nf) {
            12
        } else if 0 <= r2 < 8 && in_bb(propios, r2 * 8 + nf) {
            6
        } else {
            0
        }
    } else {
        0
    }
}

/// The pawn shield of the king on `ksq`: its file and the two next to it.
pub open spec fn shield(ksq: int, color: Color, propios: u64) -> int {
    shield_file(ksq, color, propios, ksq % 8 - 1) + shield_file(ksq, color, propios, ksq % 8) + shield_file(
        ksq,
        color,
        propios,
        ksq % 8 + 1,
    )
}

fn has_square(x: u64, f: i32, r: i32) -> (h: bool)
    requires
        0 <= f < 8,
        0 <= r < 8,
    ensures
        h == in_bb(x, r * 8 + f),
{
    let sq = crate::types::make_square(f as u8, r as u8);
    let m = crate::bitboard::bit(sq);
    proof {
        crate::bitboard::lemma_has_and(x, m);
        crate::bitboard::lemma_zero_iff_empty(x & m);
        if x & m != 0 {
            let t = choose|t: int| 0 <= t < 64 && in_bb(x & m, t);
            assert(in_bb(m, t));
        } else {
            assert(!in_bb(x & m, sq as int));
        }
    }
    x & m != 0
}

/// The pawn shield of the king on `ksq` of `color`, from its pawns `propios`.
fn escudo(ksq: Square, color: Color, propios: Bitboard) -> (s: i64)
    requires
        ksq < 64,
    ensures
        s == shield(ksq as int, color, propios),
{
    let f = (ksq % 8) as i32;
    let r = (ksq / 8) as i32;
    let dr: i32 = match color {
        Color::White => 1,
        Color::Black => -1,
    };
    let mut s: i64 = 0;
    let mut df: i32 = -1;
    while df <= 1
        invariant
            ksq < 64,
            f == ksq % 8,
            r == ksq / 8,
            dr == if color == Color::White { 1int } else { -1int },
            -1 <= df <= 2,
            s == (if df > -1 { shield_file(ksq as int, color, propios, f - 1) } else { 0 }) + (if df > 0 {
                shield_file(ksq as int, color, propios, f as int)
            } else {
                0
            }) + (if df > 1 { shield_file(ksq as int, color, propios, f + 1) } else { 0 }),
        decreases 2 - df,
    {
        let nf = f + df;
        if 0 <= nf && nf < 8 {
            let r1 = r + dr;
            let r2 = r + 2 * dr;
            if 0 <= r1 && r1 < 8 && has_square(propios, nf, r1) {
                s = s + 12;
            } else if 0 <= r2 && r2 < 8 && has_square(propios, nf, r2) {
                s = s + 6;
            }
        }
        df = df + 1;
    }
    s
}

/// Squares of the zone `za` attacked by a piece of colour index `c` and
/// type `p` on `s`.
pub open spec fn zone_hits(c: int, p: int, s: int, occ: u64, za: u64) -> int {
    count_sat(
        |t: int| piece_attacks_sq(crate::types::color_of_idx(c), crate::types::piece_of_idx(p), s, t, occ) && in_bb(za, t),
        64,
    )
}

/// King attack units of colour index `c` against the zone `za`: squares of
/// the zone its pawns attack, plus those its knights, bishops, rooks and
/// queens attack, weighted by piece type.
pub open spec fn attack_units(b: Board, c: int, za: u64) -> int {
    sum_types(
        |p: int|
            if p == 0 {
                bb_sum(b.pieces[c][0], |s: int| zone_hits(c, 0, s, b.occupied, za), 64)
            } else if p <= 4 {
                PESO_ATQ[p] * bb_sum(b.pieces[c][p], |s: int| zone_hits(c, p, s, b.occupied, za), 64)
            } else {
                0
            },
        6,
    )
}

/// Knights, bishops, rooks and queens of colour index `c` that attack some
/// square of the zone `za`.
pub open spec fn zone_attackers(b: Board, c: int, za: u64) -> int {
    sum_types(
        |p: int|
            if 1 <= p <= 4 {
                bb_sum(b.pieces[c][p], |s: int| if zone_hits(c, p, s, b.occupied, za) > 0 { 1int } else { 0int }, 64)
            } else {
                0
            },
        6,
    )
}

/// Attack units and attacking pieces of `color` against the zone `za`.
fn attack_terms(b: &Board, color: Color, za: Bitboard) -> (r: (i64, i64))
    requires
        consistent(*b),
    ensures
        r.0 == attack_units(*b, color.idx(), za),
        r.1 == zone_attackers(*b, color.idx(), za),
        0 <= r.0,
{
    let c = color.index();
    let ghost gu = |p: int|
        if p == 0 {
            bb_sum(b.pieces[c as int][0], |s: int| zone_hits(c as int, 0, s, b.occupied, za), 64)
        } else if p <= 4 {
            PESO_ATQ[p] * bb_sum(b.pieces[c as int][p], |s: int| zone_hits(c as int, p, s, b.occupied, za), 64)
        } else {
            0
        };
    let ghost gn = |p: int|
        if 1 <= p <= 4 {
            bb_sum(b.pieces[c as int][p], |s: int| if zone_hits(c as int, p, s, b.occupied, za) > 0 { 1int } else { 0int }, 64)
        } else {
            0
        };
    let mut units: i64 = 0;
    let mut n: i64 = 0;
    let mut pi: usize = 0;
    while pi < 6
        invariant
            consistent(*b),
            c == color.idx(),
            pi <= 6,
            gu == (|p: int|
                if p == 0 {
                    bb_sum(b.pieces[c as int][0], |s: int| zone_hits(c as int, 0, s, b.occupied, za), 64)
                } else if p <= 4 {
                    PESO_ATQ[p] * bb_sum(b.pieces[c as int][p], |s: int| zone_hits(c as int, p, s, b.occupied, za), 64)
                } else {
                    0
                }),
            gn == (|p: int|
                if 1 <= p <= 4 {
                    bb_sum(b.pieces[c as int][p], |s: int| if zone_hits(c as int, p, s, b.occupied, za) > 0 { 1int } else { 0int }, 64)
                } else {
                    0
                }),
            units == sum_types(gu, pi as int),
            n == sum_types(gn, pi as int),
            0 <= units <= pi * 64 * 64 * 5,
            0 <= n <= pi * 64,
        decreases 6 - pi,
    {
        if pi == 5 {
            pi = pi + 1;
            continue;
        }
        let pt = PieceType::from_index(pi);
        let x = b.pieces[c][pi];
        let ghost fu = |s: int| zone_hits(c as int, pi as int, s, b.occupied, za);
        let ghost fn_ = |s: int| if zone_hits(c as int, pi as int, s, b.occupied, za) > 0 { 1int } else { 0int };
        let mut au: i64 = 0;
        let mut an: i64 = 0;
        let mut bb = x;
        let ghost mut m: int = 0;
        while bb != 0
            invariant
                consistent(*b),
                c == color.idx(),
                pi < 5,
                pt == crate::types::piece_of_idx(pi as int),
                x == b.pieces[c as int][pi as int],
                0 <= m <= 64,
                forall|t: int| #[trigger] in_bb(bb, t) == (in_bb(x, t) && t >= m),
                fu == (|s: int| zone_hits(c as int, pi as int, s, b.occupied, za)),
                fn_ == (|s: int| if zone_hits(c as int, pi as int, s, b.occupied, za) > 0 { 1int } else { 0int }),
                au == bb_sum(x, fu, m),
                an == bb_sum(x, fn_, m),
                0 <= au <= m * 64,
                0 <= an <= m,
            decreases 64 - m,
        {
            let ghost before = bb;
            let sq = pop_lsb(&mut bb);
            proof {
                assert forall|t: int| m <= t < sq implies !#[trigger] in_bb(x, t) by {
                    assert(!in_bb(before, t));
                }
                lemma_bb_sum_step(x, fu, m, sq as int);
                lemma_bb_sum_step(x, fn_, m, sq as int);
            }
            let att = crate::board::piece_attacks(pt, sq, b.occupied, color);
            let hits = att & za;
            let k = popcount(hits);
            proof {
                crate::bitboard::lemma_has_and(att, za);
                assert(crate::types::color_of_idx(c as int) == color);
                lemma_count_sat(hits, |t: int| piece_attacks_sq(crate::types::color_of_idx(c as int), crate::types::piece_of_idx(pi as int), sq as int, t, b.occupied) && in_bb(za, t), 64);
            }
            au = au + k as i64;
            if k > 0 {
                an = an + 1;
            }
            proof {
                m = sq + 1;
            }
        }
        proof {
            crate::bitboard::lemma_zero_iff_empty(bb);
            assert forall|t: int| m <= t < 64 implies !#[trigger] in_bb(x, t) by {
                assert(!in_bb(bb, t));
            }
            lemma_bb_sum_skip(x, fu, m, 64);
            lemma_bb_sum_skip(x, fn_, m, 64);
        }
        if pi == 0 {
            units = units + au;
        } else {
            let w = PESO_ATQ[pi] as i64;
            assert(0 <= w <= 5);
            assert(0 <= w * au <= 5 * 64 * 64) by (nonlinear_arith)
                requires
                    0 <= w <= 5,
                    0 <= au <= 64 * 64,
            ;
            units = units + w * au;
            n = n + an;
        }
        pi = pi + 1;
    }
    (units, n)
}

/// The king safety table value of attack units `u`, halved first when the
/// attacker has no queen; 0 when there are no units.
pub open spec fn safety_value(u: int, has_queen: bool) -> int {
    if u <= 0 {
        0
    } else {
        let v = if has_queen { u } else { u / 2 };
        TABLA_SEGURIDAD[if v > 61 { 61 } else { v }] as int
    }
}

fn safety(u: i64, has_queen: bool) -> (r: i64)
    requires
        0 <= u,
    ensures
        r == safety_value(u as int, has_queen),
{
    if u <= 0 {
        return 0;
    }
    let v = if has_queen {
        u
    } else {
        u / 2
    };
    let i: usize = if v > 61 {
        61
    } else {
        v as usize
    };
    TABLA_SEGURIDAD[i] as i64
}

/// Sum, over the squares of `x`, of `fe`, which computes `f`.
fn bb_sum_exec<F: Fn(Square) -> i64>(x: u64, fe: &F, Ghost(f): Ghost<spec_fn(int) -> int>) -> (r: i64)
    requires
        forall|s: Square| s < 64 ==> #[trigger] call_requires(*fe, (s,)),
        forall|s: Square, v: i64| s < 64 && #[trigger] call_ensures(*fe, (s,), v) ==> v == f(s as int) && -1000 <= v <= 1000,
    ensures
        r == bb_sum(x, f, 64),
        -64000 <= r <= 64000,
{
    let mut acc: i64 = 0;
    let mut bb = x;
    let ghost mut m: int = 0;
    while bb != 0
        invariant
            forall|s: Square| s < 64 ==> #[trigger] call_requires(*fe, (s,)),
            forall|s: Square, v: i64| s < 64 && #[trigger] call_ensures(*fe, (s,), v) ==> v == f(s as int) && -1000 <= v <= 1000,
            0 <= m <= 64,
            forall|t: int| #[trigger] in_bb(bb, t) == (in_bb(x, t) && t >= m),
            acc == bb_sum(x, f, m),
            -m * 1000 <= acc <= m * 1000,
        decreases 64 - m,
    {
        let ghost before = bb;
        let sq = pop_lsb(&mut bb);
        proof {
            assert forall|t: int| m <= t < sq implies !#[trigger] in_bb(x, t) by {
                assert(!in_bb(before, t));
            }
            lemma_bb_sum_step(x, f, m, sq as int);
        }
        let v = fe(sq);
        acc = acc + v;
        proof {
            m = sq + 1;
        }
    }
    proof {
        crate::bitboard::lemma_zero_iff_empty(bb);
        assert forall|t: int| m <= t < 64 implies !#[trigger] in_bb(x, t) by {
            assert(!in_bb(bb, t));
        }
        lemma_bb_sum_skip(x, f, m, 64);
    }
    acc
}

/// Some pawn of `x` stands on file `f`.
pub open spec fn has_on_file(x: u64, f: int) -> bool {
    exists|t: int| #[trigger] in_bb(x, t) && t % 8 == f
}

fn on_file(x: u64, f: u8) -> (r: bool)
    requires
        f < 8,
    ensures
        r == has_on_file(x, f as int),
{
    let m = FILE_A << (f as u64);
    proof {
        lemma_file_mask(f as u64);
        crate::bitboard::lemma_has_and(x, m);
        crate::bitboard::lemma_zero_iff_empty(x & m);
        if x & m != 0 {
            let t = choose|t: int| 0 <= t < 64 && in_bb(x & m, t);
            assert(in_bb(x, t) && t % 8 == f);
        } else {
            assert forall|t: int| !(#[trigger] in_bb(x, t) && t % 8 == f) by {
                if 0 <= t < 64 {
                    assert(!in_bb(x & m, t));
                }
            }
        }
    }
    x & m != 0
}

/// Activity of a rook of `color` on `s`: 20 on the opponent's second rank,
/// 15 on a file without pawns, 8 on a file without own pawns.
pub open spec fn rook_value(color: Color, s: int, propios: u64, rivales: u64) -> int {
    (if (color == Color::White && s / 8 == 6) || (color == Color::Black && s / 8 == 1) { 20int } else { 0int }) + (if !has_on_file(propios, s % 8) && !has_on_file(rivales, s % 8) {
        15int
    } else if !has_on_file(propios, s % 8) {
        8int
    } else {
        0int
    })
}

/// Outpost bonus of a piece of colour `color` and type index `p` on `s`.
pub open spec fn outpost_value(color: Color, p: int, s: int, rivales: u64) -> int {
    if in_enemy_half(color, s) && passed(color, s, rivales) {
        BONUS_PUESTO[p] as int
    } else {
        0
    }
}

/// Rook activity of colour `color`, with own pawns `propios` and rival
/// pawns `rivales`.
fn rook_activity(b: &Board, color: Color, propios: u64, rivales: u64) -> (r: i64)
    ensures
        r == bb_sum(b.pieces[color.idx()][3], |s: int| rook_value(color, s, propios, rivales), 64),
{
    let value = |sq: Square| -> (v: i64)
        requires
            sq < 64,
        ensures
            v == rook_value(color, sq as int, propios, rivales),
            -1000 <= v <= 1000,
        {
            let r = sq / 8;
            let f = sq % 8;
            let mut v: i64 = 0;
            let en_7ma = match color {
                Color::White => r == 6,
                Color::Black => r == 1,
            };
            if en_7ma {
                v = v + 20;
            }
            let hay_propio = on_file(propios, f);
            let hay_rival = on_file(rivales, f);
            if !hay_propio && !hay_rival {
                v = v + 15;
            } else if !hay_propio {
                v = v + 8;
            }
            v
        };
    bb_sum_exec(b.pieces[color.index()][3], &value, Ghost(|s: int| rook_value(color, s, propios, rivales)))
}

/// Outpost bonuses of the knights and bishops of `color`.
fn outposts(b: &Board, color: Color, rivales: u64) -> (r: i64)
    ensures
        r == bb_sum(b.pieces[color.idx()][1], |s: int| outpost_value(color, 1, s, rivales), 64) + bb_sum(
            b.pieces[color.idx()][2],
            |s: int| outpost_value(color, 2, s, rivales),
            64,
        ),
{
    let knight = |sq: Square| -> (v: i64)
        requires
            sq < 64,
        ensures
            v == outpost_value(color, 1, sq as int, rivales),
            -1000 <= v <= 1000,
        {
            if en_territorio_rival(color, sq) && puesto_avanzado_seguro(color, sq, rivales) {
                BONUS_PUESTO[1] as i64
            } else {
                0
            }
        };
    let bishop = |sq: Square| -> (v: i64)
        requires
            sq < 64,
        ensures
            v == outpost_value(color, 2, sq as int, rivales),
            -1000 <= v <= 1000,
        {
            if en_territorio_rival(color, sq) && puesto_avanzado_seguro(color, sq, rivales) {
                BONUS_PUESTO[2] as i64
            } else {
                0
            }
        };
    let a = bb_sum_exec(b.pieces[color.index()][1], &knight, Ghost(|s: int| outpost_value(color, 1, s, rivales)));
    let c = bb_sum_exec(b.pieces[color.index()][2], &bishop, Ghost(|s: int| outpost_value(color, 2, s, rivales)));
    a + c
}

/// The promotion square of a pawn of `color` on `s`.
pub open spec fn promo_square(color: Color, s: int) -> int {
    s % 8 + if color == Color::White {
        56int
    } else {
        0int
    }
}

/// The bonus of a passed pawn of `color` on `s` by its advance, and how
/// much nearer its promotion square is to its own king `kp` than to the
/// rival king `kr`.
pub open spec fn passed_entry(color: Color, s: int, kp: int, kr: int) -> (i32, i32) {
    (
        PASO_BONUS[advance(color, s)],
        (crate::bitboard::cheb(kr, promo_square(color, s)) - crate::bitboard::cheb(kp, promo_square(color, s))) as i32,
    )
}

/// The entries of the passed pawns of `x` below square `n`, in square order.
pub open spec fn passed_list(x: u64, rivales: u64, color: Color, kp: int, kr: int, n: int) -> Seq<(i32, i32)>
    decreases n,
{
    if n <= 0 {
        seq![]
    } else {
        passed_list(x, rivales, color, kp, kr, n - 1) + if in_bb(x, n - 1) && passed(color, n - 1, rivales) {
            seq![passed_entry(color, n - 1, kp, kr)]
        } else {
            seq![]
        }
    }
}

proof fn lemma_passed_skip(x: u64, rivales: u64, color: Color, kp: int, kr: int, m: int, k: int)
    requires
        0 <= m <= k,
        forall|t: int| m <= t < k ==> !#[trigger] in_bb(x, t),
    ensures
        passed_list(x, rivales, color, kp, kr, k) == passed_list(x, rivales, color, kp, kr, m),
    decreases k - m,
{
    if k > m {
        lemma_passed_skip(x, rivales, color, kp, kr, m, k - 1);
        assert(passed_list(x, rivales, color, kp, kr, k) =~= passed_list(x, rivales, color, kp, kr, k - 1));
    }
}

/// The passed pawns of `x` (own king on `kp`, rival king on `kr`).
fn passed_pawns(x: u64, rivales: u64, color: Color, kp: Square, kr: Square) -> (v: Vec<(i32, i32)>)
    requires
        kp < 64,
        kr < 64,
    ensures
        v@ == passed_list(x, rivales, color, kp as int, kr as int, 64),
{
    let mut v: Vec<(i32, i32)> = Vec::new();
    let mut bb = x;
    let ghost mut m: int = 0;
    while bb != 0
        invariant
            kp < 64,
            kr < 64,
            0 <= m <= 64,
            forall|t: int| #[trigger] in_bb(bb, t) == (in_bb(x, t) && t >= m),
            v@ == passed_list(x, rivales, color, kp as int, kr as int, m),
        decreases 64 - m,
    {
        let ghost before = bb;
        let sq = pop_lsb(&mut bb);
        proof {
            assert forall|t: int| m <= t < sq implies !#[trigger] in_bb(x, t) by {
                assert(!in_bb(before, t));
            }
            lemma_passed_skip(x, rivales, color, kp as int, kr as int, m, sq as int);
        }
        if es_pasado(color, sq, rivales) {
            let base = PASO_BONUS[indice_avance(color, sq)];
            let corona = match color {
                Color::White => crate::types::make_square(sq % 8, 7),
                Color::Black => crate::types::make_square(sq % 8, 0),
            };
            let d_propio = distancia_chebyshev(kp, corona);
            let d_rival = distancia_chebyshev(kr, corona);
            v.push((base, d_rival - d_propio));
            proof {
                assert(corona == promo_square(color, sq as int));
                assert(v@ =~= passed_list(x, rivales, color, kp as int, kr as int, sq as int + 1));
            }
        } else {
            proof {
                assert(v@ =~= passed_list(x, rivales, color, kp as int, kr as int, sq as int + 1));
            }
        }
        proof {
            m = sq + 1;
        }
    }
    proof {
        crate::bitboard::lemma_zero_iff_empty(bb);
        assert forall|t: int| m <= t < 64 implies !#[trigger] in_bb(x, t) by {
            assert(!in_bb(bb, t));
        }
        lemma_passed_skip(x, rivales, color, kp as int, kr as int, m, 64);
    }
    v
}

/// The bitboard of the king zone of a king of `color` on `ksq`.
pub open spec fn zone_bb(ksq: int, color: Color) -> u64 {
    choose|z: u64| is_zone(z, ksq, color)
}

/// `z` holds exactly the king zone of a king of `color` on `ksq`.
pub open spec fn is_zone(z: u64, ksq: int, color: Color) -> bool {
    forall|t: int| #[trigger] in_bb(z, t) == in_king_zone(ksq, color, t)
}

/// The game phase: minor pieces count 1, rooks 2, queens 4, at most 24.
pub open spec fn phase(b: Board) -> int {
    let n = pop_count(b.pieces[0][1] | b.pieces[1][1]) + pop_count(b.pieces[0][2] | b.pieces[1][2]) + 2 * pop_count(
        b.pieces[0][3] | b.pieces[1][3],
    ) + 4 * pop_count(b.pieces[0][4] | b.pieces[1][4]);
    if n > 24 {
        24
    } else {
        n as int
    }
}

/// Knights, bishops, rooks and queens on the board.
pub open spec fn non_pawn_pieces(b: Board) -> int {
    (pop_count(b.pieces[0][1] | b.pieces[1][1]) + pop_count(b.pieces[0][2] | b.pieces[1][2]) + pop_count(
        b.pieces[0][3] | b.pieces[1][3],
    ) + pop_count(b.pieces[0][4] | b.pieces[1][4])) as int
}

/// The integer terms of the static evaluation, by colour index (0 white,
/// 1 black) where a term belongs to one side.
pub struct EvalTerms {
    pub fase: i64,
    pub material: [i64; 2],
    pub pst_mg: [i64; 2],
    pub pst_eg: [i64; 2],
    pub movilidad: [i64; 2],
    pub estructura: [i64; 2],
    pub escudo: [i64; 2],
    pub seguridad: [i64; 2],
    pub atacantes: [i64; 2],
    pub columna_rey_rival: [u8; 2],
    pub pasados_blancos: Vec<(i32, i32)>,
    pub pasados_negros: Vec<(i32, i32)>,
    pub torres: [i64; 2],
    pub puestos: [i64; 2],
    pub dama: [bool; 2],
    pub torres_en_juego: [i64; 2],
    pub pareja_alfiles: [bool; 2],
    pub distancia_reyes: i64,
    pub piezas_no_peon: i64,
    pub blancas_mueven: bool,
}

/// The pawn structure penalty of a personality.
pub open spec fn structure_weight(pers: Personalidad) -> int {
    if pers == Personalidad::Universal {
        16
    } else {
        8
    }
}

/// The terms of `t` that belong to the side of colour index `c`.
pub open spec fn side_terms(t: EvalTerms, b: Board, pers: Personalidad, c: int) -> bool {
    let other = 1 - c;
    let color = crate::types::color_of_idx(c);
    let pawns = b.pieces[c][0];
    let rival_pawns = b.pieces[other][0];
    let rey = king_sq(b, color);
    let rey_rival = king_sq(b, crate::types::color_of_idx(other));
    let zone = zone_bb(rey_rival, crate::types::color_of_idx(other));
    &&& t.material[c] == material(b, c)
    &&& t.pst_mg[c] == pst_mg_sum(b, c)
    &&& t.pst_eg[c] == pst_eg_sum(b, c)
    &&& t.movilidad[c] == mobility(b, c)
    &&& t.estructura[c] == structure(pawns, structure_weight(pers))
    &&& t.escudo[c] == shield(rey, color, pawns)
    &&& t.seguridad[c] == safety_value(attack_units(b, c, zone), b.pieces[c][4] != 0)
    &&& t.atacantes[c] == zone_attackers(b, c, zone)
    &&& t.columna_rey_rival[c] == rey_rival % 8
    &&& t.torres[c] == bb_sum(b.pieces[c][3], |s: int| rook_value(color, s, pawns, rival_pawns), 64)
    &&& t.puestos[c] == bb_sum(b.pieces[c][1], |s: int| outpost_value(color, 1, s, rival_pawns), 64) + bb_sum(
        b.pieces[c][2],
        |s: int| outpost_value(color, 2, s, rival_pawns),
        64,
    )
    &&& t.dama[c] == (b.pieces[c][4] & b.occupied_co[c] != 0)
    &&& t.torres_en_juego[c] == if pop_count(b.pieces[c][3] & b.occupied_co[c]) > 2 {
        2
    } else {
        pop_count(b.pieces[c][3] & b.occupied_co[c]) as int
    }
    &&& t.pareja_alfiles[c] == (pop_count(b.pieces[c][2]) >= 2)
}

fn phase_exec(b: &Board) -> (r: (i64, i64))
    ensures
        r.0 == phase(*b),
        r.1 == non_pawn_pieces(*b),
{
    let n1 = popcount(b.pieces[0][1] | b.pieces[1][1]) as i64;
    let n2 = popcount(b.pieces[0][2] | b.pieces[1][2]) as i64;
    let n3 = popcount(b.pieces[0][3] | b.pieces[1][3]) as i64;
    let n4 = popcount(b.pieces[0][4] | b.pieces[1][4]) as i64;
    let n = n1 + n2 + 2 * n3 + 4 * n4;
    (if n > 24 { 24 } else { n }, n1 + n2 + n3 + n4)
}

/// The integer terms of the static evaluation of `b` under personality
/// `pers`.
pub fn eval_terms(b: &Board, pers: Personalidad) -> (t: EvalTerms)
    requires
        consistent(*b),
        has_king(*b, Color::White),
        has_king(*b, Color::Black),
    ensures
        t.fase == phase(*b),
        side_terms(t, *b, pers, 0),
        side_terms(t, *b, pers, 1),
        t.pasados_blancos@ == passed_list(
            b.pieces[0][0],
            b.pieces[1][0],
            Color::White,
            king_sq(*b, Color::White),
            king_sq(*b, Color::Black),
            64,
        ),
        t.pasados_negros@ == passed_list(
            b.pieces[1][0],
            b.pieces[0][0],
            Color::Black,
            king_sq(*b, Color::Black),
            king_sq(*b, Color::White),
            64,
        ),
        t.distancia_reyes == crate::bitboard::cheb(king_sq(*b, Color::White), king_sq(*b, Color::Black)),
        t.piezas_no_peon == non_pawn_pieces(*b),
        t.blancas_mueven == (b.turn == Color::White),
{
    let peso: i32 = match pers {
        Personalidad::Universal => 16,
        Personalidad::Tal => 8,
    };
    let rey_w = b.king_square(Color::White);
    let rey_b = b.king_square(Color::Black);
    let zona_w = king_zone(rey_w, Color::White);
    let zona_b = king_zone(rey_b, Color::Black);
    proof {
        assert(zona_w == zone_bb(rey_w as int, Color::White)) by {
            assert(is_zone(zona_w, rey_w as int, Color::White));
            let z = zone_bb(rey_w as int, Color::White);
            crate::bitboard::lemma_bits_ext(zona_w, z);
        }
        assert(zona_b == zone_bb(rey_b as int, Color::Black)) by {
            assert(is_zone(zona_b, rey_b as int, Color::Black));
            let z = zone_bb(rey_b as int, Color::Black);
            crate::bitboard::lemma_bits_ext(zona_b, z);
        }
    }
    let pw = b.pieces[0][0];
    let pb = b.pieces[1][0];
    let (mat_w, mg_w, eg_w, mob_w) = piece_terms(b, Color::White);
    let (mat_b, mg_b, eg_b, mob_b) = piece_terms(b, Color::Black);
    let est_w = pawn_structure(pw, peso);
    let est_b = pawn_structure(pb, peso);
    let esc_w = escudo(rey_w, Color::White, pw);
    let esc_b = escudo(rey_b, Color::Black, pb);
    let (u_w, n_w) = attack_terms(b, Color::White, zona_b);
    let (u_b, n_b) = attack_terms(b, Color::Black, zona_w);
    let seg_w = safety(u_w, b.pieces[0][4] != 0);
    let seg_b = safety(u_b, b.pieces[1][4] != 0);
    let pas_w = passed_pawns(pw, pb, Color::White, rey_w, rey_b);
    let pas_b = passed_pawns(pb, pw, Color::Black, rey_b, rey_w);
    let tor_w = rook_activity(b, Color::White, pw, pb);
    let tor_b = rook_activity(b, Color::Black, pb, pw);
    let pue_w = outposts(b, Color::White, pb);
    let pue_b = outposts(b, Color::Black, pw);
    let rw = popcount(b.pieces[0][3] & b.occupied_co[0]) as i64;
    let rb = popcount(b.pieces[1][3] & b.occupied_co[1]) as i64;
    let (fase, no_peon) = phase_exec(b);
    let t = EvalTerms {
        fase,
        material: [mat_w, mat_b],
        pst_mg: [mg_w, mg_b],
        pst_eg: [eg_w, eg_b],
        movilidad: [mob_w, mob_b],
        estructura: [est_w, est_b],
        escudo: [esc_w, esc_b],
        seguridad: [seg_w, seg_b],
        atacantes: [n_w, n_b],
        columna_rey_rival: [rey_b % 8, rey_w % 8],
        pasados_blancos: pas_w,
        pasados_negros: pas_b,
        torres: [tor_w, tor_b],
        puestos: [pue_w, pue_b],
        dama: [b.pieces[0][4] & b.occupied_co[0] != 0, b.pieces[1][4] & b.occupied_co[1] != 0],
        torres_en_juego: [if rw > 2 { 2 } else { rw }, if rb > 2 { 2 } else { rb }],
        pareja_alfiles: [popcount(b.pieces[0][2]) >= 2, popcount(b.pieces[1][2]) >= 2],
        distancia_reyes: distancia_chebyshev(rey_w, rey_b) as i64,
        piezas_no_peon: no_peon,
        blancas_mueven: match b.turn {
            Color::White => true,
            Color::Black => false,
        },
    };
    proof {
        assert(crate::types::color_of_idx(0) == Color::White);
        assert(crate::types::color_of_idx(1) == Color::Black);
    }
    t
}
/// The king safety table never decreases.
proof fn lemma_tabla_seguridad_crece(i: int, j: int)
    requires
        0 <= i <= j < 62,
    ensures
        TABLA_SEGURIDAD[i] <= TABLA_SEGURIDAD[j],
    decreases j - i,
{
    assert(TABLA_SEGURIDAD[0] <= TABLA_SEGURIDAD[1]);
    assert(TABLA_SEGURIDAD[1] <= TABLA_SEGURIDAD[2]);
    assert(TABLA_SEGURIDAD[2] <= TABLA_SEGURIDAD[3]);
    assert(TABLA_SEGURIDAD[3] <= TABLA_SEGURIDAD[4]);
    assert(TABLA_SEGURIDAD[4] <= TABLA_SEGURIDAD[5]);
    assert(TABLA_SEGURIDAD[5] <= TABLA_SEGURIDAD[6]);
    assert(TABLA_SEGURIDAD[6] <= TABLA_SEGURIDAD[7]);
    assert(TABLA_SEGURIDAD[7] <= TABLA_SEGURIDAD[8]);
    assert(TABLA_SEGURIDAD[8] <= TABLA_SEGURIDAD[9]);
    assert(TABLA_SEGURIDAD[9] <= TABLA_SEGURIDAD[10]);
    assert(TABLA_SEGURIDAD[10] <= TABLA_SEGURIDAD[11]);
    assert(TABLA_SEGURIDAD[11] <= TABLA_SEGURIDAD[12]);
    assert(TABLA_SEGURIDAD[12] <= TABLA_SEGURIDAD[13]);
    assert(TABLA_SEGURIDAD[13] <= TABLA_SEGURIDAD[14]);
    assert(TABLA_SEGURIDAD[14] <= TABLA_SEGURIDAD[15]);
    assert(TABLA_SEGURIDAD[15] <= TABLA_SEGURIDAD[16]);
    assert(TABLA_SEGURIDAD[16] <= TABLA_SEGURIDAD[17]);
    assert(TABLA_SEGURIDAD[17] <= TABLA_SEGURIDAD[18]);
    assert(TABLA_SEGURIDAD[18] <= TABLA_SEGURIDAD[19]);
    assert(TABLA_SEGURIDAD[19] <= TABLA_SEGURIDAD[20]);
    assert(TABLA_SEGURIDAD[20] <= TABLA_SEGURIDAD[21]);
    assert(TABLA_SEGURIDAD[21] <= TABLA_SEGURIDAD[22]);
    assert(TABLA_SEGURIDAD[22] <= TABLA_SEGURIDAD[23]);
    assert(TABLA_SEGURIDAD[23] <= TABLA_SEGURIDAD[24]);
    assert(TABLA_SEGURIDAD[24] <= TABLA_SEGURIDAD[25]);
    assert(TABLA_SEGURIDAD[25] <= TABLA_SEGURIDAD[26]);
    assert(TABLA_SEGURIDAD[26] <= TABLA_SEGURIDAD[27]);
    assert(TABLA_SEGURIDAD[27] <= TABLA_SEGURIDAD[28]);
    assert(TABLA_SEGURIDAD[28] <= TABLA_SEGURIDAD[29]);
    assert(TABLA_SEGURIDAD[29] <= TABLA_SEGURIDAD[30]);
    assert(TABLA_SEGURIDAD[30] <= TABLA_SEGURIDAD[31]);
    assert(TABLA_SEGURIDAD[31] <= TABLA_SEGURIDAD[32]);
    assert(TABLA_SEGURIDAD[32] <= TABLA_SEGURIDAD[33]);
    assert(TABLA_SEGURIDAD[33] <= TABLA_SEGURIDAD[34]);
    assert(TABLA_SEGURIDAD[34] <= TABLA_SEGURIDAD[35]);
    assert(TABLA_SEGURIDAD[35] <= TABLA_SEGURIDAD[36]);
    assert(TABLA_SEGURIDAD[36] <= TABLA_SEGURIDAD[37]);
    assert(TABLA_SEGURIDAD[37] <= TABLA_SEGURIDAD[38]);
    assert(TABLA_SEGURIDAD[38] <= TABLA_SEGURIDAD[39]);
    assert(TABLA_SEGURIDAD[39] <= TABLA_SEGURIDAD[40]);
    assert(TABLA_SEGURIDAD[40] <= TABLA_SEGURIDAD[41]);
    assert(TABLA_SEGURIDAD[41] <= TABLA_SEGURIDAD[42]);
    assert(TABLA_SEGURIDAD[42] <= TABLA_SEGURIDAD[43]);
    assert(TABLA_SEGURIDAD[43] <= TABLA_SEGURIDAD[44]);
    assert(TABLA_SEGURIDAD[44] <= TABLA_SEGURIDAD[45]);
    assert(TABLA_SEGURIDAD[45] <= TABLA_SEGURIDAD[46]);
    assert(TABLA_SEGURIDAD[46] <= TABLA_SEGURIDAD[47]);
    assert(TABLA_SEGURIDAD[47] <= TABLA_SEGURIDAD[48]);
    assert(TABLA_SEGURIDAD[48] <= TABLA_SEGURIDAD[49]);
    assert(TABLA_SEGURIDAD[49] <= TABLA_SEGURIDAD[50]);
    assert(TABLA_SEGURIDAD[50] <= TABLA_SEGURIDAD[51]);
    assert(TABLA_SEGURIDAD[51] <= TABLA_SEGURIDAD[52]);
    assert(TABLA_SEGURIDAD[52] <= TABLA_SEGURIDAD[53]);
    assert(TABLA_SEGURIDAD[53] <= TABLA_SEGURIDAD[54]);
    assert(TABLA_SEGURIDAD[54] <= TABLA_SEGURIDAD[55]);
    assert(TABLA_SEGURIDAD[55] <= TABLA_SEGURIDAD[56]);
    assert(TABLA_SEGURIDAD[56] <= TABLA_SEGURIDAD[57]);
    assert(TABLA_SEGURIDAD[57] <= TABLA_SEGURIDAD[58]);
    assert(TABLA_SEGURIDAD[58] <= TABLA_SEGURIDAD[59]);
    assert(TABLA_SEGURIDAD[59] <= TABLA_SEGURIDAD[60]);
    assert(TABLA_SEGURIDAD[60] <= TABLA_SEGURIDAD[61]);
    if i < j {
        lemma_tabla_seguridad_crece(i, j - 1);
        assert(TABLA_SEGURIDAD[j - 1] <= TABLA_SEGURIDAD[j]);
    }
}

/// King safety reads the table at the attack units themselves, capped at
/// 61, when the attacker has a queen, and at half of them without one; so
/// holding a queen never lowers it. The side terms of the evaluation carry
/// that value.
pub proof fn lemma_safety_queen(u: int)
    requires
        u > 0,
    ensures
        safety_value(u, true) == TABLA_SEGURIDAD[if u > 61 { 61 } else { u }] as int,
        safety_value(u, false) == TABLA_SEGURIDAD[if u / 2 > 61 { 61 } else { u / 2 }] as int,
        safety_value(u, true) >= safety_value(u, false),
{
    let a = if u > 61 { 61 } else { u };
    let h = if u / 2 > 61 { 61 } else { u / 2 };
    lemma_tabla_seguridad_crece(h, a);
}

/// In the evaluation terms, the king safety of a side that holds a queen is
/// the table value at its attack units (capped at 61).
pub proof fn lemma_seguridad_con_dama(t: EvalTerms, b: Board, pers: Personalidad, c: int)
    requires
        0 <= c < 2,
        side_terms(t, b, pers, c),
        b.pieces[c][4] != 0,
    ensures
        ({
            let other = 1 - c;
            let u = attack_units(b, c, zone_bb(king_sq(b, crate::types::color_of_idx(other)), crate::types::color_of_idx(other)));
            u > 0 ==> t.seguridad[c] == TABLA_SEGURIDAD[if u > 61 { 61 } else { u }] as int
        }),
{
}

} // verus!
