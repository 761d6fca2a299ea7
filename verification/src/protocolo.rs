//! The engine's side of the UCI protocol: what a line of input asks for, and
//! the board a `position` command leaves.
use vstd::prelude::*;
use vstd::string::StringSliceAdditionalSpecFns;
use vstd::utf8::encode_utf8;
use crate::board::{Board, board_after, wf};
use crate::movegen::{is_legal, playable, lemma_pseudo_move_ok, lemma_legal_keeps_playable};
use crate::search::{after_line, legal_line, posicion_jugable, room};
use crate::types::Move;
use crate::uci::{parse_uci_move, uci_cuttable, uci_request};
use crate::fen::{
    all_digits, bounds_view, chars_of, digits_value, field, field_chars, is_digit, digit_val,
    lemma_digits_value_grows, lemma_tok_list_bounds, push_char, tok_list, tokenize,
};

verus! {

/// Where a `position` command sets the board before its moves.
pub enum Base {
    /// The initial position (`startpos`).
    Inicial,
    /// The position of this FEN text (`fen ...`).
    Fen(String),
    /// The board as it stands.
    Actual,
}

/// How long a `go` command lets the search run.
#[derive(PartialEq, Eq, Structural, Debug, Clone, Copy)]
pub enum Limite {
    /// A fixed time in milliseconds (`movetime`, and the default).
    Tiempo(u64),
    /// A fixed depth (`depth`).
    Profundidad(i32),
    /// The time left on White's and on Black's clock (`wtime`, `btime`).
    Reloj(i64, i64),
}

/// What a line of UCI input asks of the engine.
pub enum Orden {
    /// `uci`: name the engine and its options.
    Identificacion,
    /// `isready`.
    Listo,
    /// `ucinewgame`: back to the initial position, with an empty table.
    NuevaPartida,
    /// `setoption`: the fields after `name` and after `value`.
    Opcion(Option<String>, Option<String>),
    /// `position`: where to start, and the moves to play from there.
    Posicion(Base, Vec<String>),
    /// `go`: search, within this limit.
    Buscar(Limite),
    /// `quit`.
    Salir,
    /// An empty line, or one the engine does not act on.
    Ninguna,
}

/// The number of whitespace-separated fields of `s`.
pub open spec fn n_fields(s: Seq<char>) -> int {
    tok_list(s, 0).len() as int
}

/// The index of the first field of `s`, from the `k`-th on, that reads `w`;
/// the number of fields where there is none.
pub open spec fn first_field(s: Seq<char>, w: Seq<char>, k: int) -> int
    decreases n_fields(s) - k,
{
    if k < 0 || k >= n_fields(s) {
        n_fields(s)
    } else if field(s, k) == w {
        k
    } else {
        first_field(s, w, k + 1)
    }
}

/// The field after the `k`-th, if there is one.
pub open spec fn field_after(s: Seq<char>, k: int) -> Option<Seq<char>> {
    if 0 <= k && k + 1 < n_fields(s) {
        Some(field(s, k + 1))
    } else {
        None
    }
}

/// The field after the first that reads `w`.
pub open spec fn value_of(s: Seq<char>, w: Seq<char>) -> Option<Seq<char>> {
    field_after(s, first_field(s, w, 0))
}

/// Unsigned parsing of the standard library: an optional '+' and at least
/// one decimal digit, with a value that fits in a `u64`.
pub open spec fn parse_u64_spec(t: Seq<char>) -> Option<u64> {
    let d = if t.len() > 1 && t[0] == '+' {
        t.subrange(1, t.len() as int)
    } else {
        t
    };
    if d.len() > 0 && all_digits(d) && digits_value(d) <= u64::MAX {
        Some(digits_value(d) as u64)
    } else {
        None
    }
}

/// Signed parsing of the standard library for a type that runs from
/// `-max - 1` to `max`: an optional sign and at least one decimal digit.
pub open spec fn parse_signed_spec(t: Seq<char>, max: int) -> Option<int> {
    if t.len() > 1 && t[0] == '-' {
        let d = t.subrange(1, t.len() as int);
        if all_digits(d) && digits_value(d) <= max + 1 {
            Some(-digits_value(d))
        } else {
            None
        }
    } else {
        let d = if t.len() > 1 && t[0] == '+' {
            t.subrange(1, t.len() as int)
        } else {
            t
        };
        if d.len() > 0 && all_digits(d) && digits_value(d) <= max {
            Some(digits_value(d) as int)
        } else {
            None
        }
    }
}

/// The number a field gives, or `default` where the field is missing or does
/// not parse.
pub open spec fn u64_or(t: Option<Seq<char>>, default: u64) -> u64 {
    match t {
        Some(x) => match parse_u64_spec(x) {
            Some(v) => v,
            None => default,
        },
        None => default,
    }
}

pub open spec fn signed_or(t: Option<Seq<char>>, max: int, default: int) -> int {
    match t {
        Some(x) => match parse_signed_spec(x, max) {
            Some(v) => v,
            None => default,
        },
        None => default,
    }
}

/// The limit of a `go` command: `movetime` first, then `depth`, then the
/// clocks; two seconds where none is given.
pub open spec fn limite_de(s: Seq<char>) -> Limite {
    let n = n_fields(s);
    if first_field(s, "movetime"@, 0) < n {
        Limite::Tiempo(u64_or(value_of(s, "movetime"@), 2000))
    } else if first_field(s, "depth"@, 0) < n {
        Limite::Profundidad(signed_or(value_of(s, "depth"@), i32::MAX as int, 6) as i32)
    } else if first_field(s, "wtime"@, 0) < n {
        Limite::Reloj(
            signed_or(value_of(s, "wtime"@), i64::MAX as int, 10000) as i64,
            signed_or(value_of(s, "btime"@), i64::MAX as int, 10000) as i64,
        )
    } else {
        Limite::Tiempo(2000)
    }
}

/// The fields from `lo` up to `hi`, joined by single spaces.
pub open spec fn joined(s: Seq<char>, lo: int, hi: int) -> Seq<char>
    decreases hi - lo,
{
    if hi <= lo {
        Seq::empty()
    } else if hi == lo + 1 {
        field(s, lo)
    } else {
        joined(s, lo, hi - 1) + seq![' '] + field(s, hi - 1)
    }
}

/// Where the word `moves` of a `position` command stands, if it is there.
pub open spec fn moves_start(s: Seq<char>) -> int {
    let n = n_fields(s);
    if n > 1 && field(s, 1) == "startpos"@ {
        2
    } else if n > 1 && field(s, 1) == "fen"@ {
        first_field(s, "moves"@, 0)
    } else {
        1
    }
}

/// The moves a `position` command lists: the fields after `moves`.
pub open spec fn moves_fields(s: Seq<char>) -> Seq<Seq<char>> {
    let i = moves_start(s);
    let n = n_fields(s);
    if i < n && field(s, i) == "moves"@ {
        Seq::new((n - i - 1) as nat, |j: int| field(s, i + 1 + j))
    } else {
        Seq::empty()
    }
}

/// The start of a `position` command.
pub open spec fn base_ok(s: Seq<char>, base: Base) -> bool {
    let n = n_fields(s);
    if n > 1 && field(s, 1) == "startpos"@ {
        base is Inicial
    } else if n > 1 && field(s, 1) == "fen"@ {
        base matches Base::Fen(f) && f@ == joined(s, 2, first_field(s, "moves"@, 0))
    } else {
        base is Actual
    }
}

pub open spec fn opt_view(o: Option<String>) -> Option<Seq<char>> {
    match o {
        Some(x) => Some(x@),
        None => None,
    }
}

pub open spec fn strings_view(v: Seq<String>) -> Seq<Seq<char>> {
    v.map_values(|x: String| x@)
}

/// What the line `s` asks for, by its first field.
pub open spec fn orden_ok(s: Seq<char>, r: Orden) -> bool {
    let n = n_fields(s);
    if n == 0 {
        r is Ninguna
    } else {
        let c = field(s, 0);
        if c == "uci"@ {
            r is Identificacion
        } else if c == "isready"@ {
            r is Listo
        } else if c == "ucinewgame"@ {
            r is NuevaPartida
        } else if c == "setoption"@ {
            r matches Orden::Opcion(nombre, valor) && opt_view(nombre) == value_of(s, "name"@)
                && opt_view(valor) == value_of(s, "value"@)
        } else if c == "position"@ {
            r matches Orden::Posicion(base, jugadas) && base_ok(s, base) && strings_view(jugadas@)
                == moves_fields(s)
        } else if c == "go"@ {
            r matches Orden::Buscar(l) && l == limite_de(s)
        } else if c == "quit"@ {
            r is Salir
        } else {
            r is Ninguna
        }
    }
}

/// The characters of `t` equal those of `w`.
fn es_palabra(t: &Vec<char>, w: &str) -> (r: bool)
    ensures
        r == (t@ == w@),
{
    let wc = chars_of(w);
    if t.len() != wc.len() {
        return false;
    }
    let mut i: usize = 0;
    while i < t.len()
        invariant
            t@.len() == wc@.len(),
            wc@ == w@,
            0 <= i <= t@.len(),
            forall|k: int| 0 <= k < i ==> t@[k] == wc@[k],
        decreases t@.len() - i,
    {
        if t[i] != wc[i] {
            return false;
        }
        i = i + 1;
    }
    assert(t@ =~= wc@);
    true
}

/// A string holding the characters of `v`.
fn texto(v: &Vec<char>) -> (s: String)
    ensures
        s@ == v@,
{
    let mut s = String::new();
    let mut i: usize = 0;
    while i < v.len()
        invariant
            0 <= i <= v@.len(),
            s@ == v@.subrange(0, i as int),
        decreases v@.len() - i,
    {
        push_char(&mut s, v[i]);
        i = i + 1;
        assert(s@ =~= v@.subrange(0, i as int));
    }
    assert(v@.subrange(0, v@.len() as int) =~= v@);
    s
}

/// The index of the first field from the `k`-th on that reads `w`.
fn primer_campo(chars: &Vec<char>, toks: &Vec<(usize, usize)>, w: &str, k: usize) -> (r: usize)
    requires
        bounds_view(toks@) == tok_list(chars@, 0),
    ensures
        r == first_field(chars@, w@, k as int),
{
    let n = toks.len();
    let mut i = k;
    if i >= n {
        return n;
    }
    while i < n
        invariant
            n == toks@.len(),
            n == n_fields(chars@),
            bounds_view(toks@) == tok_list(chars@, 0),
            k <= i <= n,
            first_field(chars@, w@, k as int) == first_field(chars@, w@, i as int),
        decreases n - i,
    {
        let c = field_chars(chars, toks, i);
        if es_palabra(&c, w) {
            return i;
        }
        i = i + 1;
    }
    n
}

/// The field after the `k`-th, if there is one.
fn campo_tras(chars: &Vec<char>, toks: &Vec<(usize, usize)>, k: usize) -> (r: Option<Vec<char>>)
    requires
        bounds_view(toks@) == tok_list(chars@, 0),
    ensures
        match r {
            Some(v) => field_after(chars@, k as int) == Some(v@),
            None => field_after(chars@, k as int) is None,
        },
{
    if k < toks.len() && k + 1 < toks.len() {
        let v = field_chars(chars, toks, k + 1);
        Some(v)
    } else {
        None
    }
}

/// The value of a run of decimal digits `t[lo..]`, where it is at most `bound`.
fn digitos_hasta(t: &Vec<char>, lo: usize, bound: u64) -> (r: Option<u64>)
    requires
        lo <= t@.len(),
        bound >= 9,
    ensures
        ({
            let d = t@.subrange(lo as int, t@.len() as int);
            r == if all_digits(d) && digits_value(d) <= bound {
                Some(digits_value(d) as u64)
            } else {
                None::<u64>
            }
        }),
{
    let ghost d = t@.subrange(lo as int, t@.len() as int);
    let n = t.len();
    let mut v: u64 = 0;
    let mut i: usize = lo;
    while i < n
        invariant
            n == t@.len(),
            lo <= i <= n,
            d == t@.subrange(lo as int, n as int),
            all_digits(d.subrange(0, i - lo)),
            v == digits_value(d.subrange(0, i - lo)),
            v <= bound,
            bound >= 9,
        decreases n - i,
    {
        let ch = t[i];
        if !('0' <= ch && ch <= '9') {
            proof {
                assert(!is_digit(d[i - lo]));
            }
            return None;
        }
        let dig: u64 = (ch as u32 - '0' as u32) as u64;
        proof {
            assert(d.subrange(0, i + 1 - lo).drop_last() =~= d.subrange(0, i - lo));
            assert(d.subrange(0, i + 1 - lo).last() == ch);
            assert(dig == digit_val(ch));
        }
        if v > (bound - dig) / 10 {
            proof {
                assert(v * 10 + dig > bound) by (nonlinear_arith)
                    requires
                        v > (bound - dig) / 10,
                        dig <= 9,
                        dig <= bound,
                ;
                if all_digits(d) {
                    lemma_digits_value_grows(d, i + 1 - lo);
                }
            }
            return None;
        }
        proof {
            assert(v * 10 + dig <= bound) by (nonlinear_arith)
                requires
                    v <= (bound - dig) / 10,
                    dig <= bound,
            ;
        }
        v = v * 10 + dig;
        i = i + 1;
    }
    proof {
        assert(d.subrange(0, n - lo) =~= d);
    }
    Some(v)
}

/// Unsigned parsing as the standard library does it.
fn leer_u64(t: &Vec<char>) -> (r: Option<u64>)
    ensures
        r == parse_u64_spec(t@),
{
    if t.len() > 1 && t[0] == '+' {
        digitos_hasta(t, 1, u64::MAX)
    } else if t.len() == 0 {
        None
    } else {
        let r = digitos_hasta(t, 0, u64::MAX);
        proof {
            assert(t@.subrange(0, t@.len() as int) =~= t@);
        }
        r
    }
}

/// Signed parsing as the standard library does it, for a type whose largest
/// value is `max`.
fn leer_con_signo(t: &Vec<char>, max: u64) -> (r: Option<i64>)
    requires
        9 <= max <= i64::MAX,
    ensures
        match r {
            Some(v) => parse_signed_spec(t@, max as int) == Some(v as int),
            None => parse_signed_spec(t@, max as int) is None,
        },
{
    if t.len() > 1 && t[0] == '-' {
        match digitos_hasta(t, 1, max + 1) {
            Some(v) => {
                if v == max + 1 {
                    Some(-(max as i64) - 1)
                } else {
                    Some(-(v as i64))
                }
            },
            None => None,
        }
    } else if t.len() > 1 && t[0] == '+' {
        match digitos_hasta(t, 1, max) {
            Some(v) => Some(v as i64),
            None => None,
        }
    } else if t.len() == 0 {
        None
    } else {
        let r = digitos_hasta(t, 0, max);
        proof {
            assert(t@.subrange(0, t@.len() as int) =~= t@);
        }
        match r {
            Some(v) => Some(v as i64),
            None => None,
        }
    }
}

fn u64_o(t: Option<Vec<char>>, default: u64) -> (r: u64)
    ensures
        r == u64_or(
            match t {
                Some(v) => Some(v@),
                None => None,
            },
            default,
        ),
{
    match t {
        Some(v) => match leer_u64(&v) {
            Some(x) => x,
            None => default,
        },
        None => default,
    }
}

fn con_signo_o(t: Option<Vec<char>>, max: u64, default: i64) -> (r: i64)
    requires
        9 <= max <= i64::MAX,
    ensures
        r as int == signed_or(
            match t {
                Some(v) => Some(v@),
                None => None,
            },
            max as int,
            default as int,
        ),
{
    match t {
        Some(v) => match leer_con_signo(&v, max) {
            Some(x) => x,
            None => default,
        },
        None => default,
    }
}

/// The fields from `lo` up to `hi`, joined by single spaces.
fn unir_campos(chars: &Vec<char>, toks: &Vec<(usize, usize)>, lo: usize, hi: usize) -> (r: String)
    requires
        bounds_view(toks@) == tok_list(chars@, 0),
        lo <= hi <= toks@.len(),
    ensures
        r@ == joined(chars@, lo as int, hi as int),
{
    let mut r = String::new();
    let mut k = lo;
    while k < hi
        invariant
            bounds_view(toks@) == tok_list(chars@, 0),
            lo <= k <= hi <= toks@.len(),
            r@ == joined(chars@, lo as int, k as int),
        decreases hi - k,
    {
        let ghost antes = r@;
        if k > lo {
            push_char(&mut r, ' ');
        }
        let c = field_chars(chars, toks, k);
        let mut i: usize = 0;
        let ghost base = r@;
        while i < c.len()
            invariant
                0 <= i <= c@.len(),
                r@ == base + c@.subrange(0, i as int),
            decreases c@.len() - i,
        {
            push_char(&mut r, c[i]);
            i = i + 1;
            assert(r@ =~= base + c@.subrange(0, i as int));
        }
        proof {
            assert(c@.subrange(0, c@.len() as int) =~= c@);
            if k > lo {
                assert(r@ =~= antes + seq![' '] + field(chars@, k as int));
            } else {
                assert(antes =~= Seq::<char>::empty());
                assert(r@ =~= field(chars@, k as int));
            }
        }
        k = k + 1;
    }
    r
}

/// The fields from the `lo`-th on, as strings.
fn campos_desde(chars: &Vec<char>, toks: &Vec<(usize, usize)>, lo: usize) -> (r: Vec<String>)
    requires
        bounds_view(toks@) == tok_list(chars@, 0),
        lo <= toks@.len(),
    ensures
        strings_view(r@) == Seq::new((toks@.len() - lo) as nat, |j: int| field(chars@, lo + j)),
{
    let n = toks.len();
    let mut r: Vec<String> = Vec::new();
    let mut k = lo;
    while k < n
        invariant
            n == toks@.len(),
            bounds_view(toks@) == tok_list(chars@, 0),
            lo <= k <= n,
            strings_view(r@) == Seq::new((k - lo) as nat, |j: int| field(chars@, lo + j)),
        decreases n - k,
    {
        let c = field_chars(chars, toks, k);
        let t = texto(&c);
        let ghost antes = r@;
        r.push(t);
        proof {
            let sa = Seq::new((k - lo) as nat, |j: int| field(chars@, lo + j));
            assert(strings_view(antes) == sa);
            assert(strings_view(antes).len() == antes.len());
            assert(sa.len() == k - lo);
            assert(antes.len() == k - lo);
            assert forall|j: int| 0 <= j < r@.len() implies #[trigger] strings_view(r@)[j] == field(chars@, lo + j) by {
                assert(strings_view(r@)[j] == r@[j]@);
                if j < antes.len() {
                    assert(r@[j] == antes[j]);
                    assert(strings_view(antes)[j] == antes[j]@);
                    assert(sa[j] == field(chars@, lo + j));
                } else {
                    assert(r@[j] == t);
                }
            }
        }
        k = k + 1;
        assert(strings_view(r@) =~= Seq::new((k - lo) as nat, |j: int| field(chars@, lo + j)));
    }
    r
}

/// Reads a line of UCI input. Fields are separated by white space; the first
/// names the command, and words the engine does not know are passed over.
pub fn leer_orden(linea: &str) -> (r: Orden)
    ensures
        orden_ok(linea@, r),
{
    let chars = chars_of(linea);
    let toks = tokenize(&chars);
    let n = toks.len();
    let ghost s = linea@;
    if n == 0 {
        return Orden::Ninguna;
    }
    let c = field_chars(&chars, &toks, 0);
    if es_palabra(&c, "uci") {
        Orden::Identificacion
    } else if es_palabra(&c, "isready") {
        Orden::Listo
    } else if es_palabra(&c, "ucinewgame") {
        Orden::NuevaPartida
    } else if es_palabra(&c, "setoption") {
        let kn = primer_campo(&chars, &toks, "name", 0);
        let kv = primer_campo(&chars, &toks, "value", 0);
        let nombre = match campo_tras(&chars, &toks, kn) {
            Some(v) => Some(texto(&v)),
            None => None,
        };
        let valor = match campo_tras(&chars, &toks, kv) {
            Some(v) => Some(texto(&v)),
            None => None,
        };
        Orden::Opcion(nombre, valor)
    } else if es_palabra(&c, "position") {
        let mut idx: usize = 1;
        let mut base = Base::Actual;
        if n > 1 {
            let c1 = field_chars(&chars, &toks, 1);
            if es_palabra(&c1, "startpos") {
                base = Base::Inicial;
                idx = 2;
            } else if es_palabra(&c1, "fen") {
                let mp = primer_campo(&chars, &toks, "moves", 0);
                proof {
                    reveal_strlit("position");
                    reveal_strlit("fen");
                    reveal_strlit("moves");
                    assert(field(s, 0).len() != "moves"@.len());
                    assert(field(s, 1).len() != "moves"@.len());
                    assert(first_field(s, "moves"@, 0) == first_field(s, "moves"@, 1));
                    assert(first_field(s, "moves"@, 1) == first_field(s, "moves"@, 2));
                    lemma_first_field_from(s, "moves"@, 2);
                }
                base = Base::Fen(unir_campos(&chars, &toks, 2, mp));
                idx = mp;
            }
        }
        let mut jugadas: Vec<String> = Vec::new();
        if idx < n {
            let ci = field_chars(&chars, &toks, idx);
            if es_palabra(&ci, "moves") {
                jugadas = campos_desde(&chars, &toks, idx + 1);
            }
        }
        proof {
            assert(idx == moves_start(s));
            assert(strings_view(jugadas@) =~= moves_fields(s));
        }
        Orden::Posicion(base, jugadas)
    } else if es_palabra(&c, "go") {
        let mt = primer_campo(&chars, &toks, "movetime", 0);
        if mt < n {
            let t = u64_o(campo_tras(&chars, &toks, mt), 2000);
            return Orden::Buscar(Limite::Tiempo(t));
        }
        let dp = primer_campo(&chars, &toks, "depth", 0);
        if dp < n {
            let d = con_signo_o(campo_tras(&chars, &toks, dp), 0x7fff_ffff, 6);
            return Orden::Buscar(Limite::Profundidad(d as i32));
        }
        let wt = primer_campo(&chars, &toks, "wtime", 0);
        if wt < n {
            let bt = primer_campo(&chars, &toks, "btime", 0);
            let w = con_signo_o(campo_tras(&chars, &toks, wt), 0x7fff_ffff_ffff_ffff, 10000);
            let b = con_signo_o(campo_tras(&chars, &toks, bt), 0x7fff_ffff_ffff_ffff, 10000);
            return Orden::Buscar(Limite::Reloj(w, b));
        }
        Orden::Buscar(Limite::Tiempo(2000))
    } else if es_palabra(&c, "quit") {
        Orden::Salir
    } else {
        Orden::Ninguna
    }
}

/// The first field that reads `w`, searched for from the `k`-th on, is at
/// least `k`.
proof fn lemma_first_field_from(s: Seq<char>, w: Seq<char>, k: int)
    requires
        0 <= k,
    ensures
        k <= first_field(s, w, k) <= n_fields(s) || (k > n_fields(s) && first_field(s, w, k) == n_fields(s)),
    decreases n_fields(s) - k,
{
    if k < n_fields(s) && field(s, k) != w {
        lemma_first_field_from(s, w, k + 1);
    }
}

/// A position where moves are still read: playable, with room on its counters.
pub open spec fn sigue(b: Board) -> bool {
    playable(b) && room(b, 0)
}

/// Some legal move of `b` goes from `f` to `t` with promotion `p`.
pub open spec fn named(b: Board, f: u8, t: u8, p: Option<crate::types::PieceType>) -> bool {
    exists|m: Move| is_legal(b, m) && m.from == f && m.to == t && m.promotion == p
}

/// `played` is what reading the move texts `toks` from `b` plays: a text that
/// names a legal move plays it, one that names none is passed over, and
/// reading stops at a position that is no longer playable.
pub open spec fn juega(b: Board, toks: Seq<Seq<char>>, played: Seq<Move>) -> bool
    decreases toks.len(),
{
    if toks.len() == 0 || !sigue(b) {
        played.len() == 0
    } else {
        match uci_request(encode_utf8(toks[0])) {
            Some((f, t, p)) => if named(b, f, t, p) {
                &&& played.len() > 0
                &&& is_legal(b, played[0])
                &&& played[0].from == f && played[0].to == t && played[0].promotion == p
                &&& juega(board_after(b, played[0]), toks.drop_first(), played.drop_first())
            } else {
                juega(b, toks.drop_first(), played)
            },
            None => juega(b, toks.drop_first(), played),
        }
    }
}

/// The board after the moves of a `position` command, the moves played, and
/// the key of each position a move was played from.
pub struct Recorrido {
    pub tablero: Board,
    pub jugadas: Vec<Move>,
    pub claves: Vec<u64>,
}

/// `r` records playing `played` from `b`.
pub open spec fn recorre(b: Board, r: Recorrido) -> bool {
    &&& legal_line(b, r.jugadas@)
    &&& r.tablero == after_line(b, r.jugadas@)
    &&& r.claves@.len() == r.jugadas@.len()
    &&& forall|k: int| 0 <= k < r.claves@.len() ==> #[trigger] r.claves@[k] == after_line(b, r.jugadas@.take(k)).zobrist
}

/// The move texts can be cut where reading them cuts them.
pub open spec fn cortables(toks: Seq<Seq<char>>) -> bool {
    forall|k: int| 0 <= k < toks.len() ==> uci_cuttable(encode_utf8(#[trigger] toks[k]))
}

fn jugar_desde(b: &Board, jugadas: &Vec<String>, i: usize) -> (r: Recorrido)
    requires
        wf(*b),
        i <= jugadas@.len(),
        cortables(strings_view(jugadas@)),
    ensures
        juega(*b, strings_view(jugadas@).skip(i as int), r.jugadas@),
        recorre(*b, r),
    decreases jugadas@.len() - i,
{
    let ghost toks = strings_view(jugadas@).skip(i as int);
    let vacio = Recorrido { tablero: *b, jugadas: Vec::new(), claves: Vec::new() };
    if i == jugadas.len() || !posicion_jugable(b) {
        proof {
            assert(after_line(*b, vacio.jugadas@) == *b);
            assert(legal_line(*b, vacio.jugadas@));
        }
        return vacio;
    }
    let texto_i = jugadas[i].as_str();
    proof {
        assert(strings_view(jugadas@)[i as int] == jugadas@[i as int]@);
        assert(toks[0] == jugadas@[i as int]@);
        assert(texto_i.spec_bytes() == encode_utf8(toks[0]));
        assert(toks.drop_first() =~= strings_view(jugadas@).skip(i + 1));
    }
    match parse_uci_move(b, texto_i) {
        Some(m) => {
            proof {
                lemma_pseudo_move_ok(*b, m);
            }
            let a = b.make_move(&m);
            proof {
                lemma_legal_keeps_playable(*b, m, a);
            }
            let resto = jugar_desde(&a, jugadas, i + 1);
            let Recorrido { tablero, jugadas: mut js, claves: mut cs } = resto;
            let ghost rj = js@;
            let ghost rc = cs@;
            js.insert(0, m);
            cs.insert(0, b.zobrist);
            let r = Recorrido { tablero, jugadas: js, claves: cs };
            proof {
                assert(r.jugadas@.drop_first() =~= rj);
                assert(r.jugadas@[0] == m);
                assert(named(*b, m.from, m.to, m.promotion));
                assert forall|k: int| 0 <= k < r.claves@.len() implies #[trigger] r.claves@[k] == after_line(*b, r.jugadas@.take(k)).zobrist by {
                    if k == 0 {
                        assert(r.jugadas@.take(0) =~= Seq::<Move>::empty());
                    } else {
                        assert(r.claves@[k] == rc[k - 1]);
                        assert(r.jugadas@.take(k).drop_first() =~= rj.take(k - 1));
                        assert(r.jugadas@.take(k)[0] == m);
                    }
                }
            }
            r
        },
        None => {
            let r = jugar_desde(b, jugadas, i + 1);
            r
        },
    }
}

/// Plays the move texts of a `position` command from `b`: each that names a
/// legal move is played, the others are passed over, and reading stops at a
/// position that is no longer playable.
pub fn jugar_jugadas(b: &Board, jugadas: &Vec<String>) -> (r: Recorrido)
    requires
        wf(*b),
        cortables(strings_view(jugadas@)),
    ensures
        juega(*b, strings_view(jugadas@), r.jugadas@),
        recorre(*b, r),
{
    let r = jugar_desde(b, jugadas, 0);
    proof {
        assert(strings_view(jugadas@).skip(0) =~= strings_view(jugadas@));
    }
    r
}

} // verus!
