//! Alpha-beta search: negamax with a transposition table, quiescence,
//! null-move pruning, late move reductions, killer and history move
//! ordering, iterative deepening with aspiration windows.
//!
//! The static evaluation is handed in by the caller as a function of the
//! board; the search only relies on it staying within `EVAL_LIMIT`.
use vstd::prelude::*;
use std::sync::Arc;
use std::sync::atomic::AtomicBool;
use std::time::Instant;
use crate::board::{Board, consistent, wf, has_king, attacked_by, attacker_on, king_sq, piece_on, is_after};
use crate::movegen::{generate_legal, generate_pseudo_legal, gen_ok, playable, is_legal, pseudo_legal};
use crate::types::{Color, Move, MoveFlag, PieceType};

verus! {

/// A score larger than any position value: the initial bound of a window.
pub const INFINITO: i32 = 30_000;

/// The score of giving mate at the root; mate in `n` plies scores `MATE - n`.
pub const MATE: i32 = 29_000;

/// Depth of the search tree in plies beyond which nothing is searched.
pub const MAX_PLY: u32 = 64;

/// The largest magnitude a static evaluation may have.
pub const EVAL_LIMIT: i32 = 100_000_000;

/// Static evaluation above which a draw counts against the side to move.
pub const CONTEMPT_UMBRAL: i32 = 500;

/// What a draw costs (or gives) a side that is clearly ahead (behind).
pub const CONTEMPT_PENALIZACION: i32 = 200;

/// The largest depth a search may be asked for.
pub const MAX_DEPTH: i32 = 1_000_000;

/// Killer slots are kept for this many plies.
pub const MAX_KILLER_PLY: usize = 100;

/// Piece types times squares, twice: the size of the continuation history.
pub const CONT_HIST_SIZE: usize = 147456;

/// Score of a draw for the side to move, given the static evaluation `se`:
/// a draw is avoided when clearly ahead and sought when clearly behind.
pub open spec fn contempt(se: int) -> int {
    if se > CONTEMPT_UMBRAL {
        -CONTEMPT_PENALIZACION as int
    } else if se < -CONTEMPT_UMBRAL {
        CONTEMPT_PENALIZACION as int
    } else {
        0
    }
}

/// The evaluation can be asked about any playable board and stays within
/// `EVAL_LIMIT`.
pub open spec fn eval_ok<E: Fn(&Board) -> i32>(eval: &E) -> bool {
    &&& forall|x: Board| playable(x) ==> #[trigger] call_requires(*eval, (&x,))
    &&& forall|x: Board, r: i32| #[trigger] call_ensures(*eval, (&x,), r) ==> -EVAL_LIMIT <= r <= EVAL_LIMIT
}

/// The draw score of a position, from its static evaluation.
pub fn contempt_score(se: i32) -> (r: i32)
    ensures
        r == contempt(se as int),
{
    if se > CONTEMPT_UMBRAL {
        -CONTEMPT_PENALIZACION
    } else if se < -CONTEMPT_UMBRAL {
        CONTEMPT_PENALIZACION
    } else {
        0
    }
}

/// The draw score of `b`: its contempt for the static evaluation.
fn draw_score<E: Fn(&Board) -> i32>(eval: &E, b: &Board) -> (r: i32)
    requires
        eval_ok(eval),
        playable(*b),
    ensures
        exists|se: i32| call_ensures(*eval, (b,), se) && r == contempt(se as int),
        -CONTEMPT_PENALIZACION <= r <= CONTEMPT_PENALIZACION,
{
    let se = eval(b);
    contempt_score(se)
}

/// The side has no knight, bishop, rook or queen.
pub open spec fn only_pawns_and_king(b: Board, c: Color) -> bool {
    b.pieces[c.idx()][1] | b.pieces[c.idx()][2] | b.pieces[c.idx()][3] | b.pieces[c.idx()][4] == 0
}

fn solo_peones_y_rey(b: &Board, color: Color) -> (r: bool)
    ensures
        r == only_pawns_and_king(*b, color),
{
    let idx = color.index();
    (b.pieces[idx][1] | b.pieces[idx][2] | b.pieces[idx][3] | b.pieces[idx][4]) == 0
}

/// Material value used by delta pruning in quiescence.
pub open spec fn piece_worth(pt: PieceType) -> int {
    match pt {
        PieceType::Pawn => 100,
        PieceType::Knight => 320,
        PieceType::Bishop => 330,
        PieceType::Rook => 500,
        PieceType::Queen => 900,
        PieceType::King => 20000,
    }
}

fn valor_pieza(pt: PieceType) -> (v: i32)
    ensures
        v == piece_worth(pt),
{
    match pt {
        PieceType::Pawn => 100,
        PieceType::Knight => 320,
        PieceType::Bishop => 330,
        PieceType::Rook => 500,
        PieceType::Queen => 900,
        PieceType::King => 20000,
    }
}

/// Index of (previous piece, previous target, piece, target) in the
/// continuation history.
pub open spec fn cont_index(prev_pt: int, prev_to: int, pt: int, to: int) -> int {
    ((prev_pt * 64 + prev_to) * 6 + pt) * 64 + to
}

fn cont_idx(prev_pt: usize, prev_to: usize, pt: usize, to: usize) -> (r: usize)
    requires
        prev_pt < 6,
        prev_to < 64,
        pt < 6,
        to < 64,
    ensures
        r == cont_index(prev_pt as int, prev_to as int, pt as int, to as int),
        r < CONT_HIST_SIZE,
{
    ((prev_pt * 64 + prev_to) * 6 + pt) * 64 + to
}

/// `n` is a power of two.
pub open spec fn is_pow2(n: int) -> bool
    decreases n,
{
    if n <= 0 {
        false
    } else if n == 1 {
        true
    } else {
        n % 2 == 0 && is_pow2(n / 2)
    }
}

/// The largest power of two below `n`, which is `n.next_power_of_two() >> 1`.
fn half_next_power_of_two(n: usize) -> (r: usize)
    requires
        2 <= n <= usize::MAX / 2,
    ensures
        is_pow2(r as int),
        r < n <= 2 * r,
{
    let mut p: usize = 1;
    while p < n
        invariant
            is_pow2(p as int),
            2 <= n <= usize::MAX / 2,
            1 <= p <= 2 * n,
            p / 2 < n,
        decreases 2 * n - p,
    {
        p = p * 2;
        assert(is_pow2(p as int)) by {
            assert(p as int / 2 == (p / 2) as int);
        }
    }
    proof {
        assert(p != 1);
        assert(p % 2 == 0);
    }
    p / 2
}


/// How a stored score bounds the true value of its position.
#[derive(Clone, Copy, PartialEq, Eq, Structural, Debug)]
pub enum TTFlag {
    Exact,
    Alpha,
    Beta,
}

/// A transposition table entry: the position's key, the depth it was
/// searched to, its score and the kind of bound, and the best move found.
#[derive(Clone, Copy, PartialEq, Eq, Structural, Debug)]
pub struct TTEntry {
    pub key: u64,
    pub depth: i32,
    pub score: i32,
    pub flag: TTFlag,
    pub best: Option<Move>,
}

/// The search ran out of time or was told to stop.
pub struct TimeUp;

/// Scores that searches produce and store stay within this bound.
pub open spec fn score_ok(s: int) -> bool {
    -EVAL_LIMIT <= s <= EVAL_LIMIT
}

/// Number of entries of a table of `tt_mb` megabytes of entries of `entry_size`
/// bytes: at least 1024, then rounded down to a power of two below it.
pub open spec fn tt_entries(tt_mb: int, entry_size: int) -> int {
    let es = if entry_size < 1 { 1 } else { entry_size };
    let n = tt_mb * 1048576 / es;
    if n < 1024 { 1024 } else { n }
}

/// `core::mem::size_of` of the standard library, for the entries of the table.
fn entry_size() -> (r: usize)
    ensures
        r == vstd::layout::size_of::<Option<TTEntry>>(),
{
    core::mem::size_of::<Option<TTEntry>>()
}

/// An empty transposition table of about `tt_mb` megabytes, and the mask
/// that maps a key to its slot: the number of slots is the power of two
/// just below the number of entries that fit (at least 1024 entries).
pub fn construir_tt(tt_mb: usize) -> (r: (Vec<Option<TTEntry>>, usize))
    requires
        tt_mb * 1048576 <= usize::MAX / 2,
    ensures
        is_pow2(r.0@.len() as int),
        r.0@.len() < tt_entries(tt_mb as int, vstd::layout::size_of::<Option<TTEntry>>() as int) <= 2 * r.0@.len(),
        r.1 + 1 == r.0@.len(),
        forall|i: int| 0 <= i < r.0@.len() ==> #[trigger] r.0@[i] is None,
{
    let es0 = entry_size();
    let es = if es0 < 1 { 1 } else { es0 };
    let mut n = tt_mb * 1024 * 1024 / es;
    if n < 1024 {
        n = 1024;
    }
    let n_entries = half_next_power_of_two(n);
    let mut tt: Vec<Option<TTEntry>> = Vec::new();
    let mut i: usize = 0;
    while i < n_entries
        invariant
            i <= n_entries,
            tt@.len() == i,
            forall|j: int| 0 <= j < tt@.len() ==> #[trigger] tt@[j] is None,
        decreases n_entries - i,
    {
        tt.push(None);
        i = i + 1;
    }
    (tt, n_entries - 1)
}

/// Slot of `key` in a table with mask `mask`.
pub open spec fn tt_slot(mask: usize, key: u64) -> int {
    ((key as usize) & mask) as int
}

/// What a probe of `key` finds: the entry in its slot, if it has that key.
pub open spec fn probe_spec(tt: Seq<Option<TTEntry>>, mask: usize, key: u64) -> Option<TTEntry> {
    match tt[tt_slot(mask, key)] {
        Some(e) => if e.key == key {
            Some(e)
        } else {
            None
        },
        None => None,
    }
}

/// The table after storing an entry for `key`: it replaces what its slot
/// holds when the slot is empty or holds a search that was no deeper.
pub open spec fn store_spec(tt: Seq<Option<TTEntry>>, mask: usize, e: TTEntry) -> Seq<Option<TTEntry>> {
    let i = tt_slot(mask, e.key);
    let replace = match tt[i] {
        None => true,
        Some(old) => e.depth >= old.depth,
    };
    if replace {
        tt.update(i, Some(e))
    } else {
        tt
    }
}

/// State of a search: the transposition table, move ordering statistics,
/// the game's position history, limits and counters.
pub struct Searcher {
    tt: Vec<Option<TTEntry>>,
    tt_mask: usize,
    pub nodes: u64,
    inicio: Instant,
    deadline: Option<u64>,
    stop: bool,
    killers: Vec<[Option<Move>; 2]>,
    history: Vec<i32>,
    cont_history: Vec<i32>,
    pub modo_lmr: bool,
    pub modo_aspiration: bool,
    pub modo_singular: bool,
    game_history: Vec<u64>,
    path: Vec<u64>,
    pub lmr_intentos: u64,
    pub lmr_reintentos: u64,
    pub variante_orden_raiz: bool,
    external_stop: Option<Arc<AtomicBool>>,
}

/// The standard library's `std::time::Instant`, a moment of the monotonic
/// clock; opaque here.
#[verifier::external_type_specification]
#[verifier::external_body]
pub struct ExInstant(std::time::Instant);

/// `Instant::now` of the standard library: the current moment of the
/// monotonic clock. Nothing is stated of the value.
#[verifier::external_body]
fn now() -> Instant {
    Instant::now()
}

/// `Instant::elapsed` of the standard library, in whole milliseconds: the
/// time passed since `since`. Nothing is stated of the value.
#[verifier::external_body]
fn elapsed_ms(since: &Instant) -> u64 {
    since.elapsed().as_millis() as u64
}

impl Searcher {
    /// The well-formedness of a searcher: table and statistics have their
    /// sizes, and every stored score is within bounds.
    pub closed spec fn inv(self) -> bool {
        &&& self.tt@.len() == self.tt_mask + 1
        &&& self.killers@.len() == MAX_KILLER_PLY
        &&& self.history@.len() == 4096
        &&& self.cont_history@.len() == CONT_HIST_SIZE
        &&& forall|i: int| 0 <= i < self.tt@.len() ==> (#[trigger] self.tt@[i] matches Some(e) ==> score_ok(e.score as int))
    }

    /// The contents of the transposition table.
    pub closed spec fn table(self) -> Seq<Option<TTEntry>> {
        self.tt@
    }

    /// The mask of the transposition table.
    pub closed spec fn mask(self) -> usize {
        self.tt_mask
    }

    /// The positions of the game that precede the searched one.
    pub closed spec fn game(self) -> Seq<u64> {
        self.game_history@
    }

    /// The number of nodes visited.
    pub closed spec fn node_count(self) -> u64 {
        self.nodes
    }

    /// Late move reductions, aspiration windows, singular extensions, and
    /// the swapped root order, each on or off.
    pub closed spec fn modes(self) -> (bool, bool, bool, bool) {
        (self.modo_lmr, self.modo_aspiration, self.modo_singular, self.variante_orden_raiz)
    }

    /// Whether the search has been stopped.
    pub closed spec fn stopped(self) -> bool {
        self.stop
    }

    /// The flag by which another thread stops the search, if one is set.
    pub closed spec fn stop_flag(self) -> Option<Arc<AtomicBool>> {
        self.external_stop
    }

    /// The limits of a search besides its depth: the time budget in
    /// milliseconds, and the flag by which another thread stops it.
    pub closed spec fn limits(self) -> (Option<u64>, Option<Arc<AtomicBool>>) {
        (self.deadline, self.external_stop)
    }

    /// Neither a time budget nor a stop flag is set.
    pub open spec fn unlimited(self) -> bool {
        self.limits().0 is None && self.limits().1 is None
    }

    /// A searcher with an empty table of about `tt_mb` megabytes, empty
    /// statistics and history, late move reductions and aspiration windows
    /// on, singular extensions off.
    pub fn new(tt_mb: usize) -> (s: Searcher)
        requires
            tt_mb * 1048576 <= usize::MAX / 2,
        ensures
            s.inv(),
            forall|i: int| 0 <= i < s.table().len() ==> #[trigger] s.table()[i] is None,
            is_pow2(s.table().len() as int),
            s.game() == Seq::<u64>::empty(),
            s.node_count() == 0,
            s.modes() == (true, true, false, false),
            !s.stopped(),
    {
        let (tt, tt_mask) = construir_tt(tt_mb);
        let killers = empty_killers();
        let history = zeros(4096);
        let cont_history = zeros(CONT_HIST_SIZE);
        Searcher {
            tt,
            tt_mask,
            nodes: 0,
            inicio: now(),
            deadline: None,
            stop: false,
            killers,
            history,
            cont_history,
            modo_lmr: true,
            modo_aspiration: true,
            modo_singular: false,
            game_history: Vec::new(),
            path: Vec::new(),
            lmr_intentos: 0,
            lmr_reintentos: 0,
            variante_orden_raiz: false,
            external_stop: None,
        }
    }

    /// Sets, or removes, the flag by which another thread stops the search.
    pub fn set_external_stop(&mut self, flag: Option<Arc<AtomicBool>>)
        requires
            old(self).inv(),
        ensures
            final(self).inv(),
            final(self).stop_flag() == flag,
            final(self).table() == old(self).table(),
            final(self).mask() == old(self).mask(),
            final(self).game() == old(self).game(),
            final(self).line() == old(self).line(),
            final(self).modes() == old(self).modes(),
            final(self).stopped() == old(self).stopped(),
            final(self).node_count() == old(self).node_count(),
    {
        self.external_stop = flag;
    }

    /// Sets the keys of the positions the game went through before the one
    /// to be searched; they count for repetitions.
    pub fn set_game_history(&mut self, hist: Vec<u64>)
        requires
            old(self).inv(),
        ensures
            final(self).inv(),
            final(self).game() == hist@,
            final(self).table() == old(self).table(),
    {
        self.game_history = hist;
    }

    /// Empties the transposition table.
    pub fn clear_tt(&mut self)
        requires
            old(self).inv(),
        ensures
            final(self).inv(),
            final(self).table().len() == old(self).table().len(),
            forall|i: int| 0 <= i < final(self).table().len() ==> #[trigger] final(self).table()[i] is None,
            final(self).game() == old(self).game(),
    {
        let mut i: usize = 0;
        let n = self.tt.len();
        while i < n
            invariant
                self.inv(),
                n == self.tt@.len(),
                i <= n,
                self.game_history@ == old(self).game_history@,
                forall|j: int| 0 <= j < i ==> #[trigger] self.tt@[j] is None,
            decreases n - i,
        {
            self.tt.set(i, None);
            i = i + 1;
        }
    }

    fn tt_index(&self, key: u64) -> (r: usize)
        requires
            self.inv(),
        ensures
            r == tt_slot(self.tt_mask, key),
            r < self.tt@.len(),
    {
        let k = key as usize;
        let m = self.tt_mask;
        assert(k & m <= m) by (bit_vector);
        k & m
    }

    /// The entry stored for `key`, if its slot holds one with that key.
    pub fn tt_probe(&self, key: u64) -> (r: Option<TTEntry>)
        requires
            self.inv(),
        ensures
            r == probe_spec(self.table(), self.mask(), key),
            r matches Some(e) ==> score_ok(e.score as int),
    {
        let idx = self.tt_index(key);
        match self.tt[idx] {
            Some(e) => if e.key == key {
                Some(e)
            } else {
                None
            },
            None => None,
        }
    }

    /// Stores an entry for `key`, unless its slot holds a deeper search.
    pub fn tt_store(&mut self, key: u64, depth: i32, score: i32, flag: TTFlag, best: Option<Move>)
        requires
            old(self).inv(),
            score_ok(score as int),
        ensures
            final(self).inv(),
            final(self).table() == store_spec(
                old(self).table(),
                old(self).mask(),
                (TTEntry { key, depth, score, flag, best }),
            ),
            final(self).mask() == old(self).mask(),
            final(self).game() == old(self).game(),
            final(self).node_count() == old(self).node_count(),
            final(self).stopped() == old(self).stopped(),
            final(self).modes() == old(self).modes(),
            final(self).line() == old(self).line(),
            final(self).limits() == old(self).limits(),
    {
        let idx = self.tt_index(key);
        let reemplazar = match self.tt[idx] {
            None => true,
            Some(existing) => depth >= existing.depth,
        };
        if reemplazar {
            self.tt.set(idx, Some(TTEntry { key, depth, score, flag, best }));
        }
    }
}

/// A probe of the key just stored finds the stored entry, whenever the store
/// took place (the slot was empty or held a search no deeper); a probe
/// finds only entries of its own key.
pub proof fn lemma_probe_after_store(tt: Seq<Option<TTEntry>>, mask: usize, e: TTEntry, key: u64)
    requires
        0 <= tt_slot(mask, e.key) < tt.len(),
        0 <= tt_slot(mask, key) < tt.len(),
    ensures
        (match tt[tt_slot(mask, e.key)] {
            None => true,
            Some(old) => e.depth >= old.depth,
        }) ==> probe_spec(store_spec(tt, mask, e), mask, e.key) == Some(e),
        probe_spec(tt, mask, key) matches Some(f) ==> f.key == key,
        tt_slot(mask, key) != tt_slot(mask, e.key) ==> probe_spec(store_spec(tt, mask, e), mask, key)
            == probe_spec(tt, mask, key),
{
}

fn empty_killers() -> (r: Vec<[Option<Move>; 2]>)
    ensures
        r@.len() == MAX_KILLER_PLY,
        forall|i: int| 0 <= i < r@.len() ==> #[trigger] r@[i] == [None::<Move>, None],
{
    let mut k: Vec<[Option<Move>; 2]> = Vec::new();
    let mut i: usize = 0;
    while i < MAX_KILLER_PLY
        invariant
            i <= MAX_KILLER_PLY,
            k@.len() == i,
            forall|j: int| 0 <= j < k@.len() ==> #[trigger] k@[j] == [None::<Move>, None],
        decreases MAX_KILLER_PLY - i,
    {
        k.push([None, None]);
        i = i + 1;
    }
    k
}

fn zeros(n: usize) -> (r: Vec<i32>)
    ensures
        r@.len() == n,
        forall|i: int| 0 <= i < n ==> #[trigger] r@[i] == 0,
{
    let mut v: Vec<i32> = Vec::new();
    let mut i: usize = 0;
    while i < n
        invariant
            i <= n,
            v@.len() == i,
            forall|j: int| 0 <= j < i ==> #[trigger] v@[j] == 0,
        decreases n - i,
    {
        v.push(0);
        i = i + 1;
    }
    v
}

/// Score of a history counter after a cutoff at `depth`: raised by the
/// square of the depth, saturating at the largest `i32`.
pub open spec fn bumped(h: int, depth: int) -> int {
    if h + depth * depth > i32::MAX {
        i32::MAX as int
    } else {
        h + depth * depth
    }
}

fn bump(h: i32, depth: i32) -> (r: i32)
    requires
        0 <= depth <= 2_000_000,
    ensures
        r == bumped(h as int, depth as int),
{
    let d: i64 = depth as i64;
    assert(0 <= d * d <= 4_000_000_000_000) by (nonlinear_arith)
        requires
            0 <= d <= 2_000_000,
    ;
    let dd: i64 = d * d;
    let t: i64 = h as i64 + dd;
    if t > i32::MAX as i64 {
        i32::MAX
    } else {
        t as i32
    }
}

/// Everything of a searcher but its move ordering statistics and counters.
pub open spec fn same_tables(a: Searcher, b: Searcher) -> bool {
    &&& a.limits() == b.limits()
    &&& a.table() == b.table()
    &&& a.mask() == b.mask()
    &&& a.game() == b.game()
    &&& a.line() == b.line()
}

impl Searcher {
    /// The keys of the positions on the current line of the search.
    pub closed spec fn line(self) -> Seq<u64> {
        self.path@
    }

    /// Counts a node; once every 1024 nodes, looks at the clock and at the
    /// external stop flag. Fails once the search has been stopped.
    fn check_time(&mut self) -> (r: Result<(), TimeUp>)
        requires
            old(self).inv(),
        ensures
            final(self).inv(),
            same_tables(*final(self), *old(self)),
            final(self).killers@ == old(self).killers@,
            final(self).history@ == old(self).history@,
            final(self).cont_history@ == old(self).cont_history@,
            final(self).modes() == old(self).modes(),
            old(self).stop ==> final(self).stop,
            r is Err <==> final(self).stop,
            final(self).stop ==> old(self).stop || !old(self).unlimited(),
    {
        self.nodes = self.nodes.wrapping_add(1);
        if !self.stop && self.nodes & 1023 == 0 {
            match self.deadline {
                Some(budget) => {
                    if elapsed_ms(&self.inicio) >= budget {
                        self.stop = true;
                    }
                },
                None => {},
            }
            if !self.stop {
                match &self.external_stop {
                    Some(flag) => {
                        if flag.load(std::sync::atomic::Ordering::Relaxed) {
                            self.stop = true;
                        }
                    },
                    None => {},
                }
            }
        }
        if self.stop {
            Err(TimeUp)
        } else {
            Ok(())
        }
    }

    /// Remembers a quiet move that caused a cutoff: as a killer of its ply,
    /// in the history of its squares, and in the continuation history of
    /// the move that led to the position.
    fn registrar_corte(&mut self, mv: Move, ply: u32, depth: i32, prev: Option<(usize, usize)>, pt_mv: usize)
        requires
            old(self).inv(),
            mv.from < 64,
            mv.to < 64,
            pt_mv < 6,
            0 <= depth <= 2_000_000,
            prev matches Some((a, t)) ==> a < 6 && t < 64,
        ensures
            final(self).inv(),
            same_tables(*final(self), *old(self)),
            final(self).stop == old(self).stop,
            final(self).modes() == old(self).modes(),
            final(self).nodes == old(self).nodes,
            final(self).killers@ == if mv.captures() {
                old(self).killers@
            } else {
                killers_after(old(self).killers@, mv, ply as int)
            },
            final(self).history@ == if mv.captures() {
                old(self).history@
            } else {
                bumped_at(old(self).history@, mv.from * 64 + mv.to, depth as int)
            },
            final(self).cont_history@ == match prev {
                Some((a, t)) if !mv.captures() => bumped_at(
                    old(self).cont_history@,
                    cont_index(a as int, t as int, pt_mv as int, mv.to as int),
                    depth as int,
                ),
                _ => old(self).cont_history@,
            },
    {
        if mv.is_capture() {
            return;
        }
        let p = ply as usize;
        if p < MAX_KILLER_PLY {
            let k = self.killers[p];
            if !same_move(k[0], Some(mv)) {
                self.killers.set(p, [Some(mv), k[0]]);
            }
        }
        let i = (mv.from as usize) * 64 + (mv.to as usize);
        let h = self.history[i];
        self.history.set(i, bump(h, depth));
        match prev {
            Some((prev_pt, prev_to)) => {
                let j = cont_idx(prev_pt, prev_to, pt_mv, mv.to as usize);
                let c = self.cont_history[j];
                self.cont_history.set(j, bump(c, depth));
            },
            None => {},
        }
    }
}

/// A move that quiescence searches: a capture, or a promotion to a queen.
pub open spec fn tactical(m: Move) -> bool {
    m.captures() || m.promotion == Some(PieceType::Queen)
}

/// The side to move has no capture and no promotion to a queen.
pub open spec fn no_tactical(b: Board) -> bool {
    forall|m: Move| pseudo_legal(b, m) ==> !tactical(m)
}

/// Quiescence passes over the capture or promotion `mv`: it loses material
/// by exchange and promotes nothing, or winning its victim with a margin
/// cannot bring the score up to `alpha`, or it is not legal.
pub open spec fn q_skips(b: Board, mv: Move, stand_pat: int, alpha: int) -> bool {
    ||| (mv.promotion is None && crate::see::see_spec(b, mv) < -50)
    ||| stand_pat + crate::see::victim_value(b, mv) + (if mv.promotion is Some { 800int } else { 0int }) + 250 <= alpha
    ||| !is_legal(b, mv)
}

/// `ms` lists the captures and queen promotions of `b`, and nothing else.
pub open spec fn tactical_list(b: Board, ms: Seq<Move>) -> bool {
    forall|m: Move| #[trigger] ms.contains(m) <==> pseudo_legal(b, m) && tactical(m)
}

/// The quiescence value of `b` at `ply` in the window `alpha`..`beta`: the
/// static evaluation `e` at the ply limit; `beta` when `e` reaches it;
/// otherwise what searching the captures and queen promotions, in some
/// order, makes of it (see `qloop`), starting from `e` with the window's
/// lower end raised to `e`.
pub open spec fn qv_ok<E: Fn(&Board) -> i32>(eval: E, b: Board, alpha: int, beta: int, ply: int, v: int) -> bool
    decreases MAX_PLY - ply, 1int, 0int,
{
    exists|e: i32| #[trigger] call_ensures(eval, (&b,), e) && if ply >= MAX_PLY {
        v == e
    } else if e >= beta {
        v == beta
    } else {
        exists|ms: Seq<Move>| #[trigger] tactical_list(b, ms) && qloop(eval, b, ms, 0, e as int, e as int, if alpha > e { alpha } else { e as int }, beta, ply, v)
    }
}

/// The score of a move whose position scores `c`.
pub open spec fn negated(c: int) -> int {
    -c
}

/// The rest of a quiescence search from the `j`-th move of `ms` on, with
/// stand-pat score `sp`, best score so far `best` and window `alpha`..`beta`:
/// a skipped move changes nothing; a searched one scores minus a
/// quiescence value of the position it leads to, in the window negated,
/// raises the best score and the lower end, and ends the search once the
/// lower end reaches `beta`. The value is the best score at the end.
pub open spec fn qloop<E: Fn(&Board) -> i32>(
    eval: E,
    b: Board,
    ms: Seq<Move>,
    j: int,
    sp: int,
    best: int,
    alpha: int,
    beta: int,
    ply: int,
    v: int,
) -> bool
    decreases MAX_PLY - ply, 0int, ms.len() - j,
{
    if j >= ms.len() || j < 0 || ply >= MAX_PLY || ply < 0 {
        v == best
    } else if q_skips(b, ms[j], sp, alpha) {
        qloop(eval, b, ms, j + 1, sp, best, alpha, beta, ply, v)
    } else {
        exists|c: int| qv_ok(eval, crate::board::board_after(b, ms[j]), -beta, -alpha, ply + 1, c) && {
            let best2 = if #[trigger] negated(c) > best { negated(c) } else { best };
            let alpha2 = if negated(c) > alpha { negated(c) } else { alpha };
            if alpha2 >= beta {
                v == best2
            } else {
                qloop(eval, b, ms, j + 1, sp, best2, alpha2, beta, ply, v)
            }
        }
    }
}

/// A skipped move leaves the rest of a quiescence search as it was.
proof fn lemma_qloop_skip<E: Fn(&Board) -> i32>(eval: E, b: Board, ms: Seq<Move>, j: int, sp: int, best: int, alpha: int, beta: int, ply: int)
    requires
        0 <= j < ms.len(),
        0 <= ply < MAX_PLY,
        q_skips(b, ms[j], sp, alpha),
    ensures
        forall|v: int| #[trigger] qloop(eval, b, ms, j + 1, sp, best, alpha, beta, ply, v) ==> qloop(eval, b, ms, j, sp, best, alpha, beta, ply, v),
{
}

/// A searched move scoring minus `c` either ends a quiescence search, with
/// the raised best score `best2`, or hands on to the next move with the best
/// score and the lower end raised to `best2` and `alpha2`.
proof fn lemma_qloop_step<E: Fn(&Board) -> i32>(
    eval: E,
    b: Board,
    ms: Seq<Move>,
    j: int,
    sp: int,
    best: int,
    alpha: int,
    beta: int,
    ply: int,
    c: int,
    best2: int,
    alpha2: int,
)
    requires
        0 <= j < ms.len(),
        0 <= ply < MAX_PLY,
        !q_skips(b, ms[j], sp, alpha),
        qv_ok(eval, crate::board::board_after(b, ms[j]), -beta, -alpha, ply + 1, c),
        best2 == if -c > best { -c } else { best },
        alpha2 == if -c > alpha { -c } else { alpha },
    ensures
        alpha2 >= beta ==> qloop(eval, b, ms, j, sp, best, alpha, beta, ply, best2),
        alpha2 < beta ==> forall|v: int| #[trigger] qloop(eval, b, ms, j + 1, sp, best2, alpha2, beta, ply, v)
            ==> qloop(eval, b, ms, j, sp, best, alpha, beta, ply, v),
{
    assert(negated(c) == -c);
    if alpha2 < beta {
        assert forall|v: int| #[trigger] qloop(eval, b, ms, j + 1, sp, best2, alpha2, beta, ply, v)
            implies qloop(eval, b, ms, j, sp, best, alpha, beta, ply, v) by {
            assert(negated(c) == -c);
        }
    }
}

/// A quiescence search that has run through its moves has its best score
/// as value.
proof fn lemma_qloop_end<E: Fn(&Board) -> i32>(eval: E, b: Board, ms: Seq<Move>, j: int, sp: int, best: int, alpha: int, beta: int, ply: int)
    requires
        j >= ms.len(),
    ensures
        qloop(eval, b, ms, j, sp, best, alpha, beta, ply, best),
{
}

/// The three ways a quiescence value comes about.
proof fn lemma_qv_intro<E: Fn(&Board) -> i32>(eval: E, b: Board, alpha: int, beta: int, ply: int, e: i32, ms: Seq<Move>, v: int)
    requires
        call_ensures(eval, (&b,), e),
        ply >= MAX_PLY ==> v == e,
        ply < MAX_PLY && e >= beta ==> v == beta,
        ply < MAX_PLY && e < beta ==> tactical_list(b, ms) && qloop(eval, b, ms, 0, e as int, e as int, if alpha > e { alpha } else { e as int }, beta, ply, v),
    ensures
        qv_ok(eval, b, alpha, beta, ply, v),
{
    assert(call_ensures(eval, (&b,), e));
    if ply < MAX_PLY && e < beta {
        assert(tactical_list(b, ms));
        assert(exists|ms2: Seq<Move>| #[trigger] tactical_list(b, ms2) && qloop(eval, b, ms2, 0, e as int, e as int, if alpha > e { alpha } else { e as int }, beta, ply, v));
    }
    assert(exists|e2: i32| #[trigger] call_ensures(eval, (&b,), e2) && if ply >= MAX_PLY {
        v == e2
    } else if e2 >= beta {
        v == beta
    } else {
        exists|ms2: Seq<Move>| #[trigger] tactical_list(b, ms2) && qloop(eval, b, ms2, 0, e2 as int, e2 as int, if alpha > e2 { alpha } else { e2 as int }, beta, ply, v)
    });
}

/// `v` is a quiescence value of `b` in the window `alpha`..`beta`: for the
/// static evaluation `e` of `b`, `e` itself at the ply limit, `beta` when
/// `e` reaches it, otherwise at least `e`, and `e` exactly when there is
/// nothing to capture and no promotion to a queen.
pub open spec fn quiet_value<E: Fn(&Board) -> i32>(eval: E, b: Board, beta: int, ply: int, v: int) -> bool {
    exists|e: i32| #[trigger] call_ensures(eval, (&b,), e) && (ply >= MAX_PLY ==> v == e)
        && (ply < MAX_PLY && e >= beta ==> v == beta) && (ply < MAX_PLY && e < beta ==> e <= v)
        && (ply < MAX_PLY && e < beta && no_tactical(b) ==> v == e)
}

/// The depth a node is searched to: one more when in check near the root.
pub open spec fn eff_depth(b: Board, depth: int, ply: int) -> int {
    depth + if in_check_now(b) && ply < 40 {
        1int
    } else {
        0int
    }
}

/// A node that is no draw by the fifty-move rule or by repetition.
pub open spec fn no_rule_draw(s: Searcher, b: Board) -> bool {
    b.halfmove_clock < 100 && !repeated(s.line(), b.halfmove_clock as int, b.zobrist)
}

/// The side to move is in check.
pub open spec fn in_check_now(b: Board) -> bool {
    attacked_by(b, king_sq(b, b.turn), b.turn.other())
}

/// A node of the search that scores a position without legal moves by the
/// rules: no draw by the fifty-move rule or by repetition comes first, the
/// depth (one more in check, near the root) is left, and the table holds
/// nothing for the position.
pub open spec fn no_moves_scored(s: Searcher, b: Board, depth: int, ply: int) -> bool {
    &&& b.halfmove_clock < 100
    &&& !repeated(s.line(), b.halfmove_clock as int, b.zobrist)
    &&& ply < MAX_PLY
    &&& depth + (if in_check_now(b) && ply < 40 { 1int } else { 0int }) > 0
    &&& probe_spec(s.table(), s.mask(), b.zobrist) is None
    &&& forall|m: Move| !is_legal(b, m)
}

/// What the search of a node states of its value `v`, for the searcher `s`
/// it started with: the draw score by rule, the quiescence value where no
/// depth is left, the score of an exact table entry that is deep enough, and
/// the mate or stalemate score of a position without legal moves.
#[verifier::opaque]
pub open spec fn nm_value<E: Fn(&Board) -> i32>(eval: E, s: Searcher, b: Board, depth: int, alpha: int, beta: int, ply: int, v: int) -> bool {
    &&& score_ok(v)
    &&& (b.halfmove_clock >= 100 || repeated(s.line(), b.halfmove_clock as int, b.zobrist)) ==> exists|se: i32|
        #[trigger] call_ensures(eval, (&b,), se) && v == contempt(se as int)
    &&& no_rule_draw(s, b) && (eff_depth(b, depth, ply) <= 0 || ply >= MAX_PLY) ==> quiet_value(eval, b, beta, ply, v)
        && qv_ok(eval, b, alpha, beta, ply, v)
    &&& no_rule_draw(s, b) && eff_depth(b, depth, ply) > 0 && ply < MAX_PLY && (probe_spec(s.table(), s.mask(), b.zobrist)
        matches Some(e) && e.depth >= eff_depth(b, depth, ply) && e.flag is Exact) ==> v == probe_spec(
        s.table(),
        s.mask(),
        b.zobrist,
    )->0.score
    &&& no_moves_scored(s, b, depth, ply) ==> if in_check_now(b) {
        v == -MATE + ply
    } else {
        v == 0 || (depth >= 3 && v == beta)
    }
}

/// The root move `m` was searched from `b` to depth `d` in a window with
/// upper end `vb`, with some lower end, and scored `sc`: minus a value that
/// the search of the position after it gives.
#[verifier::opaque]
pub open spec fn root_scored<E: Fn(&Board) -> i32>(eval: E, b: Board, d: int, vb: int, m: Move, sc: int) -> bool {
    exists|s: Searcher, a: int| #[trigger] nm_value(eval, s, crate::board::board_after(b, m), d - 1, -vb, -a, 1, -sc)
}

/// `log` holds, in order, the first `n` root moves of `ordered` with the
/// scores their searches gave them; no score exceeds `sc`, and `sc` is the
/// score of `m` unless it is the floor `-INFINITO`.
#[verifier::opaque]
pub open spec fn root_log<E: Fn(&Board) -> i32>(
    eval: E,
    b: Board,
    d: int,
    vb: int,
    ordered: Seq<Move>,
    log: Seq<(Move, int)>,
    n: int,
    m: Move,
    sc: int,
) -> bool {
    &&& log.len() == n
    &&& n <= ordered.len()
    &&& forall|k: int| 0 <= k < n ==> (#[trigger] log[k]).0 == ordered[k] && log[k].1 <= sc && root_scored(
        eval,
        b,
        d,
        vb,
        log[k].0,
        log[k].1,
    )
    &&& (sc == -INFINITO || log.contains((m, sc)))
}

/// `m` and `sc` are the best move and score of a search of the root moves
/// `ordered` of `b` to depth `d` in a window with upper end `vb`: at least
/// one was searched, all of them were unless `sc` reached `vb`, each scored
/// at most `sc`, and `m` scored `sc` unless that is the floor `-INFINITO`.
pub open spec fn root_best<E: Fn(&Board) -> i32>(eval: E, b: Board, d: int, vb: int, ordered: Seq<Move>, m: Move, sc: int) -> bool {
    exists|log: Seq<(Move, int)>| #[trigger] root_log(eval, b, d, vb, ordered, log, log.len() as int, m, sc) && log.len()
        > 0 && (log.len() == ordered.len() || sc >= vb)
}

/// `m` and `sc` are the best move and score of a search of every legal move
/// of `b` to depth `d`, taken in some order, in a window whose upper end `vb`
/// lies above `sc` unless it is `INFINITO`.
pub open spec fn root_search_result<E: Fn(&Board) -> i32>(eval: E, b: Board, d: int, m: Move, sc: int) -> bool {
    exists|ordered: Seq<Move>, vb: int|
        (forall|x: Move| ordered.contains(x) <==> is_legal(b, x)) && #[trigger] root_best(eval, b, d, vb, ordered, m, sc)
            && (sc < vb || vb == INFINITO)
}

/// Before any root move is searched, the floor is the best score.
proof fn lemma_root_log_empty<E: Fn(&Board) -> i32>(eval: E, b: Board, d: int, vb: int, ordered: Seq<Move>, m: Move)
    ensures
        root_log(eval, b, d, vb, ordered, Seq::empty(), 0, m, -INFINITO as int),
{
    reveal(root_log);
}

/// Searching the next root move, scored `sc`, keeps the record: the best
/// score and move change exactly when `sc` beats the best so far.
proof fn lemma_root_log_push<E: Fn(&Board) -> i32>(
    eval: E,
    b: Board,
    d: int,
    vb: int,
    ordered: Seq<Move>,
    log: Seq<(Move, int)>,
    n: int,
    m0: Move,
    s0: int,
    sc: int,
    m1: Move,
    s1: int,
)
    requires
        root_log(eval, b, d, vb, ordered, log, n, m0, s0),
        n < ordered.len(),
        root_scored(eval, b, d, vb, ordered[n], sc),
        (m1, s1) == (if sc > s0 { (ordered[n], sc) } else { (m0, s0) }),
    ensures
        root_log(eval, b, d, vb, ordered, log.push((ordered[n], sc)), n + 1, m1, s1),
{
    reveal(root_log);
    let l2 = log.push((ordered[n], sc));
    assert(l2[n] == (ordered[n], sc));
    assert forall|k: int| 0 <= k < n + 1 implies (#[trigger] l2[k]).0 == ordered[k] && l2[k].1 <= s1 && root_scored(
        eval,
        b,
        d,
        vb,
        l2[k].0,
        l2[k].1,
    ) by {
        if k < n {
            assert(l2[k] == log[k]);
        }
    }
    if sc > s0 {
        assert(l2.contains((m1, s1)));
    } else if s0 != -INFINITO {
        let q = choose|q: int| 0 <= q < log.len() && log[q] == (m0, s0);
        assert(l2[q] == log[q]);
        assert(l2.contains((m1, s1)));
    }
}

/// The record covers all root moves, or the best score reached `vb`.
proof fn lemma_root_log_len<E: Fn(&Board) -> i32>(eval: E, b: Board, d: int, vb: int, ordered: Seq<Move>, log: Seq<(Move, int)>, n: int, m: Move, sc: int)
    requires
        root_log(eval, b, d, vb, ordered, log, n, m, sc),
        n > 0,
        n == ordered.len() || sc >= vb,
    ensures
        root_best(eval, b, d, vb, ordered, m, sc),
{
    reveal(root_log);
    assert(root_log(eval, b, d, vb, ordered, log, log.len() as int, m, sc));
}

/// The table's move is a candidate for a singular extension: the entry is
/// a lower bound from a search at most three plies shallower, its score is
/// no mate score, and the move is among `moves`.
pub open spec fn singular_candidate(entry: Option<TTEntry>, tmv: Option<Move>, moves: Seq<Move>, depth: int) -> bool {
    &&& entry matches Some(e)
    &&& tmv matches Some(t)
    &&& entry->0.depth >= depth - 3
    &&& entry->0.flag is Beta
    &&& -(MATE - 1000) < entry->0.score < MATE - 1000
    &&& moves.contains(tmv->0)
}

/// The killer moves after a cutoff by the quiet move `mv` at `ply`: `mv`
/// comes first and the former first killer second, unless `mv` already is
/// the first; plies past the killer table keep none.
pub open spec fn killers_after(k: Seq<[Option<Move>; 2]>, mv: Move, ply: int) -> Seq<[Option<Move>; 2]> {
    if 0 <= ply < MAX_KILLER_PLY && k[ply][0] != Some(mv) {
        k.update(ply, [Some(mv), k[ply][0]])
    } else {
        k
    }
}

/// The counters `h` with the one at `i` raised by the square of `depth`.
pub open spec fn bumped_at(h: Seq<i32>, i: int, depth: int) -> Seq<i32> {
    h.update(i, bumped(h[i] as int, depth) as i32)
}

/// Equality of optional moves, field by field.
fn same_move(a: Option<Move>, b: Option<Move>) -> (r: bool)
    ensures
        r == (a == b),
{
    match (a, b) {
        (Some(x), Some(y)) => x.from == y.from && x.to == y.to && same_promo(x.promotion, y.promotion)
            && same_flag(x.flag, y.flag),
        (None, None) => true,
        _ => false,
    }
}

fn same_promo(a: Option<PieceType>, b: Option<PieceType>) -> (r: bool)
    ensures
        r == (a == b),
{
    match (a, b) {
        (Some(x), Some(y)) => x.index() == y.index() && {
            proof {
                assert(x.idx() == y.idx() ==> x == y);
            }
            true
        },
        (None, None) => true,
        _ => false,
    }
}

fn same_flag(a: MoveFlag, b: MoveFlag) -> (r: bool)
    ensures
        r == (a == b),
{
    match (a, b) {
        (MoveFlag::Quiet, MoveFlag::Quiet) => true,
        (MoveFlag::Capture, MoveFlag::Capture) => true,
        (MoveFlag::DoublePush, MoveFlag::DoublePush) => true,
        (MoveFlag::EnPassant, MoveFlag::EnPassant) => true,
        (MoveFlag::CastleKing, MoveFlag::CastleKing) => true,
        (MoveFlag::CastleQueen, MoveFlag::CastleQueen) => true,
        _ => false,
    }
}

/// Inserts `x` into `t` after every element whose key is not greater.
pub open spec fn insert_sorted(t: Seq<(int, Move)>, x: (int, Move)) -> Seq<(int, Move)>
    decreases t.len(),
{
    if t.len() == 0 {
        seq![x]
    } else if t.last().0 > x.0 {
        insert_sorted(t.drop_last(), x).push(t.last())
    } else {
        t.push(x)
    }
}

/// The stable sort of `s` by key.
pub open spec fn isort(s: Seq<(int, Move)>) -> Seq<(int, Move)>
    decreases s.len(),
{
    if s.len() == 0 {
        s
    } else {
        insert_sorted(isort(s.drop_last()), s.last())
    }
}

pub open spec fn sorted_by_key(s: Seq<(int, Move)>) -> bool {
    forall|i: int, j: int| 0 <= i < j < s.len() ==> #[trigger] s[i].0 <= #[trigger] s[j].0
}

proof fn lemma_insert_sorted(t: Seq<(int, Move)>, x: (int, Move))
    ensures
        insert_sorted(t, x).len() == t.len() + 1,
        forall|y: (int, Move)| #[trigger] insert_sorted(t, x).contains(y) <==> (t.contains(y) || y == x),
        sorted_by_key(t) ==> sorted_by_key(insert_sorted(t, x)),
    decreases t.len(),
{
    let r = insert_sorted(t, x);
    if t.len() == 0 {
        assert(r =~= seq![x]);
        assert(forall|y: (int, Move)| #[trigger] r.contains(y) <==> y == x) by {
            assert forall|y: (int, Move)| r.contains(y) implies y == x by {
                let k = choose|k: int| 0 <= k < r.len() && r[k] == y;
            }
            assert(r[0] == x);
        }
    } else if t.last().0 > x.0 {
        let u = t.drop_last();
        lemma_insert_sorted(u, x);
        let ru = insert_sorted(u, x);
        assert(r == ru.push(t.last()));
        assert forall|y: (int, Move)| #[trigger] r.contains(y) <==> (t.contains(y) || y == x) by {
            if r.contains(y) {
                let k = choose|k: int| 0 <= k < r.len() && r[k] == y;
                if k < ru.len() {
                    assert(ru.contains(y));
                    if u.contains(y) {
                        let q = choose|q: int| 0 <= q < u.len() && u[q] == y;
                        assert(t[q] == y);
                    }
                } else {
                    assert(t[t.len() - 1] == y);
                }
            }
            if t.contains(y) {
                let q = choose|q: int| 0 <= q < t.len() && t[q] == y;
                if q < u.len() {
                    assert(u[q] == y);
                    assert(ru.contains(y));
                    let k = choose|k: int| 0 <= k < ru.len() && ru[k] == y;
                    assert(r[k] == y);
                } else {
                    assert(r[r.len() - 1] == y);
                }
            }
            if y == x {
                assert(ru.contains(x));
                let k = choose|k: int| 0 <= k < ru.len() && ru[k] == x;
                assert(r[k] == x);
            }
        }
        if sorted_by_key(t) {
            assert forall|i: int, j: int| 0 <= i < j < r.len() implies #[trigger] r[i].0 <= #[trigger] r[j].0 by {
                if j == r.len() - 1 {
                    assert(r[j] == t.last());
                    assert(ru.contains(r[i]));
                    if u.contains(r[i]) {
                        let q = choose|q: int| 0 <= q < u.len() && u[q] == r[i];
                        assert(t[q] == r[i]);
                    }
                } else {
                    assert(r[i] == ru[i] && r[j] == ru[j]);
                }
            }
        }
    } else {
        assert(r == t.push(x));
        assert forall|y: (int, Move)| #[trigger] r.contains(y) <==> (t.contains(y) || y == x) by {
            if r.contains(y) {
                let k = choose|k: int| 0 <= k < r.len() && r[k] == y;
                if k < t.len() {
                    assert(t[k] == y);
                }
            }
            if t.contains(y) {
                let q = choose|q: int| 0 <= q < t.len() && t[q] == y;
                assert(r[q] == y);
            }
            if y == x {
                assert(r[t.len() as int] == x);
            }
        }
    }
}

/// The stable sort by key is sorted, keeps the length, and holds exactly
/// the elements of its input.
pub proof fn lemma_isort(s: Seq<(int, Move)>)
    ensures
        isort(s).len() == s.len(),
        sorted_by_key(isort(s)),
        forall|y: (int, Move)| #[trigger] isort(s).contains(y) <==> s.contains(y),
    decreases s.len(),
{
    if s.len() > 0 {
        let u = s.drop_last();
        lemma_isort(u);
        lemma_insert_sorted(isort(u), s.last());
        assert forall|y: (int, Move)| #[trigger] isort(s).contains(y) <==> s.contains(y) by {
            if u.contains(y) {
                let q = choose|q: int| 0 <= q < u.len() && u[q] == y;
                assert(s[q] == y);
            }
            if s.contains(y) {
                let q = choose|q: int| 0 <= q < s.len() && s[q] == y;
                if q < u.len() {
                    assert(u[q] == y);
                } else {
                    assert(y == s.last());
                }
            }
            if y == s.last() {
                assert(s[s.len() - 1] == y);
            }
        }
    }
}

pub open spec fn pair_view(v: Seq<(i64, Move)>) -> Seq<(int, Move)> {
    v.map_values(|p: (i64, Move)| (p.0 as int, p.1))
}

/// Sorts by key, keeping the order of equal keys.
fn sort_stable(v: &mut Vec<(i64, Move)>)
    ensures
        pair_view(final(v)@) == isort(pair_view(old(v)@)),
{
    let n = v.len();
    let ghost orig = pair_view(v@);
    let mut i: usize = 0;
    while i < n
        invariant
            n == v@.len(),
            orig.len() == n,
            i <= n,
            pair_view(v@).subrange(0, i as int) == isort(orig.subrange(0, i as int)),
            pair_view(v@).subrange(i as int, n as int) == orig.subrange(i as int, n as int),
        decreases n - i,
    {
        let x = v[i];
        let ghost t = isort(orig.subrange(0, i as int));
        let ghost xv = (x.0 as int, x.1);
        proof {
            assert(orig.subrange(0, i as int + 1).drop_last() =~= orig.subrange(0, i as int));
            assert(orig.subrange(0, i as int + 1).last() == orig[i as int]);
            assert(pair_view(v@)[i as int] == orig.subrange(i as int, n as int)[0]);
            assert(orig[i as int] == xv);
            assert(t.subrange(0, i as int) =~= t);
            assert(isort(orig.subrange(0, i as int)).len() == i) by {
                lemma_isort(orig.subrange(0, i as int));
            }
            assert forall|k: int| i + 1 <= k < n implies pair_view(v@)[k] == orig[k] by {
                assert(pair_view(v@)[k] == pair_view(v@).subrange(i as int, n as int)[k - i]);
            }
            assert(pair_view(v@).subrange(i as int + 1, n as int) =~= orig.subrange(i as int + 1, n as int));
            assert(pair_view(v@).subrange(i as int + 1, i as int + 1) =~= t.subrange(i as int, i as int));
        }
        let mut j: usize = i;
        while j > 0 && v[j - 1].0 > x.0
            invariant
                n == v@.len(),
                orig.len() == n,
                i < n,
                j <= i,
                t.len() == i,
                xv == (x.0 as int, x.1),
                pair_view(v@).subrange(0, j as int) == t.subrange(0, j as int),
                pair_view(v@).subrange(j as int + 1, i as int + 1) == t.subrange(j as int, i as int),
                pair_view(v@).subrange(i as int + 1, n as int) == orig.subrange(i as int + 1, n as int),
                insert_sorted(t, xv) == insert_sorted(t.subrange(0, j as int), xv) + t.subrange(j as int, i as int),
            decreases j,
        {
            let y = v[j - 1];
            proof {
                let tj = t.subrange(0, j as int);
                assert(pair_view(v@)[j - 1] == tj[j - 1]);
                assert(tj.last().0 > xv.0);
                assert(tj.drop_last() =~= t.subrange(0, j - 1));
                assert(insert_sorted(tj, xv) == insert_sorted(t.subrange(0, j - 1), xv).push(tj.last()));
                assert(insert_sorted(t.subrange(0, j - 1), xv).push(tj.last()) + t.subrange(j as int, i as int)
                    =~= insert_sorted(t.subrange(0, j - 1), xv) + t.subrange(j - 1, i as int));
            }
            let ghost before = pair_view(v@);
            v.set(j, y);
            proof {
                assert(pair_view(v@) =~= before.update(j as int, before[j - 1]));
                assert(pair_view(v@).subrange(0, j - 1) =~= t.subrange(0, j - 1)) by {
                    assert forall|k: int| 0 <= k < j - 1 implies pair_view(v@)[k] == t[k] by {
                        assert(before[k] == before.subrange(0, j as int)[k]);
                    }
                }
                assert forall|k: int| j <= k <= i implies pair_view(v@)[k] == t[k - 1] by {
                    if k == j {
                        assert(before[j - 1] == before.subrange(0, j as int)[j - 1]);
                    } else {
                        assert(before[k] == before.subrange(j as int + 1, i as int + 1)[k - j - 1]);
                    }
                }
                assert(pair_view(v@).subrange(j as int, i as int + 1) =~= t.subrange(j - 1, i as int));
                assert forall|k: int| i + 1 <= k < n implies pair_view(v@)[k] == orig[k] by {
                    assert(before[k] == before.subrange(i as int + 1, n as int)[k - i - 1]);
                    assert(orig[k] == orig.subrange(i as int + 1, n as int)[k - i - 1]);
                }
                assert(pair_view(v@).subrange(i as int + 1, n as int) =~= orig.subrange(i as int + 1, n as int));
            }
            j = j - 1;
        }
        v.set(j, x);
        proof {
            let tj = t.subrange(0, j as int);
            if j == 0 {
                assert(insert_sorted(tj, xv) =~= seq![xv]);
            } else {
                assert(pair_view(v@)[j - 1] == tj[j - 1]);
                assert(insert_sorted(tj, xv) == tj.push(xv));
            }
            assert(pair_view(v@).subrange(0, i as int + 1) =~= tj.push(xv) + t.subrange(j as int, i as int));
            assert(pair_view(v@).subrange(0, i as int + 1) =~= insert_sorted(t, xv));
            assert(isort(orig.subrange(0, i as int + 1)) == insert_sorted(t, xv));
            assert(pair_view(v@).subrange(i as int + 1, n as int) =~= orig.subrange(i as int + 1, n as int));
        }
        i = i + 1;
    }
    proof {
        assert(pair_view(v@) =~= pair_view(v@).subrange(0, n as int));
        assert(orig =~= orig.subrange(0, n as int));
    }
}

/// Table index of the piece type standing on the origin of `m` (a pawn's
/// when the square is empty).
pub open spec fn moved_type(b: Board, m: Move) -> int {
    match piece_on(b, m.from as int) {
        Some((_, pt)) => pt.idx(),
        None => 0,
    }
}

/// Moves keyed by `key`, in their order.
pub open spec fn keyed(s: Seq<Move>, key: spec_fn(Move) -> int) -> Seq<(int, Move)> {
    Seq::new(s.len(), |i: int| (key(s[i]), s[i]))
}

/// The moves of `s`, stably sorted by `key`.
pub open spec fn sort_moves(s: Seq<Move>, key: spec_fn(Move) -> int) -> Seq<Move> {
    isort(keyed(s, key)).map_values(|p: (int, Move)| p.1)
}

/// Sorting moves keeps the length and exactly the moves.
pub proof fn lemma_sort_moves(s: Seq<Move>, key: spec_fn(Move) -> int)
    ensures
        sort_moves(s, key).len() == s.len(),
        forall|m: Move| #[trigger] sort_moves(s, key).contains(m) <==> s.contains(m),
{
    let ks = keyed(s, key);
    lemma_isort(ks);
    let r = sort_moves(s, key);
    assert forall|m: Move| #[trigger] r.contains(m) <==> s.contains(m) by {
        if r.contains(m) {
            let j = choose|j: int| 0 <= j < r.len() && r[j] == m;
            assert(isort(ks).contains(isort(ks)[j]));
            let q = choose|q: int| 0 <= q < ks.len() && ks[q] == isort(ks)[j];
            assert(s[q] == m);
        }
        if s.contains(m) {
            let q = choose|q: int| 0 <= q < s.len() && s[q] == m;
            assert(ks[q] == (key(m), m));
            assert(ks.contains((key(m), m)));
            assert(isort(ks).contains((key(m), m)));
            let j = choose|j: int| 0 <= j < isort(ks).len() && isort(ks)[j] == (key(m), m);
            assert(r.len() == isort(ks).len());
            assert(r[j] == isort(ks)[j].1);
            assert(r[j] == m);
        }
    }
}

impl Searcher {
    /// The ordering key of `m`: the table's move first, then captures by
    /// static exchange value, promotions, killers, and quiet moves by their
    /// history and continuation history.
    pub closed spec fn order_key(self, b: Board, tt_move: Option<Move>, ply: int, prev: Option<(usize, usize)>, m: Move) -> int {
        if tt_move == Some(m) {
            -1_000_000
        } else if m.captures() {
            -(10_000 + crate::see::see_spec(b, m))
        } else if m.promotion is Some {
            -5000
        } else if 0 <= ply < MAX_KILLER_PLY && self.killers@[ply][0] == Some(m) {
            -3000
        } else if 0 <= ply < MAX_KILLER_PLY && self.killers@[ply][1] == Some(m) {
            -2900
        } else {
            let h = self.history@[m.from * 64 + m.to] as int;
            let ch = match prev {
                Some((pp, pto)) => self.cont_history@[cont_index(pp as int, pto as int, moved_type(b, m), m.to as int)] as int,
                None => 0,
            };
            -(h + ch)
        }
    }

    fn order_key_exec(&self, b: &Board, mv: &Move, tt_move: Option<Move>, ply: u32, prev: Option<(usize, usize)>) -> (k: i64)
        requires
            self.inv(),
            consistent(*b),
            crate::board::move_ok(*b, *mv),
            prev matches Some((a, t)) ==> a < 6 && t < 64,
        ensures
            k == self.order_key(*b, tt_move, ply as int, prev, *mv),
    {
        if same_move(tt_move, Some(*mv)) {
            return -1_000_000;
        }
        if mv.is_capture() {
            let v = crate::see::see(b, mv);
            return -(10_000 + v as i64);
        }
        if mv.promotion.is_some() {
            return -5000;
        }
        let p = ply as usize;
        if p < MAX_KILLER_PLY {
            let k = self.killers[p];
            if same_move(k[0], Some(*mv)) {
                return -3000;
            }
            if same_move(k[1], Some(*mv)) {
                return -2900;
            }
        }
        let h = self.history[(mv.from as usize) * 64 + (mv.to as usize)];
        let ch: i32 = match prev {
            Some((prev_pt, prev_to)) => {
                let pt_mv = match b.piece_at(mv.from) {
                    Some((_, pt)) => pt.index(),
                    None => 0,
                };
                self.cont_history[cont_idx(prev_pt, prev_to, pt_mv, mv.to as usize)]
            },
            None => 0,
        };
        -(h as i64 + ch as i64)
    }

    /// Orders `moves` without killers or continuation history.
    fn order_moves(&self, b: &Board, moves: &mut Vec<Move>, tt_move: Option<Move>)
        requires
            self.inv(),
            consistent(*b),
            forall|i: int| 0 <= i < old(moves)@.len() ==> crate::board::move_ok(*b, #[trigger] old(moves)@[i]),
        ensures
            final(moves)@ == sort_moves(old(moves)@, |m: Move| self.order_key(*b, tt_move, MAX_KILLER_PLY as int, None, m)),
    {
        self.order_moves_ply(b, moves, tt_move, MAX_KILLER_PLY as u32, None);
    }

    /// Orders `moves` for the search, stably by `order_key`.
    fn order_moves_ply(&self, b: &Board, moves: &mut Vec<Move>, tt_move: Option<Move>, ply: u32, prev: Option<(usize, usize)>)
        requires
            self.inv(),
            consistent(*b),
            forall|i: int| 0 <= i < old(moves)@.len() ==> crate::board::move_ok(*b, #[trigger] old(moves)@[i]),
            prev matches Some((a, t)) ==> a < 6 && t < 64,
        ensures
            final(moves)@ == sort_moves(old(moves)@, |m: Move| self.order_key(*b, tt_move, ply as int, prev, m)),
    {
        let ghost key = |m: Move| self.order_key(*b, tt_move, ply as int, prev, m);
        let n = moves.len();
        let mut pairs: Vec<(i64, Move)> = Vec::with_capacity(n);
        let mut i: usize = 0;
        while i < n
            invariant
                self.inv(),
                consistent(*b),
                n == moves@.len(),
                moves@ == old(moves)@,
                forall|i: int| 0 <= i < old(moves)@.len() ==> crate::board::move_ok(*b, #[trigger] old(moves)@[i]),
                prev matches Some((a, t)) ==> a < 6 && t < 64,
                i <= n,
                pairs@.len() == i,
                forall|m: Move| #[trigger] key(m) == self.order_key(*b, tt_move, ply as int, prev, m),
                pair_view(pairs@) == keyed(moves@, key).subrange(0, i as int),
            decreases n - i,
        {
            let mv = moves[i];
            let k = self.order_key_exec(b, &mv, tt_move, ply, prev);
            let ghost before = pairs@;
            pairs.push((k, mv));
            proof {
                assert(key(mv) == k as int);
                assert(keyed(moves@, key)[i as int] == (k as int, mv));
                assert forall|q: int| 0 <= q <= i implies pair_view(pairs@)[q] == keyed(moves@, key).subrange(0, i + 1)[q] by {
                    if q < i {
                        assert(pairs@[q] == before[q]);
                        assert(pair_view(before)[q] == keyed(moves@, key).subrange(0, i as int)[q]);
                    }
                }
                assert(pair_view(pairs@) =~= keyed(moves@, key).subrange(0, i + 1));
            }
            i = i + 1;
        }
        proof {
            assert(keyed(moves@, key).subrange(0, n as int) =~= keyed(moves@, key));
        }
        sort_stable(&mut pairs);
        let mut out: Vec<Move> = Vec::with_capacity(n);
        let mut j: usize = 0;
        let ghost sorted = isort(keyed(old(moves)@, key));
        proof {
            lemma_isort(keyed(old(moves)@, key));
        }
        while j < n
            invariant
                n == pairs@.len(),
                pair_view(pairs@) == sorted,
                j <= n,
                out@ == sorted.subrange(0, j as int).map_values(|p: (int, Move)| p.1),
            decreases n - j,
        {
            out.push(pairs[j].1);
            j = j + 1;
            proof {
                assert(out@ =~= sorted.subrange(0, j as int).map_values(|p: (int, Move)| p.1));
            }
        }
        proof {
            assert(sorted.subrange(0, n as int) =~= sorted);
        }
        *moves = out;
    }
}

/// The move counters of `b` can still grow by one at each ply down to `MAX_PLY`.
pub open spec fn room(b: Board, ply: int) -> bool {
    &&& b.halfmove_clock + MAX_PLY - ply < 0xffff_fffe
    &&& b.fullmove_number + MAX_PLY - ply < 0xffff_fffe
}

/// `key` occurs among the last `hc` keys of `line`.
pub open spec fn repeated(line: Seq<u64>, hc: int, key: u64) -> bool {
    hc > 0 && exists|i: int| line.len() - hc <= i < line.len() && 0 <= i && line[i] == key
}

/// Passing the move keeps a position playable when the side to move is not
/// in check.
proof fn lemma_null_keeps_playable(b: Board, n: Board)
    requires
        playable(b),
        !attacked_by(b, king_sq(b, b.turn), b.turn.other()),
        wf(n),
        n.pieces == b.pieces,
        n.occupied_co == b.occupied_co,
        n.occupied == b.occupied,
        n.turn == b.turn.other(),
        n.ep_square is None,
        n.castling_rights == b.castling_rights,
        n.halfmove_clock == b.halfmove_clock,
        n.fullmove_number == b.fullmove_number,
    ensures
        playable(n),
{
    assert forall|s: int| #[trigger] piece_on(n, s) == piece_on(b, s) by {}
    assert forall|s: int| #[trigger] piece_on(n, s) == Some((n.turn.other(), PieceType::King)) implies !attacked_by(n, s, n.turn) by {
        crate::movegen::lemma_king_sq(b, b.turn);
        assert(piece_on(b, s) == Some((b.turn, PieceType::King)));
        assert(s == king_sq(b, b.turn));
        if attacked_by(n, s, n.turn) {
            let w = choose|w: int| #[trigger] attacker_on(n, w, s, n.occupied) && (piece_on(n, w) matches Some((c, _)) && c == n.turn);
            assert(crate::board::attacker_on(b, w, s, b.occupied));
        }
    }
}

/// A legal move keeps a playable position playable, with room to spare.
proof fn lemma_child(b: Board, m: Move, a: Board, ply: int)
    requires
        playable(b),
        is_legal(b, m),
        is_after(b, m, a),
        room(b, ply),
        ply < MAX_PLY,
    ensures
        playable(a),
        room(a, ply + 1),
{
    crate::movegen::lemma_legal_keeps_playable(b, m, a);
}

impl Searcher {
    /// Quiescence search: the static evaluation, improved by captures and
    /// queen promotions that do not lose material by exchange and could
    /// still raise the score; fails hard at `beta` when the static
    /// evaluation already reaches it.
    #[verifier::rlimit(100)]
    fn quiescence<E: Fn(&Board) -> i32>(&mut self, eval: &E, b: &Board, alpha: i32, beta: i32, ply: u32) -> (r: Result<i32, TimeUp>)
        requires
            old(self).inv(),
            eval_ok(eval),
            playable(*b),
            room(*b, ply as int),
            ply <= MAX_PLY,
            score_ok(alpha as int),
            score_ok(beta as int),
            alpha < beta,
        ensures
            final(self).inv(),
            same_tables(*final(self), *old(self)),
            final(self).modes() == old(self).modes(),
            old(self).stopped() ==> final(self).stopped(),
            final(self).limits() == old(self).limits(),
            old(self).unlimited() && !old(self).stopped() ==> !final(self).stopped(),
            old(self).stopped() ==> r is Err,
            r is Err ==> final(self).stopped(),
            r is Ok ==> !final(self).stopped(),
            r matches Ok(v) ==> score_ok(v as int) && quiet_value(*eval, *b, beta as int, ply as int, v as int),
            r matches Ok(v) ==> qv_ok(*eval, *b, alpha as int, beta as int, ply as int, v as int),
        decreases MAX_PLY - ply,
    {
        self.check_time()?;
        let stand_pat = eval(b);
        if ply >= MAX_PLY {
            proof {
                lemma_qv_intro(*eval, *b, alpha as int, beta as int, ply as int, stand_pat, Seq::empty(), stand_pat as int);
            }
            return Ok(stand_pat);
        }
        if stand_pat >= beta {
            proof {
                lemma_qv_intro(*eval, *b, alpha as int, beta as int, ply as int, stand_pat, Seq::empty(), beta as int);
            }
            return Ok(beta);
        }
        let ghost alpha_in = alpha;
        let mut alpha = alpha;
        if stand_pat > alpha {
            alpha = stand_pat;
        }
        let all = generate_pseudo_legal(b);
        let mut moves: Vec<Move> = Vec::new();
        let mut i: usize = 0;
        while i < all.len()
            invariant
                gen_ok(*b),
                i <= all@.len(),
                forall|m: Move| all@.contains(m) <==> pseudo_legal(*b, m),
                forall|k: int| 0 <= k < moves@.len() ==> pseudo_legal(*b, #[trigger] moves@[k]),
                forall|k: int| 0 <= k < moves@.len() ==> tactical(#[trigger] moves@[k]),
                forall|k: int| 0 <= k < i && tactical(#[trigger] all@[k]) ==> moves@.contains(all@[k]),
            decreases all@.len() - i,
        {
            let m = all[i];
            assert(all@.contains(m));
            let ghost antes = moves@;
            if m.is_capture() || same_promo(m.promotion, Some(PieceType::Queen)) {
                moves.push(m);
                proof {
                    assert(moves@[antes.len() as int] == m);
                    assert forall|k: int| 0 <= k < i && tactical(#[trigger] all@[k]) implies moves@.contains(all@[k]) by {
                        let q = choose|q: int| 0 <= q < antes.len() && antes[q] == all@[k];
                        assert(moves@[q] == all@[k]);
                    }
                }
            }
            i = i + 1;
        }
        proof {
            assert forall|m: Move| #[trigger] moves@.contains(m) <==> pseudo_legal(*b, m) && tactical(m) by {
                if moves@.contains(m) {
                    let q = choose|q: int| 0 <= q < moves@.len() && moves@[q] == m;
                    assert(pseudo_legal(*b, moves@[q]) && tactical(moves@[q]));
                }
                if pseudo_legal(*b, m) && tactical(m) {
                    assert(all@.contains(m));
                    let q = choose|q: int| 0 <= q < all@.len() && all@[q] == m;
                    assert(tactical(all@[q]));
                }
            }
            assert(tactical_list(*b, moves@));
        }
        proof {
            assert forall|k: int| 0 <= k < moves@.len() implies crate::board::move_ok(*b, #[trigger] moves@[k]) by {
                crate::movegen::lemma_pseudo_move_ok(*b, moves@[k]);
            }
        }
        proof {
            if no_tactical(*b) && moves@.len() > 0 {
                assert(pseudo_legal(*b, moves@[0]));
                assert(tactical(moves@[0]));
            }
        }
        let ghost unordered = moves@;
        self.order_moves(b, &mut moves, None);
        proof {
            lemma_sort_moves(unordered, |m: Move| self.order_key(*b, None, MAX_KILLER_PLY as int, None, m));
            assert forall|k: int| 0 <= k < moves@.len() implies pseudo_legal(*b, #[trigger] moves@[k]) by {
                assert(moves@.contains(moves@[k]));
                assert(unordered.contains(moves@[k]));
                let q = choose|q: int| 0 <= q < unordered.len() && unordered[q] == moves@[k];
                assert(pseudo_legal(*b, unordered[q]));
            }
            assert forall|m: Move| #[trigger] moves@.contains(m) <==> pseudo_legal(*b, m) && tactical(m) by {
                assert(moves@.contains(m) <==> unordered.contains(m));
            }
        }
        let ghost ms = moves@;
        let ghost a0 = alpha as int;
        let ghost sp = stand_pat as int;
        assert(tactical_list(*b, ms));
        proof {
            if ms.len() == 0 {
                lemma_qloop_end(*eval, *b, ms, 0, sp, sp, a0, beta as int, ply as int);
            }
        }
        let mut best = stand_pat;
        let mut j: usize = 0;
        while j < moves.len()
            invariant_except_break
                alpha < beta,
                forall|v: int| #[trigger] qloop(*eval, *b, ms, j as int, sp, best as int, alpha as int, beta as int, ply as int, v)
                    ==> qloop(*eval, *b, ms, 0, sp, sp, a0, beta as int, ply as int, v),
                j == moves@.len() ==> qloop(*eval, *b, ms, 0, sp, sp, a0, beta as int, ply as int, best as int),
            invariant
                self.inv(),
                eval_ok(eval),
                playable(*b),
                room(*b, ply as int),
                ply < MAX_PLY,
                same_tables(*self, *old(self)),
                self.modes() == old(self).modes(),
                !self.stopped(),
                forall|k: int| 0 <= k < moves@.len() ==> pseudo_legal(*b, #[trigger] moves@[k]),
                score_ok(alpha as int),
                score_ok(beta as int),
                score_ok(stand_pat as int),
                score_ok(best as int),
                stand_pat <= best,
                stand_pat <= alpha,
                call_ensures(*eval, (b,), stand_pat),
                stand_pat < beta,
                j <= moves@.len(),
                no_tactical(*b) ==> moves@.len() == 0 && best == stand_pat,
                ms == moves@,
                sp == stand_pat,
            ensures
                qloop(*eval, *b, ms, 0, sp, sp, a0, beta as int, ply as int, best as int),
            decreases moves@.len() - j,
        {
            let mv = moves[j];
            let ghost j0 = j as int;
            let ghost best0 = best as int;
            let ghost alpha0 = alpha as int;
            j = j + 1;
            let next = match capture_child(b, mv, stand_pat, alpha, ply) {
                Some(n) => n,
                None => {
                    proof {
                        lemma_qloop_skip(*eval, *b, ms, j0, sp, best0, alpha0, beta as int, ply as int);
                        if j == moves.len() {
                            lemma_qloop_end(*eval, *b, ms, j as int, sp, best as int, alpha as int, beta as int, ply as int);
                        }
                    }
                    continue;
                },
            };
            let sc0 = self.quiescence(eval, &next, -beta, -alpha, ply + 1)?;
            let sc = -sc0;
            if sc > best {
                best = sc;
            }
            if sc > alpha {
                alpha = sc;
            }
            proof {
                lemma_qloop_step(*eval, *b, ms, j0, sp, best0, alpha0, beta as int, ply as int, sc0 as int, best as int, alpha as int);
            }
            if alpha >= beta {
                proof {
                    assert(qloop(*eval, *b, ms, j0, sp, best0, alpha0, beta as int, ply as int, best as int));
                }
                break;
            }
            proof {
                if j == moves.len() {
                    lemma_qloop_end(*eval, *b, ms, j as int, sp, best as int, alpha as int, beta as int, ply as int);
                }
            }
        }
        proof {
            lemma_qv_intro(*eval, *b, alpha_in as int, beta as int, ply as int, stand_pat, ms, best as int);
        }
        Ok(best)
    }
}

/// The position after capture or promotion `mv` in quiescence, unless the
/// move loses material by exchange (and promotes nothing), cannot raise the
/// score to `alpha` even by winning its victim with a margin, or leaves the
/// mover's king in check.
fn capture_child(b: &Board, mv: Move, stand_pat: i32, alpha: i32, ply: u32) -> (r: Option<Board>)
    requires
        playable(*b),
        room(*b, ply as int),
        ply < MAX_PLY,
        pseudo_legal(*b, mv),
        score_ok(stand_pat as int),
        score_ok(alpha as int),
    ensures
        r matches Some(n) ==> is_legal(*b, mv) && is_after(*b, mv, n) && playable(n) && room(n, ply + 1)
            && n == crate::board::board_after(*b, mv),
        r is None <==> q_skips(*b, mv, stand_pat as int, alpha as int),
{
    proof {
        crate::movegen::lemma_pseudo_move_ok(*b, mv);
    }
    if mv.promotion.is_none() && crate::see::see(b, &mv) < -50 {
        return None;
    }
    let victim: i32 = if same_flag(mv.flag, MoveFlag::EnPassant) {
        100
    } else {
        match b.piece_at(mv.to) {
            Some((_, pt)) => valor_pieza(pt),
            None => 0,
        }
    };
    assert(victim == crate::see::victim_value(*b, mv));
    let mut ganancia = victim;
    if mv.promotion.is_some() {
        ganancia = ganancia + 800;
    }
    if stand_pat + ganancia + 250 <= alpha {
        return None;
    }
    let next = b.make_move(&mv);
    proof {
        crate::movegen::lemma_king_survives(*b, mv, next);
    }
    if next.in_check(b.turn) {
        proof {
            assert(crate::movegen::leaves_in_check(*b, mv));
        }
        return None;
    }
    proof {
        assert(is_legal(*b, mv));
        lemma_child(*b, mv, next, ply as int);
    }
    Some(next)
}

/// Whether `m` is among `moves`.
fn contains_move(moves: &Vec<Move>, m: Move) -> (r: bool)
    ensures
        r == moves@.contains(m),
{
    let mut i: usize = 0;
    while i < moves.len()
        invariant
            i <= moves@.len(),
            forall|k: int| 0 <= k < i ==> moves@[k] != m,
        decreases moves@.len() - i,
    {
        if same_move(Some(moves[i]), Some(m)) {
            assert(moves@[i as int] == m);
            return true;
        }
        i = i + 1;
    }
    false
}

impl Searcher {
    /// Whether the key of `b` occurs among the keys of the current line
    /// that lie within its halfmove clock.
    fn is_repetition(&self, b: &Board) -> (r: bool)
        ensures
            r == repeated(self.line(), b.halfmove_clock as int, b.zobrist),
    {
        let hc = b.halfmove_clock as usize;
        if hc == 0 {
            return false;
        }
        let n = self.path.len();
        let start = if n >= hc { n - hc } else { 0 };
        let mut i = start;
        while i < n
            invariant
                n == self.path@.len(),
                start <= i <= n,
                start == if n >= hc { n - hc } else { 0 },
                hc == b.halfmove_clock,
                hc > 0,
                forall|k: int| start <= k < i ==> self.path@[k] != b.zobrist,
            decreases n - i,
        {
            if self.path[i] == b.zobrist {
                return true;
            }
            i = i + 1;
        }
        false
    }

    /// Whether the table's move is singular: every other move, searched to
    /// about half the depth with a null window just below the table's score
    /// minus a margin, stays below that window.
    fn singular_move<E: Fn(&Board) -> i32>(
        &mut self,
        eval: &E,
        b: &Board,
        moves: &Vec<Move>,
        entry: Option<TTEntry>,
        tmv: Option<Move>,
        depth: i32,
        ply: u32,
    ) -> (r: Option<Move>)
        requires
            old(self).inv(),
            eval_ok(eval),
            playable(*b),
            room(*b, ply as int),
            ply < MAX_PLY,
            8 <= depth <= MAX_DEPTH + ply,
            forall|k: int| 0 <= k < moves@.len() ==> is_legal(*b, #[trigger] moves@[k]),
            entry matches Some(e) ==> score_ok(e.score as int),
        ensures
            final(self).inv(),
            final(self).mask() == old(self).mask(),
            final(self).game() == old(self).game(),
            final(self).modes() == old(self).modes(),
            old(self).stopped() ==> final(self).stopped(),
            final(self).limits() == old(self).limits(),
            old(self).unlimited() && !old(self).stopped() ==> !final(self).stopped(),
            final(self).stopped() || final(self).line() == old(self).line(),
            r matches Some(m) ==> tmv == Some(m),
            r is Some ==> singular_candidate(entry, tmv, moves@, depth as int),
            singular_candidate(entry, tmv, moves@, depth as int) && entry->0.score - 2 * depth > -INFINITO
                && (forall|k: int| 0 <= k < moves@.len() ==> moves@[k] == tmv->0) ==> r == tmv,
        decreases MAX_PLY - ply, 0int,
    {
        let (e, t) = match (entry, tmv) {
            (Some(e), Some(t)) => (e, t),
            _ => {
                return None;
            },
        };
        let is_beta = match e.flag {
            TTFlag::Beta => true,
            _ => false,
        };
        if !(e.depth >= depth - 3 && is_beta && e.score < MATE - 1000 && e.score > -(MATE - 1000)) {
            return None;
        }
        if !contains_move(moves, t) {
            return None;
        }
        let margen = 2 * depth;
        let sbeta = e.score - margen;
        let sdepth = (depth - 1) / 2;
        let mut mejor_otra = -INFINITO;
        let mut se_timed_out = false;
        let mut i: usize = 0;
        while i < moves.len()
            invariant
                self.inv(),
                eval_ok(eval),
                playable(*b),
                room(*b, ply as int),
                ply < MAX_PLY,
                8 <= depth <= MAX_DEPTH + ply,
                forall|k: int| 0 <= k < moves@.len() ==> is_legal(*b, #[trigger] moves@[k]),
                self.mask() == old(self).mask(),
                self.limits() == old(self).limits(),
                old(self).unlimited() && !old(self).stopped() ==> !self.stopped(),
                self.game() == old(self).game(),
                self.modes() == old(self).modes(),
                old(self).stopped() ==> self.stopped(),
                self.stopped() || self.line() == old(self).line(),
                sbeta == e.score - 2 * depth,
                -(MATE - 1000) < e.score < MATE - 1000,
                sdepth == (depth - 1) / 2,
                i <= moves@.len(),
                (forall|k: int| 0 <= k < moves@.len() ==> moves@[k] == t) ==> mejor_otra == -INFINITO
                    && !se_timed_out,
            decreases moves@.len() - i,
        {
            let mv = moves[i];
            i = i + 1;
            if same_move(Some(mv), Some(t)) {
                continue;
            }
            assert(moves@[i - 1] == mv);
            proof {
                crate::movegen::lemma_pseudo_move_ok(*b, mv);
            }
            let next = b.make_move(&mv);
            proof {
                lemma_child(*b, mv, next, ply as int);
            }
            match self.negamax(eval, &next, sdepth, -sbeta, -sbeta + 1, ply + 1, None, true) {
                Ok(v) => {
                    let sc = -v;
                    if sc > mejor_otra {
                        mejor_otra = sc;
                    }
                    if mejor_otra >= sbeta {
                        break;
                    }
                },
                Err(_) => {
                    se_timed_out = true;
                    break;
                },
            }
        }
        if !se_timed_out && mejor_otra < sbeta {
            Some(t)
        } else {
            None
        }
    }

    /// Negamax alpha-beta search of `b` to `depth` plies, `ply` plies below
    /// the root. Draws by the fifty-move rule and by repetition score the
    /// position's contempt; positions without moves score as mate or
    /// stalemate; at the horizon the quiescence search takes over.
    #[verifier::rlimit(80)]
    fn negamax<E: Fn(&Board) -> i32>(
        &mut self,
        eval: &E,
        b: &Board,
        depth: i32,
        alpha: i32,
        beta: i32,
        ply: u32,
        prev: Option<(usize, usize)>,
        en_sondeo_se: bool,
    ) -> (r: Result<i32, TimeUp>)
        requires
            old(self).inv(),
            eval_ok(eval),
            playable(*b),
            room(*b, ply as int),
            ply <= MAX_PLY,
            score_ok(alpha as int),
            score_ok(beta as int),
            alpha < beta,
            depth <= MAX_DEPTH + ply,
            prev matches Some((a, t)) ==> a < 6 && t < 64,
        ensures
            final(self).inv(),
            final(self).mask() == old(self).mask(),
            final(self).game() == old(self).game(),
            final(self).modes() == old(self).modes(),
            old(self).stopped() ==> final(self).stopped(),
            final(self).limits() == old(self).limits(),
            old(self).unlimited() && !old(self).stopped() ==> !final(self).stopped(),
            old(self).stopped() ==> r is Err,
            r is Err ==> final(self).stopped(),
            r is Ok ==> !final(self).stopped(),
            r is Ok ==> final(self).line() == old(self).line(),
            r matches Ok(v) ==> score_ok(v as int),
            r matches Ok(v) ==> (b.halfmove_clock >= 100 || repeated(old(self).line(), b.halfmove_clock as int, b.zobrist))
                ==> exists|se: i32| #[trigger] call_ensures(*eval, (b,), se) && v == contempt(se as int),
            r matches Ok(v) ==> no_rule_draw(*old(self), *b) && (eff_depth(*b, depth as int, ply as int) <= 0
                || ply >= MAX_PLY) ==> quiet_value(*eval, *b, beta as int, ply as int, v as int) && qv_ok(
                *eval,
                *b,
                alpha as int,
                beta as int,
                ply as int,
                v as int,
            ),
            r matches Ok(v) ==> no_rule_draw(*old(self), *b) && eff_depth(*b, depth as int, ply as int) > 0 && ply
                < MAX_PLY && (probe_spec(old(self).table(), old(self).mask(), b.zobrist) matches Some(e) && e.depth
                >= eff_depth(*b, depth as int, ply as int) && e.flag is Exact) ==> v == probe_spec(
                old(self).table(),
                old(self).mask(),
                b.zobrist,
            )->0.score,
            r matches Ok(v) ==> no_moves_scored(*old(self), *b, depth as int, ply as int) ==> if in_check_now(*b) {
                v == -MATE + ply
            } else {
                v == 0 || (depth >= 3 && v == beta)
            },
        decreases MAX_PLY - ply, 1int,
    {
        self.check_time()?;
        if b.halfmove_clock >= 100 {
            return Ok(draw_score(eval, b));
        }
        if self.is_repetition(b) {
            return Ok(draw_score(eval, b));
        }
        let en_jaque = b.in_check(b.turn);
        let mut depth = depth;
        if en_jaque && ply < 40 {
            depth = depth + 1;
        }
        if depth <= 0 || ply >= MAX_PLY {
            return self.quiescence(eval, b, alpha, beta, ply);
        }
        let alpha_orig = alpha;
        let key = b.zobrist;
        let mut tt_move: Option<Move> = None;
        let mut tt_entry_full: Option<TTEntry> = None;
        match self.tt_probe(key) {
            Some(entry) => {
                tt_move = entry.best;
                tt_entry_full = Some(entry);
                if entry.depth >= depth {
                    match entry.flag {
                        TTFlag::Exact => {
                            return Ok(entry.score);
                        },
                        TTFlag::Beta => {
                            if entry.score >= beta {
                                return Ok(entry.score);
                            }
                        },
                        TTFlag::Alpha => {
                            if entry.score <= alpha {
                                return Ok(entry.score);
                            }
                        },
                    }
                }
            },
            None => {},
        }
        if !en_jaque && depth >= 3 && beta < MATE - 1000 && alpha > -(MATE - 1000) && !solo_peones_y_rey(b, b.turn) {
            let next = b.make_null_move();
            proof {
                lemma_null_keeps_playable(*b, next);
            }
            let v = self.negamax(eval, &next, depth - 1 - 2, -beta, -beta + 1, ply + 1, None, en_sondeo_se)?;
            let sc_null = -v;
            if sc_null >= beta {
                return Ok(beta);
            }
        }
        let mut moves = generate_legal(b);
        if moves.len() == 0 {
            return Ok(
                if en_jaque {
                    -MATE + ply as i32
                } else {
                    0
                },
            );
        }
        let ghost hay = moves@[0];
        proof {
            assert(moves@.contains(hay));
            assert(is_legal(*b, hay));
        }
        let ghost unordered = moves@;
        proof {
            assert forall|k: int| 0 <= k < moves@.len() implies crate::board::move_ok(*b, #[trigger] moves@[k]) by {
                assert(moves@.contains(moves@[k]));
                assert(is_legal(*b, moves@[k]));
                crate::movegen::lemma_pseudo_move_ok(*b, moves@[k]);
            }
        }
        self.order_moves_ply(b, &mut moves, tt_move, ply, prev);
        proof {
            lemma_sort_moves(unordered, |m: Move| self.order_key(*b, tt_move, ply as int, prev, m));
            assert forall|k: int| 0 <= k < moves@.len() implies is_legal(*b, #[trigger] moves@[k]) by {
                assert(moves@.contains(moves@[k]));
                assert(unordered.contains(moves@[k]));
            }
        }
        let ghost line0 = self.path@;
        self.path.push(b.zobrist);
        let jugada_singular = if self.modo_singular && !en_sondeo_se && !en_jaque && ply > 0 && depth >= 8 {
            self.singular_move(eval, b, &moves, tt_entry_full, tt_move, depth, ply)
        } else {
            None
        };
        let mut best_score: i32 = -INFINITO;
        let mut best_move: Option<Move> = None;
        let mut alpha = alpha;
        let mut idx: usize = 0;
        while idx < moves.len()
            invariant_except_break
                alpha < beta,
            invariant
                self.inv(),
                eval_ok(eval),
                playable(*b),
                room(*b, ply as int),
                ply < MAX_PLY,
                1 <= depth <= MAX_DEPTH + ply + 1,
                prev matches Some((a, t)) ==> a < 6 && t < 64,
                forall|k: int| 0 <= k < moves@.len() ==> is_legal(*b, #[trigger] moves@[k]),
                self.mask() == old(self).mask(),
                self.limits() == old(self).limits(),
                old(self).unlimited() && !old(self).stopped() ==> !self.stopped(),
                self.game() == old(self).game(),
                self.modes() == old(self).modes(),
                idx > 0 ==> !self.stopped(),
                self.stopped() || self.line() == line0.push(b.zobrist),
                line0 == old(self).line(),
                score_ok(alpha as int),
                score_ok(beta as int),
                score_ok(best_score as int),
                idx <= moves@.len(),
                moves@.len() > 0,
            ensures
                !self.stopped(),
            decreases moves@.len() - idx,
        {
            let mv = moves[idx];
            let es_reducible = self.modo_lmr && !en_jaque && idx >= 5 && depth >= 5 && !mv.is_capture()
                && mv.promotion.is_none();
            proof {
                crate::movegen::lemma_pseudo_move_ok(*b, mv);
            }
            let pt_mv = match b.piece_at(mv.from) {
                Some((_, pt)) => pt.index(),
                None => 0,
            };
            let next = b.make_move(&mv);
            proof {
                lemma_child(*b, mv, next, ply as int);
            }
            let child_prev = Some((pt_mv, mv.to as usize));
            let ext: i32 = if same_move(jugada_singular, Some(mv)) {
                1
            } else {
                0
            };
            let sc = if es_reducible && !next.in_check(next.turn) {
                self.lmr_intentos = self.lmr_intentos.wrapping_add(1);
                let red: i32 = if depth - 2 < 1 {
                    depth - 2
                } else {
                    1
                };
                let v = self.negamax(eval, &next, depth - 1 + ext - red, -alpha - 1, -alpha, ply + 1, child_prev, en_sondeo_se)?;
                let sondeo = -v;
                if sondeo > alpha {
                    self.lmr_reintentos = self.lmr_reintentos.wrapping_add(1);
                    let w = self.negamax(eval, &next, depth - 1 + ext, -beta, -alpha, ply + 1, child_prev, en_sondeo_se)?;
                    -w
                } else {
                    sondeo
                }
            } else {
                let v = self.negamax(eval, &next, depth - 1 + ext, -beta, -alpha, ply + 1, child_prev, en_sondeo_se)?;
                -v
            };
            if sc > best_score {
                best_score = sc;
                best_move = Some(mv);
            }
            if sc > alpha {
                alpha = sc;
            }
            if alpha >= beta {
                self.registrar_corte(mv, ply, depth, prev, pt_mv);
                break;
            }
            idx = idx + 1;
        }
        self.path.pop();
        let flag = if best_score <= alpha_orig {
            TTFlag::Alpha
        } else if best_score >= beta {
            TTFlag::Beta
        } else {
            TTFlag::Exact
        };
        self.tt_store(key, depth, best_score, flag, best_move);
        Ok(best_score)
    }
}

impl Searcher {
    /// Searches every root move to depth `d` within the window
    /// (`va`, `vb`), stopping at a fail high. Returns the best move and
    /// score found, and whether the search was interrupted.
    fn root_window<E: Fn(&Board) -> i32>(
        &mut self,
        eval: &E,
        b: &Board,
        ordered: &Vec<Move>,
        d: i32,
        va: i32,
        vb: i32,
    ) -> (r: (Move, i32, bool))
        requires
            old(self).inv(),
            eval_ok(eval),
            playable(*b),
            room(*b, 0),
            ordered@.len() > 0,
            forall|k: int| 0 <= k < ordered@.len() ==> is_legal(*b, #[trigger] ordered@[k]),
            -INFINITO <= va < vb <= INFINITO,
            1 <= d <= MAX_DEPTH,
        ensures
            final(self).inv(),
            final(self).mask() == old(self).mask(),
            final(self).game() == old(self).game(),
            final(self).modes() == old(self).modes(),
            ordered@.contains(r.0),
            score_ok(r.1 as int),
            !r.2 ==> final(self).line() == old(self).line() && !final(self).stopped(),
            r.2 ==> final(self).stopped(),
            final(self).limits() == old(self).limits(),
            old(self).unlimited() && !old(self).stopped() ==> !r.2,
            !r.2 ==> root_best(*eval, *b, d as int, vb as int, ordered@, r.0, r.1 as int),
    {
        let mut alpha = va;
        let mut actual_mv = ordered[0];
        let mut actual_sc = -INFINITO;
        let ghost line0 = self.path@;
        self.path.push(b.zobrist);
        let mut interrumpido = false;
        let mut i: usize = 0;
        let ghost mut log: Seq<(Move, int)> = Seq::empty();
        proof {
            lemma_root_log_empty(*eval, *b, d as int, vb as int, ordered@, actual_mv);
        }
        while i < ordered.len()
            invariant_except_break
                alpha < vb,
                !interrumpido,
            invariant
                !interrumpido ==> root_log(*eval, *b, d as int, vb as int, ordered@, log, i as int, actual_mv, actual_sc as int),
                alpha == va || alpha <= actual_sc,
                va < vb,
                self.inv(),
                eval_ok(eval),
                playable(*b),
                room(*b, 0),
                forall|k: int| 0 <= k < ordered@.len() ==> is_legal(*b, #[trigger] ordered@[k]),
                -INFINITO <= va <= alpha,
                vb <= INFINITO,
                1 <= d <= MAX_DEPTH,
                self.mask() == old(self).mask(),
                self.limits() == old(self).limits(),
                old(self).unlimited() && !old(self).stopped() ==> !self.stopped(),
                self.game() == old(self).game(),
                self.modes() == old(self).modes(),
                ordered@.contains(actual_mv),
                score_ok(actual_sc as int),
                score_ok(alpha as int),
                !interrumpido ==> self.line() == line0.push(b.zobrist),
                !interrumpido ==> (i > 0 ==> !self.stopped()),
                interrumpido ==> self.stopped(),
                line0 == old(self).line(),
                i <= ordered@.len(),
                ordered@.len() > 0,
            ensures
                !interrumpido ==> !self.stopped(),
                !interrumpido ==> root_log(*eval, *b, d as int, vb as int, ordered@, log, i as int, actual_mv, actual_sc as int),
                !interrumpido ==> i == ordered@.len() || actual_sc >= vb,
                !interrumpido ==> i > 0,
            decreases ordered@.len() - i,
        {
            let mv = ordered[i];
            assert(ordered@.contains(mv));
            proof {
                crate::movegen::lemma_pseudo_move_ok(*b, mv);
            }
            let pt_mv = match b.piece_at(mv.from) {
                Some((_, pt)) => pt.index(),
                None => 0,
            };
            let next = b.make_move(&mv);
            proof {
                lemma_child(*b, mv, next, 0);
            }
            let ghost pre = *self;
            let ghost a_pre = alpha as int;
            let sc = match self.negamax(eval, &next, d - 1, -vb, -alpha, 1, Some((pt_mv, mv.to as usize)), false) {
                Ok(v) => {
                    proof {
                        assert(nm_value(*eval, pre, next, d - 1, -(vb as int), -a_pre, 1, v as int)) by {
                            reveal(nm_value);
                        }
                        assert(root_scored(*eval, *b, d as int, vb as int, ordered@[i as int], -(v as int))) by {
                            reveal(root_scored);
                            assert(next == crate::board::board_after(*b, ordered@[i as int]));
                            assert(-(-(v as int)) == v as int);
                        }
                    }
                    -v
                },
                Err(_) => {
                    interrumpido = true;
                    break;
                },
            };
            let ghost m0 = actual_mv;
            let ghost s0 = actual_sc as int;
            if sc > actual_sc {
                actual_sc = sc;
                actual_mv = mv;
            }
            if sc > alpha {
                alpha = sc;
            }
            proof {
                lemma_root_log_push(*eval, *b, d as int, vb as int, ordered@, log, i as int, m0, s0, sc as int, actual_mv, actual_sc as int);
                log = log.push((ordered@[i as int], sc as int));
            }
            i = i + 1;
            if alpha >= vb {
                break;
            }
        }
        self.path.pop();
        proof {
            if !interrumpido {
                lemma_root_log_len(*eval, *b, d as int, vb as int, ordered@, log, i as int, actual_mv, actual_sc as int);
            }
        }
        (actual_mv, actual_sc, interrumpido)
    }

    /// One iteration of deepening: searches the root moves to depth `d` in
    /// a window of 50 around the previous score when `aspiration` holds,
    /// widening it by doubling on each fail until the score falls inside,
    /// or in the full window otherwise.
    fn root_depth<E: Fn(&Board) -> i32>(
        &mut self,
        eval: &E,
        b: &Board,
        ordered: &Vec<Move>,
        d: i32,
        mejor_sc: i32,
        aspiration: bool,
    ) -> (r: (Move, i32, bool))
        requires
            old(self).inv(),
            eval_ok(eval),
            playable(*b),
            room(*b, 0),
            ordered@.len() > 0,
            forall|k: int| 0 <= k < ordered@.len() ==> is_legal(*b, #[trigger] ordered@[k]),
            1 <= d <= MAX_DEPTH,
            aspiration ==> -(MATE - 1000) < mejor_sc < MATE - 1000,
        ensures
            final(self).inv(),
            final(self).mask() == old(self).mask(),
            final(self).game() == old(self).game(),
            final(self).modes() == old(self).modes(),
            ordered@.contains(r.0),
            score_ok(r.1 as int),
            !r.2 ==> final(self).line() == old(self).line() && !final(self).stopped(),
            r.2 ==> final(self).stopped(),
            final(self).limits() == old(self).limits(),
            old(self).unlimited() && !old(self).stopped() ==> !r.2,
            !r.2 ==> exists|vb: int| #[trigger]
                root_best(*eval, *b, d as int, vb, ordered@, r.0, r.1 as int) && (r.1 < vb || vb == INFINITO),
    {
        let (mut va, mut vb) = if aspiration {
            (mejor_sc - 50, mejor_sc + 50)
        } else {
            (-INFINITO, INFINITO)
        };
        let mut ancho: i32 = 50;
        let ghost line0 = self.path@;
        loop
            invariant
                self.inv(),
                eval_ok(eval),
                playable(*b),
                room(*b, 0),
                ordered@.len() > 0,
                forall|k: int| 0 <= k < ordered@.len() ==> is_legal(*b, #[trigger] ordered@[k]),
                1 <= d <= MAX_DEPTH,
                self.mask() == old(self).mask(),
                self.limits() == old(self).limits(),
                old(self).unlimited() && !old(self).stopped() ==> !self.stopped(),
                self.game() == old(self).game(),
                self.modes() == old(self).modes(),
                line0 == old(self).line(),
                self.line() == line0,
                ancho >= 50,
                -INFINITO <= va,
                vb <= INFINITO,
                va == -INFINITO || (aspiration && mejor_sc - ancho <= va <= mejor_sc - 50),
                vb == INFINITO || (aspiration && mejor_sc + 50 <= vb <= mejor_sc + ancho),
                aspiration ==> -(MATE - 1000) < mejor_sc < MATE - 1000,
            decreases (va + INFINITO) + (INFINITO - vb),
        {
            let (mv, sc, interrumpido) = self.root_window(eval, b, ordered, d, va, vb);
            if interrumpido {
                return (mv, sc, true);
            }
            if sc <= va && va > -INFINITO {
                ancho = clamp_i32(ancho as i64 * 2);
                let lo = clamp_i32(mejor_sc as i64 - ancho as i64);
                va = if lo < -INFINITO {
                    -INFINITO
                } else {
                    lo
                };
                continue;
            }
            if sc >= vb && vb < INFINITO {
                ancho = clamp_i32(ancho as i64 * 2);
                let hi = clamp_i32(mejor_sc as i64 + ancho as i64);
                vb = if hi > INFINITO {
                    INFINITO
                } else {
                    hi
                };
                continue;
            }
            proof {
                assert(root_best(*eval, *b, d as int, vb as int, ordered@, mv, sc as int));
            }
            return (mv, sc, false);
        }
    }

    /// Iterative deepening to a fixed depth, without a time limit. Returns
    /// the best move of the last completed iteration (or, when stopped, the
    /// best found so far), its score, and the nodes visited.
    pub fn search_fixed_depth<E: Fn(&Board) -> i32>(&mut self, eval: &E, b: &Board, depth: i32) -> (r: (Option<Move>, i32, u64))
        requires
            old(self).inv(),
            eval_ok(eval),
            playable(*b),
            room(*b, 0),
            depth <= MAX_DEPTH,
        ensures
            final(self).inv(),
            final(self).mask() == old(self).mask(),
            final(self).game() == old(self).game(),
            final(self).modes() == old(self).modes(),
            r.0 matches Some(m) ==> is_legal(*b, m),
            depth >= 1 && (exists|m: Move| is_legal(*b, m)) ==> r.0 is Some,
            (forall|m: Move| !is_legal(*b, m)) ==> r.0 is None && r.1 == -INFINITO && r.2 == 0,
            depth < 1 ==> r.0 is None && r.1 == -INFINITO && r.2 == 0,
            score_ok(r.1 as int),
            r.2 == final(self).node_count(),
            final(self).stop_flag() == old(self).stop_flag(),
            old(self).stop_flag() is None ==> !final(self).stopped(),
            old(self).stop_flag() is None && depth >= 1 && (exists|m: Move| is_legal(*b, m)) ==> (r.0 matches Some(m)
                && root_search_result(*eval, *b, depth as int, m, r.1 as int)),
    {
        self.nodes = 0;
        self.deadline = None;
        self.stop = false;
        self.killers = empty_killers();
        self.path = self.game_history.clone();
        let mut mejor_mv: Option<Move> = None;
        let mut mejor_sc: i32 = -INFINITO;
        let mut d: i32 = 1;
        while d <= depth
            invariant
                self.inv(),
                eval_ok(eval),
                playable(*b),
                room(*b, 0),
                depth <= MAX_DEPTH,
                1 <= d,
                self.mask() == old(self).mask(),
                self.game() == old(self).game(),
                self.modes() == old(self).modes(),
                mejor_mv matches Some(m) ==> is_legal(*b, m),
                d > 1 && (exists|m: Move| is_legal(*b, m)) ==> mejor_mv is Some,
                (forall|m: Move| !is_legal(*b, m)) ==> mejor_mv is None && mejor_sc == -INFINITO,
                score_ok(mejor_sc as int),
                self.limits() == (None::<u64>, old(self).stop_flag()),
                old(self).stop_flag() is None ==> !self.stopped(),
                d == 1 ==> self.node_count() == 0 && mejor_mv is None && mejor_sc == -INFINITO,
                depth < 1 ==> d == 1,
                (forall|m: Move| !is_legal(*b, m)) ==> d == 1,
                depth >= 1 ==> d <= depth + 1,
                d > 1 && old(self).stop_flag() is None ==> (mejor_mv matches Some(m) && root_search_result(
                    *eval,
                    *b,
                    (d - 1) as int,
                    m,
                    mejor_sc as int,
                )),
            ensures
                d > depth || (forall|m: Move| !is_legal(*b, m)),
            decreases depth - d + 1,
        {
            let moves = generate_legal(b);
            if moves.len() == 0 {
                proof {
                    assert forall|m: Move| !is_legal(*b, m) by {
                        if is_legal(*b, m) {
                            assert(moves@.contains(m));
                        }
                    }
                }
                break;
            }
            proof {
                assert(moves@.contains(moves@[0]));
                assert(is_legal(*b, moves@[0]));
            }
            let mut ordered = moves.clone();
            proof {
                assert(ordered@ =~= moves@);
                assert forall|k: int| 0 <= k < ordered@.len() implies crate::board::move_ok(*b, #[trigger] ordered@[k]) by {
                    assert(moves@.contains(moves@[k]));
                    assert(is_legal(*b, moves@[k]));
                    crate::movegen::lemma_pseudo_move_ok(*b, moves@[k]);
                }
            }
            let ghost unordered = ordered@;
            self.order_moves_ply(b, &mut ordered, mejor_mv, 0, None);
            proof {
                lemma_sort_moves(unordered, |m: Move| self.order_key(*b, mejor_mv, 0, None, m));
                assert forall|k: int| 0 <= k < ordered@.len() implies is_legal(*b, #[trigger] ordered@[k]) by {
                    assert(ordered@.contains(ordered@[k]));
                    assert(unordered.contains(ordered@[k]));
                    assert(moves@.contains(ordered@[k]));
                }
            }
            let aspiration = self.modo_aspiration && d >= 2 && mejor_sc < MATE - 1000 && mejor_sc > -(MATE - 1000)
                && mejor_sc > -INFINITO;
            let (actual_mv, actual_sc, interrumpido) = self.root_depth(eval, b, &ordered, d, mejor_sc, aspiration);
            proof {
                assert(is_legal(*b, actual_mv));
            }
            if interrumpido {
                let n = self.nodes;
                return (
                    match mejor_mv {
                        Some(m) => Some(m),
                        None => Some(actual_mv),
                    },
                    mejor_sc,
                    n,
                );
            }
            proof {
                assert forall|x: Move| ordered@.contains(x) <==> is_legal(*b, x) by {
                    assert(unordered.contains(x) <==> moves@.contains(x));
                }
                let vb = choose|vb: int|
                    #[trigger] root_best(*eval, *b, d as int, vb, ordered@, actual_mv, actual_sc as int) && (actual_sc < vb
                        || vb == INFINITO);
                assert(root_best(*eval, *b, d as int, vb, ordered@, actual_mv, actual_sc as int));
                assert(root_search_result(*eval, *b, d as int, actual_mv, actual_sc as int));
            }
            mejor_mv = Some(actual_mv);
            mejor_sc = actual_sc;
            d = d + 1;
        }
        let n = self.nodes;
        (mejor_mv, mejor_sc, n)
    }
}

/// `x` saturated to the range of `i32`, as the saturating arithmetic of
/// `i32` gives it.
fn clamp_i32(x: i64) -> (r: i32)
    ensures
        r == if x > i32::MAX {
            i32::MAX as int
        } else if x < i32::MIN {
            i32::MIN as int
        } else {
            x as int
        },
{
    if x > i32::MAX as i64 {
        i32::MAX
    } else if x < i32::MIN as i64 {
        i32::MIN
    } else {
        x as i32
    }
}

/// The information callback can be called with any arguments.
pub open spec fn info_ok<F: Fn(i32, i32, u64, u64)>(f: &F) -> bool {
    forall|d: i32, sc: i32, n: u64, ms: u64| #[trigger] call_requires(*f, (d, sc, n, ms))
}

impl Searcher {
    /// Iterative deepening under a time budget of `movetime_ms` (none: no
    /// limit of its own, only `max_depth` and the external stop flag). After
    /// each completed depth, reports depth, score, nodes and elapsed
    /// milliseconds to `on_info`; stops early on a mate score or when almost
    /// half the budget is spent. The root's best move is stored in the table.
    /// Returns the best move, its score, and the last completed depth.
    pub fn search_time<E: Fn(&Board) -> i32, F: Fn(i32, i32, u64, u64)>(
        &mut self,
        eval: &E,
        b: &Board,
        movetime_ms: Option<u64>,
        max_depth: i32,
        on_info: F,
    ) -> (r: (Option<Move>, i32, i32))
        requires
            old(self).inv(),
            eval_ok(eval),
            info_ok(&on_info),
            playable(*b),
            room(*b, 0),
            max_depth <= MAX_DEPTH,
            movetime_ms matches Some(ms) ==> ms <= u64::MAX / 45,
        ensures
            final(self).inv(),
            final(self).mask() == old(self).mask(),
            final(self).game() == old(self).game(),
            final(self).modes() == old(self).modes(),
            r.0 matches Some(m) ==> is_legal(*b, m),
            r.0 is Some <==> r.2 >= 1,
            0 <= r.2 <= if max_depth < 0 { 0 } else { max_depth },
            score_ok(r.1 as int),
            r.0 is None ==> r.1 == 0,
            (exists|m: Move| is_legal(*b, m)) && max_depth >= 1 && r.0 is None ==> final(self).stopped(),
            (exists|m: Move| is_legal(*b, m)) && max_depth >= 1 && movetime_ms is None && !final(self).stopped()
                ==> r.2 == max_depth || r.1 >= MATE - 1000 || r.1 <= -(MATE - 1000),
            final(self).stop_flag() == old(self).stop_flag(),
            movetime_ms is None && old(self).stop_flag() is None ==> !final(self).stopped(),
            r.0 matches Some(m) ==> root_search_result(*eval, *b, r.2 as int, m, r.1 as int),
            r.0 is Some ==> probe_spec(final(self).table(), final(self).mask(), b.zobrist) == Some(
                (TTEntry { key: b.zobrist, depth: r.2, score: r.1, flag: TTFlag::Exact, best: r.0 }),
            ) || (final(self).table()[tt_slot(final(self).mask(), b.zobrist)] matches Some(o) && o.depth > r.2),
    {
        self.nodes = 0;
        self.stop = false;
        self.killers = empty_killers();
        self.path = self.game_history.clone();
        let inicio = now();
        self.inicio = inicio;
        self.deadline = match movetime_ms {
            Some(ms) => {
                let budget = ms.saturating_sub(30);
                Some(
                    if budget < 10 {
                        10
                    } else {
                        budget
                    },
                )
            },
            None => None,
        };
        let ghost plazo = self.deadline;
        let mut mejor_mv: Option<Move> = None;
        let mut mejor_sc: i32 = 0;
        let mut mejor_prof: i32 = 0;
        let mut d: i32 = 1;
        while d <= max_depth
            invariant_except_break
                mejor_prof == d - 1,
            invariant
                self.inv(),
                eval_ok(eval),
                info_ok(&on_info),
                playable(*b),
                room(*b, 0),
                max_depth <= MAX_DEPTH,
                1 <= d,
                d <= max_depth + 1 || d == 1,
                movetime_ms matches Some(ms) ==> ms <= u64::MAX / 45,
                self.mask() == old(self).mask(),
                self.game() == old(self).game(),
                self.modes() == old(self).modes(),
                mejor_mv matches Some(m) ==> is_legal(*b, m),
                mejor_mv is Some <==> mejor_prof >= 1,
                0 <= mejor_prof <= d,
                mejor_prof <= if max_depth < 0 { 0 } else { max_depth },
                score_ok(mejor_sc as int),
                mejor_mv is None ==> mejor_sc == 0,
                self.limits() == (plazo, old(self).stop_flag()),
                movetime_ms is None ==> plazo is None,
                movetime_ms is None && old(self).stop_flag() is None ==> !self.stopped(),
                mejor_mv matches Some(m) ==> root_search_result(*eval, *b, mejor_prof as int, m, mejor_sc as int),
            ensures
                (exists|m: Move| is_legal(*b, m)) && max_depth >= 1 && mejor_mv is None ==> self.stop,
                (exists|m: Move| is_legal(*b, m)) && max_depth >= 1 && movetime_ms is None && !self.stop
                    ==> mejor_prof == max_depth || mejor_sc >= MATE - 1000 || mejor_sc <= -(MATE - 1000),
            decreases max_depth - d + 1,
        {
            let moves = generate_legal(b);
            if moves.len() == 0 {
                proof {
                    if exists|m: Move| is_legal(*b, m) {
                        let m = choose|m: Move| is_legal(*b, m);
                        assert(moves@.contains(m));
                    }
                }
                break;
            }
            proof {
                assert(moves@.contains(moves@[0]));
            }
            let mut ordered = moves.clone();
            proof {
                assert(ordered@ =~= moves@);
                assert forall|k: int| 0 <= k < ordered@.len() implies crate::board::move_ok(*b, #[trigger] ordered@[k]) by {
                    assert(moves@.contains(moves@[k]));
                    assert(is_legal(*b, moves@[k]));
                    crate::movegen::lemma_pseudo_move_ok(*b, moves@[k]);
                }
            }
            let ghost unordered = ordered@;
            self.order_moves_ply(b, &mut ordered, mejor_mv, 0, None);
            proof {
                lemma_sort_moves(unordered, |m: Move| self.order_key(*b, mejor_mv, 0, None, m));
                assert forall|k: int| 0 <= k < ordered@.len() implies is_legal(*b, #[trigger] ordered@[k]) by {
                    assert(ordered@.contains(ordered@[k]));
                    assert(unordered.contains(ordered@[k]));
                    assert(moves@.contains(ordered@[k]));
                }
                assert forall|x: Move| ordered@.contains(x) <==> is_legal(*b, x) by {
                    assert(unordered.contains(x) <==> moves@.contains(x));
                }
            }
            if self.variante_orden_raiz && ordered.len() >= 2 {
                let ghost sorted = ordered@;
                let m0 = ordered[0];
                let m1 = ordered[1];
                ordered.set(0, m1);
                ordered.set(1, m0);
                proof {
                    assert(ordered@ == sorted.update(0, sorted[1]).update(1, sorted[0]));
                    assert forall|x: Move| ordered@.contains(x) <==> is_legal(*b, x) by {
                        if sorted.contains(x) {
                            let j = choose|j: int| 0 <= j < sorted.len() && sorted[j] == x;
                            if j == 0 {
                                assert(ordered@[1] == x);
                            } else if j == 1 {
                                assert(ordered@[0] == x);
                            } else {
                                assert(ordered@[j] == x);
                            }
                        }
                        if ordered@.contains(x) {
                            let j = choose|j: int| 0 <= j < ordered@.len() && ordered@[j] == x;
                            if j == 0 {
                                assert(sorted[1] == x);
                            } else if j == 1 {
                                assert(sorted[0] == x);
                            } else {
                                assert(sorted[j] == x);
                            }
                        }
                    }
                }
            }
            let aspiration = self.modo_aspiration && d >= 2 && mejor_sc < MATE - 1000 && mejor_sc > -(MATE - 1000);
            let (actual_mv, actual_sc, timed_out) = self.root_depth(eval, b, &ordered, d, mejor_sc, aspiration);
            if timed_out {
                break;
            }
            proof {
                assert(is_legal(*b, actual_mv));
                let vb = choose|vb: int|
                    #[trigger] root_best(*eval, *b, d as int, vb, ordered@, actual_mv, actual_sc as int) && (actual_sc < vb
                        || vb == INFINITO);
                assert(root_best(*eval, *b, d as int, vb, ordered@, actual_mv, actual_sc as int));
                assert(root_search_result(*eval, *b, d as int, actual_mv, actual_sc as int));
            }
            mejor_mv = Some(actual_mv);
            mejor_sc = actual_sc;
            mejor_prof = d;
            let ms_now = elapsed_ms(&inicio);
            on_info(d, mejor_sc, self.nodes, ms_now);
            if mejor_sc >= MATE - 1000 || mejor_sc <= -(MATE - 1000) {
                break;
            }
            match movetime_ms {
                Some(ms) => {
                    if elapsed_ms(&inicio) > ms * 45 / 100 {
                        break;
                    }
                },
                None => {},
            }
            d = d + 1;
        }
        match mejor_mv {
            Some(mv) => {
                let ghost antes = self.table();
                self.tt_store(b.zobrist, mejor_prof, mejor_sc, TTFlag::Exact, Some(mv));
                proof {
                    let e = TTEntry { key: b.zobrist, depth: mejor_prof, score: mejor_sc, flag: TTFlag::Exact, best: mejor_mv };
                    assert(store_spec(antes, self.mask(), e) == self.table());
                    assert(0 <= tt_slot(self.mask(), b.zobrist) < self.table().len()) by {
                        let k = b.zobrist as usize;
                        let m = self.mask();
                        assert(k & m <= m) by (bit_vector);
                    }
                }
            },
            None => {},
        }
        (mejor_mv, mejor_sc, mejor_prof)
    }
}

/// `line` is a sequence of legal moves played one after the other from `b`.
pub open spec fn legal_line(b: Board, line: Seq<Move>) -> bool
    decreases line.len(),
{
    line.len() == 0 || (is_legal(b, line[0]) && legal_line(crate::board::board_after(b, line[0]), line.drop_first()))
}

/// The board reached from `b` by playing `line`.
pub open spec fn after_line(b: Board, line: Seq<Move>) -> Board
    decreases line.len(),
{
    if line.len() == 0 {
        b
    } else {
        after_line(crate::board::board_after(b, line[0]), line.drop_first())
    }
}

/// A legal line followed by a legal move of the position it reaches is a
/// legal line.
pub proof fn lemma_legal_line_push(b: Board, line: Seq<Move>, m: Move)
    requires
        legal_line(b, line),
        is_legal(after_line(b, line), m),
    ensures
        legal_line(b, line.push(m)),
        after_line(b, line.push(m)) == crate::board::board_after(after_line(b, line), m),
    decreases line.len(),
{
    let l1 = line.push(m);
    if line.len() == 0 {
        assert(l1[0] == m);
        assert(l1.drop_first() =~= Seq::<Move>::empty());
        assert(after_line(b, line) == b);
        let a = crate::board::board_after(b, m);
        assert(legal_line(a, l1.drop_first()));
        assert(after_line(a, l1.drop_first()) == a);
    } else {
        let a = crate::board::board_after(b, line[0]);
        lemma_legal_line_push(a, line.drop_first(), m);
        assert(l1[0] == line[0]);
        assert(l1.drop_first() =~= line.drop_first().push(m));
    }
}

/// The principal variation the table holds from `b`: the move stored for
/// `b`, if it is legal there, then that of the position it leads to, and so
/// on, stopping at a position whose key is among `seen` or came up before,
/// and after at most `n` moves.
pub open spec fn pv_spec(tt: Seq<Option<TTEntry>>, mask: usize, b: Board, seen: Seq<u64>, n: nat) -> Seq<Move>
    decreases n,
{
    if n == 0 || seen.contains(b.zobrist) {
        Seq::empty()
    } else {
        match probe_spec(tt, mask, b.zobrist) {
            Some(e) => match e.best {
                Some(m) => if is_legal(b, m) {
                    seq![m] + pv_spec(tt, mask, crate::board::board_after(b, m), seen.push(b.zobrist), (n - 1) as nat)
                } else {
                    Seq::empty()
                },
                None => Seq::empty(),
            },
            None => Seq::empty(),
        }
    }
}

impl Searcher {
    /// The principal variation from `b`, read from the table: the stored
    /// best moves, one position after another, while each is legal, no
    /// position repeats, and fewer than `max_len` moves are taken.
    pub fn extraer_pv(&self, b: &Board, max_len: usize) -> (pv: Vec<Move>)
        requires
            self.inv(),
            playable(*b),
            b.halfmove_clock + max_len < 0xffff_fffe,
            b.fullmove_number + max_len < 0xffff_fffe,
        ensures
            pv@.len() <= max_len,
            legal_line(*b, pv@),
            pv@ == pv_spec(self.table(), self.mask(), *b, Seq::empty(), max_len as nat),
    {
        let mut pv: Vec<Move> = Vec::new();
        let mut vistos: Vec<u64> = Vec::new();
        let mut actual = *b;
        let mut i: usize = 0;
        let ghost total = pv_spec(self.table(), self.mask(), *b, Seq::empty(), max_len as nat);
        while i < max_len
            invariant_except_break
                pv@ + pv_spec(self.table(), self.mask(), actual, vistos@, (max_len - i) as nat) == total,
            invariant
                self.inv(),
                i <= max_len,
                pv@.len() == i,
                legal_line(*b, pv@),
                actual == after_line(*b, pv@),
                playable(actual),
                actual.halfmove_clock + max_len - i < 0xffff_fffe,
                actual.fullmove_number + max_len - i < 0xffff_fffe,
                total == pv_spec(self.table(), self.mask(), *b, Seq::empty(), max_len as nat),
            ensures
                pv@ == total,
            decreases max_len - i,
        {
            let mut seen = false;
            let mut k: usize = 0;
            while k < vistos.len()
                invariant
                    k <= vistos@.len(),
                    seen == vistos@.subrange(0, k as int).contains(actual.zobrist),
                decreases vistos@.len() - k,
            {
                let ghost pre = vistos@.subrange(0, k as int);
                let ghost z = actual.zobrist;
                let ghost post = pre.push(vistos@[k as int]);
                proof {
                    assert(vistos@.subrange(0, k + 1) =~= post);
                    if post.contains(z) && vistos@[k as int] != z {
                        let j = choose|j: int| 0 <= j < post.len() && post[j] == z;
                        assert(pre[j] == z);
                        assert(pre.contains(z));
                    }
                    if pre.contains(z) {
                        let j = choose|j: int| 0 <= j < pre.len() && pre[j] == z;
                        assert(post[j] == z);
                    }
                    if vistos@[k as int] == z {
                        assert(post[k as int] == z);
                    }
                }
                if vistos[k] == actual.zobrist {
                    seen = true;
                }
                k = k + 1;
            }
            proof {
                assert(vistos@.subrange(0, vistos@.len() as int) =~= vistos@);
            }
            let ghost rest = pv_spec(self.table(), self.mask(), actual, vistos@, (max_len - i) as nat);
            let ghost antes = vistos@;
            if seen {
                proof {
                    assert(rest =~= Seq::<Move>::empty());
                    assert(pv@ + rest =~= pv@);
                }
                break;
            }
            vistos.push(actual.zobrist);
            let mv = match self.tt_probe(actual.zobrist) {
                Some(e) => match e.best {
                    Some(m) => m,
                    None => {
                        proof {
                            assert(rest =~= Seq::<Move>::empty());
                            assert(pv@ + rest =~= pv@);
                        }
                        break;
                    },
                },
                None => {
                    proof {
                        assert(rest =~= Seq::<Move>::empty());
                        assert(pv@ + rest =~= pv@);
                    }
                    break;
                },
            };
            let legal = generate_legal(&actual);
            if !contains_move(&legal, mv) {
                proof {
                    assert(!is_legal(actual, mv));
                    assert(rest =~= Seq::<Move>::empty());
                    assert(pv@ + rest =~= pv@);
                }
                break;
            }
            proof {
                assert(is_legal(actual, mv));
                crate::movegen::lemma_pseudo_move_ok(actual, mv);
            }
            let next = actual.make_move(&mv);
            proof {
                lemma_legal_line_push(*b, pv@, mv);
                crate::movegen::lemma_legal_keeps_playable(actual, mv, next);
                let tail = pv_spec(self.table(), self.mask(), next, vistos@, (max_len - i - 1) as nat);
                assert(vistos@ == antes.push(actual.zobrist));
                assert(rest == seq![mv] + tail);
                assert(pv@.push(mv) + tail =~= pv@ + rest);
            }
            pv.push(mv);
            actual = next;
            i = i + 1;
        }
        pv
    }
}

/// What one search thread found: its best move, the score, the depth it
/// completed and the nodes it visited.
#[derive(Clone, Copy, PartialEq, Eq, Structural, Debug)]
pub struct ResultadoHilo {
    pub mv: Option<Move>,
    pub score: i32,
    pub profundidad: i32,
    pub nodos: u64,
}

/// `a` ranks below `b`: smaller depth, or equal depth and smaller score.
pub open spec fn ranks_below(a: ResultadoHilo, b: ResultadoHilo) -> bool {
    a.profundidad < b.profundidad || (a.profundidad == b.profundidad && a.score < b.score)
}

/// The thread result to play: the deepest, and among the deepest the best
/// score; among equals, the last one.
pub fn mejor_resultado(rs: &Vec<ResultadoHilo>) -> (r: usize)
    requires
        rs@.len() > 0,
    ensures
        r < rs@.len(),
        forall|j: int| 0 <= j < rs@.len() ==> !ranks_below(rs@[r as int], #[trigger] rs@[j]),
        forall|j: int| r < j < rs@.len() ==> ranks_below(#[trigger] rs@[j], rs@[r as int]),
{
    let mut best: usize = 0;
    let mut i: usize = 1;
    while i < rs.len()
        invariant
            rs@.len() > 0,
            best < i <= rs@.len(),
            forall|j: int| 0 <= j < i ==> !ranks_below(rs@[best as int], #[trigger] rs@[j]),
            forall|j: int| best < j < i ==> ranks_below(#[trigger] rs@[j], rs@[best as int]),
        decreases rs@.len() - i,
    {
        let a = rs[best];
        let c = rs[i];
        if !(c.profundidad < a.profundidad || (c.profundidad == a.profundidad && c.score < a.score)) {
            best = i;
        }
        i = i + 1;
    }
    best
}

fn same_piece(a: Option<(Color, PieceType)>, c: Color, p: PieceType) -> (r: bool)
    ensures
        r == (a == Some((c, p))),
{
    match a {
        Some((c2, p2)) => {
            let r = c2.index() == c.index() && p2.index() == p.index();
            proof {
                assert(c2.idx() == c.idx() ==> c2 == c);
                assert(p2.idx() == p.idx() ==> p2 == p);
            }
            r
        },
        None => false,
    }
}

/// At most one king of colour `c` stands on the board.
fn single_king(b: &Board, c: Color) -> (r: bool)
    requires
        consistent(*b),
        has_king(*b, c),
    ensures
        r == crate::movegen::unique_king(*b, c),
{
    let k = b.pieces[c.index()][5];
    let rest = k & (k - 1);
    proof {
        crate::bitboard::lemma_clear_lowest(k);
        crate::bitboard::lemma_zero_iff_empty(rest);
        crate::movegen::lemma_king_sq(*b, c);
        assert forall|s: int| #[trigger] piece_on(*b, s) == Some((c, PieceType::King)) <==> crate::bitboard::in_bb(k, s) by {
            crate::board::lemma_piece_on_contents(*b, s);
        }
    }
    if rest == 0 {
        proof {
            assert forall|s1: int, s2: int| #[trigger] piece_on(*b, s1) == Some((c, PieceType::King)) && #[trigger] piece_on(*b, s2) == Some((c, PieceType::King)) implies s1 == s2 by {
                if 0 <= s1 < 64 {
                    assert(!crate::bitboard::in_bb(rest, s1));
                }
                if 0 <= s2 < 64 {
                    assert(!crate::bitboard::in_bb(rest, s2));
                }
            }
        }
        true
    } else {
        proof {
            let s = choose|s: int| 0 <= s < 64 && crate::bitboard::in_bb(rest, s);
            assert(piece_on(*b, s) == Some((c, PieceType::King)));
            assert(piece_on(*b, king_sq(*b, c)) == Some((c, PieceType::King)));
        }
        false
    }
}

/// Whether a well-formed position can be searched: a sound en passant
/// square and castling rights, one king a side, the side that just moved
/// not in check, and move counters with room to grow through a search.
pub fn posicion_jugable(b: &Board) -> (r: bool)
    requires
        wf(*b),
    ensures
        r == (playable(*b) && room(*b, 0)),
{
    if b.halfmove_clock >= 0xffff_fffe - 64 || b.fullmove_number >= 0xffff_fffe - 64 {
        return false;
    }
    let w = b.pieces[0][5];
    let k = b.pieces[1][5];
    if w == 0 || k == 0 {
        return false;
    }
    if !single_king(b, Color::White) || !single_king(b, Color::Black) {
        return false;
    }
    let us = b.turn;
    let them = us.opposite();
    proof {
        crate::movegen::lemma_king_sq(*b, them);
    }
    let their_king = b.king_square(them);
    if b.is_square_attacked_by(their_king, us) {
        proof {
            assert(piece_on(*b, their_king as int) == Some((us.other(), PieceType::King)));
        }
        return false;
    }
    proof {
        assert forall|s: int| #[trigger] piece_on(*b, s) == Some((b.turn.other(), PieceType::King)) implies !attacked_by(*b, s, b.turn) by {
            crate::movegen::lemma_king_sq(*b, them);
            assert(s == king_sq(*b, them));
        }
    }
    let cr = b.castling_rights;
    let wk = same_piece(b.piece_at(4), Color::White, PieceType::King);
    let bk = same_piece(b.piece_at(60), Color::Black, PieceType::King);
    if cr & 1 != 0 && !(wk && same_piece(b.piece_at(7), Color::White, PieceType::Rook)) {
        return false;
    }
    if cr & 2 != 0 && !(wk && same_piece(b.piece_at(0), Color::White, PieceType::Rook)) {
        return false;
    }
    if cr & 4 != 0 && !(bk && same_piece(b.piece_at(63), Color::Black, PieceType::Rook)) {
        return false;
    }
    if cr & 8 != 0 && !(bk && same_piece(b.piece_at(56), Color::Black, PieceType::Rook)) {
        return false;
    }
    match b.ep_square {
        None => true,
        Some(e) => {
            if b.piece_at(e).is_some() {
                return false;
            }
            let r = e / 8;
            match us {
                Color::White => r == 5 && same_piece(b.piece_at(e - 8), Color::Black, PieceType::Pawn),
                Color::Black => r == 2 && same_piece(b.piece_at(e + 8), Color::White, PieceType::Pawn),
            }
        },
    }
}

/// Milliseconds to spend on a move given both clocks: a thirtieth of the
/// mover's clock, and at least 50.
pub open spec fn move_time(wtime: int, btime: int, white: bool) -> int {
    let mio = if white { wtime } else { btime };
    if mio < 1500 {
        50
    } else {
        mio / 30
    }
}

pub fn tiempo_para_jugada(wtime: i64, btime: i64, blancas: bool) -> (ms: u64)
    ensures
        ms == move_time(wtime as int, btime as int, blancas),
{
    let mio = if blancas {
        wtime
    } else {
        btime
    };
    let t = mio / 30;
    if t < 50 {
        50
    } else {
        t as u64
    }
}
} // verus!
