//! Counting the legal lines of play from a position (perft), the usual
//! check of a move generator against known counts.
use vstd::prelude::*;
use vstd::relations::injective_on;
use vstd::set_lib::{lemma_map_size, lemma_set_disjoint_lens};
use crate::board::{Board, board_after};
use crate::movegen::{generate_legal, is_legal, playable, lemma_legal_keeps_playable, lemma_pseudo_move_ok};
use crate::search::legal_line;
use crate::types::Move;

verus! {

/// The legal lines of exactly `d` moves from `b`.
pub open spec fn legal_lines(b: Board, d: nat) -> Set<Seq<Move>> {
    Set::new(|l: Seq<Move>| l.len() == d && legal_line(b, l))
}

/// How many legal lines of `d` moves start from `b`.
pub open spec fn perft_count(b: Board, d: nat) -> nat {
    legal_lines(b, d).len()
}

/// `n` where it fits in a `u64`, else `u64::MAX`.
pub open spec fn saturated(n: nat) -> u64 {
    if n > u64::MAX {
        u64::MAX
    } else {
        n as u64
    }
}

/// The legal lines of `d > 0` moves from `b` that open with a move of `first`.
pub open spec fn lines_opening(b: Board, d: nat, first: Seq<Move>) -> Set<Seq<Move>> {
    Set::new(|l: Seq<Move>| l.len() == d && d > 0 && first.contains(l[0]) && legal_line(b, l))
}

/// Puts `m` in front of a line.
spec fn prefixed(m: Move) -> spec_fn(Seq<Move>) -> Seq<Move> {
    |l: Seq<Move>| seq![m] + l
}

/// The empty line is the one line of no moves.
proof fn lemma_no_moves(b: Board)
    ensures
        legal_lines(b, 0).finite(),
        perft_count(b, 0) == 1,
{
    let e = Seq::<Move>::empty();
    assert(legal_line(b, e));
    assert forall|l: Seq<Move>| #[trigger] legal_lines(b, 0).contains(l) implies l == e by {
        assert(l =~= e);
    }
    assert(legal_lines(b, 0) =~= Set::empty().insert(e));
}

/// The legal lines that open with the legal move `m` are those of the
/// position after `m`, each with `m` in front.
proof fn lemma_lines_opening_with(b: Board, d: nat, m: Move)
    requires
        d > 0,
        is_legal(b, m),
        legal_lines(board_after(b, m), (d - 1) as nat).finite(),
    ensures
        lines_opening(b, d, seq![m]).finite(),
        lines_opening(b, d, seq![m]).len() == perft_count(board_after(b, m), (d - 1) as nat),
{
    let a = board_after(b, m);
    let x = legal_lines(a, (d - 1) as nat);
    let y = lines_opening(b, d, seq![m]);
    let f = prefixed(m);
    assert(injective_on(f, x)) by {
        assert forall|l1: Seq<Move>, l2: Seq<Move>|
            x.contains(l1) && x.contains(l2) && #[trigger] f(l1) == #[trigger] f(l2) implies l1 == l2 by {
            assert(l1 =~= f(l1).drop_first());
            assert(l2 =~= f(l2).drop_first());
        }
    }
    assert(x.map(f) =~= y) by {
        assert forall|l: Seq<Move>| y.contains(l) implies x.map(f).contains(l) by {
            assert(seq![m].contains(l[0]));
            assert(l[0] == m);
            let t = l.drop_first();
            assert(f(t) =~= l);
            assert(x.contains(t));
        }
        assert forall|l: Seq<Move>| x.map(f).contains(l) implies y.contains(l) by {
            let t = choose|t: Seq<Move>| x.contains(t) && f(t) == l;
            assert(l[0] == m);
            assert(l.drop_first() =~= t);
            assert(seq![m][0] == m);
            assert(seq![m].contains(l[0]));
        }
    }
    lemma_map_size(x, y, f);
}

/// Taking one more first move adds the lines that open with it.
proof fn lemma_lines_opening_step(b: Board, d: nat, ms: Seq<Move>, i: int)
    requires
        0 <= i < ms.len(),
        ms.no_duplicates(),
        lines_opening(b, d, ms.take(i)).finite(),
        lines_opening(b, d, seq![ms[i]]).finite(),
    ensures
        lines_opening(b, d, ms.take(i + 1)).finite(),
        lines_opening(b, d, ms.take(i + 1)).len() == lines_opening(b, d, ms.take(i)).len()
            + lines_opening(b, d, seq![ms[i]]).len(),
{
    let s1 = lines_opening(b, d, ms.take(i));
    let s2 = lines_opening(b, d, seq![ms[i]]);
    assert(s1.disjoint(s2)) by {
        assert forall|l: Seq<Move>| s1.contains(l) implies !s2.contains(l) by {
            let j = choose|j: int| 0 <= j < ms.take(i).len() && #[trigger] ms.take(i)[j] == l[0];
            if s2.contains(l) {
                assert(seq![ms[i]].contains(l[0]));
                assert(l[0] == ms[i]);
                assert(ms[j] == ms[i]);
            }
        }
    }
    assert(lines_opening(b, d, ms.take(i + 1)) =~= s1 + s2) by {
        assert forall|l: Seq<Move>| #[trigger] lines_opening(b, d, ms.take(i + 1)).contains(l) implies (s1 + s2).contains(l) by {
            let j = choose|j: int| 0 <= j < ms.take(i + 1).len() && #[trigger] ms.take(i + 1)[j] == l[0];
            if j < i {
                assert(ms.take(i)[j] == l[0]);
                assert(ms.take(i).contains(l[0]));
            } else {
                assert(seq![ms[i]][0] == l[0]);
                assert(seq![ms[i]].contains(l[0]));
            }
        }
        assert forall|l: Seq<Move>| (s1 + s2).contains(l) implies #[trigger] lines_opening(b, d, ms.take(i + 1)).contains(l) by {
            if s1.contains(l) {
                let j = choose|j: int| 0 <= j < ms.take(i).len() && #[trigger] ms.take(i)[j] == l[0];
                assert(ms.take(i + 1)[j] == l[0]);
                assert(ms.take(i + 1).contains(l[0]));
            } else {
                assert(seq![ms[i]].contains(l[0]));
                let j = choose|j: int| 0 <= j < seq![ms[i]].len() && #[trigger] seq![ms[i]][j] == l[0];
                assert(ms.take(i + 1)[i] == l[0]);
                assert(ms.take(i + 1).contains(l[0]));
            }
        }
    }
    lemma_set_disjoint_lens(s1, s2);
}

/// With every legal move among the first moves, the lines opening with one of
/// them are all the legal lines.
proof fn lemma_lines_opening_all(b: Board, d: nat, ms: Seq<Move>)
    requires
        d > 0,
        forall|m: Move| ms.contains(m) <==> is_legal(b, m),
    ensures
        lines_opening(b, d, ms) == legal_lines(b, d),
{
    assert(lines_opening(b, d, ms) =~= legal_lines(b, d));
}

/// No line of a positive number of moves opens with a move of an empty list.
proof fn lemma_lines_opening_none(b: Board, d: nat)
    ensures
        lines_opening(b, d, Seq::<Move>::empty()).finite(),
        lines_opening(b, d, Seq::<Move>::empty()).len() == 0,
{
    assert(lines_opening(b, d, Seq::<Move>::empty()) =~= Set::empty());
}

/// Counts the legal lines of `depth` moves from `b`; a count past `u64::MAX`
/// is given as `u64::MAX`.
pub fn perft(b: &Board, depth: u32) -> (n: u64)
    requires
        playable(*b),
        b.halfmove_clock + depth < 0xffff_fffe,
        b.fullmove_number + depth < 0xffff_fffe,
    ensures
        legal_lines(*b, depth as nat).finite(),
        n == saturated(perft_count(*b, depth as nat)),
    decreases depth,
{
    if depth == 0 {
        proof {
            lemma_no_moves(*b);
        }
        return 1;
    }
    let moves = generate_legal(b);
    let ghost d = depth as nat;
    let mut n: u64 = 0;
    let mut i: usize = 0;
    proof {
        assert(moves@.take(0) =~= Seq::<Move>::empty());
        lemma_lines_opening_none(*b, d);
    }
    while i < moves.len()
        invariant
            0 <= i <= moves@.len(),
            d == depth as nat,
            depth > 0,
            playable(*b),
            b.halfmove_clock + depth < 0xffff_fffe,
            b.fullmove_number + depth < 0xffff_fffe,
            forall|m: Move| moves@.contains(m) <==> is_legal(*b, m),
            moves@.no_duplicates(),
            lines_opening(*b, d, moves@.take(i as int)).finite(),
            n == saturated(lines_opening(*b, d, moves@.take(i as int)).len()),
        decreases moves@.len() - i,
    {
        let mv = moves[i];
        proof {
            assert(moves@[i as int] == mv);
            assert(moves@.contains(mv));
            assert(is_legal(*b, mv));
            lemma_pseudo_move_ok(*b, mv);
        }
        let a = b.make_move(&mv);
        proof {
            lemma_legal_keeps_playable(*b, mv, a);
        }
        let c = perft(&a, depth - 1);
        proof {
            lemma_lines_opening_with(*b, d, mv);
            lemma_lines_opening_step(*b, d, moves@, i as int);
        }
        n = n.saturating_add(c);
        i = i + 1;
    }
    proof {
        assert(moves@.take(moves@.len() as int) =~= moves@);
        lemma_lines_opening_all(*b, d, moves@);
    }
    n
}

/// Each legal move of `b`, once, with the number of legal lines of
/// `depth - 1` moves that follow it (past `u64::MAX`, `u64::MAX`).
pub fn divide(b: &Board, depth: u32) -> (r: Vec<(Move, u64)>)
    requires
        playable(*b),
        depth >= 1,
        b.halfmove_clock + depth < 0xffff_fffe,
        b.fullmove_number + depth < 0xffff_fffe,
    ensures
        forall|m: Move| r@.map_values(|p: (Move, u64)| p.0).contains(m) <==> is_legal(*b, m),
        r@.map_values(|p: (Move, u64)| p.0).no_duplicates(),
        forall|k: int|
            0 <= k < r@.len() ==> #[trigger] r@[k].1 == saturated(
                perft_count(board_after(*b, r@[k].0), (depth - 1) as nat),
            ),
{
    let moves = generate_legal(b);
    let mut r: Vec<(Move, u64)> = Vec::new();
    let mut i: usize = 0;
    while i < moves.len()
        invariant
            0 <= i <= moves@.len(),
            depth >= 1,
            playable(*b),
            b.halfmove_clock + depth < 0xffff_fffe,
            b.fullmove_number + depth < 0xffff_fffe,
            forall|m: Move| moves@.contains(m) <==> is_legal(*b, m),
            moves@.no_duplicates(),
            r@.len() == i,
            forall|k: int| 0 <= k < i ==> #[trigger] r@[k].0 == moves@[k],
            forall|k: int|
                0 <= k < i ==> #[trigger] r@[k].1 == saturated(
                    perft_count(board_after(*b, r@[k].0), (depth - 1) as nat),
                ),
        decreases moves@.len() - i,
    {
        let mv = moves[i];
        proof {
            assert(moves@[i as int] == mv);
            assert(moves@.contains(mv));
            assert(is_legal(*b, mv));
            lemma_pseudo_move_ok(*b, mv);
        }
        let a = b.make_move(&mv);
        proof {
            lemma_legal_keeps_playable(*b, mv, a);
        }
        let c = perft(&a, depth - 1);
        r.push((mv, c));
        i = i + 1;
    }
    proof {
        assert(r@.map_values(|p: (Move, u64)| p.0) =~= moves@);
    }
    r
}

} // verus!
