//! What the exhaustive solvers share: the sequences that a search still
//! follows, and why the first solutions it meets are the shortest.

use crate::board::{solved, stuck, BoardView};
use crate::game::{
    is_minimal_solution, is_solution, legal, lemma_play_push, lemma_play_split,
    lemma_solution_never_stuck, play,
};
use crate::walk::is_move;
use vstd::prelude::*;

verus! {

/// The sequences that a list of vectors holds.
pub open spec fn seqs_of(v: Seq<Vec<u8>>) -> Seq<Seq<u8>> {
    v.map_values(|x: Vec<u8>| x@)
}

/// A search goes on from the board `b`: it is neither solved nor stuck.
pub open spec fn goes_on(b: BoardView) -> bool {
    !solved(b.cells) && !stuck(b.cells)
}

/// `s` is a sequence of legal moves that a search follows to its end: the
/// search went on from every board before the last one.
pub open spec fn alive(b: BoardView, s: Seq<u8>) -> bool {
    legal(b, s) && forall|n: int| 0 <= n < s.len() ==> goes_on(#[trigger] play(b, s.take(n)))
}

/// No sequence of fewer than `d` moves that a search follows solves the
/// board.
pub open spec fn none_before(b: BoardView, d: int) -> bool {
    forall|s: Seq<u8>| #[trigger] alive(b, s) && s.len() < d ==> !solved(play(b, s).cells)
}

/// The beginning of a legal sequence is legal.
pub proof fn lemma_legal_take(b: BoardView, s: Seq<u8>, n: int)
    requires
        legal(b, s),
        0 <= n <= s.len(),
    ensures
        legal(b, s.take(n)),
{
    assert(s.take(n) + s.skip(n) =~= s);
    lemma_play_split(b, s.take(n), s.skip(n));
}

/// The beginning of a sequence that a search follows is followed too.
pub proof fn lemma_alive_take(b: BoardView, s: Seq<u8>, n: int)
    requires
        alive(b, s),
        0 <= n <= s.len(),
    ensures
        alive(b, s.take(n)),
        n < s.len() ==> goes_on(play(b, s.take(n))) && is_move(play(b, s.take(n)), s[n] as int),
{
    lemma_legal_take(b, s, n);
    assert forall|m: int| 0 <= m < n implies goes_on(#[trigger] play(b, s.take(n).take(m))) by {
        assert(s.take(n).take(m) =~= s.take(m));
    }
    if n < s.len() {
        lemma_legal_take(b, s, n + 1);
        assert(s.take(n + 1).drop_last() =~= s.take(n));
    }
}

/// A search that goes on from the end of a sequence follows the sequence
/// on through any legal move.
pub proof fn lemma_alive_push(b: BoardView, s: Seq<u8>, t: u8)
    requires
        alive(b, s),
        goes_on(play(b, s)),
        is_move(play(b, s), t as int),
    ensures
        alive(b, s.push(t)),
{
    let r = s.push(t);
    lemma_play_push(b, s, t);
    assert forall|n: int| 0 <= n < r.len() implies goes_on(#[trigger] play(b, r.take(n))) by {
        if n < s.len() {
            assert(r.take(n) =~= s.take(n));
        } else {
            assert(r.take(n) =~= s);
        }
    }
}

/// A solution has a beginning that a search follows and that solves the
/// board.
pub proof fn lemma_solution_found(b: BoardView, s: Seq<u8>, n: int) -> (m: int)
    requires
        b.wf(),
        is_solution(b, s),
        0 <= n <= s.len(),
        alive(b, s.take(n)),
    ensures
        n <= m <= s.len(),
        alive(b, s.take(m)),
        solved(play(b, s.take(m)).cells),
    decreases s.len() - n,
{
    if solved(play(b, s.take(n)).cells) {
        n
    } else {
        assert(n < s.len()) by {
            if n == s.len() {
                assert(s.take(n) =~= s);
            }
        }
        lemma_solution_never_stuck(b, s, n);
        lemma_legal_take(b, s, n + 1);
        assert(s.take(n + 1) =~= s.take(n).push(s[n]));
        lemma_play_push(b, s.take(n), s[n]);
        lemma_alive_push(b, s.take(n), s[n]);
        lemma_solution_found(b, s, n + 1)
    }
}

/// A followed sequence of `d` moves that solves the board, where none of
/// fewer moves does, is a solution of the least length.
pub proof fn lemma_first_is_minimal(b: BoardView, d: int, s: Seq<u8>)
    requires
        b.wf(),
        none_before(b, d),
        alive(b, s),
        s.len() == d,
        solved(play(b, s).cells),
    ensures
        is_minimal_solution(b, s),
{
    assert forall|r: Seq<u8>| is_solution(b, r) implies r.len() >= s.len() by {
        assert(r.take(0) =~= Seq::<u8>::empty());
        let m = lemma_solution_found(b, r, 0);
        assert(alive(b, r.take(m)));
    }
}

/// Where a followed sequence of `d` moves solves the board and none of
/// fewer moves does, every solution of the least length has `d` moves and is
/// followed.
pub proof fn lemma_minimal_is_first(b: BoardView, d: int, w: Seq<u8>, s: Seq<u8>)
    requires
        b.wf(),
        none_before(b, d),
        alive(b, w),
        w.len() == d,
        solved(play(b, w).cells),
        is_minimal_solution(b, s),
    ensures
        s.len() == d,
        alive(b, s),
{
    assert(s.take(0) =~= Seq::<u8>::empty());
    let m = lemma_solution_found(b, s, 0);
    let p = s.take(m);
    assert(alive(b, p));
    assert(is_solution(b, p));
    assert(is_solution(b, w));
    assert(p.len() >= s.len());
    assert(p =~= s);
}

/// A list without repetitions stays so when a sequence that it does not
/// hold is put at its end, and then holds that sequence besides.
pub proof fn lemma_push_seq(w: Seq<Seq<u8>>, s: Seq<u8>)
    ensures
        forall|x: Seq<u8>| #[trigger] w.push(s).contains(x) <==> (w.contains(x) || x == s),
        w.no_duplicates() && !w.contains(s) ==> w.push(s).no_duplicates(),
{
    let g = w.push(s);
    assert forall|x: Seq<u8>| #[trigger] g.contains(x) <==> (w.contains(x) || x == s) by {
        if w.contains(x) {
            let i = choose|i: int| 0 <= i < w.len() && w[i] == x;
            assert(g[i] == x);
        }
        if x == s {
            assert(g[w.len() as int] == s);
        }
        if g.contains(x) {
            let i = choose|i: int| 0 <= i < g.len() && g[i] == x;
            if i < w.len() {
                assert(w[i] == x);
            }
        }
    }
    if w.no_duplicates() && !w.contains(s) {
        assert forall|i: int, j: int| 0 <= i < g.len() && 0 <= j < g.len() && i != j implies g[i] != g[j] by {
            if i < w.len() {
                assert(w.contains(w[i]));
            }
            if j < w.len() {
                assert(w.contains(w[j]));
            }
        }
    }
}

/// Two lists that each hold the solutions of the least length, none twice,
/// hold the same sequences and are equally long. A solution from elsewhere
/// that is no longer than these is one of them.
pub proof fn lemma_solvers_agree(b: BoardView, x: Seq<Seq<u8>>, y: Seq<Seq<u8>>, s: Seq<u8>)
    requires
        x.no_duplicates(),
        y.no_duplicates(),
        forall|r: Seq<u8>| #[trigger] x.contains(r) <==> is_minimal_solution(b, r),
        forall|r: Seq<u8>| #[trigger] y.contains(r) <==> is_minimal_solution(b, r),
    ensures
        x.to_set() == y.to_set(),
        x.len() == y.len(),
        is_solution(b, s) && x.len() > 0 && s.len() <= x[0].len() ==> x.contains(s) && y.contains(s),
{
    assert(x.to_set() =~= y.to_set());
    x.unique_seq_to_set();
    y.unique_seq_to_set();
    if is_solution(b, s) && x.len() > 0 && s.len() <= x[0].len() {
        assert(x.contains(x[0]));
        assert(is_minimal_solution(b, x[0]));
        assert forall|r: Seq<u8>| is_solution(b, r) implies r.len() >= s.len() by {
            assert(r.len() >= x[0].len());
        }
    }
}

} // verus!
