//! Helpers shared by the solvers: a first-in first-out queue and the
//! handling of solution lists.

use crate::board::{Board, BoardView};
use crate::distance::is_distance;
use crate::game::{
    is_solution, legal, lemma_play_push, lemma_play_wf, lemma_solution_never_stuck, play,
};
use crate::search::{lemma_legal_take, seqs_of};
use crate::text::{numbers, read_numbers, ParseError};
use crate::walk::is_move;
use std::collections::VecDeque;
use vstd::prelude::*;
use vstd::string::StringSliceAdditionalSpecFns;

verus! {

/// A first-in first-out queue.
#[derive(Debug)]
pub struct Queue<T> {
    v: VecDeque<T>,
}

impl<T> View for Queue<T> {
    type V = Seq<T>;

    /// The waiting items, the one that leaves next first.
    closed spec fn view(&self) -> Seq<T> {
        self.v@
    }
}

impl<T> Queue<T> {
    /// An empty queue.
    pub fn new() -> (q: Self)
        ensures
            q@ == Seq::<T>::empty(),
    {
        Self { v: VecDeque::<T>::new() }
    }

    /// An empty queue with room for `n` items.
    pub fn with_capacity(n: usize) -> (q: Self)
        ensures
            q@ == Seq::<T>::empty(),
    {
        Self { v: VecDeque::<T>::with_capacity(n) }
    }

    /// Puts `x` at the end of the queue.
    pub fn push(&mut self, x: T)
        ensures
            final(self)@ == old(self)@.push(x),
    {
        self.v.push_back(x);
    }

    /// Takes the item at the head of the queue, if there is one.
    pub fn pop(&mut self) -> (r: Option<T>)
        ensures
            old(self)@.len() == 0 ==> r.is_none() && final(self)@ == old(self)@,
            old(self)@.len() > 0 ==> r == Some(old(self)@[0]) && final(self)@ == old(self)@.subrange(
                1,
                old(self)@.len() as int,
            ),
    {
        self.v.pop_front()
    }

    /// Removes every item.
    pub fn clear(&mut self)
        ensures
            final(self)@ == Seq::<T>::empty(),
    {
        self.v.clear();
    }

    /// Whether nothing waits.
    pub fn is_empty(&self) -> (r: bool)
        ensures
            r == (self@.len() == 0),
    {
        self.v.len() == 0
    }

    /// Number of waiting items.
    pub fn len(&self) -> (n: usize)
        ensures
            n == self@.len(),
    {
        self.v.len()
    }
}

/// A copy of a move sequence.
pub fn copy_moves(v: &Vec<u8>) -> (r: Vec<u8>)
    ensures
        r@ == v@,
{
    let r = v.clone();
    assert(r@ =~= v@);
    r
}

/// Where the comment of a line begins: at its first `#`, or at its end.
pub open spec fn comment_start(s: Seq<u8>, i: int) -> int
    decreases s.len() - i,
{
    if i >= s.len() || s[i] == 0x23 {
        i
    } else {
        comment_start(s, i + 1)
    }
}

/// The moves that a line of text lists: the numbers before its comment.
pub open spec fn solution_of_text(s: Seq<u8>) -> Option<Seq<u8>> {
    numbers(s.take(comment_start(s, 0)))
}

/// A comment begins at the first `#`.
pub proof fn lemma_comment_start(s: Seq<u8>, i: int, h: int)
    requires
        0 <= i <= h <= s.len(),
        forall|k: int| i <= k < h ==> #[trigger] s[k] != 0x23,
        h < s.len() ==> s[h] == 0x23,
    ensures
        comment_start(s, i) == h,
    decreases h - i,
{
    if i < h {
        lemma_comment_start(s, i + 1, h);
    }
}

/// Reads a solution from a line of text: numbers of cells with white space
/// between them. What follows a `#` is a comment and is not read.
pub fn parse_solution(line: &str) -> (r: Result<Vec<u8>, ParseError>)
    ensures
        match r {
            Ok(v) => solution_of_text(line.spec_bytes()) == Some(v@),
            Err(e) => solution_of_text(line.spec_bytes()).is_none() && e == ParseError::BadInteger,
        },
{
    let s = line.as_bytes();
    let mut head: Vec<u8> = Vec::new();
    let mut h: usize = 0;
    while h < s.len() && s[h] != 0x23
        invariant
            h <= s@.len(),
            forall|k: int| 0 <= k < h ==> #[trigger] s@[k] != 0x23,
            head@ == s@.take(h as int),
        decreases s@.len() - h,
    {
        head.push(s[h]);
        assert(head@ =~= s@.take(h + 1));
        h = h + 1;
    }
    proof {
        lemma_comment_start(s@, 0, h as int);
    }
    read_numbers(head.as_slice())
}

/// Whether `x` occurs in `v`.
pub fn contains_move(v: &Vec<u8>, x: u8) -> (r: bool)
    ensures
        r == v@.contains(x),
{
    let mut i: usize = 0;
    while i < v.len()
        invariant
            i <= v@.len(),
            forall|k: int| 0 <= k < i ==> v@[k] != x,
        decreases v@.len() - i,
    {
        if v[i] == x {
            return true;
        }
        i = i + 1;
    }
    false
}

/// Some beginning of `s` is a solution of the board.
pub open spec fn solves_early(b: BoardView, s: Seq<u8>) -> bool {
    exists|n: int| 0 <= n <= s.len() && is_solution(b, #[trigger] s.take(n))
}

/// Whether the moves of `sol`, made in order, solve the board. The answer
/// is yes too when the board is solved before all moves are made.
pub fn verify_solution(board: &Board, sol: &[u8]) -> (r: bool)
    requires
        board@.wf(),
    ensures
        r == solves_early(board@, sol@),
{
    let ghost b = board@;
    let ghost s = sol@;
    let mut cur = board.clone();
    let mut i: usize = 0;
    proof {
        assert(s.take(0) =~= Seq::<u8>::empty());
    }
    while i < sol.len()
        invariant
            i <= s.len(),
            s == sol@,
            b.wf(),
            b == board@,
            cur@ == play(b, s.take(i as int)),
            legal(b, s.take(i as int)),
            forall|n: int| 0 <= n < i ==> !is_solution(b, #[trigger] s.take(n)),
        decreases s.len() - i,
    {
        let e = sol[i];
        let ghost p = s.take(i as int);
        proof {
            lemma_play_wf(b, p);
        }
        if cur.is_solved() {
            assert(is_solution(b, s.take(i as int)));
            return true;
        }
        let stuck = cur.is_stuck();
        let moves = cur.moves();
        if stuck || moves.len() == 0 || !contains_move(&moves, e) {
            proof {
                assert forall|n: int| 0 <= n <= s.len() implies !is_solution(b, #[trigger] s.take(n)) by {
                    if n > i && is_solution(b, s.take(n)) {
                        let q = s.take(n);
                        assert(q.take(i as int) =~= p);
                        lemma_solution_never_stuck(b, q, i as int);
                        lemma_legal_take(b, q, i + 1);
                        assert(q.take(i + 1).drop_last() =~= p);
                        assert(q.take(i + 1).last() == e);
                        assert(moves@.contains(e));
                    }
                }
            }
            return false;
        }
        proof {
            assert(s.take(i + 1) =~= p.push(e));
            lemma_play_push(b, p, e);
        }
        cur.move_(e);
        i = i + 1;
    }
    proof {
        assert(s.take(s.len() as int) =~= s);
    }
    cur.is_solved()
}

/// Whether every move of `sol` is a legal move of the board on which it is
/// made.
pub fn is_legal(board: &Board, sol: &[u8]) -> (r: bool)
    requires
        board@.wf(),
    ensures
        r == legal(board@, sol@),
{
    let ghost b = board@;
    let ghost s = sol@;
    let mut cur = board.clone();
    let mut i: usize = 0;
    proof {
        assert(s.take(0) =~= Seq::<u8>::empty());
    }
    while i < sol.len()
        invariant
            i <= s.len(),
            s == sol@,
            b == board@,
            b.wf(),
            cur@ == play(b, s.take(i as int)),
            legal(b, s.take(i as int)),
        decreases s.len() - i,
    {
        let e = sol[i];
        let ghost p = s.take(i as int);
        proof {
            lemma_play_wf(b, p);
            assert(s.take(i + 1) =~= p.push(e));
            lemma_play_push(b, p, e);
        }
        let moves = cur.moves();
        if !contains_move(&moves, e) {
            proof {
                if legal(b, s) {
                    lemma_legal_take(b, s, i + 1);
                }
            }
            return false;
        }
        cur.move_(e);
        i = i + 1;
    }
    proof {
        assert(s.take(s.len() as int) =~= s);
    }
    true
}

/// The number of steps of the actor's shortest way from `src` to `dst`.
pub open spec fn steps_between(cells: Seq<u8>, src: int, dst: int) -> int {
    choose|d: int| is_distance(cells, src, dst, d)
}

/// The number of steps that the actor walks to make the moves of `s` in
/// order: from its cell to the first rotator, from there to the second, and
/// so on, each time the shortest way.
pub open spec fn travel(b: BoardView, s: Seq<u8>) -> int
    decreases s.len(),
{
    if s.len() == 0 {
        0
    } else {
        let p = play(b, s.drop_last());
        travel(b, s.drop_last()) + steps_between(p.cells, p.pos, s.last() as int)
    }
}

/// The length of the shortest way is one number.
pub proof fn lemma_steps_between(cells: Seq<u8>, src: int, dst: int, d: int)
    requires
        is_distance(cells, src, dst, d),
    ensures
        steps_between(cells, src, dst) == d,
{
    let e = steps_between(cells, src, dst);
    assert(is_distance(cells, src, dst, e));
    let p = choose|p: Seq<int>| crate::walk::walk_to(cells, src, dst, p) && p.len() == d;
    let q = choose|q: Seq<int>| crate::walk::walk_to(cells, src, dst, q) && q.len() == e;
    assert(crate::walk::walk_to(cells, src, dst, p));
    assert(crate::walk::walk_to(cells, src, dst, q));
}

/// The number of steps that the actor walks to make the moves of `sol`.
/// Every move must be legal when it is made.
pub fn step_of_solution(board: &Board, sol: &[u8]) -> (r: u32)
    requires
        board@.wf(),
        legal(board@, sol@),
        sol@.len() <= 0x3ff_ffff,
    ensures
        r == travel(board@, sol@),
        r <= 64 * sol@.len(),
{
    let ghost b = board@;
    let ghost s = sol@;
    let mut res: u32 = 0;
    let mut cur = board.clone();
    let mut i: usize = 0;
    proof {
        assert(s.take(0) =~= Seq::<u8>::empty());
    }
    while i < sol.len()
        invariant
            i <= s.len(),
            s == sol@,
            s.len() <= 0x3ff_ffff,
            b.wf(),
            legal(b, s),
            b == board@,
            cur@ == play(b, s.take(i as int)),
            res == travel(b, s.take(i as int)),
            res <= 64 * i,
        decreases s.len() - i,
    {
        let e = sol[i];
        let ghost p = s.take(i as int);
        proof {
            lemma_legal_take(b, s, i as int);
            lemma_legal_take(b, s, i + 1);
            lemma_play_wf(b, p);
            assert(s.take(i + 1) =~= p.push(e));
            assert(s.take(i + 1).drop_last() =~= p);
            lemma_play_push(b, p, e);
        }
        match cur.calc_step(cur.pos, e) {
            Some(d) => {
                proof {
                    lemma_steps_between(cur@.cells, cur@.pos, e as int, d as int);
                }
                res = res + d;
            },
            None => {
                proof {
                    assert(is_move(cur@, e as int));
                }
            },
        }
        cur.move_(e);
        i = i + 1;
    }
    proof {
        assert(s.take(s.len() as int) =~= s);
    }
    res
}

/// A solution together with the number of steps that the actor walks.
pub type Scored = (Vec<u8>, u32);

/// The sequences and step counts that a list of scored solutions holds.
pub open spec fn entries_of(v: Seq<Scored>) -> Seq<(Seq<u8>, u32)> {
    v.map_values(|e: Scored| (e.0@, e.1))
}

/// Each solution of `sols` with the number of steps that it makes the actor
/// walk.
pub open spec fn with_steps(b: BoardView, sols: Seq<Seq<u8>>) -> Seq<(Seq<u8>, u32)> {
    sols.map_values(|s: Seq<u8>| (s, travel(b, s) as u32))
}

/// `x` may stand before `y`: it has fewer moves, or as many moves and no
/// more steps.
pub open spec fn comes_first(x: (Seq<u8>, u32), y: (Seq<u8>, u32)) -> bool {
    x.0.len() < y.0.len() || (x.0.len() == y.0.len() && x.1 <= y.1)
}

/// The entries rise by moves and, among those with as many moves, by steps.
pub open spec fn in_order(v: Seq<(Seq<u8>, u32)>) -> bool {
    forall|i: int, j: int| 0 <= i < j < v.len() ==> comes_first(#[trigger] v[i], #[trigger] v[j])
}

/// The place at which `x` joins the ordered list `v`: behind the last entry
/// that may stand before it.
pub open spec fn insert_place(v: Seq<(Seq<u8>, u32)>, x: (Seq<u8>, u32)) -> int
    decreases v.len(),
{
    if v.len() == 0 {
        0
    } else if comes_first(v.last(), x) {
        v.len() as int
    } else {
        insert_place(v.drop_last(), x)
    }
}

/// The entries of `w` in order; entries that may stand on either side of
/// each other keep the order that they have in `w`.
pub open spec fn sorted(w: Seq<(Seq<u8>, u32)>) -> Seq<(Seq<u8>, u32)>
    decreases w.len(),
{
    if w.len() == 0 {
        w
    } else {
        let v = sorted(w.drop_last());
        v.insert(insert_place(v, w.last()), w.last())
    }
}

/// An entry joins an ordered list at a place within the list, behind the
/// entries that may stand before it and before the others.
pub proof fn lemma_insert_place(v: Seq<(Seq<u8>, u32)>, x: (Seq<u8>, u32))
    requires
        in_order(v),
    ensures
        0 <= insert_place(v, x) <= v.len(),
        forall|i: int| 0 <= i < insert_place(v, x) ==> comes_first(#[trigger] v[i], x),
        forall|i: int| insert_place(v, x) <= i < v.len() ==> comes_first(x, #[trigger] v[i]),
        in_order(v.insert(insert_place(v, x), x)),
    decreases v.len(),
{
    let p = insert_place(v, x);
    if v.len() > 0 {
        if comes_first(v.last(), x) {
            assert forall|i: int| 0 <= i < v.len() implies comes_first(#[trigger] v[i], x) by {
                if i < v.len() - 1 {
                    assert(comes_first(v[i], v[v.len() - 1]));
                }
            }
        } else {
            let u = v.drop_last();
            assert forall|i: int, j: int| 0 <= i < j < u.len() implies comes_first(#[trigger] u[i], #[trigger] u[j]) by {
                assert(comes_first(v[i], v[j]));
            }
            lemma_insert_place(u, x);
            assert forall|i: int| 0 <= i < p implies comes_first(#[trigger] v[i], x) by {
                assert(v[i] == u[i]);
            }
            assert forall|i: int| p <= i < v.len() implies comes_first(x, #[trigger] v[i]) by {
                if i < u.len() {
                    assert(v[i] == u[i]);
                }
            }
        }
    }
    let r = v.insert(p, x);
    assert forall|i: int, j: int| 0 <= i < j < r.len() implies comes_first(#[trigger] r[i], #[trigger] r[j]) by {
        if i < p && j > p {
            assert(comes_first(v[i], x));
            assert(comes_first(x, v[j - 1]));
        } else if i < p && j < p {
            assert(comes_first(v[i], v[j]));
        } else if i > p {
            assert(comes_first(v[i - 1], v[j - 1]));
        } else if i == p {
            assert(comes_first(x, v[j - 1]));
        } else {
            assert(comes_first(v[i], x));
        }
    }
}

/// Sorting puts the entries in order and neither adds nor loses one.
pub proof fn lemma_sorted(w: Seq<(Seq<u8>, u32)>)
    ensures
        in_order(sorted(w)),
        sorted(w).to_multiset() == w.to_multiset(),
        sorted(w).len() == w.len(),
    decreases w.len(),
{
    broadcast use vstd::seq_lib::group_to_multiset_ensures;

    if w.len() > 0 {
        let u = w.drop_last();
        let v = sorted(u);
        lemma_sorted(u);
        lemma_insert_place(v, w.last());
        assert(u.push(w.last()) =~= w);
    }
}

/// Each solution with the number of steps that it makes the actor walk, in
/// order of their moves and, among those with as many moves, of their
/// steps. Every move of every solution must be legal when it is made.
pub fn solutions_with_step(board: &Board, sols: &[Vec<u8>]) -> (r: Vec<Scored>)
    requires
        board@.wf(),
        forall|i: int| 0 <= i < sols@.len() ==> legal(board@, #[trigger] sols@[i]@) && sols@[i]@.len() <= 0x3ff_ffff,
    ensures
        entries_of(r@) == sorted(with_steps(board@, seqs_of(sols@))),
        in_order(entries_of(r@)),
        entries_of(r@).to_multiset() == with_steps(board@, seqs_of(sols@)).to_multiset(),
{
    let ghost b = board@;
    let ghost all = with_steps(b, seqs_of(sols@));
    let mut res: Vec<Scored> = Vec::new();
    let mut i: usize = 0;
    proof {
        assert(all.take(0) =~= Seq::<(Seq<u8>, u32)>::empty());
        assert(entries_of(res@) =~= Seq::<(Seq<u8>, u32)>::empty());
    }
    while i < sols.len()
        invariant
            i <= sols@.len(),
            b == board@,
            b.wf(),
            all == with_steps(b, seqs_of(sols@)),
            forall|k: int| 0 <= k < sols@.len() ==> legal(b, #[trigger] sols@[k]@) && sols@[k]@.len() <= 0x3ff_ffff,
            entries_of(res@) == sorted(all.take(i as int)),
        decreases sols@.len() - i,
    {
        let sol = &sols[i];
        let step = step_of_solution(board, sol.as_slice());
        let ghost x = (sol@, step);
        let ghost v = entries_of(res@);
        proof {
            assert(all[i as int] == x);
            assert(all.take(i + 1).drop_last() =~= all.take(i as int));
            assert(all.take(i + 1).last() == x);
            lemma_sorted(all.take(i as int));
            lemma_insert_place(v, x);
        }
        let mut p: usize = res.len();
        proof {
            assert(v.take(res@.len() as int) =~= v);
        }
        while p > 0 && !(res[p - 1].0.len() < sol.len() || (res[p - 1].0.len() == sol.len() && res[p - 1].1 <= step))
            invariant
                p <= res@.len(),
                v == entries_of(res@),
                x == (sol@, step),
                insert_place(v.take(p as int), x) == insert_place(v, x),
            decreases p,
        {
            proof {
                assert(v.take(p as int).last() == v[p - 1]);
                assert(v[p - 1] == (res@[p - 1].0@, res@[p - 1].1));
                assert(v.take(p as int).drop_last() =~= v.take(p - 1));
            }
            p = p - 1;
        }
        proof {
            assert(v.take(res@.len() as int) =~= v);
            if p > 0 {
                assert(v.take(p as int).last() == v[p - 1]);
                assert(v[p - 1] == (res@[p - 1].0@, res@[p - 1].1));
            }
            assert(insert_place(v, x) == p);
        }
        res.insert(p, (copy_moves(sol), step));
        proof {
            assert(entries_of(res@) =~= v.insert(p as int, x));
        }
        i = i + 1;
    }
    proof {
        assert(all.take(sols@.len() as int) =~= all);
        lemma_sorted(all);
    }
    res
}

/// The sequences that one deletion makes of `s` at a place before `j`, as
/// far as they still solve the board.
pub open spec fn shortenings(b: BoardView, s: Seq<u8>, j: int) -> Seq<Seq<u8>>
    decreases j,
{
    if j <= 0 {
        Seq::empty()
    } else {
        let r = s.remove(j - 1);
        shortenings(b, s, j - 1) + if solves_early(b, r) {
            seq![r]
        } else {
            Seq::empty()
        }
    }
}

/// The shortenings of all sequences of `cur`, one sequence after the other.
pub open spec fn next_level(b: BoardView, cur: Seq<Seq<u8>>) -> Seq<Seq<u8>>
    decreases cur.len(),
{
    if cur.len() == 0 {
        Seq::empty()
    } else {
        next_level(b, cur.drop_last()) + shortenings(b, cur.last(), cur.last().len() as int)
    }
}

/// The last level that is not empty when shortening is done again and
/// again, at most `fuel` times.
pub open spec fn last_level(b: BoardView, cur: Seq<Seq<u8>>, fuel: nat) -> Seq<Seq<u8>>
    decreases fuel,
{
    let nex = next_level(b, cur);
    if fuel == 0 || nex.len() == 0 {
        cur
    } else {
        last_level(b, nex, (fuel - 1) as nat)
    }
}

/// A sequence without moves has no shortening, and a shortening has one
/// move fewer.
pub proof fn lemma_next_level_len(b: BoardView, cur: Seq<Seq<u8>>, n: int)
    requires
        forall|i: int| 0 <= i < cur.len() ==> (#[trigger] cur[i]).len() == n,
    ensures
        forall|i: int| 0 <= i < next_level(b, cur).len() ==> (#[trigger] next_level(b, cur)[i]).len() == n - 1,
        n <= 0 ==> next_level(b, cur).len() == 0,
    decreases cur.len(),
{
    if cur.len() > 0 {
        let s = cur.last();
        assert(cur[cur.len() - 1].len() == n);
        assert forall|i: int| 0 <= i < cur.drop_last().len() implies (#[trigger] cur.drop_last()[i]).len() == n by {
            assert(cur.drop_last()[i] == cur[i]);
        }
        lemma_next_level_len(b, cur.drop_last(), n);
        lemma_shortenings_len(b, s, s.len() as int);
        let x = next_level(b, cur.drop_last());
        let y = shortenings(b, s, s.len() as int);
        assert forall|i: int| 0 <= i < next_level(b, cur).len() implies (#[trigger] next_level(b, cur)[i]).len() == n - 1 by {
            if i < x.len() {
                assert((x + y)[i] == x[i]);
            } else {
                assert((x + y)[i] == y[i - x.len()]);
            }
        }
    }
}

/// A shortening has one move fewer than the sequence.
pub proof fn lemma_shortenings_len(b: BoardView, s: Seq<u8>, j: int)
    requires
        j <= s.len(),
    ensures
        forall|i: int| 0 <= i < shortenings(b, s, j).len() ==> (#[trigger] shortenings(b, s, j)[i]).len() == s.len() - 1,
        j <= 0 ==> shortenings(b, s, j).len() == 0,
    decreases j,
{
    if j > 0 {
        lemma_shortenings_len(b, s, j - 1);
        let x = shortenings(b, s, j - 1);
        let r = s.remove(j - 1);
        let y = if solves_early(b, r) {
            seq![r]
        } else {
            Seq::<Seq<u8>>::empty()
        };
        assert forall|i: int| 0 <= i < shortenings(b, s, j).len() implies (#[trigger] shortenings(b, s, j)[i]).len() == s.len()
            - 1 by {
            if i < x.len() {
                assert((x + y)[i] == x[i]);
            } else {
                assert((x + y)[i] == y[i - x.len()]);
            }
        }
    }
}

/// `x` is a member of `cur` with one move taken out, and solves the board.
pub open spec fn is_shortening(b: BoardView, cur: Seq<Seq<u8>>, x: Seq<u8>) -> bool {
    exists|i: int, j: int|
        0 <= i < cur.len() && 0 <= j < cur[i].len() && x == #[trigger] cur[i].remove(j) && solves_early(b, x)
}

/// The shortenings of `s` at the places before `n` are the sequences that
/// a deletion at such a place makes of `s` and that solve the board.
pub proof fn lemma_shortenings(b: BoardView, s: Seq<u8>, n: int, x: Seq<u8>)
    requires
        0 <= n <= s.len(),
    ensures
        shortenings(b, s, n).contains(x) <==> exists|j: int| 0 <= j < n && x == #[trigger] s.remove(j) && solves_early(b, x),
    decreases n,
{
    if n > 0 {
        lemma_shortenings(b, s, n - 1, x);
        let head = shortenings(b, s, n - 1);
        let r = s.remove(n - 1);
        let tail = if solves_early(b, r) {
            seq![r]
        } else {
            Seq::<Seq<u8>>::empty()
        };
        let all = shortenings(b, s, n);
        assert(all == head + tail);
        if head.contains(x) {
            let k = choose|k: int| 0 <= k < head.len() && head[k] == x;
            assert(all[k] == x);
            let j = choose|j: int| 0 <= j < n - 1 && x == #[trigger] s.remove(j) && solves_early(b, x);
            assert(0 <= j < n && x == s.remove(j) && solves_early(b, x));
        }
        if x == r && solves_early(b, r) {
            assert(all[head.len() as int] == x);
            assert(0 <= n - 1 < n && x == s.remove(n - 1) && solves_early(b, x));
        }
        if all.contains(x) {
            let k = choose|k: int| 0 <= k < all.len() && all[k] == x;
            if k < head.len() {
                assert(head[k] == x);
            } else {
                assert(tail[k - head.len()] == x);
            }
        }
        if exists|j: int| 0 <= j < n && x == #[trigger] s.remove(j) && solves_early(b, x) {
            let j = choose|j: int| 0 <= j < n && x == #[trigger] s.remove(j) && solves_early(b, x);
            if j < n - 1 {
                assert(head.contains(x));
            }
        }
    }
}

/// The next level holds the shortenings of the members of `cur`.
pub proof fn lemma_next_level(b: BoardView, cur: Seq<Seq<u8>>, x: Seq<u8>)
    ensures
        next_level(b, cur).contains(x) <==> is_shortening(b, cur, x),
    decreases cur.len(),
{
    if cur.len() > 0 {
        let init = cur.drop_last();
        let s = cur.last();
        lemma_next_level(b, init, x);
        lemma_shortenings(b, s, s.len() as int, x);
        let head = next_level(b, init);
        let tail = shortenings(b, s, s.len() as int);
        let all = next_level(b, cur);
        assert(all == head + tail);
        if head.contains(x) {
            let k = choose|k: int| 0 <= k < head.len() && head[k] == x;
            assert(all[k] == x);
            let (i, j) = choose|i: int, j: int|
                0 <= i < init.len() && 0 <= j < init[i].len() && x == #[trigger] init[i].remove(j) && solves_early(b, x);
            assert(init[i] == cur[i]);
            assert(0 <= i < cur.len() && 0 <= j < cur[i].len() && x == cur[i].remove(j) && solves_early(b, x));
        }
        if tail.contains(x) {
            let k = choose|k: int| 0 <= k < tail.len() && tail[k] == x;
            assert(all[head.len() + k] == x);
            let j = choose|j: int| 0 <= j < s.len() && x == #[trigger] s.remove(j) && solves_early(b, x);
            let i = cur.len() - 1;
            assert(0 <= i < cur.len() && 0 <= j < cur[i].len() && x == cur[i].remove(j) && solves_early(b, x));
        }
        if all.contains(x) {
            let k = choose|k: int| 0 <= k < all.len() && all[k] == x;
            if k < head.len() {
                assert(head[k] == x);
            } else {
                assert(tail[k - head.len()] == x);
            }
        }
        if is_shortening(b, cur, x) {
            let (i, j) = choose|i: int, j: int|
                0 <= i < cur.len() && 0 <= j < cur[i].len() && x == #[trigger] cur[i].remove(j) && solves_early(b, x);
            if i < cur.len() - 1 {
                assert(init[i] == cur[i]);
                assert(0 <= i < init.len() && 0 <= j < init[i].len() && x == init[i].remove(j) && solves_early(b, x));
                assert(head.contains(x));
            } else {
                assert(0 <= j < s.len() && x == s.remove(j) && solves_early(b, x));
                assert(tail.contains(x));
            }
        }
    }
}

/// `r` is what is left of `sol` when needless moves have been taken out:
/// `r` is not empty; its members have one length, which is at most that of
/// `sol`; they solve the board, unless `sol` alone is left; and none of them
/// solves the board with one move taken out.
pub open spec fn is_thinned_out(b: BoardView, sol: Seq<u8>, r: Seq<Seq<u8>>) -> bool {
    &&& r.len() > 0
    &&& r[0].len() <= sol.len()
    &&& forall|i: int| 0 <= i < r.len() ==> (#[trigger] r[i]).len() == r[0].len()
    &&& r == seq![sol] || forall|i: int| 0 <= i < r.len() ==> solves_early(b, #[trigger] r[i])
    &&& forall|i: int, j: int| 0 <= i < r.len() && 0 <= j < r[i].len() ==> !solves_early(b, #[trigger] r[i].remove(j))
}

/// Shortening again and again ends with what is left of `sol` when
/// needless moves have been taken out.
pub proof fn lemma_last_level(b: BoardView, sol: Seq<u8>, cur: Seq<Seq<u8>>, fuel: nat)
    requires
        cur.len() > 0,
        fuel <= sol.len(),
        forall|i: int| 0 <= i < cur.len() ==> (#[trigger] cur[i]).len() == fuel,
        cur == seq![sol] || forall|i: int| 0 <= i < cur.len() ==> solves_early(b, #[trigger] cur[i]),
    ensures
        is_thinned_out(b, sol, last_level(b, cur, fuel)),
    decreases fuel,
{
    let nex = next_level(b, cur);
    lemma_next_level_len(b, cur, fuel as int);
    if fuel == 0 || nex.len() == 0 {
        assert forall|i: int, j: int| 0 <= i < cur.len() && 0 <= j < cur[i].len() implies !solves_early(
            b,
            #[trigger] cur[i].remove(j),
        ) by {
            if solves_early(b, cur[i].remove(j)) {
                lemma_next_level(b, cur, cur[i].remove(j));
                assert(is_shortening(b, cur, cur[i].remove(j)));
            }
        }
    } else {
        assert forall|i: int| 0 <= i < nex.len() implies solves_early(b, #[trigger] nex[i]) by {
            assert(nex.contains(nex[i]));
            lemma_next_level(b, cur, nex[i]);
        }
        lemma_last_level(b, sol, nex, (fuel - 1) as nat);
    }
}

/// The sequences that are left when moves are taken out of `sol` one at a
/// time as long as what remains still solves the board. If no move can be
/// taken out, `sol` itself is the result. The result is not empty; its
/// members have one length; if `sol` solves the board, so does each of them;
/// and none of them still solves it with one move taken out.
pub fn optimize_solution(board: &Board, sol: &[u8]) -> (r: Vec<Vec<u8>>)
    requires
        board@.wf(),
    ensures
        seqs_of(r@) == last_level(board@, seq![sol@], sol@.len()),
        is_thinned_out(board@, sol@, seqs_of(r@)),
        solves_early(board@, sol@) ==> forall|i: int| 0 <= i < r@.len() ==> solves_early(board@, #[trigger] r@[i]@),
{
    proof {
        let first = seq![sol@];
        assert(first[0] == sol@);
        lemma_last_level(board@, sol@, first, sol@.len());
    }
    let ghost b = board@;
    let mut first: Vec<u8> = Vec::new();
    let mut k: usize = 0;
    while k < sol.len()
        invariant
            k <= sol@.len(),
            first@ == sol@.take(k as int),
        decreases sol@.len() - k,
    {
        first.push(sol[k]);
        assert(first@ =~= sol@.take(k + 1));
        k = k + 1;
    }
    assert(sol@.take(sol@.len() as int) =~= sol@);
    let mut cur: Vec<Vec<u8>> = Vec::new();
    cur.push(first);
    let mut len: usize = sol.len();
    proof {
        assert(seqs_of(cur@) =~= seq![sol@]);
    }
    loop
        invariant
            b == board@,
            b.wf(),
            forall|i: int| 0 <= i < cur@.len() ==> (#[trigger] cur@[i])@.len() == len,
            last_level(b, seqs_of(cur@), len as nat) == last_level(b, seq![sol@], sol@.len()),
            is_thinned_out(b, sol@, last_level(b, seq![sol@], sol@.len())),
        decreases len,
    {
        let mut nex: Vec<Vec<u8>> = Vec::new();
        let ghost level = seqs_of(cur@);
        let mut c: usize = 0;
        proof {
            assert(level.take(0) =~= Seq::<Seq<u8>>::empty());
            assert(seqs_of(nex@) =~= Seq::<Seq<u8>>::empty());
        }
        while c < cur.len()
            invariant
                c <= cur@.len(),
                b == board@,
                b.wf(),
                level == seqs_of(cur@),
                seqs_of(nex@) == next_level(b, level.take(c as int)),
            decreases cur@.len() - c,
        {
            let s = &cur[c];
            let ghost done = seqs_of(nex@);
            let mut j: usize = 0;
            proof {
                assert(done + Seq::<Seq<u8>>::empty() =~= done);
            }
            while j < s.len()
                invariant
                    j <= s@.len(),
                    b == board@,
                    b.wf(),
                    seqs_of(nex@) == done + shortenings(b, s@, j as int),
                decreases s@.len() - j,
            {
                let mut t = copy_moves(s);
                t.remove(j);
                let ghost before = seqs_of(nex@);
                if verify_solution(board, t.as_slice()) {
                    nex.push(t);
                    proof {
                        assert(seqs_of(nex@) =~= before.push(t@));
                        assert(before.push(t@) =~= done + (shortenings(b, s@, j as int) + seq![t@]));
                    }
                } else {
                    proof {
                        assert(before =~= done + (shortenings(b, s@, j as int) + Seq::<Seq<u8>>::empty()));
                    }
                }
                j = j + 1;
            }
            proof {
                assert(level.take(c + 1).drop_last() =~= level.take(c as int));
                assert(level.take(c + 1).last() == s@);
            }
            c = c + 1;
        }
        proof {
            assert(level.take(cur@.len() as int) =~= level);
            assert forall|i: int| 0 <= i < level.len() implies (#[trigger] level[i]).len() == len by {
                assert(level[i] == cur@[i]@);
            }
            lemma_next_level_len(b, level, len as int);
            assert forall|i: int| 0 <= i < nex@.len() implies (#[trigger] nex@[i])@.len() == len - 1 by {
                assert(seqs_of(nex@)[i] == nex@[i]@);
            }
        }
        if nex.len() == 0 {
            proof {
                let r = seqs_of(cur@);
                assert forall|i: int| 0 <= i < cur@.len() && solves_early(b, sol@) implies solves_early(b, #[trigger] cur@[i]@) by {
                    assert(r[i] == cur@[i]@);
                }
            }
            return cur;
        }
        cur = nex;
        len = len - 1;
    }
}

} // verus!
