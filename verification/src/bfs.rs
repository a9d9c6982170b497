//! Breadth-first search: the boards are looked at one generation after the
//! other, so the first generation that holds a solved board holds every
//! solution of the least length.

use crate::board::{solved, Board, BoardView};
use crate::game::{is_minimal_solution, is_solution, lemma_play_push, lemma_play_wf, play};
use crate::grid::cell_indices;
use crate::search::{
    alive, goes_on, lemma_alive_push, lemma_alive_take, lemma_first_is_minimal,
    lemma_minimal_is_first, lemma_push_seq, none_before, seqs_of,
};
use crate::util::{copy_moves, Queue};
use crate::walk::{is_move, lemma_move_order, move_order};
use crate::{Solver, SolverError};
use vstd::prelude::*;

verus! {

/// A board of the search together with the moves that lead to it.
pub type Node = (Board, Vec<u8>);

/// The move sequences of the nodes in a queue.
pub open spec fn node_seqs(q: Seq<Node>) -> Seq<Seq<u8>> {
    q.map_values(|e: Node| e.1@)
}

/// The sequences that follow `s` in the search: `s` with each legal move of
/// the board that it leads to, in the order of the moves. A sequence from
/// whose board the search does not go on is followed by none.
pub open spec fn successors(b: BoardView, s: Seq<u8>) -> Seq<Seq<u8>> {
    let cur = play(b, s);
    if goes_on(cur) {
        Seq::new(move_order(cur).len(), |i: int| s.push(move_order(cur)[i] as u8))
    } else {
        Seq::empty()
    }
}

/// The successors of all sequences of `gen`, one sequence after the other.
pub open spec fn offspring(b: BoardView, gen: Seq<Seq<u8>>) -> Seq<Seq<u8>>
    decreases gen.len(),
{
    if gen.len() == 0 {
        Seq::empty()
    } else {
        offspring(b, gen.drop_last()) + successors(b, gen.last())
    }
}

/// Generation `d` of the search: the sequences of `d` moves that the search
/// follows, in the order in which it meets them.
pub open spec fn generation(b: BoardView, d: nat) -> Seq<Seq<u8>>
    decreases d,
{
    if d == 0 {
        seq![Seq::<u8>::empty()]
    } else {
        offspring(b, generation(b, (d - 1) as nat))
    }
}

/// The sequences among the first `n` of `gen` that solve the board.
pub open spec fn solved_among(b: BoardView, gen: Seq<Seq<u8>>, n: int) -> Seq<Seq<u8>>
    decreases n,
{
    if n <= 0 {
        Seq::empty()
    } else if solved(play(b, gen[n - 1]).cells) {
        solved_among(b, gen, n - 1).push(gen[n - 1])
    } else {
        solved_among(b, gen, n - 1)
    }
}

/// The number of nodes in the queue when the search has looked at the
/// nodes of `gen` up to node `j`: the nodes of `gen` behind `j` and the
/// successors of the nodes up to `j`.
pub open spec fn waiting(b: BoardView, gen: Seq<Seq<u8>>, j: int) -> int {
    gen.len() - (j + 1) + offspring(b, gen.take(j + 1)).len()
}

/// The queue outgrows the ceiling at node `j`: the node has successors, and
/// with them more than `limit` nodes wait.
pub open spec fn outgrows_at(b: BoardView, gen: Seq<Seq<u8>>, j: int, limit: int) -> bool {
    successors(b, gen[j]).len() > 0 && waiting(b, gen, j) > limit
}

/// The first node before `n` at which the queue outgrows the ceiling, or
/// `n` if there is none.
pub open spec fn first_outgrowth(b: BoardView, gen: Seq<Seq<u8>>, limit: int, n: int) -> int
    decreases n,
{
    if n <= 0 {
        0
    } else {
        let p = first_outgrowth(b, gen, limit, n - 1);
        if p < n - 1 {
            p
        } else if outgrows_at(b, gen, n - 1, limit) {
            n - 1
        } else {
            n
        }
    }
}

/// What the search from generation `d` on comes to: the solutions it
/// returns, or the solutions that its failure carries. The search fails at
/// the first node at which the queue outgrows the ceiling, with the
/// solutions found in the generation by then; it returns the solutions of
/// the first generation that holds one; and it fails, with no solution to
/// carry, if a generation has neither a solution nor offspring, or if
/// sequences can grow no longer.
pub open spec fn bfs_from(b: BoardView, limit: int, d: nat) -> Result<Seq<Seq<u8>>, Seq<Seq<u8>>>
    decreases usize::MAX - d,
{
    let gen = generation(b, d);
    let j = first_outgrowth(b, gen, limit, gen.len() as int);
    if d >= usize::MAX {
        Err(Seq::empty())
    } else if j < gen.len() {
        Err(solved_among(b, gen, j + 1))
    } else if solved_among(b, gen, gen.len() as int).len() > 0 {
        Ok(solved_among(b, gen, gen.len() as int))
    } else if offspring(b, gen).len() == 0 {
        Err(Seq::empty())
    } else {
        bfs_from(b, limit, d + 1)
    }
}

/// What a breadth-first search of board `b` with the ceiling `limit` comes
/// to.
pub open spec fn bfs_outcome(b: BoardView, limit: int) -> Result<Seq<Seq<u8>>, Seq<Seq<u8>>> {
    bfs_from(b, limit, 0)
}

/// `gen` holds the followed sequences of `d` moves, each once.
pub open spec fn is_generation(b: BoardView, gen: Seq<Seq<u8>>, d: int) -> bool {
    &&& forall|i: int| 0 <= i < gen.len() ==> alive(b, #[trigger] gen[i]) && gen[i].len() == d
    &&& gen.no_duplicates()
    &&& forall|s: Seq<u8>| #[trigger] alive(b, s) && s.len() == d ==> gen.contains(s)
}

/// The successors of a followed sequence are followed; each is the
/// sequence with one legal move more, every legal move makes one, and none
/// stands twice.
pub proof fn lemma_successors(b: BoardView, s: Seq<u8>)
    requires
        b.wf(),
        alive(b, s),
    ensures
        forall|i: int|
            0 <= i < successors(b, s).len() ==> {
                let c = #[trigger] successors(b, s)[i];
                alive(b, c) && c.len() == s.len() + 1 && c.drop_last() == s
            },
        successors(b, s).no_duplicates(),
        forall|t: u8| goes_on(play(b, s)) && #[trigger] is_move(play(b, s), t as int) ==> successors(b, s).contains(s.push(t)),
{
    let cur = play(b, s);
    let ms = move_order(cur);
    let cs = successors(b, s);
    lemma_play_wf(b, s);
    lemma_move_order(cur);
    if goes_on(cur) {
        assert forall|i: int| 0 <= i < cs.len() implies {
            let c = #[trigger] cs[i];
            alive(b, c) && c.len() == s.len() + 1 && c.drop_last() == s
        } by {
            assert(ms.contains(ms[i]));
            assert(is_move(cur, ms[i]));
            lemma_alive_push(b, s, ms[i] as u8);
            assert(s.push(ms[i] as u8).drop_last() =~= s);
        }
        assert forall|i: int, j: int| 0 <= i < cs.len() && 0 <= j < cs.len() && i != j implies cs[i] != cs[j] by {
            assert(ms.contains(ms[i]));
            assert(ms.contains(ms[j]));
            assert(is_move(cur, ms[i]) && is_move(cur, ms[j]));
            assert(cs[i].last() == ms[i] as u8);
            assert(cs[j].last() == ms[j] as u8);
        }
        assert forall|t: u8| #[trigger] is_move(cur, t as int) implies cs.contains(s.push(t)) by {
            assert(ms.contains(t as int));
            let i = choose|i: int| 0 <= i < ms.len() && ms[i] == t as int;
            assert(cs[i] == s.push(t));
        }
    }
}

/// The offspring of the first `n` sequences of a list of different
/// followed sequences of `d` moves: followed sequences of `d + 1` moves,
/// each the successor of one of the `n` sequences, none twice, and every
/// successor of these among them.
pub proof fn lemma_offspring(b: BoardView, gen: Seq<Seq<u8>>, d: int, n: int)
    requires
        b.wf(),
        forall|i: int| 0 <= i < gen.len() ==> alive(b, #[trigger] gen[i]) && gen[i].len() == d,
        gen.no_duplicates(),
        0 <= n <= gen.len(),
    ensures
        forall|k: int|
            0 <= k < offspring(b, gen.take(n)).len() ==> {
                let c = #[trigger] offspring(b, gen.take(n))[k];
                alive(b, c) && c.len() == d + 1 && exists|p: int| 0 <= p < n && gen[p] == c.drop_last()
            },
        offspring(b, gen.take(n)).no_duplicates(),
        forall|p: int, t: u8|
            0 <= p < n && goes_on(play(b, gen[p])) && #[trigger] is_move(play(b, gen[p]), t as int) ==> offspring(
                b,
                gen.take(n),
            ).contains(gen[p].push(t)),
    decreases n,
{
    if n > 0 {
        let head = gen.take(n);
        let s = gen[n - 1];
        assert(head.drop_last() =~= gen.take(n - 1));
        assert(head.last() == s);
        lemma_offspring(b, gen, d, n - 1);
        lemma_successors(b, s);
        let x = offspring(b, gen.take(n - 1));
        let y = successors(b, s);
        let o = offspring(b, head);
        assert(o == x + y);
        assert forall|k: int| 0 <= k < o.len() implies {
            let c = #[trigger] o[k];
            alive(b, c) && c.len() == d + 1 && exists|p: int| 0 <= p < n && gen[p] == c.drop_last()
        } by {
            if k < x.len() {
                assert(o[k] == x[k]);
                let p = choose|p: int| 0 <= p < n - 1 && gen[p] == x[k].drop_last();
                assert(0 <= p < n && gen[p] == o[k].drop_last());
            } else {
                assert(o[k] == y[k - x.len()]);
                assert(0 <= n - 1 < n && gen[n - 1] == o[k].drop_last());
            }
        }
        assert forall|i: int, k: int| 0 <= i < o.len() && 0 <= k < o.len() && i != k implies o[i] != o[k] by {
            if i < x.len() && k < x.len() {
                assert(o[i] == x[i] && o[k] == x[k]);
            } else if i >= x.len() && k >= x.len() {
                assert(o[i] == y[i - x.len()] && o[k] == y[k - x.len()]);
            } else {
                let (lo, hi) = if i < k {
                    (i, k)
                } else {
                    (k, i)
                };
                assert(o[lo] == x[lo]);
                assert(o[hi] == y[hi - x.len()]);
                let p = choose|p: int| 0 <= p < n - 1 && gen[p] == x[lo].drop_last();
                assert(gen[p] != gen[n - 1]);
            }
        }
        assert forall|p: int, t: u8|
            0 <= p < n && goes_on(play(b, gen[p])) && #[trigger] is_move(play(b, gen[p]), t as int) implies o.contains(
            gen[p].push(t),
        ) by {
            let c = gen[p].push(t);
            if p < n - 1 {
                assert(x.contains(c));
                let k = choose|k: int| 0 <= k < x.len() && x[k] == c;
                assert(o[k] == c);
            } else {
                assert(y.contains(c));
                let k = choose|k: int| 0 <= k < y.len() && y[k] == c;
                assert(o[x.len() + k] == c);
            }
        }
    } else {
        assert(gen.take(0) =~= Seq::<Seq<u8>>::empty());
    }
}

/// The offspring of generation `d` is generation `d + 1`.
pub proof fn lemma_next_generation(b: BoardView, gen: Seq<Seq<u8>>, d: int)
    requires
        b.wf(),
        d >= 0,
        is_generation(b, gen, d),
    ensures
        is_generation(b, offspring(b, gen), d + 1),
{
    lemma_offspring(b, gen, d, gen.len() as int);
    assert(gen.take(gen.len() as int) =~= gen);
    let o = offspring(b, gen);
    assert forall|s: Seq<u8>| #[trigger] alive(b, s) && s.len() == d + 1 implies o.contains(s) by {
        lemma_alive_take(b, s, d);
        let par = s.take(d);
        assert(gen.contains(par));
        let p = choose|p: int| 0 <= p < gen.len() && gen[p] == par;
        assert(par.push(s[d]) =~= s);
        assert(is_move(play(b, gen[p]), s[d] as int));
    }
}

/// Each generation of the search holds the followed sequences of its
/// length, each once.
pub proof fn lemma_generation(b: BoardView, d: nat)
    requires
        b.wf(),
    ensures
        is_generation(b, generation(b, d), d as int),
    decreases d,
{
    if d == 0 {
        let e = Seq::<u8>::empty();
        let gen = generation(b, 0);
        assert(gen[0] == e);
        assert forall|s: Seq<u8>| #[trigger] alive(b, s) && s.len() == 0 implies gen.contains(s) by {
            assert(s =~= e);
        }
    } else {
        lemma_generation(b, (d - 1) as nat);
        lemma_next_generation(b, generation(b, (d - 1) as nat), d - 1);
    }
}

/// The sequences among the first `n` that solve the board are those of
/// the first `n` that solve it, each once.
pub proof fn lemma_solved_among(b: BoardView, gen: Seq<Seq<u8>>, n: int)
    requires
        gen.no_duplicates(),
        0 <= n <= gen.len(),
    ensures
        solved_among(b, gen, n).no_duplicates(),
        forall|s: Seq<u8>| #[trigger]
            solved_among(b, gen, n).contains(s) <==> exists|p: int| 0 <= p < n && #[trigger] gen[p] == s && solved(play(b, s).cells),
    decreases n,
{
    if n > 0 {
        let found = solved_among(b, gen, n - 1);
        let s0 = gen[n - 1];
        lemma_solved_among(b, gen, n - 1);
        lemma_push_seq(found, s0);
        if found.contains(s0) {
            let p = choose|p: int| 0 <= p < n - 1 && #[trigger] gen[p] == s0 && solved(play(b, s0).cells);
            assert(gen[p] == gen[n - 1]);
        }
        let now = solved_among(b, gen, n);
        assert forall|s: Seq<u8>| #[trigger]
            now.contains(s) <==> exists|p: int| 0 <= p < n && #[trigger] gen[p] == s && solved(play(b, s).cells) by {
            if found.contains(s) {
                let p = choose|p: int| 0 <= p < n - 1 && #[trigger] gen[p] == s && solved(play(b, s).cells);
                assert(0 <= p < n && gen[p] == s && solved(play(b, s).cells));
            }
            if s == s0 && solved(play(b, s0).cells) {
                assert(0 <= n - 1 < n && gen[n - 1] == s && solved(play(b, s).cells));
            }
            if exists|p: int| 0 <= p < n && #[trigger] gen[p] == s && solved(play(b, s).cells) {
                let p = choose|p: int| 0 <= p < n && #[trigger] gen[p] == s && solved(play(b, s).cells);
                if p < n - 1 {
                    assert(found.contains(s));
                }
            }
        }
    }
}

/// The solutions that a generation holds, where no generation before it
/// holds one, are solutions of the least length; and if the generation
/// holds one, they are all of these.
pub proof fn lemma_generation_solutions(b: BoardView, d: nat, n: int)
    requires
        b.wf(),
        none_before(b, d as int),
        0 <= n <= generation(b, d).len(),
    ensures
        forall|i: int|
            0 <= i < solved_among(b, generation(b, d), n).len() ==> is_minimal_solution(
                b,
                #[trigger] solved_among(b, generation(b, d), n)[i],
            ),
        solved_among(b, generation(b, d), n).no_duplicates(),
        n == generation(b, d).len() && solved_among(b, generation(b, d), n).len() > 0 ==> forall|s: Seq<u8>|
            is_minimal_solution(b, s) ==> #[trigger] solved_among(b, generation(b, d), n).contains(s),
{
    let gen = generation(b, d);
    let found = solved_among(b, gen, n);
    lemma_generation(b, d);
    lemma_solved_among(b, gen, n);
    assert forall|i: int| 0 <= i < found.len() implies is_minimal_solution(b, #[trigger] found[i]) by {
        let s = found[i];
        assert(found.contains(s));
        let p = choose|p: int| 0 <= p < n && #[trigger] gen[p] == s && solved(play(b, s).cells);
        lemma_first_is_minimal(b, d as int, s);
    }
    if n == gen.len() && found.len() > 0 {
        let w = found[0];
        assert(found.contains(w));
        let p = choose|p: int| 0 <= p < n && #[trigger] gen[p] == w && solved(play(b, w).cells);
        assert forall|s: Seq<u8>| is_minimal_solution(b, s) implies #[trigger] found.contains(s) by {
            lemma_minimal_is_first(b, d as int, w, s);
            assert(gen.contains(s));
            let q = choose|q: int| 0 <= q < gen.len() && gen[q] == s;
            assert(0 <= q < n && gen[q] == s && solved(play(b, s).cells));
        }
    }
}

/// A generation without solution lets the search look further: no
/// followed sequence of its length or less solves the board.
pub proof fn lemma_none_in_generation(b: BoardView, d: nat)
    requires
        b.wf(),
        none_before(b, d as int),
        solved_among(b, generation(b, d), generation(b, d).len() as int).len() == 0,
    ensures
        none_before(b, d as int + 1),
{
    let gen = generation(b, d);
    lemma_generation(b, d);
    lemma_solved_among(b, gen, gen.len() as int);
    let found = solved_among(b, gen, gen.len() as int);
    assert forall|s: Seq<u8>| #[trigger] alive(b, s) && s.len() < d + 1 implies !solved(play(b, s).cells) by {
        if s.len() == d && solved(play(b, s).cells) {
            assert(gen.contains(s));
            let p = choose|p: int| 0 <= p < gen.len() && gen[p] == s;
            assert(0 <= p < gen.len() && gen[p] == s && solved(play(b, s).cells));
            assert(found.contains(s));
            assert(found.len() > 0);
        }
    }
}

/// What the search returns are the solutions of the least length, each
/// once, and there is one; and what its failure carries are solutions of the
/// least length.
pub proof fn lemma_bfs_from(b: BoardView, limit: int, d: nat)
    requires
        b.wf(),
        none_before(b, d as int),
    ensures
        match bfs_from(b, limit, d) {
            Ok(x) => x.len() > 0 && x.no_duplicates() && forall|s: Seq<u8>| #[trigger]
                x.contains(s) <==> is_minimal_solution(b, s),
            Err(y) => y.no_duplicates() && forall|i: int| 0 <= i < y.len() ==> is_minimal_solution(b, #[trigger] y[i]),
        },
    decreases usize::MAX - d,
{
    let gen = generation(b, d);
    let n = gen.len() as int;
    let j = first_outgrowth(b, gen, limit, n);
    lemma_first_outgrowth(b, gen, limit, n);
    if d >= usize::MAX {
    } else if j < n {
        lemma_generation_solutions(b, d, j + 1);
    } else {
        let found = solved_among(b, gen, n);
        lemma_generation_solutions(b, d, n);
        if found.len() > 0 {
            assert forall|s: Seq<u8>| #[trigger] found.contains(s) implies is_minimal_solution(b, s) by {
                let i = choose|i: int| 0 <= i < found.len() && found[i] == s;
                assert(is_minimal_solution(b, found[i]));
            }
        } else {
            lemma_none_in_generation(b, d);
            if offspring(b, gen).len() != 0 {
                lemma_bfs_from(b, limit, d + 1);
            }
        }
    }
}

/// The first outgrowth lies within the nodes looked at; the queue outgrows
/// the ceiling there and at no node before.
pub proof fn lemma_first_outgrowth(b: BoardView, gen: Seq<Seq<u8>>, limit: int, n: int)
    requires
        0 <= n,
    ensures
        0 <= first_outgrowth(b, gen, limit, n) <= n,
        first_outgrowth(b, gen, limit, n) < n ==> outgrows_at(b, gen, first_outgrowth(b, gen, limit, n), limit),
        forall|k: int| 0 <= k < first_outgrowth(b, gen, limit, n) ==> !outgrows_at(b, gen, k, limit),
    decreases n,
{
    if n > 0 {
        lemma_first_outgrowth(b, gen, limit, n - 1);
    }
}

/// The breadth-first solver. It gives up when its queue holds more than
/// `max_node_count` nodes.
pub struct BfsSolver {
    que: Queue<Node>,
    max_node_count: u64,
}

/// The greatest number of nodes for which a new solver sets room aside.
pub const FIRST_ROOM: u64 = 0x10_0000;

/// Each node holds the board that its moves lead to, and its moves are
/// the sequences of `gen`.
pub open spec fn holds_nodes(b: BoardView, q: Seq<Node>, gen: Seq<Seq<u8>>) -> bool {
    &&& node_seqs(q) == gen
    &&& forall|i: int| 0 <= i < q.len() ==> (#[trigger] q[i]).0@ == play(b, q[i].1@) && q[i].0@.wf()
}

impl BfsSolver {
    /// The greatest number of nodes that the solver lets wait.
    pub closed spec fn limit(&self) -> int {
        self.max_node_count as usize as int
    }

    /// A solver that gives up when more than `max_node_count` nodes wait.
    pub fn new(max_node_count: u64) -> (s: Self)
        ensures
            s.limit() == max_node_count as usize as int,
    {
        let room: usize = if max_node_count > FIRST_ROOM {
            FIRST_ROOM as usize
        } else {
            max_node_count as usize
        };
        Self { que: Queue::with_capacity(room), max_node_count }
    }

    /// Puts the successors of a node at the end of the queue: the boards
    /// that the moves `moves` make of `board`, each with its moves.
    fn expand(&mut self, board: &Board, sol: &Vec<u8>, moves: &Vec<u8>, Ghost(b): Ghost<BoardView>)
        requires
            board@ == play(b, sol@),
            board@.wf(),
            goes_on(board@),
            sol@.len() < usize::MAX,
            cell_indices(moves@) == move_order(board@),
        ensures
            final(self).max_node_count == old(self).max_node_count,
            node_seqs(final(self).que@) == node_seqs(old(self).que@) + successors(b, sol@),
            forall|i: int| 0 <= i < old(self).que@.len() ==> final(self).que@[i] == old(self).que@[i],
            forall|i: int|
                old(self).que@.len() <= i < final(self).que@.len() ==> (#[trigger] final(self).que@[i]).0@ == play(
                    b,
                    final(self).que@[i].1@,
                ) && final(self).que@[i].0@.wf(),
    {
        let ghost q0 = self.que@;
        let ghost ms = move_order(board@);
        let ghost cs = successors(b, sol@);
        let mut m: usize = 0;
        proof {
            lemma_move_order(board@);
            assert(cs.take(0) =~= Seq::<Seq<u8>>::empty());
            assert(node_seqs(q0) + cs.take(0) =~= node_seqs(q0));
        }
        while m < moves.len()
            invariant
                m <= moves@.len(),
                board@ == play(b, sol@),
                board@.wf(),
                goes_on(board@),
                sol@.len() < usize::MAX,
                ms == move_order(board@),
                cell_indices(moves@) == ms,
                cs == successors(b, sol@),
                forall|t: int| ms.contains(t) <==> is_move(board@, t),
                self.max_node_count == old(self).max_node_count,
                q0 == old(self).que@,
                self.que@.len() == q0.len() + m,
                node_seqs(self.que@) == node_seqs(q0) + cs.take(m as int),
                forall|i: int| 0 <= i < q0.len() ==> self.que@[i] == q0[i],
                forall|i: int|
                    q0.len() <= i < self.que@.len() ==> (#[trigger] self.que@[i]).0@ == play(b, self.que@[i].1@)
                        && self.que@[i].0@.wf(),
            decreases moves@.len() - m,
        {
            let to = moves[m];
            let ghost before = self.que@;
            proof {
                assert(ms[m as int] == to as int);
                assert(ms.contains(ms[m as int]));
                lemma_play_push(b, sol@, to);
            }
            let mut board2 = board.clone();
            board2.move_(to);
            let mut sol2 = copy_moves(sol);
            sol2.push(to);
            self.que.push((board2, sol2));
            proof {
                assert(cs[m as int] == sol@.push(to));
                assert(cs.take(m + 1) =~= cs.take(m as int).push(cs[m as int]));
                assert(node_seqs(self.que@) =~= node_seqs(before).push(sol@.push(to)));
                assert(node_seqs(before).push(sol@.push(to)) =~= node_seqs(q0) + cs.take(m + 1));
                assert forall|i: int| 0 <= i < q0.len() implies self.que@[i] == q0[i] by {
                    assert(self.que@[i] == before[i]);
                }
                assert forall|i: int| q0.len() <= i < self.que@.len() implies (#[trigger] self.que@[i]).0@ == play(
                    b,
                    self.que@[i].1@,
                ) && self.que@[i].0@.wf() by {
                    if i < before.len() {
                        assert(self.que@[i] == before[i]);
                    }
                }
            }
            m = m + 1;
        }
        proof {
            assert(cell_indices(moves@).len() == moves@.len());
            assert(cs.take(moves@.len() as int) =~= cs);
        }
    }

    /// Looks at every node of a generation: the solved ones are recorded,
    /// the others that the search goes on from are replaced by their
    /// successors. Fails as soon as more than the allowed number of nodes
    /// wait.
    fn search_next(&mut self, Ghost(b): Ghost<BoardView>, Ghost(gen): Ghost<Seq<Seq<u8>>>) -> (r: Result<Vec<Vec<u8>>, SolverError>)
        requires
            holds_nodes(b, old(self).que@, gen),
            forall|i: int| 0 <= i < gen.len() ==> (#[trigger] gen[i]).len() < usize::MAX,
        ensures
            final(self).max_node_count == old(self).max_node_count,
            match r {
                Ok(res) => {
                    &&& first_outgrowth(b, gen, old(self).limit(), gen.len() as int) == gen.len()
                    &&& seqs_of(res@) == solved_among(b, gen, gen.len() as int)
                    &&& holds_nodes(b, final(self).que@, offspring(b, gen))
                },
                Err(e) => {
                    let j = first_outgrowth(b, gen, old(self).limit(), gen.len() as int);
                    j < gen.len() && e@ == solved_among(b, gen, j + 1)
                },
            },
    {
        let mut res: Vec<Vec<u8>> = Vec::new();
        let ghost q0 = self.que@;
        let ghost limit = self.limit();
        let node_count = self.que.len();
        let mut j: usize = 0;
        proof {
            assert(gen.take(0) =~= Seq::<Seq<u8>>::empty());
            assert(seqs_of(res@) =~= Seq::<Seq<u8>>::empty());
            assert(node_seqs(self.que@) =~= gen.skip(0) + offspring(b, gen.take(0)));
        }
        while j < node_count
            invariant
                j <= node_count,
                node_count == gen.len(),
                limit == old(self).limit(),
                self.max_node_count == old(self).max_node_count,
                holds_nodes(b, q0, gen),
                forall|i: int| 0 <= i < gen.len() ==> (#[trigger] gen[i]).len() < usize::MAX,
                first_outgrowth(b, gen, limit, j as int) == j,
                seqs_of(res@) == solved_among(b, gen, j as int),
                node_seqs(self.que@) == gen.skip(j as int) + offspring(b, gen.take(j as int)),
                forall|i: int|
                    0 <= i < self.que@.len() ==> (#[trigger] self.que@[i]).0@ == play(b, self.que@[i].1@) && self.que@[i].0@.wf(),
            decreases node_count - j,
        {
            let ghost q1 = self.que@;
            let ghost found = seqs_of(res@);
            let ghost kids = offspring(b, gen.take(j as int));
            proof {
                assert(node_seqs(q1).len() == q1.len());
                assert(node_seqs(q1)[0] == gen[j as int]);
            }
            let (board, sol) = self.que.pop().unwrap();
            let ghost q2 = self.que@;
            proof {
                assert(q1[0] == (board, sol));
                assert(sol@ == gen[j as int]);
                assert(node_seqs(q2) =~= gen.skip(j + 1) + kids) by {
                    assert forall|i: int| 0 <= i < q2.len() implies node_seqs(q2)[i] == (gen.skip(j + 1) + kids)[i] by {
                        assert(q2[i] == q1[i + 1]);
                        assert(node_seqs(q1)[i + 1] == (gen.skip(j as int) + kids)[i + 1]);
                    }
                }
                assert forall|i: int| 0 <= i < q2.len() implies (#[trigger] q2[i]).0@ == play(b, q2[i].1@) && q2[i].0@.wf() by {
                    assert(q2[i] == q1[i + 1]);
                }
                assert(gen.take(j + 1).drop_last() =~= gen.take(j as int));
                assert(gen.take(j + 1).last() == sol@);
            }
            let mut grown = false;
            if board.is_solved() {
                res.push(sol);
                proof {
                    assert(seqs_of(res@) =~= found.push(gen[j as int]));
                }
            } else if !board.is_stuck() {
                let moves = board.moves();
                proof {
                    assert(cell_indices(moves@).len() == moves@.len());
                }
                if moves.len() > 0 {
                    self.expand(&board, &sol, &moves, Ghost(b));
                    grown = true;
                }
            }
            proof {
                let kids2 = offspring(b, gen.take(j + 1));
                assert(kids2 == kids + successors(b, sol@));
                assert(node_seqs(self.que@) =~= gen.skip(j + 1) + kids2);
                assert(waiting(b, gen, j as int) == self.que@.len()) by {
                    assert(node_seqs(self.que@).len() == self.que@.len());
                }
                assert(grown == (successors(b, sol@).len() > 0));
                assert forall|i: int| 0 <= i < self.que@.len() implies (#[trigger] self.que@[i]).0@ == play(
                    b,
                    self.que@[i].1@,
                ) && self.que@[i].0@.wf() by {
                    if i < q2.len() {
                        assert(self.que@[i] == q2[i]);
                    }
                }
            }
            if grown && self.que.len() > self.max_node_count as usize {
                proof {
                    assert(outgrows_at(b, gen, j as int, limit));
                    lemma_first_outgrowth_grows(b, gen, limit, j + 1, gen.len() as int);
                }
                return Err(SolverError::new(res));
            }
            j = j + 1;
        }
        proof {
            assert(gen.take(gen.len() as int) =~= gen);
            assert(gen.skip(gen.len() as int) =~= Seq::<Seq<u8>>::empty());
            assert(node_seqs(self.que@) =~= offspring(b, gen));
        }
        Ok(res)
    }
}

/// An outgrowth among the first nodes is the first outgrowth among more
/// nodes too.
pub proof fn lemma_first_outgrowth_grows(b: BoardView, gen: Seq<Seq<u8>>, limit: int, n: int, m: int)
    requires
        0 <= n <= m,
        first_outgrowth(b, gen, limit, n) < n,
    ensures
        first_outgrowth(b, gen, limit, m) == first_outgrowth(b, gen, limit, n),
    decreases m - n,
{
    if n < m {
        lemma_first_outgrowth_grows(b, gen, limit, n, m - 1);
    }
}

impl Solver for BfsSolver {
    open spec fn ready(&self) -> bool {
        true
    }

    /// Looks at the boards generation by generation. The search returns
    /// the solutions of the first generation that holds one, which are the
    /// solutions of the least length, each once; there is at least one. The
    /// search fails at the first node at which more than the allowed number
    /// of nodes wait; the error then carries the solutions found in the
    /// generation by then, which are of the least length. It fails too, with
    /// nothing to carry, when a generation has neither a solution nor
    /// offspring, so that nothing is left to look at.
    fn solve(&mut self, board: &Board) -> (r: Result<Vec<Vec<u8>>, SolverError>)
        ensures
            final(self).limit() == old(self).limit(),
            match r {
                Ok(sols) => {
                    &&& bfs_outcome(board@, old(self).limit()) == Ok::<Seq<Seq<u8>>, Seq<Seq<u8>>>(seqs_of(sols@))
                    &&& sols@.len() > 0
                    &&& seqs_of(sols@).no_duplicates()
                    &&& forall|s: Seq<u8>| #[trigger] seqs_of(sols@).contains(s) <==> is_minimal_solution(board@, s)
                },
                Err(e) => {
                    &&& bfs_outcome(board@, old(self).limit()) == Err::<Seq<Seq<u8>>, Seq<Seq<u8>>>(e@)
                    &&& forall|i: int| 0 <= i < e@.len() ==> is_minimal_solution(board@, #[trigger] e@[i])
                },
            },
    {
        let ghost b = board@;
        let ghost limit = self.limit();
        self.que.clear();
        self.que.push((board.clone(), Vec::new()));
        let mut depth: usize = 0;
        proof {
            let q = self.que@;
            assert(q[0].1@ =~= Seq::<u8>::empty());
            assert(node_seqs(q) =~= generation(b, 0));
            lemma_bfs_from(b, limit, 0);
        }
        while depth < usize::MAX
            invariant
                b == board@,
                b.wf(),
                limit == old(self).limit(),
                self.limit() == limit,
                holds_nodes(b, self.que@, generation(b, depth as nat)),
                none_before(b, depth as int),
                bfs_from(b, limit, depth as nat) == bfs_outcome(b, limit),
                match bfs_outcome(b, limit) {
                    Ok(x) => x.len() > 0 && x.no_duplicates() && forall|s: Seq<u8>| #[trigger]
                        x.contains(s) <==> is_minimal_solution(b, s),
                    Err(y) => y.no_duplicates() && forall|i: int| 0 <= i < y.len() ==> is_minimal_solution(b, #[trigger] y[i]),
                },
            decreases usize::MAX - depth,
        {
            let ghost gen = generation(b, depth as nat);
            proof {
                lemma_generation(b, depth as nat);
            }
            let r = self.search_next(Ghost(b), Ghost(gen));
            match r {
                Ok(sols) => {
                    proof {
                        assert forall|i: int| 0 <= i < sols@.len() implies is_solution(b, #[trigger] sols@[i]@) by {
                            assert(seqs_of(sols@)[i] == sols@[i]@);
                            assert(seqs_of(sols@).contains(sols@[i]@));
                        }
                        assert(node_seqs(self.que@).len() == self.que@.len());
                    }
                    if sols.len() > 0 {
                        return Ok(sols);
                    }
                    if self.que.is_empty() {
                        proof {
                            assert(seqs_of(sols@) =~= Seq::<Seq<u8>>::empty());
                            assert(offspring(b, gen).len() == 0);
                        }
                        return Err(SolverError::new(sols));
                    }
                    proof {
                        lemma_none_in_generation(b, depth as nat);
                    }
                },
                Err(e) => {
                    return Err(e);
                },
            }
            depth = depth + 1;
        }
        let none: Vec<Vec<u8>> = Vec::new();
        proof {
            assert(seqs_of(none@) =~= Seq::<Seq<u8>>::empty());
            assert(bfs_from(b, limit, depth as nat) == Err::<Seq<Seq<u8>>, Seq<Seq<u8>>>(Seq::empty()));
        }
        Err(SolverError::new(none))
    }
}

} // verus!
