//! Iterative deepening with the lower bound as a guide: a depth-first search
//! is run with a bound on the number of moves, and run again with the bound
//! raised by one until it meets a solution.

use crate::admissible::lemma_bound_along_solution;
use crate::util::copy_moves;
use crate::board::{solved, stuck, Board, BoardView};
use crate::bound::lower_bound;
use crate::game::{is_minimal_solution, is_solution, legal, lemma_play_push, lemma_play_wf, play};
use crate::search::{
    alive, goes_on, lemma_alive_push, lemma_alive_take, lemma_first_is_minimal,
    lemma_minimal_is_first, lemma_push_seq, seqs_of,
};
use crate::grid::cell_indices;
use crate::walk::{is_move, lemma_move_order, move_order};
use crate::{Solver, SolverError};
use vstd::prelude::*;

verus! {

/// The sequence `s` begins with `p`.
pub open spec fn under(p: Seq<u8>, s: Seq<u8>) -> bool {
    p.len() <= s.len() && s.take(p.len() as int) == p
}

/// `s` begins with `p` and is a sequence of at most `bound` moves that a
/// search follows.
pub open spec fn within(b: BoardView, bound: int, p: Seq<u8>, s: Seq<u8>) -> bool {
    under(p, s) && alive(b, s) && s.len() <= bound
}

/// `s` begins with `p` and is a followed sequence of at most `bound` moves
/// that solves the board.
pub open spec fn below(b: BoardView, bound: int, p: Seq<u8>, s: Seq<u8>) -> bool {
    within(b, bound, p, s) && solved(play(b, s).cells)
}

/// A sequence that begins with `p` and one more move begins with `p`, is
/// longer than `p`, and differs from every sequence that begins with `p`
/// and another move.
pub proof fn lemma_under_push(p: Seq<u8>, t: u8, s: Seq<u8>)
    requires
        under(p.push(t), s),
    ensures
        under(p, s),
        s.len() > p.len(),
        s[p.len() as int] == t,
        s != p,
        forall|u: u8, r: Seq<u8>| u != t && under(p.push(u), r) ==> r != s,
{
    let q = p.push(t);
    assert(s.take(q.len() as int)[p.len() as int] == t);
    assert(s.take(p.len() as int) =~= q.take(p.len() as int));
    assert(q.take(p.len() as int) =~= p);
    assert forall|u: u8, r: Seq<u8>| u != t && under(p.push(u), r) implies r != s by {
        assert(r.take(p.len() as int + 1)[p.len() as int] == u);
    }
}

/// A sequence that begins with `p` and is longer begins with `p` and its
/// own next move.
pub proof fn lemma_under_next(p: Seq<u8>, s: Seq<u8>)
    requires
        under(p, s),
        s.len() > p.len(),
    ensures
        under(p.push(s[p.len() as int]), s),
{
    assert(s.take(p.len() as int + 1) =~= s.take(p.len() as int).push(s[p.len() as int]));
}

/// On the way to a solution of at most `bound` moves the search is not cut
/// short: it goes on from the board after `p`, the next move is legal there,
/// and the lower bound of that board leaves room for the rest.
pub proof fn lemma_not_pruned(b: BoardView, bound: int, p: Seq<u8>, s: Seq<u8>)
    requires
        b.wf(),
        below(b, bound, p, s),
        s.len() > p.len(),
    ensures
        goes_on(play(b, p)),
        is_move(play(b, p), s[p.len() as int] as int),
        p.len() + lower_bound(play(b, p).cells) <= bound,
        below(b, bound, p.push(s[p.len() as int]), s),
{
    let d = p.len() as int;
    lemma_alive_take(b, s, d);
    lemma_bound_along_solution(b, s, d);
    lemma_under_next(p, s);
}

/// No followed sequence of at most `bound` moves solves the board.
pub open spec fn none_within(b: BoardView, bound: int) -> bool {
    forall|s: Seq<u8>| !#[trigger] below(b, bound, Seq::empty(), s)
}

/// A copy of a list of move sequences.
pub fn copy_solutions(v: &Vec<Vec<u8>>) -> (r: Vec<Vec<u8>>)
    ensures
        seqs_of(r@) == seqs_of(v@),
{
    let mut r: Vec<Vec<u8>> = Vec::new();
    let mut i: usize = 0;
    while i < v.len()
        invariant
            i <= v@.len(),
            r@.len() == i,
            forall|j: int| 0 <= j < i ==> r@[j]@ == v@[j]@,
        decreases v@.len() - i,
    {
        r.push(copy_moves(&v[i]));
        i = i + 1;
    }
    assert(seqs_of(r@) =~= seqs_of(v@));
    r
}

/// How far a round has come: the number of nodes it has looked at and the
/// solutions it has recorded.
pub struct Round {
    pub count: int,
    pub found: Seq<Seq<u8>>,
}

/// The count of nodes after one more node, which stays where it is when it
/// can rise no further.
pub open spec fn counted(count: int) -> int {
    if count < u64::MAX {
        count + 1
    } else {
        count
    }
}

/// The search does not go below the node of `s`: the board is stuck or
/// has no legal move, or the bound leaves no room for the moves that the
/// board still needs.
pub open spec fn cut_short(b: BoardView, bound: int, s: Seq<u8>) -> bool {
    let cur = play(b, s);
    stuck(cur.cells) || move_order(cur).len() == 0 || s.len() >= bound || s.len() + lower_bound(cur.cells) > bound
}

/// How far the round has come when the depth-first search has looked at
/// the node of `s` and at the nodes below it. A solved node is recorded.
/// The search does not go below a node that is cut short, nor when it has
/// looked at more than `limit` nodes.
pub open spec fn visit(b: BoardView, bound: int, limit: int, s: Seq<u8>, r: Round) -> Round
    decreases bound - s.len(), 1int, 0int,
{
    let c = counted(r.count);
    if solved(play(b, s).cells) {
        Round { count: c, found: r.found.push(s) }
    } else if cut_short(b, bound, s) || c > limit {
        Round { count: c, found: r.found }
    } else {
        visit_moves(b, bound, limit, s, move_order(play(b, s)).len() as int, Round { count: c, found: r.found })
    }
}

/// How far the round has come when the search has gone down the first `m`
/// legal moves of the board of `s`, one after the other, as long as it had
/// looked at no more than `limit` nodes.
pub open spec fn visit_moves(b: BoardView, bound: int, limit: int, s: Seq<u8>, m: int, r: Round) -> Round
    decreases bound - s.len(), 0int, m,
{
    if m <= 0 || s.len() >= bound {
        r
    } else {
        let before = visit_moves(b, bound, limit, s, m - 1, r);
        if before.count > limit {
            before
        } else {
            visit(b, bound, limit, s.push(move_order(play(b, s))[m - 1] as u8), before)
        }
    }
}

/// What a whole round with the bound `bound` comes to.
pub open spec fn round_of(b: BoardView, bound: int, limit: int) -> Round {
    visit(b, bound, limit, Seq::empty(), Round { count: 0, found: Seq::empty() })
}

/// The bound of the round that ends a search whose next round has the
/// bound `bound`: the first round that looks at too many nodes or records a
/// solution, or the round with the greatest bound there is.
pub open spec fn last_bound(b: BoardView, limit: int, bound: nat) -> nat
    decreases u32::MAX - bound,
{
    let r = round_of(b, bound as int, limit);
    if r.count > limit || r.found.len() > 0 || bound >= u32::MAX {
        bound
    } else {
        last_bound(b, limit, bound + 1)
    }
}

/// What a search comes to whose next round has the bound `bound`: the
/// solutions it returns, or the solutions that its failure carries. The
/// search fails in the first round that looks at more than `limit` nodes,
/// with the solutions recorded in that round; it returns the solutions of
/// the first round that records one; and it fails when the bound can rise no
/// further.
pub open spec fn ida_from(b: BoardView, limit: int, bound: nat) -> Result<Seq<Seq<u8>>, Seq<Seq<u8>>>
    decreases u32::MAX - bound,
{
    let r = round_of(b, bound as int, limit);
    if r.count > limit {
        Err(r.found)
    } else if r.found.len() > 0 {
        Ok(r.found)
    } else if bound >= u32::MAX {
        Err(Seq::empty())
    } else {
        ida_from(b, limit, bound + 1)
    }
}

/// What the search of board `b` comes to when the first round has the
/// bound `first` and a round may look at `limit` nodes.
pub open spec fn ida_outcome(b: BoardView, first: int, limit: int) -> Result<Seq<Seq<u8>>, Seq<Seq<u8>>> {
    ida_from(b, limit, first as nat)
}

/// What has been recorded so far are different solutions within the
/// bound, none of which begins with `s`.
pub open spec fn recorded_apart(b: BoardView, bound: int, found: Seq<Seq<u8>>, s: Seq<u8>) -> bool {
    &&& found.no_duplicates()
    &&& forall|x: Seq<u8>| #[trigger] found.contains(x) ==> below(b, bound, Seq::empty(), x) && !under(s, x)
}

/// Between `before` and `after` the search has recorded only solutions
/// that begin with `s`, none twice, and has forgotten nothing.
pub open spec fn recorded_under(b: BoardView, bound: int, before: Round, after: Round, s: Seq<u8>) -> bool {
    &&& after.count >= before.count
    &&& after.found.no_duplicates()
    &&& forall|x: Seq<u8>| #[trigger] before.found.contains(x) ==> after.found.contains(x)
    &&& forall|x: Seq<u8>| #[trigger] after.found.contains(x) ==> before.found.contains(x) || below(b, bound, s, x)
}

/// The depth-first search below a followed sequence records solutions
/// within the bound that begin with the sequence, each once; unless it has
/// looked at too many nodes, it records all of them.
pub proof fn lemma_visit(b: BoardView, bound: int, limit: int, s: Seq<u8>, r: Round)
    requires
        b.wf(),
        alive(b, s),
        s.len() <= bound,
        recorded_apart(b, bound, r.found, s),
    ensures
        recorded_under(b, bound, r, visit(b, bound, limit, s, r), s),
        visit(b, bound, limit, s, r).count <= limit ==> forall|x: Seq<u8>|
            below(b, bound, s, x) ==> #[trigger] visit(b, bound, limit, s, r).found.contains(x),
    decreases bound - s.len(), 1int, 0int,
{
    let c = counted(r.count);
    let q = visit(b, bound, limit, s, r);
    let cur = play(b, s);
    lemma_play_wf(b, s);
    lemma_move_order(cur);
    assert(s.take(s.len() as int) =~= s);
    assert(s.take(0) =~= Seq::<u8>::empty());
    if solved(cur.cells) {
        lemma_push_seq(r.found, s);
        assert forall|x: Seq<u8>| below(b, bound, s, x) implies #[trigger] q.found.contains(x) by {
            if x.len() > s.len() {
                lemma_alive_take(b, x, s.len() as int);
            } else {
                assert(x.take(s.len() as int) =~= x);
            }
        }
    } else if cut_short(b, bound, s) || c > limit {
        assert forall|x: Seq<u8>| q.count <= limit && below(b, bound, s, x) implies #[trigger] q.found.contains(x) by {
            if x.len() > s.len() {
                lemma_not_pruned(b, bound, s, x);
                assert(move_order(cur).contains(x[s.len() as int] as int));
            } else {
                assert(x.take(s.len() as int) =~= x);
            }
        }
    } else {
        let ms = move_order(cur);
        let r1 = Round { count: c, found: r.found };
        lemma_visit_moves(b, bound, limit, s, ms.len() as int, r1);
        assert forall|x: Seq<u8>| #[trigger] q.found.contains(x) implies r.found.contains(x) || below(b, bound, s, x) by {
            if !r.found.contains(x) {
                let n = choose|n: int| 0 <= n < ms.len() && below(b, bound, s.push(ms[n] as u8), x);
                lemma_under_push(s, ms[n] as u8, x);
            }
        }
        assert forall|x: Seq<u8>| q.count <= limit && below(b, bound, s, x) implies #[trigger] q.found.contains(x) by {
            if x.len() > s.len() {
                lemma_not_pruned(b, bound, s, x);
                let t = x[s.len() as int];
                assert(ms.contains(t as int));
                let n = choose|n: int| 0 <= n < ms.len() && ms[n] == t as int;
                assert(below(b, bound, s.push(ms[n] as u8), x));
            } else {
                assert(x.take(s.len() as int) =~= x);
            }
        }
    }
}

/// The search down the first `m` legal moves of a node records solutions
/// that begin with the node's sequence and one of these moves, each once;
/// unless it has looked at too many nodes, it records all of them.
pub proof fn lemma_visit_moves(b: BoardView, bound: int, limit: int, s: Seq<u8>, m: int, r: Round)
    requires
        b.wf(),
        alive(b, s),
        s.len() < bound,
        goes_on(play(b, s)),
        0 <= m <= move_order(play(b, s)).len(),
        recorded_apart(b, bound, r.found, s),
    ensures
        visit_moves(b, bound, limit, s, m, r).count >= r.count,
        visit_moves(b, bound, limit, s, m, r).found.no_duplicates(),
        forall|x: Seq<u8>| #[trigger] r.found.contains(x) ==> visit_moves(b, bound, limit, s, m, r).found.contains(x),
        forall|x: Seq<u8>| #[trigger]
            visit_moves(b, bound, limit, s, m, r).found.contains(x) ==> r.found.contains(x) || exists|n: int|
                0 <= n < m && below(b, bound, s.push(move_order(play(b, s))[n] as u8), x),
        visit_moves(b, bound, limit, s, m, r).count <= limit ==> forall|n: int, x: Seq<u8>|
            0 <= n < m && below(b, bound, #[trigger] s.push(move_order(play(b, s))[n] as u8), x) ==> #[trigger] visit_moves(
                b,
                bound,
                limit,
                s,
                m,
                r,
            ).found.contains(x),
    decreases bound - s.len(), 0int, m,
{
    if m > 0 {
        let cur = play(b, s);
        let ms = move_order(cur);
        let before = visit_moves(b, bound, limit, s, m - 1, r);
        let q = visit_moves(b, bound, limit, s, m, r);
        let t = ms[m - 1] as u8;
        let child = s.push(t);
        lemma_visit_moves(b, bound, limit, s, m - 1, r);
        lemma_play_wf(b, s);
        lemma_move_order(cur);
        assert(ms.contains(ms[m - 1]));
        assert(is_move(cur, ms[m - 1]));
        if before.count > limit {
        } else {
            lemma_alive_push(b, s, t);
            assert forall|x: Seq<u8>| #[trigger] before.found.contains(x) implies below(b, bound, Seq::empty(), x) && !under(
                child,
                x,
            ) by {
                if under(child, x) {
                    lemma_under_push(s, t, x);
                }
                if !r.found.contains(x) {
                    let n = choose|n: int| 0 <= n < m - 1 && below(b, bound, s.push(ms[n] as u8), x);
                    assert(ms.contains(ms[n]));
                    assert(is_move(cur, ms[n]));
                    lemma_under_push(s, ms[n] as u8, x);
                    assert(x.take(0) =~= Seq::<u8>::empty());
                }
            }
            lemma_visit(b, bound, limit, child, before);
            assert forall|x: Seq<u8>| #[trigger] q.found.contains(x) implies r.found.contains(x) || exists|n: int|
                0 <= n < m && below(b, bound, s.push(ms[n] as u8), x) by {
                if before.found.contains(x) {
                    if !r.found.contains(x) {
                        let n = choose|n: int| 0 <= n < m - 1 && below(b, bound, s.push(ms[n] as u8), x);
                        assert(0 <= n < m && below(b, bound, s.push(ms[n] as u8), x));
                    }
                } else {
                    assert(0 <= m - 1 < m && below(b, bound, s.push(ms[m - 1] as u8), x));
                }
            }
            assert forall|n: int, x: Seq<u8>|
                q.count <= limit && 0 <= n < m && below(b, bound, #[trigger] s.push(ms[n] as u8), x) implies #[trigger] q.found.contains(
                x,
            ) by {
                if n < m - 1 {
                    assert(before.found.contains(x));
                }
            }
        }
    }
}

/// A round records solutions within its bound, each once; unless it has
/// looked at too many nodes, it records all of them.
pub proof fn lemma_round_of(b: BoardView, bound: int, limit: int)
    requires
        b.wf(),
        0 <= bound,
    ensures
        round_of(b, bound, limit).found.no_duplicates(),
        forall|x: Seq<u8>| #[trigger] round_of(b, bound, limit).found.contains(x) ==> below(b, bound, Seq::empty(), x),
        round_of(b, bound, limit).count <= limit ==> forall|x: Seq<u8>|
            below(b, bound, Seq::empty(), x) ==> #[trigger] round_of(b, bound, limit).found.contains(x),
{
    let r = Round { count: 0, found: Seq::empty() };
    lemma_visit(b, bound, limit, Seq::empty(), r);
}

/// What the search returns are, each once, the followed sequences within
/// the bound of its last round that solve the board, and there is one; no
/// solution lies within a lower bound, unless the last round was the first.
/// With a first bound of 0 these are the solutions of the least length. What
/// a failure carries are solutions.
pub proof fn lemma_ida_from(b: BoardView, limit: int, first: nat, bound: nat)
    requires
        b.wf(),
        first <= bound <= u32::MAX,
        bound > first ==> none_within(b, bound - 1),
    ensures
        bound <= last_bound(b, limit, bound) <= u32::MAX,
        match ida_from(b, limit, bound) {
            Ok(x) => {
                &&& x.len() > 0
                &&& x.no_duplicates()
                &&& forall|s: Seq<u8>| #[trigger] x.contains(s) <==> below(b, last_bound(b, limit, bound) as int, Seq::empty(), s)
                &&& last_bound(b, limit, bound) > first ==> none_within(b, last_bound(b, limit, bound) - 1)
                &&& first == 0 ==> forall|s: Seq<u8>| #[trigger] x.contains(s) <==> is_minimal_solution(b, s)
            },
            Err(y) => y.no_duplicates() && forall|i: int| 0 <= i < y.len() ==> is_solution(b, #[trigger] y[i]),
        },
    decreases u32::MAX - bound,
{
    let r = round_of(b, bound as int, limit);
    lemma_round_of(b, bound as int, limit);
    if r.count > limit {
        assert forall|i: int| 0 <= i < r.found.len() implies is_solution(b, #[trigger] r.found[i]) by {
            assert(r.found.contains(r.found[i]));
        }
    } else if r.found.len() > 0 {
        let x = r.found;
        if first == 0 {
            assert forall|s: Seq<u8>| #[trigger] alive(b, s) && s.len() < bound implies !solved(play(b, s).cells) by {
                assert(s.take(0) =~= Seq::<u8>::empty());
                if solved(play(b, s).cells) {
                    assert(below(b, bound - 1, Seq::empty(), s));
                }
            }
            let w = x[0];
            assert(x.contains(w));
            assert(w.len() == bound) by {
                if w.len() < bound {
                    assert(alive(b, w));
                }
            }
            assert forall|s: Seq<u8>| #[trigger] x.contains(s) <==> is_minimal_solution(b, s) by {
                if x.contains(s) {
                    if s.len() < bound {
                        assert(alive(b, s));
                    }
                    lemma_first_is_minimal(b, bound as int, s);
                }
                if is_minimal_solution(b, s) {
                    lemma_minimal_is_first(b, bound as int, w, s);
                    assert(s.take(0) =~= Seq::<u8>::empty());
                }
            }
        }
    } else if bound >= u32::MAX {
    } else {
        assert forall|s: Seq<u8>| !#[trigger] below(b, bound as int, Seq::empty(), s) by {
            if below(b, bound as int, Seq::empty(), s) {
                assert(r.found.contains(s));
            }
        }
        lemma_ida_from(b, limit, first, bound + 1);
    }
}

/// The iterative-deepening solver. A round is given up when it has looked
/// at more than `max_node_count` nodes.
pub struct IdaSolver {
    board: Board,
    solutions: Vec<Vec<u8>>,
    max_depth_ini: u32,
    max_depth: u32,
    node_count: u64,
    max_node_count: u64,
}

impl IdaSolver {
    /// The bound with which the first round runs.
    pub closed spec fn first_bound(&self) -> int {
        self.max_depth_ini as int
    }

    /// The bound of the round that ran last.
    pub closed spec fn bound(&self) -> int {
        self.max_depth as int
    }

    /// The greatest number of nodes that a round may look at.
    pub closed spec fn limit(&self) -> int {
        self.max_node_count as int
    }

    /// How far the running round has come.
    pub closed spec fn round(&self) -> Round {
        Round { count: self.node_count as int, found: seqs_of(self.solutions@) }
    }

    /// What a call of `dfs` leaves as it was.
    pub closed spec fn same_round(&self, other: &Self) -> bool {
        &&& self.board@ == other.board@
        &&& self.max_depth == other.max_depth
        &&& self.max_depth_ini == other.max_depth_ini
        &&& self.max_node_count == other.max_node_count
    }

    /// A solver whose first round runs with the bound `max_depth_ini` and
    /// which gives a round up after `max_node_count` nodes.
    pub fn new(max_depth_ini: u32, max_node_count: u64) -> (s: Self)
        ensures
            s.first_bound() == max_depth_ini,
            s.limit() == max_node_count,
    {
        let cells = [0u8; 64];
        Self {
            board: Board::new(0, cells.as_slice()),
            solutions: Vec::new(),
            max_depth_ini,
            max_depth: 0,
            node_count: 0,
            max_node_count,
        }
    }

    /// Looks at the node that the moves `sol` lead to, and at the nodes
    /// below it as far as the bound and the lower bound allow; every solved
    /// node is recorded. The search returns at once when the round has
    /// looked at too many nodes.
    fn dfs(&mut self, board: &Board, depth: u32, sol: &Vec<u8>, Ghost(b): Ghost<BoardView>)
        requires
            board@ == play(b, sol@),
            board@.wf(),
            sol@.len() == depth,
            depth <= old(self).bound(),
        ensures
            final(self).same_round(old(self)),
            final(self).round() == visit(b, old(self).bound(), old(self).limit(), sol@, old(self).round()),
        decreases old(self).bound() - depth,
    {
        let ghost bound = self.max_depth as int;
        let ghost limit = self.max_node_count as int;
        let ghost r0 = self.round();
        if self.node_count < u64::MAX {
            self.node_count = self.node_count + 1;
        }
        if depth > self.max_depth {
            return ;
        }
        if board.is_solved() {
            self.solutions.push(copy_moves(sol));
            proof {
                assert(seqs_of(self.solutions@) =~= r0.found.push(sol@));
            }
            return ;
        }
        if board.is_stuck() {
            return ;
        }
        let moves = board.moves();
        proof {
            assert(cell_indices(moves@).len() == moves@.len());
        }
        if moves.len() == 0 {
            return ;
        }
        let lb = board.least_to_solve();
        if depth as u64 + lb as u64 > self.max_depth as u64 {
            return ;
        }
        if self.node_count > self.max_node_count {
            return ;
        }
        let ghost r1 = self.round();
        let ghost ms = move_order(board@);
        let mut m: usize = 0;
        while m < moves.len()
            invariant
                m <= moves@.len(),
                bound == old(self).bound(),
                limit == old(self).limit(),
                self.same_round(old(self)),
                board@ == play(b, sol@),
                board@.wf(),
                sol@.len() == depth,
                depth < bound,
                ms == move_order(board@),
                cell_indices(moves@) == ms,
                self.round() == visit_moves(b, bound, limit, sol@, m as int, r1),
                self.node_count <= self.max_node_count,
                visit(b, bound, limit, sol@, r0) == visit_moves(b, bound, limit, sol@, ms.len() as int, r1),
                r0 == old(self).round(),
            decreases moves@.len() - m,
        {
            let to = moves[m];
            proof {
                assert(ms[m as int] == to as int);
                lemma_move_order(board@);
                assert(ms.contains(ms[m as int]));
                lemma_play_push(b, sol@, to);
            }
            let mut board2 = board.clone();
            board2.move_(to);
            let mut sol2 = copy_moves(sol);
            sol2.push(to);
            self.dfs(&board2, depth + 1, &sol2, Ghost(b));
            proof {
                assert(self.round() == visit_moves(b, bound, limit, sol@, m + 1, r1));
            }
            if self.node_count > self.max_node_count {
                proof {
                    assert(ms.len() == moves@.len());
                    lemma_visit_moves_stops(b, bound, limit, sol@, m + 1, moves@.len() as int, r1);
                }
                return ;
            }
            m = m + 1;
        }
    }
}

/// Once the search has looked at too many nodes, it goes down no further
/// move.
pub proof fn lemma_visit_moves_stops(b: BoardView, bound: int, limit: int, s: Seq<u8>, m: int, n: int, r: Round)
    requires
        0 <= m <= n,
        s.len() < bound,
        visit_moves(b, bound, limit, s, m, r).count > limit,
    ensures
        visit_moves(b, bound, limit, s, n, r) == visit_moves(b, bound, limit, s, m, r),
    decreases n - m,
{
    if m < n {
        lemma_visit_moves_stops(b, bound, limit, s, m, n - 1, r);
    }
}

impl Solver for IdaSolver {
    open spec fn ready(&self) -> bool {
        true
    }

    /// Runs rounds with rising bound until one records a solution or looks
    /// at too many nodes. The result holds, each once, every followed
    /// sequence within the bound of the last round that solves the board; no
    /// solution lies within a lower bound than that, unless the last round
    /// was the first one. With a first bound of 0 the result is therefore
    /// the set of the solutions of the least length. The search fails in the
    /// first round that looks at more than the allowed number of nodes; the
    /// error then carries the solutions recorded in that round.
    fn solve(&mut self, board: &Board) -> (r: Result<Vec<Vec<u8>>, SolverError>)
        ensures
            final(self).first_bound() == old(self).first_bound(),
            final(self).limit() == old(self).limit(),
            final(self).bound() == last_bound(board@, old(self).limit(), old(self).first_bound() as nat),
            old(self).first_bound() <= final(self).bound(),
            match r {
                Ok(sols) => {
                    &&& ida_outcome(board@, old(self).first_bound(), old(self).limit()) == Ok::<
                        Seq<Seq<u8>>,
                        Seq<Seq<u8>>,
                    >(seqs_of(sols@))
                    &&& sols@.len() > 0
                    &&& seqs_of(sols@).no_duplicates()
                    &&& forall|s: Seq<u8>| #[trigger]
                        seqs_of(sols@).contains(s) <==> below(board@, final(self).bound(), Seq::empty(), s)
                    &&& final(self).bound() > old(self).first_bound() ==> none_within(board@, final(self).bound() - 1)
                    &&& old(self).first_bound() == 0 ==> forall|s: Seq<u8>| #[trigger]
                        seqs_of(sols@).contains(s) <==> is_minimal_solution(board@, s)
                },
                Err(e) => ida_outcome(board@, old(self).first_bound(), old(self).limit()) == Err::<
                    Seq<Seq<u8>>,
                    Seq<Seq<u8>>,
                >(e@),
            },
    {
        let ghost b = board@;
        let ghost limit = self.max_node_count as int;
        let ghost first = self.max_depth_ini as nat;
        self.board = board.clone();
        self.solutions = Vec::new();
        self.max_depth = self.max_depth_ini;
        proof {
            lemma_ida_from(b, limit, first, first);
        }
        loop
            invariant
                b == board@,
                b.wf(),
                self.board@ == b,
                limit == old(self).limit(),
                first == old(self).first_bound(),
                self.max_depth_ini == old(self).max_depth_ini,
                self.max_node_count == old(self).max_node_count,
                self.max_depth >= self.max_depth_ini,
                self.solutions@.len() == 0,
                ida_from(b, limit, self.max_depth as nat) == ida_outcome(b, first as int, limit),
                last_bound(b, limit, self.max_depth as nat) == last_bound(b, limit, first),
                match ida_outcome(b, first as int, limit) {
                    Ok(x) => {
                        &&& x.len() > 0
                        &&& x.no_duplicates()
                        &&& forall|s: Seq<u8>| #[trigger] x.contains(s) <==> below(b, last_bound(b, limit, first) as int, Seq::empty(), s)
                        &&& last_bound(b, limit, first) > first ==> none_within(b, last_bound(b, limit, first) - 1)
                        &&& first == 0 ==> forall|s: Seq<u8>| #[trigger] x.contains(s) <==> is_minimal_solution(b, s)
                    },
                    Err(y) => y.no_duplicates() && forall|i: int| 0 <= i < y.len() ==> is_solution(b, #[trigger] y[i]),
                },
            decreases u32::MAX - self.max_depth,
        {
            let ghost bound = self.max_depth as int;
            self.node_count = 0;
            let root = self.board.clone();
            let start: Vec<u8> = Vec::new();
            proof {
                assert(start@ =~= Seq::<u8>::empty());
                assert(seqs_of(self.solutions@) =~= Seq::<Seq<u8>>::empty());
            }
            self.dfs(&root, 0, &start, Ghost(b));
            proof {
                assert(self.round() == round_of(b, bound, limit));
            }
            if self.node_count > self.max_node_count {
                let sols = copy_solutions(&self.solutions);
                proof {
                    assert forall|i: int| 0 <= i < sols@.len() implies is_solution(b, #[trigger] seqs_of(sols@)[i]) by {
                    }
                }
                return Err(SolverError::new(sols));
            }
            if self.solutions.len() > 0 {
                let sols = copy_solutions(&self.solutions);
                proof {
                    let x = seqs_of(sols@);
                    assert(x.len() == sols@.len());
                    assert forall|i: int| 0 <= i < sols@.len() implies is_solution(b, #[trigger] sols@[i]@) by {
                        assert(x[i] == sols@[i]@);
                        assert(x.contains(x[i]));
                    }
                }
                return Ok(sols);
            }
            proof {
                assert(seqs_of(self.solutions@).len() == 0);
            }
            if self.max_depth == u32::MAX {
                let none: Vec<Vec<u8>> = Vec::new();
                proof {
                    assert(seqs_of(none@) =~= Seq::<Seq<u8>>::empty());
                }
                return Err(SolverError::new(none));
            }
            self.max_depth = self.max_depth + 1;
        }
    }
}

} // verus!
