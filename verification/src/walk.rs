//! Where the actor can go: walks over the grid, the rotators within reach
//! and the order in which a breadth-first search finds them.

use crate::board::BoardView;
use crate::cells::{is_rotator, WALL};
use crate::grid::{in_grid, is_adjacent, lemma_neighbours, neighbours};
use vstd::prelude::*;

verus! {

/// The actor can step on cell `i`.
pub open spec fn passable(cells: Seq<u8>, i: int) -> bool {
    in_grid(i) && cells[i] != WALL
}

/// The actor can step on cell `i` and walk on from it. A rotator ends a
/// walk.
pub open spec fn open_cell(cells: Seq<u8>, i: int) -> bool {
    passable(cells, i) && !is_rotator(cells[i])
}

/// `p` lists the cells of a walk that leaves `src`: its first cell is a
/// neighbour of `src`, each cell is a neighbour of the one before, none is a
/// wall, and only the last may be a rotator.
pub open spec fn is_walk(cells: Seq<u8>, src: int, p: Seq<int>) -> bool {
    &&& p.len() >= 1
    &&& is_adjacent(src, p[0])
    &&& forall|k: int| 0 <= k < p.len() ==> passable(cells, #[trigger] p[k])
    &&& forall|k: int|
        0 <= k < p.len() - 1 ==> open_cell(cells, #[trigger] p[k]) && is_adjacent(p[k], p[k + 1])
}

/// `p` is a walk from `src` that ends on `dst`.
pub open spec fn walk_to(cells: Seq<u8>, src: int, dst: int, p: Seq<int>) -> bool {
    is_walk(cells, src, p) && p.last() == dst
}

/// Some walk from `src` ends on `dst`. A walk has at least one step, so a
/// cell is within reach of itself only by leaving it and coming back.
pub open spec fn reachable(cells: Seq<u8>, src: int, dst: int) -> bool {
    exists|p: Seq<int>| walk_to(cells, src, dst, p)
}

/// Cell `t` holds a rotator that the actor can walk to.
pub open spec fn is_move(b: BoardView, t: int) -> bool {
    in_grid(t) && is_rotator(b.cells[t]) && reachable(b.cells, b.pos, t)
}

/// The state of a breadth-first search: the cells waiting to be looked at,
/// first in first out, and the cells that have been met.
pub struct Frontier {
    pub queue: Seq<int>,
    pub seen: Set<int>,
}

/// The frontier after cell `n` has been met: it joins the queue unless it is
/// a wall or has been met before.
pub open spec fn meet(cells: Seq<u8>, f: Frontier, n: int) -> Frontier {
    if passable(cells, n) && !f.seen.contains(n) {
        Frontier { queue: f.queue.push(n), seen: f.seen.insert(n) }
    } else {
        f
    }
}

/// The frontier after the cells of `ns` have been met one after the other.
pub open spec fn meet_all(cells: Seq<u8>, f: Frontier, ns: Seq<int>) -> Frontier
    decreases ns.len(),
{
    if ns.len() == 0 {
        f
    } else {
        meet(cells, meet_all(cells, f, ns.drop_last()), ns.last())
    }
}

/// The frontier after the head of the queue has been taken off.
pub open spec fn popped(f: Frontier) -> Frontier {
    Frontier { queue: f.queue.subrange(1, f.queue.len() as int), seen: f.seen }
}

/// The rotators that the search finds from frontier `f` on, in the order in
/// which they leave the queue, within `fuel` rounds. A rotator is recorded
/// and not walked through; every other cell hands the search on to its
/// neighbours.
pub open spec fn rotators_found(cells: Seq<u8>, f: Frontier, fuel: nat) -> Seq<int>
    decreases fuel,
{
    if fuel == 0 || f.queue.len() == 0 {
        Seq::empty()
    } else {
        let i = f.queue[0];
        if is_rotator(cells[i]) {
            seq![i] + rotators_found(cells, popped(f), (fuel - 1) as nat)
        } else {
            rotators_found(cells, meet_all(cells, popped(f), neighbours(i)), (fuel - 1) as nat)
        }
    }
}

/// The frontier with which a search from `src` starts: the neighbours of
/// `src` that are no walls. `src` itself has not been met.
pub open spec fn first_frontier(cells: Seq<u8>, src: int) -> Frontier {
    meet_all(cells, Frontier { queue: Seq::empty(), seen: Set::empty() }, neighbours(src))
}

/// The legal moves of a board in the order in which the search from the
/// actor's cell finds them. Sixty-four rounds are enough, since no cell
/// enters the queue twice.
pub open spec fn move_order(b: BoardView) -> Seq<int> {
    rotators_found(b.cells, first_frontier(b.cells, b.pos), 64)
}

/// What holds of the cells that a search from `src` has met, where `done`
/// are the cells that have left the queue: no cell waits twice, a cell has
/// been met when it waits or is done, and every cell met is within reach.
pub open spec fn search_core(cells: Seq<u8>, src: int, f: Frontier, done: Set<int>) -> bool {
    &&& f.queue.no_duplicates()
    &&& forall|c: int| #[trigger] f.seen.contains(c) <==> (done.contains(c) || f.queue.contains(c))
    &&& forall|c: int| #[trigger] done.contains(c) ==> !f.queue.contains(c)
    &&& forall|c: int| #[trigger] f.seen.contains(c) ==> passable(cells, c) && reachable(cells, src, c)
}

/// Every neighbour of `c` that is no wall has been met.
pub open spec fn closed_around(cells: Seq<u8>, f: Frontier, c: int) -> bool {
    forall|n: int| is_adjacent(c, n) && passable(cells, n) ==> #[trigger] f.seen.contains(n)
}

/// What holds between the rounds of a search from `src`: beyond
/// `search_core`, the search has looked around `src` and around every open
/// cell that is done.
pub open spec fn search_inv(cells: Seq<u8>, src: int, f: Frontier, done: Set<int>) -> bool {
    &&& search_core(cells, src, f, done)
    &&& closed_around(cells, f, src)
    &&& forall|c: int| #[trigger] done.contains(c) && open_cell(cells, c) ==> closed_around(cells, f, c)
}

/// A walk that is one cell long.
pub proof fn lemma_first_step(cells: Seq<u8>, src: int, n: int)
    requires
        is_adjacent(src, n),
        passable(cells, n),
    ensures
        walk_to(cells, src, n, seq![n]),
        reachable(cells, src, n),
{
    let p = seq![n];
    assert(p[0] == n);
    assert(walk_to(cells, src, n, p));
}

/// A walk that ends on an open cell goes on to any neighbour that is no wall.
pub proof fn lemma_walk_on(cells: Seq<u8>, src: int, p: Seq<int>, n: int)
    requires
        is_walk(cells, src, p),
        open_cell(cells, p.last()),
        is_adjacent(p.last(), n),
        passable(cells, n),
    ensures
        walk_to(cells, src, n, p.push(n)),
        reachable(cells, src, n),
{
    let q = p.push(n);
    assert forall|k: int| 0 <= k < q.len() implies passable(cells, #[trigger] q[k]) by {
        if k < p.len() {
            assert(q[k] == p[k]);
        }
    }
    assert forall|k: int| 0 <= k < q.len() - 1 implies open_cell(cells, #[trigger] q[k]) && is_adjacent(
        q[k],
        q[k + 1],
    ) by {
        assert(q[k] == p[k]);
        if k < p.len() - 1 {
            assert(q[k + 1] == p[k + 1]);
        }
    }
    assert(q[0] == p[0]);
    assert(walk_to(cells, src, n, q));
}

/// A walk without its last step is a walk to an open cell beside the end.
pub proof fn lemma_walk_back(cells: Seq<u8>, src: int, p: Seq<int>)
    requires
        is_walk(cells, src, p),
        p.len() >= 2,
    ensures
        is_walk(cells, src, p.drop_last()),
        open_cell(cells, p.drop_last().last()),
        is_adjacent(p.drop_last().last(), p.last()),
{
    let q = p.drop_last();
    assert forall|k: int| 0 <= k < q.len() implies passable(cells, #[trigger] q[k]) by {
        assert(q[k] == p[k]);
    }
    assert forall|k: int| 0 <= k < q.len() - 1 implies open_cell(cells, #[trigger] q[k]) && is_adjacent(
        q[k],
        q[k + 1],
    ) by {
        assert(q[k] == p[k]);
        assert(q[k + 1] == p[k + 1]);
    }
    assert(q[0] == p[0]);
    assert(q.last() == p[p.len() - 2]);
}

/// Once the queue is empty, the search has met every cell within reach.
pub proof fn lemma_search_complete(cells: Seq<u8>, src: int, f: Frontier, done: Set<int>, p: Seq<int>)
    requires
        search_inv(cells, src, f, done),
        f.queue.len() == 0,
        is_walk(cells, src, p),
    ensures
        done.contains(p.last()),
    decreases p.len(),
{
    if p.len() == 1 {
        assert(f.seen.contains(p[0]));
    } else {
        lemma_walk_back(cells, src, p);
        lemma_search_complete(cells, src, f, done, p.drop_last());
        assert(f.seen.contains(p.last()));
    }
}

/// What a sequence holds after a push.
pub proof fn lemma_push_contains(s: Seq<int>, n: int)
    ensures
        forall|x: int| #[trigger] s.push(n).contains(x) <==> (s.contains(x) || x == n),
        s.no_duplicates() && !s.contains(n) ==> s.push(n).no_duplicates(),
{
    let g = s.push(n);
    assert forall|x: int| #[trigger] g.contains(x) <==> (s.contains(x) || x == n) by {
        if s.contains(x) {
            let i = choose|i: int| 0 <= i < s.len() && s[i] == x;
            assert(g[i] == x);
        }
        if x == n {
            assert(g[s.len() as int] == n);
        }
        if g.contains(x) {
            let i = choose|i: int| 0 <= i < g.len() && g[i] == x;
            if i < s.len() {
                assert(s[i] == x);
            }
        }
    }
    if s.no_duplicates() && !s.contains(n) {
        assert forall|i: int, j: int| 0 <= i < g.len() && 0 <= j < g.len() && i != j implies g[i] != g[j] by {
            if i < s.len() {
                assert(s.contains(s[i]));
            }
            if j < s.len() {
                assert(s.contains(s[j]));
            }
        }
    }
}

/// What a sequence holds after its head has been taken off.
pub proof fn lemma_pop_contains(s: Seq<int>)
    requires
        s.len() > 0,
        s.no_duplicates(),
    ensures
        forall|x: int| #[trigger] s.subrange(1, s.len() as int).contains(x) <==> (s.contains(x) && x != s[0]),
        s.subrange(1, s.len() as int).no_duplicates(),
{
    let g = s.subrange(1, s.len() as int);
    assert forall|x: int| #[trigger] g.contains(x) <==> (s.contains(x) && x != s[0]) by {
        if s.contains(x) && x != s[0] {
            let i = choose|i: int| 0 <= i < s.len() && s[i] == x;
            assert(g[i - 1] == x);
        }
        if g.contains(x) {
            let i = choose|i: int| 0 <= i < g.len() && g[i] == x;
            assert(s[i + 1] == x);
        }
    }
}

/// Meeting a cell `n` that lies within reach keeps what holds of the cells
/// met so far; `n` has been met afterwards unless it is a wall, and no cell
/// is forgotten.
pub proof fn lemma_meet(cells: Seq<u8>, src: int, f: Frontier, done: Set<int>, n: int)
    requires
        search_core(cells, src, f, done),
        passable(cells, n) ==> reachable(cells, src, n),
    ensures
        search_core(cells, src, meet(cells, f, n), done),
        passable(cells, n) ==> meet(cells, f, n).seen.contains(n),
        forall|x: int| f.seen.contains(x) ==> meet(cells, f, n).seen.contains(x),
        forall|x: int| meet(cells, f, n).seen.contains(x) ==> f.seen.contains(x) || x == n,
{
    lemma_push_contains(f.queue, n);
}

/// Meeting the neighbours of a cell `c` from which the search may go on.
pub proof fn lemma_meet_all(cells: Seq<u8>, src: int, f: Frontier, done: Set<int>, c: int, ns: Seq<int>)
    requires
        search_core(cells, src, f, done),
        c == src || (open_cell(cells, c) && reachable(cells, src, c)),
        forall|k: int| 0 <= k < ns.len() ==> is_adjacent(c, #[trigger] ns[k]),
    ensures
        search_core(cells, src, meet_all(cells, f, ns), done),
        forall|k: int| 0 <= k < ns.len() && passable(cells, ns[k]) ==> meet_all(cells, f, ns).seen.contains(#[trigger] ns[k]),
        forall|x: int| f.seen.contains(x) ==> meet_all(cells, f, ns).seen.contains(x),
    decreases ns.len(),
{
    if ns.len() > 0 {
        let n = ns.last();
        let g = meet_all(cells, f, ns.drop_last());
        lemma_meet_all(cells, src, f, done, c, ns.drop_last());
        assert(is_adjacent(c, ns[ns.len() - 1]));
        if passable(cells, n) {
            if c == src {
                lemma_first_step(cells, src, n);
            } else {
                let p = choose|p: Seq<int>| walk_to(cells, src, c, p);
                lemma_walk_on(cells, src, p, n);
            }
        }
        lemma_meet(cells, src, g, done, n);
        assert forall|k: int| 0 <= k < ns.len() && passable(cells, ns[k]) implies meet_all(cells, f, ns).seen.contains(#[trigger] ns[k]) by {
            if k < ns.len() - 1 {
                assert(ns.drop_last()[k] == ns[k]);
            }
        }
    }
}

/// The search starts in a state of which `search_inv` holds.
pub proof fn lemma_first_frontier(cells: Seq<u8>, src: int)
    requires
        in_grid(src),
    ensures
        search_inv(cells, src, first_frontier(cells, src), Set::empty()),
{
    let f0 = Frontier { queue: Seq::empty(), seen: Set::empty() };
    let ns = neighbours(src);
    lemma_neighbours(src);
    assert forall|k: int| 0 <= k < ns.len() implies is_adjacent(src, #[trigger] ns[k]) by {
        assert(ns.contains(ns[k]));
    }
    lemma_meet_all(cells, src, f0, Set::empty(), src, ns);
    let f = first_frontier(cells, src);
    assert forall|n: int| is_adjacent(src, n) && passable(cells, n) implies #[trigger] f.seen.contains(n) by {
        assert(ns.contains(n));
        let k = choose|k: int| 0 <= k < ns.len() && ns[k] == n;
        assert(passable(cells, ns[k]));
    }
}

/// The frontier after one round of the search: the head of the queue has
/// left it, and unless it holds a rotator its neighbours have been met.
pub open spec fn next_frontier(cells: Seq<u8>, f: Frontier) -> Frontier {
    if is_rotator(cells[f.queue[0]]) {
        popped(f)
    } else {
        meet_all(cells, popped(f), neighbours(f.queue[0]))
    }
}

/// A round of the search keeps `search_inv`, with the head of the queue
/// done. The head is a cell that was not done before.
pub proof fn lemma_round(cells: Seq<u8>, src: int, f: Frontier, done: Set<int>)
    requires
        search_inv(cells, src, f, done),
        f.queue.len() > 0,
    ensures
        search_inv(cells, src, next_frontier(cells, f), done.insert(f.queue[0])),
        passable(cells, f.queue[0]),
        reachable(cells, src, f.queue[0]),
        !done.contains(f.queue[0]),
{
    let i = f.queue[0];
    let done2 = done.insert(i);
    let rest = popped(f);
    let g = next_frontier(cells, f);
    assert(f.queue.contains(i));
    assert(f.seen.contains(i));
    lemma_pop_contains(f.queue);
    assert(search_core(cells, src, rest, done2));
    if is_rotator(cells[i]) {
        assert(search_inv(cells, src, g, done2));
    } else {
        let ns = neighbours(i);
        lemma_neighbours(i);
        assert forall|k: int| 0 <= k < ns.len() implies is_adjacent(i, #[trigger] ns[k]) by {
            assert(ns.contains(ns[k]));
        }
        lemma_meet_all(cells, src, rest, done2, i, ns);
        assert forall|n: int| is_adjacent(i, n) && passable(cells, n) implies #[trigger] g.seen.contains(n) by {
            assert(ns.contains(n));
            let k = choose|k: int| 0 <= k < ns.len() && ns[k] == n;
            assert(passable(cells, ns[k]));
        }
        assert forall|n: int| is_adjacent(src, n) && passable(cells, n) implies #[trigger] g.seen.contains(n) by {
            assert(f.seen.contains(n));
            assert(rest.seen.contains(n));
        }
        assert forall|c: int| #[trigger] done2.contains(c) && open_cell(cells, c) implies closed_around(cells, g, c) by {
            if c != i {
                assert(closed_around(cells, f, c));
                assert forall|n: int| is_adjacent(c, n) && passable(cells, n) implies #[trigger] g.seen.contains(n) by {
                    assert(f.seen.contains(n));
                    assert(rest.seen.contains(n));
                }
            }
        }
    }
}

/// While a cell waits, fewer than 64 cells are done.
pub proof fn lemma_done_bound(done: Set<int>, i: int)
    requires
        done.finite(),
        forall|c: int| done.contains(c) ==> in_grid(c),
        in_grid(i),
        !done.contains(i),
    ensures
        done.len() < 64,
{
    let all = vstd::set_lib::set_int_range(0, 64);
    vstd::set_lib::lemma_int_range(0, 64);
    let d2 = done.insert(i);
    assert forall|c: int| d2.contains(c) implies all.contains(c) by {
        assert(in_grid(c));
    }
    assert(d2.subset_of(all));
    vstd::set_lib::lemma_len_subset(d2, all);
}

/// What the search finds from a state of which `search_inv` holds: each
/// rotator within reach of `src` that is not done yet, once.
pub proof fn lemma_rotators_found(cells: Seq<u8>, src: int, f: Frontier, done: Set<int>, fuel: nat)
    requires
        search_inv(cells, src, f, done),
        done.finite(),
        forall|c: int| done.contains(c) ==> in_grid(c),
        fuel + done.len() >= 64,
    ensures
        rotators_found(cells, f, fuel).no_duplicates(),
        forall|t: int| #[trigger]
            rotators_found(cells, f, fuel).contains(t) <==> (is_rotator(cells[t]) && reachable(cells, src, t)
                && !done.contains(t)),
    decreases fuel,
{
    let r = rotators_found(cells, f, fuel);
    if f.queue.len() == 0 {
        assert forall|t: int| is_rotator(cells[t]) && reachable(cells, src, t) implies done.contains(t) by {
            let p = choose|p: Seq<int>| walk_to(cells, src, t, p);
            lemma_search_complete(cells, src, f, done, p);
        }
    } else {
        let i = f.queue[0];
        lemma_round(cells, src, f, done);
        lemma_done_bound(done, i);
        let g = next_frontier(cells, f);
        let done2 = done.insert(i);
        let r2 = rotators_found(cells, g, (fuel - 1) as nat);
        lemma_rotators_found(cells, src, g, done2, (fuel - 1) as nat);
        if is_rotator(cells[i]) {
            assert(r == seq![i] + r2);
            assert(!r2.contains(i));
            assert forall|t: int| #[trigger] r.contains(t) <==> (t == i || r2.contains(t)) by {
                if r2.contains(t) {
                    let k = choose|k: int| 0 <= k < r2.len() && r2[k] == t;
                    assert(r[k + 1] == t);
                }
                if t == i {
                    assert(r[0] == i);
                }
                if r.contains(t) {
                    let k = choose|k: int| 0 <= k < r.len() && r[k] == t;
                    if k > 0 {
                        assert(r2[k - 1] == t);
                    }
                }
            }
            assert forall|a: int, b: int| 0 <= a < r.len() && 0 <= b < r.len() && a != b implies r[a] != r[b] by {
                if a > 0 {
                    assert(r2.contains(r2[a - 1]));
                }
                if b > 0 {
                    assert(r2.contains(r2[b - 1]));
                }
            }
        } else {
            assert(r == r2);
        }
    }
}

/// The search from the actor's cell finds every legal move of the board,
/// each once.
pub proof fn lemma_move_order(b: BoardView)
    requires
        in_grid(b.pos),
    ensures
        move_order(b).no_duplicates(),
        forall|t: int| #[trigger] move_order(b).contains(t) <==> is_move(b, t),
{
    lemma_first_frontier(b.cells, b.pos);
    lemma_rotators_found(b.cells, b.pos, first_frontier(b.cells, b.pos), Set::empty(), 64);
    assert forall|t: int| #[trigger] move_order(b).contains(t) <==> is_move(b, t) by {
        if is_rotator(b.cells[t]) && reachable(b.cells, b.pos, t) {
            let p = choose|p: Seq<int>| walk_to(b.cells, b.pos, t, p);
            assert(passable(b.cells, p[p.len() - 1]));
        }
    }
}

} // verus!
