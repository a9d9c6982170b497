//! The length of the actor's shortest way between two cells, and what a
//! breadth-first search knows of it while it runs.

use crate::grid::{in_grid, is_adjacent};
use crate::walk::{
    is_walk, lemma_first_step, lemma_push_contains, lemma_walk_back, lemma_walk_on, open_cell,
    passable, walk_to,
};
use vstd::prelude::*;

verus! {

/// Some walk from `src` to `dst` has `d` steps.
pub open spec fn walk_of_len(cells: Seq<u8>, src: int, dst: int, d: int) -> bool {
    exists|p: Seq<int>| walk_to(cells, src, dst, p) && p.len() == d
}

/// No walk from `src` to `dst` has fewer than `d` steps.
pub open spec fn no_shorter(cells: Seq<u8>, src: int, dst: int, d: int) -> bool {
    forall|p: Seq<int>| walk_to(cells, src, dst, p) ==> p.len() >= d
}

/// `d` is the number of steps of a shortest walk from `src` to `dst`.
pub open spec fn is_distance(cells: Seq<u8>, src: int, dst: int, d: int) -> bool {
    walk_of_len(cells, src, dst, d) && no_shorter(cells, src, dst, d)
}

/// The search has found a way to cell `c`.
pub open spec fn known(dist: Seq<Option<u32>>, c: int) -> bool {
    in_grid(c) && dist[c].is_some()
}

/// The number of steps that the search has recorded for cell `c`.
pub open spec fn lvl(dist: Seq<Option<u32>>, c: int) -> int {
    dist[c].unwrap() as int
}

/// The cells with a recorded distance are those that wait in `q`, those
/// that are `done`, and the cell `cur` that is being looked at, if it is on
/// the grid. No cell is in two of these places, and `dst` is not done.
pub open spec fn dist_book(q: Seq<int>, dist: Seq<Option<u32>>, done: Set<int>, cur: int, dst: int) -> bool {
    &&& dist.len() == 64
    &&& q.no_duplicates()
    &&& !q.contains(cur)
    &&& !done.contains(cur)
    &&& !done.contains(dst)
    &&& forall|c: int| #[trigger] known(dist, c) <==> (done.contains(c) || q.contains(c) || (c == cur && in_grid(c)))
    &&& forall|c: int| #[trigger] done.contains(c) ==> !q.contains(c)
}

/// The recorded distances rise along the queue from `lv` to at most
/// `lv + 1`; the cells that are done have at most `lv`, and the cell that is
/// being looked at has `lv`.
pub open spec fn dist_ranks(q: Seq<int>, dist: Seq<Option<u32>>, done: Set<int>, cur: int, lv: int) -> bool {
    &&& forall|k: int| 0 <= k < q.len() ==> lv <= lvl(dist, #[trigger] q[k]) <= lv + 1
    &&& forall|a: int, b: int| 0 <= a < b < q.len() ==> lvl(dist, #[trigger] q[a]) <= lvl(dist, #[trigger] q[b])
    &&& forall|c: int| #[trigger] done.contains(c) ==> lvl(dist, c) <= lv
    &&& in_grid(cur) ==> lvl(dist, cur) == lv
}

/// Every recorded distance is the length of a shortest walk.
pub open spec fn dist_right(cells: Seq<u8>, src: int, dist: Seq<Option<u32>>) -> bool {
    forall|c: int| #[trigger] known(dist, c) ==> passable(cells, c) && is_distance(cells, src, c, lvl(dist, c))
}

/// Every neighbour of `c` that is no wall has a recorded distance of at most
/// `d + 1`.
pub open spec fn looked_around(cells: Seq<u8>, dist: Seq<Option<u32>>, c: int, d: int) -> bool {
    forall|n: int| is_adjacent(c, n) && passable(cells, n) ==> #[trigger] known(dist, n) && lvl(dist, n) <= d + 1
}

/// The search has looked around `src` and around every open cell that is
/// done.
pub open spec fn dist_closed(cells: Seq<u8>, src: int, dist: Seq<Option<u32>>, done: Set<int>) -> bool {
    &&& looked_around(cells, dist, src, 0)
    &&& forall|c: int| #[trigger] done.contains(c) && open_cell(cells, c) ==> looked_around(cells, dist, c, lvl(dist, c))
}

/// What holds while the search for the distances from `src` runs.
pub open spec fn dist_inv(
    cells: Seq<u8>,
    src: int,
    dst: int,
    q: Seq<int>,
    dist: Seq<Option<u32>>,
    done: Set<int>,
    cur: int,
    lv: int,
) -> bool {
    &&& dist_book(q, dist, done, cur, dst)
    &&& dist_ranks(q, dist, done, cur, lv)
    &&& dist_right(cells, src, dist)
    &&& dist_closed(cells, src, dist, done)
}

/// While the search looks at a cell of distance `lv`, every walk of at most
/// `lv` steps ends on a cell whose recorded distance is no longer than the
/// walk.
pub proof fn lemma_short_walks_known(
    cells: Seq<u8>,
    src: int,
    dst: int,
    q: Seq<int>,
    dist: Seq<Option<u32>>,
    done: Set<int>,
    cur: int,
    lv: int,
    p: Seq<int>,
)
    requires
        dist_book(q, dist, done, cur, dst),
        dist_ranks(q, dist, done, cur, lv),
        dist_closed(cells, src, dist, done),
        is_walk(cells, src, p),
        p.len() <= lv,
    ensures
        known(dist, p.last()),
        lvl(dist, p.last()) <= p.len(),
    decreases p.len(),
{
    if p.len() == 1 {
        assert(known(dist, p[0]));
    } else {
        lemma_walk_back(cells, src, p);
        let r = p.drop_last();
        lemma_short_walks_known(cells, src, dst, q, dist, done, cur, lv, r);
        let u = r.last();
        assert(known(dist, u));
        if q.contains(u) {
            let k = choose|k: int| 0 <= k < q.len() && q[k] == u;
            assert(lv <= lvl(dist, q[k]));
        }
        assert(done.contains(u));
        assert(looked_around(cells, dist, u, lvl(dist, u)));
        assert(known(dist, p.last()));
    }
}

/// Once nothing waits and nothing is being looked at, every cell within
/// reach has a recorded distance.
pub proof fn lemma_all_known(
    cells: Seq<u8>,
    src: int,
    dst: int,
    dist: Seq<Option<u32>>,
    done: Set<int>,
    cur: int,
    p: Seq<int>,
)
    requires
        dist_book(Seq::empty(), dist, done, cur, dst),
        !in_grid(cur),
        dist_closed(cells, src, dist, done),
        is_walk(cells, src, p),
    ensures
        known(dist, p.last()),
    decreases p.len(),
{
    let q = Seq::<int>::empty();
    if p.len() == 1 {
        assert(known(dist, p[0]));
    } else {
        lemma_walk_back(cells, src, p);
        let r = p.drop_last();
        lemma_all_known(cells, src, dst, dist, done, cur, r);
        let u = r.last();
        assert(known(dist, u));
        assert(!q.contains(u));
        assert(done.contains(u));
        assert(looked_around(cells, dist, u, lvl(dist, u)));
        assert(known(dist, p.last()));
    }
}

/// Recording the distance `d` for a cell `to` that had none keeps what was
/// recorded for the other cells.
pub proof fn lemma_record_keeps(dist: Seq<Option<u32>>, to: int, d: u32)
    requires
        dist.len() == 64,
        in_grid(to),
        !known(dist, to),
    ensures
        forall|c: int| #[trigger] known(dist.update(to, Some(d)), c) <==> (known(dist, c) || c == to),
        forall|c: int| known(dist, c) ==> #[trigger] lvl(dist.update(to, Some(d)), c) == lvl(dist, c),
        lvl(dist.update(to, Some(d)), to) == d,
{
}

/// The search meets a neighbour `to` of the open cell `cur` for the first
/// time: with `to` at the end of the queue and one step more recorded for it
/// than for `cur`, everything still holds.
pub proof fn lemma_record(
    cells: Seq<u8>,
    src: int,
    dst: int,
    q: Seq<int>,
    dist: Seq<Option<u32>>,
    done: Set<int>,
    cur: int,
    lv: int,
    to: int,
)
    requires
        dist_inv(cells, src, dst, q, dist, done, cur, lv),
        in_grid(cur),
        open_cell(cells, cur),
        is_adjacent(cur, to),
        passable(cells, to),
        !known(dist, to),
        0 <= lv < u32::MAX,
    ensures
        dist_inv(cells, src, dst, q.push(to), dist.update(to, Some((lv + 1) as u32)), done, cur, lv),
{
    let d = (lv + 1) as u32;
    let q2 = q.push(to);
    let dist2 = dist.update(to, Some(d));
    lemma_record_keeps(dist, to, d);
    lemma_push_contains(q, to);
    assert(known(dist, cur));
    assert(dist_book(q2, dist2, done, cur, dst));
    assert(dist_ranks(q2, dist2, done, cur, lv)) by {
        assert forall|k: int| 0 <= k < q2.len() implies lv <= lvl(dist2, #[trigger] q2[k]) <= lv + 1 by {
            if k < q.len() {
                assert(q.contains(q[k]));
                assert(known(dist, q[k]));
                assert(q2[k] == q[k]);
            }
        }
        assert forall|a: int, b: int| 0 <= a < b < q2.len() implies lvl(dist2, #[trigger] q2[a]) <= lvl(
            dist2,
            #[trigger] q2[b],
        ) by {
            assert(q.contains(q[a]));
            assert(known(dist, q[a]));
            assert(q2[a] == q[a]);
            if b < q.len() {
                assert(q.contains(q[b]));
                assert(known(dist, q[b]));
                assert(q2[b] == q[b]);
            }
        }
        assert forall|c: int| #[trigger] done.contains(c) implies lvl(dist2, c) <= lv by {
            assert(known(dist, c));
        }
    }
    assert(dist_right(cells, src, dist2)) by {
        assert forall|c: int| #[trigger] known(dist2, c) implies passable(cells, c) && is_distance(
            cells,
            src,
            c,
            lvl(dist2, c),
        ) by {
            if c == to {
                assert(is_distance(cells, src, cur, lv));
                let p = choose|p: Seq<int>| walk_to(cells, src, cur, p) && p.len() == lv;
                lemma_walk_on(cells, src, p, to);
                assert(walk_to(cells, src, to, p.push(to)) && p.push(to).len() == lv + 1);
                assert forall|r: Seq<int>| walk_to(cells, src, to, r) implies r.len() >= lv + 1 by {
                    if r.len() <= lv {
                        lemma_short_walks_known(cells, src, dst, q, dist, done, cur, lv, r);
                    }
                }
            } else {
                assert(known(dist, c));
            }
        }
    }
    assert(dist_closed(cells, src, dist2, done)) by {
        assert forall|n: int| is_adjacent(src, n) && passable(cells, n) implies #[trigger] known(dist2, n) && lvl(
            dist2,
            n,
        ) <= 0 + 1 by {
            assert(known(dist, n));
        }
        assert forall|c: int| #[trigger] done.contains(c) && open_cell(cells, c) implies looked_around(
            cells,
            dist2,
            c,
            lvl(dist2, c),
        ) by {
            assert(known(dist, c));
            assert(looked_around(cells, dist, c, lvl(dist, c)));
            assert forall|n: int| is_adjacent(c, n) && passable(cells, n) implies #[trigger] known(dist2, n) && lvl(
                dist2,
                n,
            ) <= lvl(dist2, c) + 1 by {
                assert(known(dist, n));
            }
        }
    }
}

/// At the start of the search a neighbour `to` of `src` is recorded with
/// one step.
pub proof fn lemma_record_first(
    cells: Seq<u8>,
    src: int,
    dst: int,
    q: Seq<int>,
    dist: Seq<Option<u32>>,
    to: int,
)
    requires
        dist_book(q, dist, Set::empty(), -1, dst),
        dist_ranks(q, dist, Set::empty(), -1, 0),
        dist_right(cells, src, dist),
        is_adjacent(src, to),
        passable(cells, to),
        !known(dist, to),
    ensures
        dist_book(q.push(to), dist.update(to, Some(1u32)), Set::empty(), -1, dst),
        dist_ranks(q.push(to), dist.update(to, Some(1u32)), Set::empty(), -1, 0),
        dist_right(cells, src, dist.update(to, Some(1u32))),
{
    let q2 = q.push(to);
    let dist2 = dist.update(to, Some(1u32));
    let done = Set::<int>::empty();
    lemma_record_keeps(dist, to, 1u32);
    lemma_push_contains(q, to);
    assert(dist_book(q2, dist2, done, -1, dst));
    assert(dist_ranks(q2, dist2, done, -1, 0)) by {
        assert forall|k: int| 0 <= k < q2.len() implies 0 <= lvl(dist2, #[trigger] q2[k]) <= 0 + 1 by {
            if k < q.len() {
                assert(q.contains(q[k]));
                assert(known(dist, q[k]));
                assert(q2[k] == q[k]);
            }
        }
        assert forall|a: int, b: int| 0 <= a < b < q2.len() implies lvl(dist2, #[trigger] q2[a]) <= lvl(
            dist2,
            #[trigger] q2[b],
        ) by {
            assert(q.contains(q[a]));
            assert(known(dist, q[a]));
            assert(q2[a] == q[a]);
            if b < q.len() {
                assert(q.contains(q[b]));
                assert(known(dist, q[b]));
                assert(q2[b] == q[b]);
            }
        }
    }
    assert forall|c: int| #[trigger] known(dist2, c) implies passable(cells, c) && is_distance(
        cells,
        src,
        c,
        lvl(dist2, c),
    ) by {
        if c == to {
            lemma_first_step(cells, src, to);
            assert(walk_to(cells, src, to, seq![to]) && seq![to].len() == 1);
        } else {
            assert(known(dist, c));
        }
    }
}

/// A distance that the search has recorded is at most one more than that of
/// the cell it looks at.
pub proof fn lemma_known_rank(q: Seq<int>, dist: Seq<Option<u32>>, done: Set<int>, cur: int, dst: int, lv: int, c: int)
    requires
        dist_book(q, dist, done, cur, dst),
        dist_ranks(q, dist, done, cur, lv),
        known(dist, c),
    ensures
        lvl(dist, c) <= lv + 1,
{
    if q.contains(c) {
        let k = choose|k: int| 0 <= k < q.len() && q[k] == c;
        assert(lvl(dist, q[k]) <= lv + 1);
    }
}

/// Taking the head off the queue: the search now looks at that cell, whose
/// recorded distance is the least among the waiting cells.
pub proof fn lemma_take_head(
    cells: Seq<u8>,
    src: int,
    dst: int,
    q: Seq<int>,
    dist: Seq<Option<u32>>,
    done: Set<int>,
    lv: int,
)
    requires
        dist_inv(cells, src, dst, q, dist, done, -1, lv),
        q.len() > 0,
    ensures
        dist_inv(cells, src, dst, q.subrange(1, q.len() as int), dist, done, q[0], lvl(dist, q[0])),
        known(dist, q[0]),
        passable(cells, q[0]),
        !done.contains(q[0]),
        lv <= lvl(dist, q[0]) <= lv + 1,
{
    let i = q[0];
    let rest = q.subrange(1, q.len() as int);
    let li = lvl(dist, i);
    crate::walk::lemma_pop_contains(q);
    assert(q.contains(i));
    assert(known(dist, i));
    assert(dist_book(rest, dist, done, i, dst));
    assert(dist_ranks(rest, dist, done, i, li)) by {
        assert forall|k: int| 0 <= k < rest.len() implies li <= lvl(dist, #[trigger] rest[k]) <= li + 1 by {
            assert(rest[k] == q[k + 1]);
            assert(lvl(dist, q[0]) <= lvl(dist, q[k + 1]));
        }
        assert forall|a: int, b: int| 0 <= a < b < rest.len() implies lvl(dist, #[trigger] rest[a]) <= lvl(
            dist,
            #[trigger] rest[b],
        ) by {
            assert(rest[a] == q[a + 1]);
            assert(rest[b] == q[b + 1]);
        }
    }
}

/// The search has finished with the cell it looked at: the cell is done.
pub proof fn lemma_finish_cell(
    cells: Seq<u8>,
    src: int,
    dst: int,
    q: Seq<int>,
    dist: Seq<Option<u32>>,
    done: Set<int>,
    cur: int,
    lv: int,
)
    requires
        dist_inv(cells, src, dst, q, dist, done, cur, lv),
        in_grid(cur),
        cur != dst,
        open_cell(cells, cur) ==> looked_around(cells, dist, cur, lv),
    ensures
        dist_inv(cells, src, dst, q, dist, done.insert(cur), -1, lv),
{
    let done2 = done.insert(cur);
    assert(!known(dist, -1));
    assert(known(dist, cur));
    assert forall|c: int| #[trigger] known(dist, c) <==> (done2.contains(c) || q.contains(c) || (c == -1 && in_grid(c))) by {
    }
    assert(dist_book(q, dist, done2, -1, dst));
    assert(dist_ranks(q, dist, done2, -1, lv));
    assert(dist_closed(cells, src, dist, done2)) by {
        assert forall|c: int| #[trigger] done2.contains(c) && open_cell(cells, c) implies looked_around(
            cells,
            dist,
            c,
            lvl(dist, c),
        ) by {
            if c != cur {
                assert(done.contains(c));
            }
        }
    }
}

} // verus!
