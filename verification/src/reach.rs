//! Searching a board: the legal moves and the length of the actor's way.

use crate::board::Board;
use crate::cells::{is_rotator, DOWN, LEFT, RIGHT, UP, WALL};
use crate::grid::{cell_indices, in_grid, is_adjacent, lemma_neighbours, neighbours};
use crate::util::Queue;
use crate::distance::{
    dist_book, dist_closed, dist_inv, dist_ranks, dist_right, is_distance, known, lemma_all_known,
    lemma_finish_cell, lemma_known_rank, lemma_record, lemma_record_first, lemma_record_keeps,
    lemma_take_head, lvl,
};
use crate::walk::{
    is_move, lemma_done_bound, lemma_first_frontier, lemma_move_order, lemma_round, meet, meet_all,
    move_order, next_frontier, open_cell, passable, popped, reachable, rotators_found, search_inv,
    walk_to, Frontier,
};
use vstd::prelude::*;

verus! {

/// The cells that are marked in `visited`.
pub open spec fn marked(visited: Seq<bool>) -> Set<int> {
    Set::new(|i: int| 0 <= i < visited.len() && visited[i])
}

/// The search state that a queue of cells and an array of marks stand for.
pub open spec fn frontier_of(que: Seq<u8>, visited: Seq<bool>) -> Frontier {
    Frontier { queue: cell_indices(que), seen: marked(visited) }
}

/// Whether the code is one of the four rotator markers.
pub fn is_direction(cell: u8) -> (r: bool)
    ensures
        r == is_rotator(cell),
{
    cell == UP || cell == DOWN || cell == LEFT || cell == RIGHT
}

impl Board {
    /// Meets cell `to` in a search: unless it is a wall or marked already,
    /// it is marked and put in the queue.
    fn meet_cell(&self, que: &mut Queue<u8>, visited: &mut [bool; 64], to: u8)
        requires
            to < 64,
        ensures
            frontier_of(final(que)@, final(visited)@) == meet(
                self@.cells,
                frontier_of(old(que)@, old(visited)@),
                to as int,
            ),
    {
        if visited[to as usize] {
            return ;
        }
        if self.cell(to) == WALL {
            return ;
        }
        que.push(to);
        visited[to as usize] = true;
        proof {
            let f = frontier_of(old(que)@, old(visited)@);
            let g = frontier_of(que@, visited@);
            assert(g.queue =~= f.queue.push(to as int));
            assert(g.seen =~= f.seen.insert(to as int));
        }
    }

    /// Meets the neighbours of cell `c` in a search.
    fn meet_neighbours(&self, que: &mut Queue<u8>, visited: &mut [bool; 64], c: u8)
        requires
            c < 64,
        ensures
            frontier_of(final(que)@, final(visited)@) == meet_all(
                self@.cells,
                frontier_of(old(que)@, old(visited)@),
                neighbours(c as int),
            ),
    {
        let adj = Board::adjacent(c);
        let ghost ns = neighbours(c as int);
        let ghost f0 = frontier_of(que@, visited@);
        let mut k: usize = 0;
        proof {
            lemma_neighbours(c as int);
            assert(ns.take(0) =~= Seq::<int>::empty());
        }
        while k < adj.len()
            invariant
                k <= adj@.len(),
                cell_indices(adj@) == ns,
                ns == neighbours(c as int),
                forall|j: int| 0 <= j < ns.len() ==> in_grid(#[trigger] ns[j]),
                frontier_of(que@, visited@) == meet_all(self@.cells, f0, ns.take(k as int)),
            decreases adj@.len() - k,
        {
            let to = adj[k];
            assert(ns[k as int] == to as int);
            assert(in_grid(ns[k as int]));
            self.meet_cell(que, visited, to);
            proof {
                let nk = ns.take(k + 1);
                assert(nk.drop_last() =~= ns.take(k as int));
                assert(nk.last() == to as int);
            }
            k = k + 1;
        }
        assert(ns.take(k as int) =~= ns);
    }

    /// The rotators that the actor can walk to, each once, in the order in
    /// which a breadth-first search from the actor's cell finds them. The
    /// walk starts on a neighbour of the actor's cell, never enters a wall
    /// and ends on the first rotator it meets.
    pub fn moves(&self) -> (res: Vec<u8>)
        requires
            self.pos < 64,
        ensures
            cell_indices(res@) == move_order(self@),
            res@.no_duplicates(),
            forall|t: u8| res@.contains(t) <==> is_move(self@, t as int),
    {
        let mut res: Vec<u8> = Vec::new();
        let mut que = Queue::<u8>::new();
        let mut visited = [false; 64];
        let ghost cells = self@.cells;
        let ghost src = self.pos as int;
        proof {
            assert(frontier_of(que@, visited@) =~= (Frontier { queue: Seq::empty(), seen: Set::empty() })) by {
                assert(frontier_of(que@, visited@).queue =~= Seq::<int>::empty());
                assert(frontier_of(que@, visited@).seen =~= Set::<int>::empty());
            }
        }
        self.meet_neighbours(&mut que, &mut visited, self.pos);
        let ghost mut done: Set<int> = Set::empty();
        let ghost mut fuel: nat = 64;
        proof {
            lemma_first_frontier(cells, src);
            assert(cell_indices(res@) =~= Seq::<int>::empty());
            assert(cell_indices(res@) + rotators_found(cells, frontier_of(que@, visited@), fuel) =~= move_order(self@));
        }
        while !que.is_empty()
            invariant
                cells == self@.cells,
                src == self.pos as int,
                in_grid(src),
                search_inv(cells, src, frontier_of(que@, visited@), done),
                done.finite(),
                forall|c: int| done.contains(c) ==> in_grid(c),
                fuel + done.len() == 64,
                cell_indices(res@) + rotators_found(cells, frontier_of(que@, visited@), fuel) == move_order(self@),
            decreases fuel,
        {
            let ghost f = frontier_of(que@, visited@);
            let ghost found = cell_indices(res@);
            let i = que.pop().unwrap();
            proof {
                assert(f.queue[0] == i as int);
                lemma_round(cells, src, f, done);
                lemma_done_bound(done, i as int);
                assert(frontier_of(que@, visited@) =~= popped(f)) by {
                    assert(frontier_of(que@, visited@).queue =~= popped(f).queue);
                }
            }
            if is_direction(self.cell(i)) {
                res.push(i);
                proof {
                    assert(cell_indices(res@) =~= found.push(i as int));
                    assert(found.push(i as int) + rotators_found(cells, popped(f), (fuel - 1) as nat) =~= found + (
                    seq![i as int] + rotators_found(cells, popped(f), (fuel - 1) as nat)));
                }
            } else {
                self.meet_neighbours(&mut que, &mut visited, i);
            }
            proof {
                assert(frontier_of(que@, visited@) == next_frontier(cells, f));
                done = done.insert(i as int);
                fuel = (fuel - 1) as nat;
            }
        }
        proof {
            lemma_move_order(self@);
            let ms = cell_indices(res@);
            assert(ms =~= move_order(self@));
            assert forall|a: int, b: int| 0 <= a < res@.len() && 0 <= b < res@.len() && a != b implies res@[a] != res@[b] by {
                assert(ms[a] == res@[a] as int);
                assert(ms[b] == res@[b] as int);
            }
            assert forall|t: u8| res@.contains(t) <==> is_move(self@, t as int) by {
                if res@.contains(t) {
                    let a = choose|a: int| 0 <= a < res@.len() && res@[a] == t;
                    assert(ms[a] == t as int);
                    assert(ms.contains(t as int));
                }
                if is_move(self@, t as int) {
                    assert(ms.contains(t as int));
                    let a = choose|a: int| 0 <= a < ms.len() && ms[a] == t as int;
                    assert(res@[a] == t);
                }
            }
        }
        res
    }

    /// The number of steps of the actor's shortest way from `src` to `dst`,
    /// or `None` if there is no way. The way starts with a step to a
    /// neighbour of `src`, never enters a wall and does not go on from a
    /// rotator; from a cell to itself it leads away and back.
    pub fn calc_step(&self, src: u8, dst: u8) -> (r: Option<u32>)
        requires
            src < 64,
            dst < 64,
        ensures
            match r {
                Some(d) => is_distance(self@.cells, src as int, dst as int, d as int) && 1 <= d <= 64,
                None => !reachable(self@.cells, src as int, dst as int),
            },
    {
        let mut que = Queue::<u8>::new();
        let mut dist: [Option<u32>; 64] = [None; 64];
        let ghost cells = self@.cells;
        let ghost s = src as int;
        let ghost t = dst as int;
        let first = Board::adjacent(src);
        let ghost ns = neighbours(s);
        let ghost none = Set::<int>::empty();
        let mut k: usize = 0;
        proof {
            lemma_neighbours(s);
            assert(cell_indices(que@) =~= Seq::<int>::empty());
        }
        while k < first.len()
            invariant
                k <= first@.len(),
                cells == self@.cells,
                cell_indices(first@) == ns,
                ns == neighbours(s),
                ns.no_duplicates(),
                forall|j: int| ns.contains(j) <==> is_adjacent(s, j),
                dist_book(cell_indices(que@), dist@, none, -1, t),
                dist_ranks(cell_indices(que@), dist@, none, -1, 0),
                dist_right(cells, s, dist@),
                forall|c: int| #[trigger] known(dist@, c) ==> exists|j: int| 0 <= j < k && ns[j] == c,
                forall|j: int| 0 <= j < k && passable(cells, ns[j]) ==> known(dist@, #[trigger] ns[j]) && lvl(dist@, ns[j]) == 1,
            decreases first@.len() - k,
        {
            let to = first[k];
            let ghost q0 = cell_indices(que@);
            let ghost d0 = dist@;
            proof {
                assert(ns[k as int] == to as int);
                assert(ns.contains(ns[k as int]));
                if known(d0, to as int) {
                    let j = choose|j: int| 0 <= j < k && ns[j] == to as int;
                    assert(ns[j] == ns[k as int]);
                }
            }
            if self.cell(to) != WALL {
                que.push(to);
                dist[to as usize] = Some(1);
                proof {
                    lemma_record_first(cells, s, t, q0, d0, to as int);
                    lemma_record_keeps(d0, to as int, 1u32);
                    assert(cell_indices(que@) =~= q0.push(to as int));
                    assert(dist@ =~= d0.update(to as int, Some(1u32)));
                    assert forall|c: int| #[trigger] known(dist@, c) implies exists|j: int| 0 <= j < k + 1 && ns[j] == c by {
                        if c != to as int {
                            assert(known(d0, c));
                            let j = choose|j: int| 0 <= j < k && ns[j] == c;
                            assert(0 <= j < k + 1 && ns[j] == c);
                        }
                    }
                    assert forall|j: int| 0 <= j < k + 1 && passable(cells, ns[j]) implies known(dist@, #[trigger] ns[j])
                        && lvl(dist@, ns[j]) == 1 by {
                        if j < k {
                            assert(known(d0, ns[j]));
                        }
                    }
                }
            } else {
                proof {
                    assert forall|c: int| #[trigger] known(dist@, c) implies exists|j: int| 0 <= j < k + 1 && ns[j] == c by {
                        let j = choose|j: int| 0 <= j < k && ns[j] == c;
                        assert(0 <= j < k + 1 && ns[j] == c);
                    }
                }
            }
            k = k + 1;
        }
        let ghost mut done: Set<int> = Set::empty();
        let ghost mut lv: int = 0;
        proof {
            assert forall|n: int| is_adjacent(s, n) && passable(cells, n) implies #[trigger] known(dist@, n) && lvl(dist@, n)
                <= 0 + 1 by {
                assert(ns.contains(n));
                let j = choose|j: int| 0 <= j < ns.len() && ns[j] == n;
                assert(known(dist@, ns[j]));
            }
            assert(dist_closed(cells, s, dist@, done));
        }
        while !que.is_empty()
            invariant
                cells == self@.cells,
                s == src as int,
                t == dst as int,
                src < 64,
                dst < 64,
                dist_inv(cells, s, t, cell_indices(que@), dist@, done, -1, lv),
                done.finite(),
                forall|c: int| done.contains(c) ==> in_grid(c),
                0 <= lv <= done.len(),
            decreases 64 - done.len(),
        {
            let ghost q0 = cell_indices(que@);
            let i = que.pop().unwrap();
            let ghost cur = i as int;
            proof {
                assert(q0[0] == cur);
                lemma_take_head(cells, s, t, q0, dist@, done, lv);
                lemma_done_bound(done, cur);
                assert(cell_indices(que@) =~= q0.subrange(1, q0.len() as int));
            }
            if i == dst {
                return dist[dst as usize];
            }
            let d = dist[i as usize].unwrap();
            if !is_direction(self.cell(i)) {
                let adj = Board::adjacent(i);
                let ghost ms = neighbours(cur);
                let mut k: usize = 0;
                proof {
                    lemma_neighbours(cur);
                }
                while k < adj.len()
                    invariant
                        k <= adj@.len(),
                        cells == self@.cells,
                        cur == i as int,
                        i < 64,
                        d < 65,
                        open_cell(cells, cur),
                        cell_indices(adj@) == ms,
                        ms == neighbours(cur),
                        forall|j: int| ms.contains(j) <==> is_adjacent(cur, j),
                        dist_inv(cells, s, t, cell_indices(que@), dist@, done, cur, d as int),
                        forall|j: int| 0 <= j < k && passable(cells, ms[j]) ==> known(dist@, #[trigger] ms[j]) && lvl(dist@, ms[j]) <= d + 1,
                    decreases adj@.len() - k,
                {
                    let to = adj[k];
                    let ghost q1 = cell_indices(que@);
                    let ghost d1 = dist@;
                    proof {
                        assert(ms[k as int] == to as int);
                        assert(ms.contains(ms[k as int]));
                    }
                    if dist[to as usize].is_none() {
                        if self.cell(to) != WALL {
                            que.push(to);
                            dist[to as usize] = Some(d + 1);
                            proof {
                                lemma_record(cells, s, t, q1, d1, done, cur, d as int, to as int);
                                lemma_record_keeps(d1, to as int, (d + 1) as u32);
                                assert(cell_indices(que@) =~= q1.push(to as int));
                                assert(dist@ =~= d1.update(to as int, Some((d + 1) as u32)));
                                assert forall|j: int| 0 <= j < k + 1 && passable(cells, ms[j]) implies known(dist@, #[trigger] ms[j])
                                    && lvl(dist@, ms[j]) <= d + 1 by {
                                    if j < k {
                                        assert(known(d1, ms[j]));
                                    }
                                }
                            }
                        }
                    } else {
                        proof {
                            lemma_known_rank(q1, d1, done, cur, t, d as int, to as int);
                        }
                    }
                    k = k + 1;
                }
                proof {
                    assert forall|n: int| is_adjacent(cur, n) && passable(cells, n) implies #[trigger] known(dist@, n) && lvl(
                        dist@,
                        n,
                    ) <= d + 1 by {
                        assert(ms.contains(n));
                        let j = choose|j: int| 0 <= j < ms.len() && ms[j] == n;
                        assert(known(dist@, ms[j]));
                    }
                }
            }
            proof {
                lemma_finish_cell(cells, s, t, cell_indices(que@), dist@, done, cur, d as int);
                done = done.insert(cur);
                lv = d as int;
            }
        }
        proof {
            let q = cell_indices(que@);
            assert(q =~= Seq::<int>::empty());
            if known(dist@, t) {
                assert(!q.contains(t));
            }
            if reachable(cells, s, t) {
                let p = choose|p: Seq<int>| walk_to(cells, s, t, p);
                lemma_all_known(cells, s, t, dist@, done, -1, p);
            }
        }
        dist[dst as usize]
    }
}

} // verus!
