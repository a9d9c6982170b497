//! The lower bound never exceeds the number of rotations that a solution
//! takes.

use crate::board::{count_kind, kind_cells, lemma_kind_cells_step, solved, stuck, BoardView};
use crate::bound::{
    is_bound, is_kind_cost, lemma_bound_unique, lemma_unsolved_has_pair, lower_bound, pair_before,
    pair_cost, same_kind_pair,
};
use crate::cells::N_KIND;
use crate::game::{
    code_is, is_solution, lemma_erased_has_twin, lemma_kind_cells_where, lemma_play_first,
    lemma_play_split, lemma_play_wf, lemma_shift_keeps, lemma_solution_never_stuck, play,
};
use crate::grid::{col, in_grid, is_adjacent, lemma_ring_dist, ring_dist, row};
use crate::rules::{
    can_select, cells_after, erased, lemma_shift_bijective, shift_source, shifted_by,
};
use vstd::prelude::*;

verus! {

/// Every pair of pieces of kind `k` costs at least `m`.
pub open spec fn far_apart(cells: Seq<u8>, k: u8, m: int) -> bool {
    forall|a: int, b: int| #[trigger] same_kind_pair(cells, k, a, b) ==> pair_cost(a, b) >= m
}

/// A shift brings two contents at most one step closer.
pub proof fn lemma_shift_distance(dir: u8, t: int, a: int, b: int)
    requires
        in_grid(t),
        in_grid(a),
        in_grid(b),
    ensures
        ring_dist(a, b) >= ring_dist(shift_source(dir, t, a), shift_source(dir, t, b)) - 1,
{
    let xa = col(a);
    let ya = row(a);
    let xb = col(b);
    let yb = row(b);
    let xt = col(t);
    let yt = row(t);
    assert(a == 8 * ya + xa && b == 8 * yb + xb && t == 8 * yt + xt);
    let a2 = shift_source(dir, t, a);
    let b2 = shift_source(dir, t, b);
    lemma_shift_bijective(dir, t, a);
    lemma_shift_bijective(dir, t, b);
    assert(col(a2) == xa || row(a2) == ya);
    assert(col(b2) == xb || row(b2) == yb);
}

/// While the pieces of a kind are three or more steps apart, a move erases
/// none of them and leaves them at most one step closer.
pub proof fn lemma_far_move(cells: Seq<u8>, t: int, k: u8, m: int)
    requires
        can_select(cells, t),
        k < N_KIND,
        far_apart(cells, k, m),
        m >= 3,
    ensures
        far_apart(cells_after(cells, t), k, m - 1),
        count_kind(cells_after(cells, t), k) == count_kind(cells, k),
{
    let dir = cells[t];
    let sh = shifted_by(cells, dir, t);
    let after = cells_after(cells, t);
    assert forall|a: int, b: int| in_grid(a) && in_grid(b) && a != b && sh[a] == k && sh[b] == k implies ring_dist(a, b)
        >= m - 1 by {
        let a0 = shift_source(dir, t, a);
        let b0 = shift_source(dir, t, b);
        lemma_shift_bijective(dir, t, a);
        lemma_shift_bijective(dir, t, b);
        lemma_shift_distance(dir, t, a, b);
        lemma_ring_dist(a0, b0);
        if a0 < b0 {
            assert(same_kind_pair(cells, k, a0, b0));
        } else {
            assert(same_kind_pair(cells, k, b0, a0));
        }
    }
    assert forall|i: int| in_grid(i) && sh[i] == k implies !erased(sh, dir, t, i) by {
        if erased(sh, dir, t, i) {
            lemma_erased_has_twin(sh, dir, t, i);
            let j = choose|j: int| in_grid(j) && j != i && is_adjacent(i, j) && sh[j] == sh[i] && #[trigger] erased(sh, dir, t, j);
            lemma_ring_dist(i, j);
            assert(ring_dist(i, j) >= m - 1);
        }
    }
    assert(kind_cells(after, k) =~= kind_cells(sh, k));
    lemma_shift_keeps(cells, dir, t, code_is(k));
    lemma_kind_cells_where(cells, k);
    lemma_kind_cells_where(sh, k);
    assert forall|a: int, b: int| #[trigger] same_kind_pair(after, k, a, b) implies pair_cost(a, b) >= m - 1 by {
        assert(sh[a] == k && sh[b] == k);
        assert(ring_dist(a, b) >= m - 1);
    }
}

/// A kind whose pieces all cost at least `m` to pair keeps every solution
/// at least `m - 1` moves long.
pub proof fn lemma_far_needs_moves(b: BoardView, k: u8, m: int, s: Seq<u8>)
    requires
        b.wf(),
        k < N_KIND,
        count_kind(b.cells, k) >= 1,
        far_apart(b.cells, k, m),
        is_solution(b, s),
    ensures
        s.len() >= m - 1,
        s.len() >= 1,
    decreases s.len(),
{
    assert(!solved(b.cells));
    assert(s.len() > 0);
    if m >= 3 {
        let t = s[0] as int;
        let rest = s.subrange(1, s.len() as int);
        lemma_play_first(b, s);
        lemma_far_move(b.cells, t, k, m);
        lemma_far_needs_moves(b.after(t), k, m - 1, rest);
    }
}

/// A kind with a pair has a piece.
pub proof fn lemma_pair_counts(cells: Seq<u8>, k: u8, a: int, b: int)
    requires
        same_kind_pair(cells, k, a, b),
        cells.len() == 64,
    ensures
        count_kind(cells, k) >= 1,
{
    lemma_kind_cells_step(cells, k, 64);
    assert(kind_cells(cells, k).contains(a));
    if kind_cells(cells, k).len() == 0 {
        assert(kind_cells(cells, k) =~= Set::<int>::empty());
    }
}

/// The lower bound is admissible: no solution of a board has fewer moves
/// than the bound of that board.
pub proof fn lemma_bound_admissible(b: BoardView, lb: int, s: Seq<u8>)
    requires
        b.wf(),
        is_bound(b.cells, lb),
        is_solution(b, s),
    ensures
        lb <= s.len(),
        lower_bound(b.cells) <= s.len(),
{
    let cells = b.cells;
    lemma_bound_unique(cells, lb);
    let k = choose|k: u8| k < N_KIND && #[trigger] is_kind_cost(cells, k, lb + 1);
    let (a0, b0) = choose|a: int, b: int| #[trigger]
        same_kind_pair(cells, k, a, b) && pair_before(64, 0, a, b) && pair_cost(a, b) == lb + 1;
    lemma_pair_counts(cells, k, a0, b0);
    assert forall|a: int, b: int| #[trigger] same_kind_pair(cells, k, a, b) implies pair_cost(a, b) >= lb + 1 by {
        assert(pair_before(64, 0, a, b));
    }
    lemma_far_needs_moves(b, k, lb + 1, s);
}

/// Among the pairs of kind `k`, none of which costs less than `c`, one has
/// the least cost.
proof fn lemma_least_cost_from(cells: Seq<u8>, k: u8, c: int)
    requires
        exists|a: int, b: int| same_kind_pair(cells, k, a, b),
        forall|a: int, b: int| #[trigger] same_kind_pair(cells, k, a, b) ==> pair_cost(a, b) >= c,
        2 <= c <= 8,
    ensures
        exists|m: int| #[trigger] is_kind_cost(cells, k, m) && 2 <= m <= 8,
    decreases 8 - c,
{
    if exists|a: int, b: int| #[trigger] same_kind_pair(cells, k, a, b) && pair_cost(a, b) == c {
        let (a, b) = choose|a: int, b: int| #[trigger] same_kind_pair(cells, k, a, b) && pair_cost(a, b) == c;
        assert(same_kind_pair(cells, k, a, b) && pair_before(64, 0, a, b) && pair_cost(a, b) == c);
        assert(is_kind_cost(cells, k, c));
    } else {
        let (a, b) = choose|a: int, b: int| same_kind_pair(cells, k, a, b);
        lemma_ring_dist(a, b);
        assert(pair_cost(a, b) >= c);
        assert(c < 8);
        assert forall|a: int, b: int| #[trigger] same_kind_pair(cells, k, a, b) implies pair_cost(a, b) >= c + 1 by {
            assert(pair_cost(a, b) >= c);
        }
        lemma_least_cost_from(cells, k, c + 1);
    }
}

/// `b + 1` is the greatest among the least pair costs of the kinds below
/// `n` that have a pair.
spec fn is_bound_upto(cells: Seq<u8>, n: u8, b: int) -> bool {
    &&& exists|k: u8| k < n && #[trigger] is_kind_cost(cells, k, b + 1)
    &&& forall|k: u8, c: int| k < n && #[trigger] is_kind_cost(cells, k, c) ==> c <= b + 1
}

/// The least pair cost of a kind is one number.
proof fn lemma_kind_cost_unique(cells: Seq<u8>, k: u8, c: int, d: int)
    requires
        is_kind_cost(cells, k, c),
        is_kind_cost(cells, k, d),
    ensures
        c == d,
{
    let (a, b) = choose|a: int, b: int| #[trigger]
        same_kind_pair(cells, k, a, b) && pair_before(64, 0, a, b) && pair_cost(a, b) == c;
    let (a2, b2) = choose|a: int, b: int| #[trigger]
        same_kind_pair(cells, k, a, b) && pair_before(64, 0, a, b) && pair_cost(a, b) == d;
    assert(same_kind_pair(cells, k, a, b));
    assert(same_kind_pair(cells, k, a2, b2));
}

/// Among the kinds below `n`, if one has a pair, one has the greatest least
/// cost.
proof fn lemma_bound_upto(cells: Seq<u8>, n: u8)
    requires
        n <= N_KIND,
    ensures
        (exists|k: u8, a: int, b: int| k < n && same_kind_pair(cells, k, a, b)) ==> exists|b: int| is_bound_upto(cells, n, b),
    decreases n,
{
    if n > 0 {
        let j = (n - 1) as u8;
        lemma_bound_upto(cells, j);
        let before = exists|k: u8, a: int, b: int| k < j && same_kind_pair(cells, k, a, b);
        let here = exists|a: int, b: int| same_kind_pair(cells, j, a, b);
        if exists|k: u8, a: int, b: int| k < n && same_kind_pair(cells, k, a, b) {
            let (k0, a0, b0) = choose|k: u8, a: int, b: int| k < n && same_kind_pair(cells, k, a, b);
            if k0 == j {
                assert(same_kind_pair(cells, j, a0, b0));
            } else {
                assert(k0 < j && same_kind_pair(cells, k0, a0, b0));
            }
            if here {
                assert forall|a: int, b: int| #[trigger] same_kind_pair(cells, j, a, b) implies pair_cost(a, b) >= 2 by {
                }
                lemma_least_cost_from(cells, j, 2);
                let m = choose|m: int| #[trigger] is_kind_cost(cells, j, m) && 2 <= m <= 8;
                if before {
                    let b1 = choose|b: int| is_bound_upto(cells, j, b);
                    let top = if m > b1 + 1 {
                        m - 1
                    } else {
                        b1
                    };
                    let k1 = choose|k: u8| k < j && #[trigger] is_kind_cost(cells, k, b1 + 1);
                    if m > b1 + 1 {
                        assert(j < n && is_kind_cost(cells, j, top + 1));
                    } else {
                        assert(k1 < n && is_kind_cost(cells, k1, top + 1));
                    }
                    assert forall|k: u8, c: int| k < n && #[trigger] is_kind_cost(cells, k, c) implies c <= top + 1 by {
                        if k == j {
                            lemma_kind_cost_unique(cells, j, c, m);
                        }
                    }
                    assert(is_bound_upto(cells, n, top));
                } else {
                    assert(j < n && is_kind_cost(cells, j, (m - 1) + 1));
                    assert forall|k: u8, c: int| k < n && #[trigger] is_kind_cost(cells, k, c) implies c <= (m - 1) + 1 by {
                        if k == j {
                            lemma_kind_cost_unique(cells, j, c, m);
                        } else {
                            let (a, b) = choose|a: int, b: int| #[trigger]
                                same_kind_pair(cells, k, a, b) && pair_before(64, 0, a, b) && pair_cost(a, b) == c;
                            assert(k < j && same_kind_pair(cells, k, a, b));
                        }
                    }
                    assert(is_bound_upto(cells, n, m - 1));
                }
            } else {
                assert(before);
                let b1 = choose|b: int| is_bound_upto(cells, j, b);
                let k1 = choose|k: u8| k < j && #[trigger] is_kind_cost(cells, k, b1 + 1);
                assert(k1 < n && is_kind_cost(cells, k1, b1 + 1));
                assert forall|k: u8, c: int| k < n && #[trigger] is_kind_cost(cells, k, c) implies c <= b1 + 1 by {
                    if k == j {
                        let (a, b) = choose|a: int, b: int| #[trigger]
                            same_kind_pair(cells, k, a, b) && pair_before(64, 0, a, b) && pair_cost(a, b) == c;
                        assert(same_kind_pair(cells, j, a, b));
                    }
                }
                assert(is_bound_upto(cells, n, b1));
            }
        }
    }
}

/// A board that is neither solved nor stuck has a lower bound.
pub proof fn lemma_bound_exists(cells: Seq<u8>)
    requires
        !solved(cells),
        !stuck(cells),
    ensures
        is_bound(cells, lower_bound(cells)),
        lower_bound(cells) >= 1,
{
    lemma_unsolved_has_pair(cells);
    lemma_bound_upto(cells, N_KIND);
    let b = choose|b: int| is_bound_upto(cells, N_KIND, b);
    assert(is_bound(cells, b));
    lemma_bound_unique(cells, b);
}

/// On the way along a solution of `len` moves, the board after `d` moves,
/// unless it is solved, has a lower bound of at most `len - d`.
pub proof fn lemma_bound_along_solution(b: BoardView, s: Seq<u8>, d: int)
    requires
        b.wf(),
        is_solution(b, s),
        0 <= d <= s.len(),
        !solved(play(b, s.take(d)).cells),
    ensures
        is_bound(play(b, s.take(d)).cells, lower_bound(play(b, s.take(d)).cells)),
        lower_bound(play(b, s.take(d)).cells) <= s.len() - d,
{
    let x = s.take(d);
    let y = s.skip(d);
    assert(x + y =~= s);
    lemma_play_split(b, x, y);
    lemma_play_wf(b, x);
    lemma_solution_never_stuck(b, s, d);
    let mid = play(b, x);
    lemma_bound_exists(mid.cells);
    lemma_bound_admissible(mid, lower_bound(mid.cells), y);
}

} // verus!
