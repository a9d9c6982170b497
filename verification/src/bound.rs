//! A lower bound on the rotations that a board still needs.
//!
//! Two pieces are erased together only when a shift has made them
//! neighbours, and a shift brings two pieces at most one step closer on the
//! ring distance. So a kind whose closest pair is `d` steps apart needs at
//! least `d - 1` rotations before its first pair goes, and at least one even
//! if the pair stands side by side already.

use crate::board::{count_kind, kind_cells, lemma_kind_cells_step, solved, stuck, Board};
use crate::cells::N_KIND;
use crate::grid::ring_dist;
use vstd::prelude::*;

verus! {

/// What a pair of pieces on `i` and `j` costs: their ring distance, and two
/// if they are closer than that.
pub open spec fn pair_cost(i: int, j: int) -> int {
    if ring_dist(i, j) < 2 {
        2
    } else {
        ring_dist(i, j)
    }
}

/// Cells `i < j` both hold code `k`.
pub open spec fn same_kind_pair(cells: Seq<u8>, k: u8, i: int, j: int) -> bool {
    0 <= i < j < 64 && cells[i] == k && cells[j] == k
}

/// The pair `(a, b)` comes before the pair `(i, j)` when pairs are gone
/// through by first cell and then by second cell.
pub open spec fn pair_before(i: int, j: int, a: int, b: int) -> bool {
    a < i || (a == i && b < j)
}

/// `c` is the least cost among the pairs of kind `k` that come before
/// `(i, j)`.
pub open spec fn is_kind_cost_upto(cells: Seq<u8>, k: u8, i: int, j: int, c: int) -> bool {
    &&& exists|a: int, b: int| #[trigger]
        same_kind_pair(cells, k, a, b) && pair_before(i, j, a, b) && pair_cost(a, b) == c
    &&& forall|a: int, b: int| #[trigger]
        same_kind_pair(cells, k, a, b) && pair_before(i, j, a, b) ==> pair_cost(a, b) >= c
}

/// `c` is the least cost among the pairs of kind `k`.
pub open spec fn is_kind_cost(cells: Seq<u8>, k: u8, c: int) -> bool {
    is_kind_cost_upto(cells, k, 64, 0, c)
}

/// No pair of kind `k` comes before `(i, j)`.
pub open spec fn no_pair_upto(cells: Seq<u8>, k: u8, i: int, j: int) -> bool {
    forall|a: int, b: int| #[trigger] same_kind_pair(cells, k, a, b) ==> !pair_before(i, j, a, b)
}

/// `b + 1` is the greatest among the least pair costs of the kinds that
/// have a pair.
pub open spec fn is_bound(cells: Seq<u8>, b: int) -> bool {
    &&& exists|k: u8| k < N_KIND && #[trigger] is_kind_cost(cells, k, b + 1)
    &&& forall|k: u8, c: int| k < N_KIND && #[trigger] is_kind_cost(cells, k, c) ==> c <= b + 1
}

/// The lower bound of a board on which some kind has a pair.
pub open spec fn lower_bound(cells: Seq<u8>) -> int {
    choose|b: int| is_bound(cells, b)
}

/// At most one number is the bound of a board.
pub proof fn lemma_bound_unique(cells: Seq<u8>, b: int)
    requires
        is_bound(cells, b),
    ensures
        lower_bound(cells) == b,
        b >= 1,
{
    let c = lower_bound(cells);
    assert(is_bound(cells, c));
    let k1 = choose|k: u8| k < N_KIND && #[trigger] is_kind_cost(cells, k, b + 1);
    let k2 = choose|k: u8| k < N_KIND && #[trigger] is_kind_cost(cells, k, c + 1);
    assert(is_kind_cost(cells, k1, b + 1));
    assert(is_kind_cost(cells, k2, c + 1));
}

/// A kind with two or more pieces has a pair.
pub proof fn lemma_two_make_a_pair(cells: Seq<u8>, k: u8)
    requires
        count_kind(cells, k) >= 2,
    ensures
        exists|a: int, b: int| same_kind_pair(cells, k, a, b),
{
    let s = kind_cells(cells, k);
    lemma_kind_cells_step(cells, k, 64);
    let a = s.choose();
    assert(s.len() > 0);
    assert(s.contains(a));
    let s2 = s.remove(a);
    assert(s2.len() >= 1);
    let b = s2.choose();
    assert(s2.contains(b));
    assert(s.contains(b));
    if a < b {
        assert(same_kind_pair(cells, k, a, b));
    } else {
        assert(same_kind_pair(cells, k, b, a));
    }
}

/// On a board that is neither solved nor stuck some kind has a pair.
pub proof fn lemma_unsolved_has_pair(cells: Seq<u8>)
    requires
        !solved(cells),
        !stuck(cells),
    ensures
        exists|k: u8, a: int, b: int| k < N_KIND && same_kind_pair(cells, k, a, b),
{
    let k = choose|k: u8| k < N_KIND && count_kind(cells, k) != 0;
    assert(count_kind(cells, k) != 1);
    lemma_two_make_a_pair(cells, k);
    let (a, b) = choose|a: int, b: int| same_kind_pair(cells, k, a, b);
    assert(k < N_KIND && same_kind_pair(cells, k, a, b));
}

/// The ring distance between two cells.
pub fn distance(i: u8, j: u8) -> (d: u32)
    requires
        i < 64,
        j < 64,
    ensures
        d == ring_dist(i as int, j as int),
{
    let xi = i % 8;
    let xj = j % 8;
    let yi = i / 8;
    let yj = j / 8;
    let dx = if xi <= xj {
        xj - xi
    } else {
        xi - xj
    };
    let dy = if yi <= yj {
        yj - yi
    } else {
        yi - yj
    };
    let gx = if dx <= 4 {
        dx
    } else {
        8 - dx
    };
    let gy = if dy <= 4 {
        dy
    } else {
        8 - dy
    };
    (gx + gy) as u32
}

impl Board {
    /// A lower bound on the number of rotations that solve the board: for
    /// each kind the least cost of a pair of its pieces, of these the
    /// greatest, less one. The board must be neither solved nor stuck.
    pub fn least_to_solve(&self) -> (r: u32)
        requires
            !solved(self@.cells),
            !stuck(self@.cells),
        ensures
            is_bound(self@.cells, r as int),
            r == lower_bound(self@.cells),
            1 <= r <= 7,
    {
        let mut v: [Option<u32>; 9] = [None; 9];
        let ghost cells = self@.cells;
        let n = self.size();
        let mut i: u8 = 0;
        while i < 64
            invariant
                i <= 64,
                cells == self@.cells,
                cells.len() == 64,
                forall|k: u8| k < N_KIND ==> match #[trigger] v@[k as int] {
                    Some(c) => is_kind_cost_upto(cells, k, i as int, 0, c as int) && 2 <= c <= 8,
                    None => no_pair_upto(cells, k, i as int, 0),
                },
            decreases 64 - i,
        {
            let pi = self.cell(i);
            if pi < N_KIND {
                let mut j: u8 = i + 1;
                proof {
                    assert forall|k: u8| k < N_KIND implies match #[trigger] v@[k as int] {
                        Some(c) => is_kind_cost_upto(cells, k, i as int, j as int, c as int) && 2 <= c <= 8,
                        None => no_pair_upto(cells, k, i as int, j as int),
                    } by {
                        lemma_pairs_same(cells, k, i as int, 0, i as int, j as int);
                    }
                }
                while j < 64
                    invariant
                        i < j <= 64,
                        i < 64,
                        cells == self@.cells,
                        cells.len() == 64,
                        pi == cells[i as int],
                        pi < N_KIND,
                        forall|k: u8| k < N_KIND ==> match #[trigger] v@[k as int] {
                            Some(c) => is_kind_cost_upto(cells, k, i as int, j as int, c as int) && 2 <= c <= 8,
                            None => no_pair_upto(cells, k, i as int, j as int),
                        },
                    decreases 64 - j,
                {
                    let pj = self.cell(j);
                    let ghost v0 = v@;
                    if pi == pj {
                        let d = distance(i, j);
                        let d_new: u32 = if d < 2 {
                            2
                        } else {
                            d
                        };
                        let e: u32 = match v[pi as usize] {
                            Some(d_old) => if d_old < d_new {
                                d_old
                            } else {
                                d_new
                            },
                            None => d_new,
                        };
                        v[pi as usize] = Some(e);
                        proof {
                            assert(same_kind_pair(cells, pi, i as int, j as int));
                            assert(pair_before(i as int, j + 1, i as int, j as int));
                            assert(pair_cost(i as int, j as int) == d_new);
                            match v0[pi as int] {
                                Some(d_old) => {
                                    let (a, b) = choose|a: int, b: int| #[trigger]
                                        same_kind_pair(cells, pi, a, b) && pair_before(i as int, j as int, a, b)
                                            && pair_cost(a, b) == d_old as int;
                                    assert(same_kind_pair(cells, pi, a, b) && pair_before(i as int, j + 1, a, b));
                                },
                                None => {},
                            }
                            assert(is_kind_cost_upto(cells, pi, i as int, j + 1, e as int));
                        }
                    }
                    proof {
                        assert forall|k: u8| k < N_KIND implies match #[trigger] v@[k as int] {
                            Some(c) => is_kind_cost_upto(cells, k, i as int, j + 1, c as int) && 2 <= c <= 8,
                            None => no_pair_upto(cells, k, i as int, j + 1),
                        } by {
                            if !(pi == pj && k == pi) {
                                assert(v@[k as int] == v0[k as int]);
                                lemma_pairs_same(cells, k, i as int, j as int, i as int, j + 1);
                            }
                        }
                    }
                    j = j + 1;
                }
            }
            proof {
                assert forall|k: u8| k < N_KIND implies match #[trigger] v@[k as int] {
                    Some(c) => is_kind_cost_upto(cells, k, i + 1, 0, c as int) && 2 <= c <= 8,
                    None => no_pair_upto(cells, k, i + 1, 0),
                } by {
                    if pi < N_KIND {
                        lemma_pairs_same(cells, k, i as int, 64, i + 1, 0);
                    } else {
                        lemma_pairs_same(cells, k, i as int, 0, i + 1, 0);
                    }
                }
            }
            i = i + 1;
        }
        let mut best: u32 = 0;
        let mut k: u8 = 0;
        while k < N_KIND
            invariant
                k <= N_KIND,
                forall|n: u8| n < N_KIND ==> match #[trigger] v@[n as int] {
                    Some(c) => is_kind_cost(cells, n, c as int) && 2 <= c <= 8,
                    None => no_pair_upto(cells, n, 64, 0),
                },
                best == 0 || 2 <= best <= 8,
                best == 0 ==> forall|n: u8| n < k ==> (#[trigger] v@[n as int]).is_none(),
                best != 0 ==> exists|n: u8| n < k && #[trigger] v@[n as int] == Some(best),
                forall|n: u8| n < k ==> match #[trigger] v@[n as int] {
                    Some(c) => c <= best,
                    None => true,
                },
            decreases N_KIND - k,
        {
            match v[k as usize] {
                Some(c) => {
                    if c > best {
                        best = c;
                    }
                },
                None => {},
            }
            k = k + 1;
        }
        proof {
            lemma_unsolved_has_pair(cells);
            let (n, a, b) = choose|n: u8, a: int, b: int| n < N_KIND && same_kind_pair(cells, n, a, b);
            assert(pair_before(64, 0, a, b));
            assert(v@[n as int].is_some());
            assert(best != 0);
            let m = choose|m: u8| m < N_KIND && #[trigger] v@[m as int] == Some(best);
            assert(is_kind_cost(cells, m, best as int));
            assert forall|n: u8, c: int| n < N_KIND && #[trigger] is_kind_cost(cells, n, c) implies c <= best by {
                let (a, b) = choose|a: int, b: int| #[trigger]
                    same_kind_pair(cells, n, a, b) && pair_before(64, 0, a, b) && pair_cost(a, b) == c;
                assert(same_kind_pair(cells, n, a, b));
                match v@[n as int] {
                    Some(c2) => {
                        assert(is_kind_cost(cells, n, c2 as int));
                        let (a2, b2) = choose|a: int, b: int| #[trigger]
                            same_kind_pair(cells, n, a, b) && pair_before(64, 0, a, b) && pair_cost(a, b) == c2 as int;
                        assert(same_kind_pair(cells, n, a2, b2));
                    },
                    None => {},
                }
            }
            let bd = best - 1;
            assert(is_kind_cost(cells, m, bd + 1));
            assert(is_bound(cells, bd));
            lemma_bound_unique(cells, best - 1);
        }
        best - 1
    }
}

/// Two places in the order of pairs between which no pair with kind `k`
/// lies see the same pairs of that kind before them.
proof fn lemma_pairs_same(cells: Seq<u8>, k: u8, i: int, j: int, i2: int, j2: int)
    requires
        forall|a: int, b: int| #[trigger]
            same_kind_pair(cells, k, a, b) ==> (pair_before(i, j, a, b) <==> pair_before(i2, j2, a, b)),
    ensures
        forall|c: int| is_kind_cost_upto(cells, k, i, j, c) <==> is_kind_cost_upto(cells, k, i2, j2, c),
        no_pair_upto(cells, k, i, j) <==> no_pair_upto(cells, k, i2, j2),
{
    assert forall|c: int| is_kind_cost_upto(cells, k, i, j, c) implies is_kind_cost_upto(cells, k, i2, j2, c) by {
        let (a, b) = choose|a: int, b: int| #[trigger]
            same_kind_pair(cells, k, a, b) && pair_before(i, j, a, b) && pair_cost(a, b) == c;
        assert(same_kind_pair(cells, k, a, b) && pair_before(i2, j2, a, b) && pair_cost(a, b) == c);
    }
    assert forall|c: int| is_kind_cost_upto(cells, k, i2, j2, c) implies is_kind_cost_upto(cells, k, i, j, c) by {
        let (a, b) = choose|a: int, b: int| #[trigger]
            same_kind_pair(cells, k, a, b) && pair_before(i2, j2, a, b) && pair_cost(a, b) == c;
        assert(same_kind_pair(cells, k, a, b) && pair_before(i, j, a, b) && pair_cost(a, b) == c);
    }
}

} // verus!
