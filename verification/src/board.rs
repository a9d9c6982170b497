//! The puzzle state: an actor position and 64 cells.

use crate::cells::{
    array_cells, array_clone, array_from_slice, array_get, array_len, BoardArray, N_KIND,
};
use crate::grid::{cell_indices, in_grid, neighbours, neighbours_h, neighbours_v};
use vstd::prelude::*;

verus! {

/// A board. `pos` is the cell where the actor stands; `v` holds the cell
/// codes row by row.
#[derive(Debug, PartialEq, Eq)]
pub struct Board {
    pub pos: u8,
    pub v: BoardArray,
}

/// The mathematical view of a board: the actor's cell and the sequence of
/// cell codes.
pub struct BoardView {
    pub pos: int,
    pub cells: Seq<u8>,
}

impl View for Board {
    type V = BoardView;

    open spec fn view(&self) -> BoardView {
        BoardView { pos: self.pos as int, cells: array_cells(self.v) }
    }
}

/// The cells of `cells` before index `n` that hold code `k`.
pub open spec fn kind_cells_upto(cells: Seq<u8>, k: u8, n: int) -> Set<int> {
    Set::new(|i: int| 0 <= i < n && i < cells.len() && cells[i] == k)
}

/// The cells that hold code `k`.
pub open spec fn kind_cells(cells: Seq<u8>, k: u8) -> Set<int> {
    kind_cells_upto(cells, k, 64)
}

/// How many cells hold code `k`.
pub open spec fn count_kind(cells: Seq<u8>, k: u8) -> nat {
    kind_cells(cells, k).len()
}

/// No piece is left.
pub open spec fn solved(cells: Seq<u8>) -> bool {
    forall|k: u8| k < N_KIND ==> count_kind(cells, k) == 0
}

/// Some kind has exactly one piece left.
pub open spec fn stuck(cells: Seq<u8>) -> bool {
    exists|k: u8| k < N_KIND && count_kind(cells, k) == 1
}

impl BoardView {
    /// The actor stands on the grid and there are 64 cells.
    pub open spec fn wf(self) -> bool {
        in_grid(self.pos) && self.cells.len() == 64
    }
}

/// The cells before `n` form a finite set of at most `n` cells, which grows
/// by cell `n` exactly when that cell holds `k`.
pub proof fn lemma_kind_cells_step(cells: Seq<u8>, k: u8, n: int)
    requires
        0 <= n,
    ensures
        kind_cells_upto(cells, k, n).finite(),
        kind_cells_upto(cells, k, n).len() <= n,
        kind_cells_upto(cells, k, n + 1) == if n < cells.len() && cells[n] == k {
            kind_cells_upto(cells, k, n).insert(n)
        } else {
            kind_cells_upto(cells, k, n)
        },
        !kind_cells_upto(cells, k, n).contains(n),
    decreases n,
{
    if n == 0 {
        assert(kind_cells_upto(cells, k, 0) =~= Set::<int>::empty());
    } else {
        lemma_kind_cells_step(cells, k, n - 1);
    }
    let next = if n < cells.len() && cells[n] == k {
        kind_cells_upto(cells, k, n).insert(n)
    } else {
        kind_cells_upto(cells, k, n)
    };
    assert(kind_cells_upto(cells, k, n + 1) =~= next);
}

impl Clone for Board {
    fn clone(&self) -> (r: Self)
        ensures
            r@ == self@,
    {
        Board { pos: self.pos, v: array_clone(&self.v) }
    }
}

impl Board {
    /// A board with the actor on `pos` and the 64 cell codes of `v`.
    pub fn new(pos: u8, v: &[u8]) -> (r: Self)
        requires
            v@.len() == 64,
        ensures
            r@ == (BoardView { pos: pos as int, cells: v@ }),
    {
        Board { pos, v: array_from_slice(v) }
    }

    /// Column and row of a cell index.
    pub fn idx2xy(pos: u8) -> (r: (u8, u8))
        ensures
            r.0 == pos % 8,
            r.1 == pos / 8,
    {
        (pos % 8, pos / 8)
    }

    /// Index of the cell in column `x` of row `y`.
    pub fn xy2idx(x: u8, y: u8) -> (r: u8)
        requires
            8 * y + x <= u8::MAX,
        ensures
            r == 8 * y + x,
    {
        8 * y + x
    }

    /// The cells that share a side with `pos`, in increasing order.
    pub fn adjacent(pos: u8) -> (r: Vec<u8>)
        requires
            pos < 64,
        ensures
            cell_indices(r@) == neighbours(pos as int),
    {
        let mut r: Vec<u8> = Vec::new();
        if pos >= 8 {
            r.push(pos - 8);
        }
        if pos % 8 > 0 {
            r.push(pos - 1);
        }
        if pos % 8 < 7 {
            r.push(pos + 1);
        }
        if pos < 56 {
            r.push(pos + 8);
        }
        assert(cell_indices(r@) =~= neighbours(pos as int));
        r
    }

    /// The neighbours of `pos` in its row, in increasing order.
    pub fn adjacent_h(pos: u8) -> (r: Vec<u8>)
        requires
            pos < 64,
        ensures
            cell_indices(r@) == neighbours_h(pos as int),
    {
        let mut r: Vec<u8> = Vec::new();
        if pos % 8 > 0 {
            r.push(pos - 1);
        }
        if pos % 8 < 7 {
            r.push(pos + 1);
        }
        assert(cell_indices(r@) =~= neighbours_h(pos as int));
        r
    }

    /// The neighbours of `pos` in its column, in increasing order.
    pub fn adjacent_v(pos: u8) -> (r: Vec<u8>)
        requires
            pos < 64,
        ensures
            cell_indices(r@) == neighbours_v(pos as int),
    {
        let mut r: Vec<u8> = Vec::new();
        if pos >= 8 {
            r.push(pos - 8);
        }
        if pos < 56 {
            r.push(pos + 8);
        }
        assert(cell_indices(r@) =~= neighbours_v(pos as int));
        r
    }

    /// The number of cells of the board, which is always 64.
    pub fn size(&self) -> (n: usize)
        ensures
            n == 64,
            self@.cells.len() == 64,
    {
        array_len(&self.v)
    }

    /// The code of cell `i`.
    pub fn cell(&self, i: u8) -> (c: u8)
        requires
            i < 64,
        ensures
            self@.cells.len() == 64,
            c == self@.cells[i as int],
    {
        let n = self.size();
        array_get(&self.v, i as usize)
    }

    /// For each kind, the number of its pieces on the board.
    pub fn counts(&self) -> (r: [u8; 9])
        ensures
            self@.cells.len() == 64,
            forall|k: u8| k < N_KIND ==> r@[k as int] == count_kind(self@.cells, k),
    {
        let mut res: [u8; 9] = [0; 9];
        let n = self.size();
        let ghost cells = self@.cells;
        let mut i: usize = 0;
        proof {
            assert forall|k: u8| k < N_KIND implies res@[k as int] == #[trigger] kind_cells_upto(cells, k, 0).len() by {
                lemma_kind_cells_step(cells, k, 0);
                assert(kind_cells_upto(cells, k, 0) =~= Set::<int>::empty());
            }
        }
        while i < 64
            invariant
                i <= 64,
                cells == self@.cells,
                cells.len() == 64,
                forall|k: u8| k < N_KIND ==> res@[k as int] == #[trigger] kind_cells_upto(cells, k, i as int).len(),
            decreases 64 - i,
        {
            let e = array_get(&self.v, i);
            proof {
                assert forall|k: u8| k < N_KIND implies (#[trigger] kind_cells_upto(cells, k, i + 1).len()) == kind_cells_upto(cells, k, i as int).len() + (if k == e { 1int } else { 0int }) by {
                    lemma_kind_cells_step(cells, k, i as int);
                }
                if e < N_KIND {
                    lemma_kind_cells_step(cells, e, i as int);
                }
            }
            if e < N_KIND {
                res[e as usize] = res[e as usize] + 1;
            }
            i = i + 1;
        }
        res
    }

    /// Whether every piece has been erased.
    pub fn is_solved(&self) -> (r: bool)
        ensures
            r == solved(self@.cells),
    {
        let cnt = self.counts();
        let mut k: u8 = 0;
        while k < N_KIND
            invariant
                k <= N_KIND,
                forall|j: u8| j < N_KIND ==> cnt@[j as int] == count_kind(self@.cells, j),
                forall|j: u8| j < k ==> count_kind(self@.cells, j) == 0,
            decreases N_KIND - k,
        {
            if cnt[k as usize] != 0 {
                return false;
            }
            k = k + 1;
        }
        true
    }

    /// Whether some kind has a single piece left. Such a piece has no
    /// partner to be erased with, so the board can never be solved.
    pub fn is_stuck(&self) -> (r: bool)
        ensures
            r == stuck(self@.cells),
    {
        let cnt = self.counts();
        let mut k: u8 = 0;
        while k < N_KIND
            invariant
                k <= N_KIND,
                forall|j: u8| j < N_KIND ==> cnt@[j as int] == count_kind(self@.cells, j),
                forall|j: u8| j < k ==> count_kind(self@.cells, j) != 1,
            decreases N_KIND - k,
        {
            if cnt[k as usize] == 1 {
                return true;
            }
            k = k + 1;
        }
        false
    }
}

} // verus!
