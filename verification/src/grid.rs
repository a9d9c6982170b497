//! The fixed topology of the 8x8 grid: coordinates, neighbourhoods and the
//! wrap-around distance between cells.
//!
//! Cells are numbered row by row from the top-left corner, so the cell in
//! column `x` of row `y` has index `8 * y + x`.

use vstd::prelude::*;

verus! {

/// `i` is the index of a cell.
pub open spec fn in_grid(i: int) -> bool {
    0 <= i < 64
}

/// Column of cell `i`.
pub open spec fn col(i: int) -> int {
    i % 8
}

/// Row of cell `i`.
pub open spec fn row(i: int) -> int {
    i / 8
}

/// `i` and `j` are side by side in one row.
pub open spec fn is_adjacent_h(i: int, j: int) -> bool {
    &&& in_grid(i)
    &&& in_grid(j)
    &&& row(i) == row(j)
    &&& (j == i + 1 || i == j + 1)
}

/// `i` and `j` are one above the other in one column.
pub open spec fn is_adjacent_v(i: int, j: int) -> bool {
    &&& in_grid(i)
    &&& in_grid(j)
    &&& (j == i + 8 || i == j + 8)
}

/// `i` and `j` share a side.
pub open spec fn is_adjacent(i: int, j: int) -> bool {
    is_adjacent_h(i, j) || is_adjacent_v(i, j)
}

/// The neighbours of `i` in its row, left one first.
pub open spec fn neighbours_h(i: int) -> Seq<int> {
    (if col(i) > 0 {
        seq![i - 1]
    } else {
        Seq::<int>::empty()
    }) + (if col(i) < 7 {
        seq![i + 1]
    } else {
        Seq::<int>::empty()
    })
}

/// The neighbours of `i` in its column, upper one first.
pub open spec fn neighbours_v(i: int) -> Seq<int> {
    (if row(i) > 0 {
        seq![i - 8]
    } else {
        Seq::<int>::empty()
    }) + (if row(i) < 7 {
        seq![i + 8]
    } else {
        Seq::<int>::empty()
    })
}

/// All neighbours of `i`, in increasing index order: above, left, right, below.
pub open spec fn neighbours(i: int) -> Seq<int> {
    (if row(i) > 0 {
        seq![i - 8]
    } else {
        Seq::<int>::empty()
    }) + neighbours_h(i) + (if row(i) < 7 {
        seq![i + 8]
    } else {
        Seq::<int>::empty()
    })
}

/// The cell indices that a sequence of bytes stands for.
pub open spec fn cell_indices(s: Seq<u8>) -> Seq<int> {
    s.map_values(|c: u8| c as int)
}

/// Distance between two coordinates on a ring of eight.
pub open spec fn ring_gap(a: int, b: int) -> int {
    let d = if a <= b {
        b - a
    } else {
        a - b
    };
    if d <= 4 {
        d
    } else {
        8 - d
    }
}

/// Number of steps between two cells when every row and every column closes
/// into a ring and walls are ignored.
pub open spec fn ring_dist(i: int, j: int) -> int {
    ring_gap(col(i), col(j)) + ring_gap(row(i), row(j))
}

/// The neighbour lists hold exactly the adjacent cells, each once.
pub proof fn lemma_neighbours(i: int)
    requires
        in_grid(i),
    ensures
        forall|j: int| neighbours(i).contains(j) <==> is_adjacent(i, j),
        forall|j: int| neighbours_h(i).contains(j) <==> is_adjacent_h(i, j),
        forall|j: int| neighbours_v(i).contains(j) <==> is_adjacent_v(i, j),
        neighbours(i).no_duplicates(),
        neighbours_h(i).no_duplicates(),
        neighbours_v(i).no_duplicates(),
        neighbours(i).len() <= 4,
{
    let n = neighbours(i);
    let h = neighbours_h(i);
    let v = neighbours_v(i);
    assert forall|j: int| is_adjacent(i, j) implies n.contains(j) by {
        if j == i - 8 {
            assert(n[0] == j);
        } else if j == i - 1 {
            assert(n[if row(i) > 0 { 1int } else { 0int }] == j);
        } else if j == i + 1 {
            assert(n[(if row(i) > 0 { 1int } else { 0int }) + (if col(i) > 0 { 1int } else { 0int })] == j);
        } else {
            assert(n[n.len() - 1] == j);
        }
    }
    assert forall|j: int| is_adjacent_h(i, j) implies h.contains(j) by {
        if j == i - 1 {
            assert(h[0] == j);
        } else {
            assert(h[h.len() - 1] == j);
        }
    }
    assert forall|j: int| is_adjacent_v(i, j) implies v.contains(j) by {
        if j == i - 8 {
            assert(v[0] == j);
        } else {
            assert(v[v.len() - 1] == j);
        }
    }
}

/// The ring distance is symmetric, zero only between a cell and itself, and
/// one between cells that share a side.
pub proof fn lemma_ring_dist(i: int, j: int)
    requires
        in_grid(i),
        in_grid(j),
    ensures
        ring_dist(i, j) == ring_dist(j, i),
        0 <= ring_dist(i, j) <= 8,
        ring_dist(i, j) == 0 <==> i == j,
        is_adjacent(i, j) ==> ring_dist(i, j) == 1,
{
}

} // verus!
