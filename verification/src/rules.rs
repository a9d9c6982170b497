//! What a move does to the cells: the selected rotator shifts its line by
//! one cell, then pieces that have met a partner of their kind are erased.

use crate::cells::{is_piece, is_rotator, DOWN, EMPTY, LEFT, UP};
use crate::grid::{col, in_grid, is_adjacent_h, is_adjacent_v, row};
use crate::board::BoardView;
use vstd::prelude::*;

verus! {

/// The rotator shifts a column.
pub open spec fn is_vertical(dir: u8) -> bool {
    dir == UP || dir == DOWN
}

/// The rotator moves the contents of its line towards the lower indices.
pub open spec fn pulls(dir: u8) -> bool {
    dir == UP || dir == LEFT
}

/// Distance between consecutive cells of a line.
pub open spec fn stride(vertical: bool) -> int {
    if vertical {
        8
    } else {
        1
    }
}

/// First cell of the line through `t`.
pub open spec fn line_start(vertical: bool, t: int) -> int {
    if vertical {
        col(t)
    } else {
        8 * row(t)
    }
}

/// Place of cell `i` along a line.
pub open spec fn line_index(vertical: bool, i: int) -> int {
    if vertical {
        row(i)
    } else {
        col(i)
    }
}

/// Cell `i` lies on the line through `t`.
pub open spec fn in_line(vertical: bool, t: int, i: int) -> bool {
    in_grid(i) && line_start(vertical, i) == line_start(vertical, t)
}

/// The cell whose content stands on `i` after rotator `dir` at `t` has
/// shifted its line. The content that leaves the line at one end enters it
/// again at the other.
pub open spec fn shift_source(dir: u8, t: int, i: int) -> int {
    let v = is_vertical(dir);
    if !is_rotator(dir) || !in_line(v, t, i) {
        i
    } else if pulls(dir) {
        if line_index(v, i) == 7 {
            i - 7 * stride(v)
        } else {
            i + stride(v)
        }
    } else {
        if line_index(v, i) == 0 {
            i + 7 * stride(v)
        } else {
            i - stride(v)
        }
    }
}

/// The cell on which the content of `j` stands after the shift.
pub open spec fn shift_target(dir: u8, t: int, j: int) -> int {
    let v = is_vertical(dir);
    if !is_rotator(dir) || !in_line(v, t, j) {
        j
    } else if pulls(dir) {
        if line_index(v, j) == 0 {
            j + 7 * stride(v)
        } else {
            j - stride(v)
        }
    } else {
        if line_index(v, j) == 7 {
            j - 7 * stride(v)
        } else {
            j + stride(v)
        }
    }
}

/// The cells after rotator `dir` at `t` has shifted its line.
pub open spec fn shifted_by(cells: Seq<u8>, dir: u8, t: int) -> Seq<u8> {
    Seq::new(64, |i: int| cells[shift_source(dir, t, i)])
}

/// `i` and `j` are neighbours across a line of the given orientation: in one
/// row for a column, in one column for a row.
pub open spec fn across(vertical: bool, i: int, j: int) -> bool {
    if vertical {
        is_adjacent_h(i, j)
    } else {
        is_adjacent_v(i, j)
    }
}

/// Distance between neighbours across a line.
pub open spec fn cross_stride(vertical: bool) -> int {
    if vertical {
        1
    } else {
        8
    }
}

/// Cell `j` is a neighbour of `i` across the line and holds the same code.
pub open spec fn partner(cells: Seq<u8>, vertical: bool, i: int, j: int) -> bool {
    across(vertical, i, j) && cells[j] == cells[i]
}

/// Cell `i` has a partner on either side.
pub open spec fn has_partner(cells: Seq<u8>, vertical: bool, i: int) -> bool {
    partner(cells, vertical, i, i - cross_stride(vertical)) || partner(
        cells,
        vertical,
        i,
        i + cross_stride(vertical),
    )
}

/// Cell `i` holds a piece and forms a pair with a partner across the line
/// through `t`, one of the two lying on that line.
pub open spec fn in_pair(cells: Seq<u8>, vertical: bool, t: int, i: int) -> bool {
    let s = cross_stride(vertical);
    &&& in_grid(i)
    &&& is_piece(cells[i])
    &&& if in_line(vertical, t, i) {
        has_partner(cells, vertical, i)
    } else {
        (in_line(vertical, t, i - s) && partner(cells, vertical, i, i - s)) || (in_line(
            vertical,
            t,
            i + s,
        ) && partner(cells, vertical, i, i + s))
    }
}

/// The two cells of the line through `t` that the shift of rotator `dir`
/// has brought together: the one that came round and the one beside it.
pub open spec fn seam(dir: u8, t: int) -> (int, int) {
    let v = is_vertical(dir);
    let a = line_start(v, t);
    if pulls(dir) {
        (a + 6 * stride(v), a + 7 * stride(v))
    } else {
        (a, a + stride(v))
    }
}

/// The two cells of the seam hold pieces of one kind.
pub open spec fn seam_matches(cells: Seq<u8>, dir: u8, t: int) -> bool {
    let (a, b) = seam(dir, t);
    is_piece(cells[a]) && cells[a] == cells[b]
}

/// Cell `i` is erased from the shifted cells `sh`.
pub open spec fn erased(sh: Seq<u8>, dir: u8, t: int, i: int) -> bool {
    let (a, b) = seam(dir, t);
    in_pair(sh, is_vertical(dir), t, i) || (seam_matches(sh, dir, t) && (i == a || i == b))
}

/// The shifted cells `sh` with every erased cell made empty.
pub open spec fn collapsed(sh: Seq<u8>, dir: u8, t: int) -> Seq<u8> {
    Seq::new(
        64,
        |i: int|
            if erased(sh, dir, t, i) {
                EMPTY
            } else {
                sh[i]
            },
    )
}

/// The cells after the rotator on cell `t` has been selected.
pub open spec fn cells_after(cells: Seq<u8>, t: int) -> Seq<u8> {
    collapsed(shifted_by(cells, cells[t], t), cells[t], t)
}

/// Selecting the rotator on `t` is allowed by the rules of a move.
pub open spec fn can_select(cells: Seq<u8>, t: int) -> bool {
    in_grid(t) && cells.len() == 64 && is_rotator(cells[t])
}

impl BoardView {
    /// The board after the rotator on cell `t` has been selected: the cells
    /// are shifted and collapsed, and the actor stands on `t`.
    pub open spec fn after(self, t: int) -> BoardView {
        BoardView { pos: t, cells: cells_after(self.cells, t) }
    }
}

/// A shift moves every content to exactly one cell of the grid.
pub proof fn lemma_shift_bijective(dir: u8, t: int, i: int)
    requires
        in_grid(t),
        in_grid(i),
    ensures
        in_grid(shift_source(dir, t, i)),
        in_grid(shift_target(dir, t, i)),
        shift_target(dir, t, shift_source(dir, t, i)) == i,
        shift_source(dir, t, shift_target(dir, t, i)) == i,
        in_line(is_vertical(dir), t, i) == in_line(is_vertical(dir), t, shift_source(dir, t, i)),
        in_line(is_vertical(dir), t, i) == in_line(is_vertical(dir), t, shift_target(dir, t, i)),
{
}

} // verus!
