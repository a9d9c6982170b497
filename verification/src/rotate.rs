//! Applying a move to a board.

use crate::board::Board;
use crate::cells::{
    array_len, array_set, is_piece, is_rotator, DOWN, EMPTY, LEFT, N_KIND, RIGHT, UP,
};
use crate::grid::{cell_indices, in_grid, lemma_neighbours, neighbours_h, neighbours_v};
use crate::rules::{
    across, cells_after, collapsed, cross_stride, has_partner, in_line, in_pair, is_vertical,
    line_index, line_start, partner, seam, shifted_by, stride,
};
use vstd::prelude::*;

verus! {

/// The cells after the piece on `p`, if there is one, has been matched with
/// its neighbours across a line: the partners are emptied, and so is `p`
/// when it has any.
pub open spec fn erase_around(cells: Seq<u8>, vertical: bool, p: int) -> Seq<u8> {
    Seq::new(
        64,
        |i: int|
            if is_piece(cells[p]) && ((i == p && has_partner(cells, vertical, p)) || partner(
                cells,
                vertical,
                p,
                i,
            )) {
                EMPTY
            } else {
                cells[i]
            },
    )
}

/// The cells after every pair across the line through `t` has been emptied.
pub open spec fn pairs_erased(cells: Seq<u8>, vertical: bool, t: int) -> Seq<u8> {
    Seq::new(
        64,
        |i: int|
            if in_pair(cells, vertical, t, i) {
                EMPTY
            } else {
                cells[i]
            },
    )
}

/// One round of erasing along a line: matching the line cell `p` on cells
/// `before`, where the rounds before it have been made on `c0`, settles every
/// cell beside `p` and leaves the others as they were.
#[verifier::rlimit(60)]
#[verifier::spinoff_prover]
proof fn lemma_erase_step(c0: Seq<u8>, before: Seq<u8>, vertical: bool, t: int, p: int, i: int)
    requires
        in_grid(t),
        in_grid(p),
        in_grid(i),
        in_line(vertical, t, p),
        c0.len() == 64,
        before.len() == 64,
        forall|j: int|
            0 <= j < 64 ==> #[trigger] before[j] == if line_index(vertical, j) < line_index(vertical, p)
                && in_pair(c0, vertical, t, j) {
                EMPTY
            } else {
                c0[j]
            },
    ensures
        erase_around(before, vertical, p)[i] == if line_index(vertical, i) < line_index(vertical, p) + 1
            && in_pair(c0, vertical, t, i) {
            EMPTY
        } else {
            c0[i]
        },
{
    let s = cross_stride(vertical);
    let k = line_index(vertical, p);
    assert(before[p] == c0[p]);
    if in_grid(p - s) && line_index(vertical, p - s) == k {
        assert(before[p - s] == c0[p - s]);
    }
    if in_grid(p + s) && line_index(vertical, p + s) == k {
        assert(before[p + s] == c0[p + s]);
    }
    assert(before[i] == if line_index(vertical, i) < k && in_pair(c0, vertical, t, i) {
        EMPTY
    } else {
        c0[i]
    });
    if in_grid(i - s) {
        assert(before[i - s] == if line_index(vertical, i - s) < k && in_pair(c0, vertical, t, i - s) {
            EMPTY
        } else {
            c0[i - s]
        });
    }
    if in_grid(i + s) {
        assert(before[i + s] == if line_index(vertical, i + s) < k && in_pair(c0, vertical, t, i + s) {
            EMPTY
        } else {
            c0[i + s]
        });
    }
}

impl Board {
    /// Overwrites the code of cell `i`.
    fn set_cell(&mut self, i: u8, c: u8)
        requires
            i < 64,
        ensures
            final(self)@.cells == old(self)@.cells.update(i as int, c),
            final(self)@.cells.len() == 64,
            final(self).pos == old(self).pos,
    {
        array_set(&mut self.v, i as usize, c);
        let n = array_len(&self.v);
    }

    /// Matches the piece on `pos` with its neighbours in `adj`.
    fn erase_among(&mut self, vertical: bool, pos: u8, adj: Vec<u8>)
        requires
            pos < 64,
            cell_indices(adj@) == if vertical {
                neighbours_h(pos as int)
            } else {
                neighbours_v(pos as int)
            },
        ensures
            final(self)@.cells == erase_around(old(self)@.cells, vertical, pos as int),
            final(self).pos == old(self).pos,
    {
        let kind = self.cell(pos);
        let ghost c0 = self@.cells;
        let ghost p = pos as int;
        proof {
            lemma_neighbours(p);
            assert forall|m: int| 0 <= m < adj@.len() implies across(vertical, p, #[trigger] adj@[m] as int) by {
                let ns = cell_indices(adj@);
                assert(ns[m] == adj@[m] as int);
                assert(ns.contains(adj@[m] as int));
            }
        }
        if kind >= N_KIND {
            assert(self@.cells =~= erase_around(c0, vertical, p));
            return ;
        }
        let mut found = false;
        let mut n: usize = 0;
        while n < adj.len()
            invariant
                n <= adj@.len(),
                pos < 64,
                p == pos as int,
                c0.len() == 64,
                self@.cells.len() == 64,
                kind == c0[p],
                is_piece(kind),
                self.pos == old(self).pos,
                forall|m: int| 0 <= m < adj@.len() ==> across(vertical, p, #[trigger] adj@[m] as int),
                forall|i: int|
                    0 <= i < 64 ==> #[trigger] self@.cells[i] == if partner(c0, vertical, p, i) && exists|m: int|
                        0 <= m < n && adj@[m] == i {
                        EMPTY
                    } else {
                        c0[i]
                    },
                found <==> exists|m: int| 0 <= m < n && partner(c0, vertical, p, #[trigger] adj@[m] as int),
            decreases adj@.len() - n,
        {
            let to = adj[n];
            let ghost before = self@.cells;
            assert(across(vertical, p, adj@[n as int] as int));
            let c = self.cell(to);
            assert(c == kind ==> c0[to as int] == kind) by {
                if before[to as int] != c0[to as int] {
                    assert(before[to as int] == EMPTY);
                }
            }
            if c == kind {
                self.set_cell(to, EMPTY);
                found = true;
                assert(partner(c0, vertical, p, adj@[n as int] as int));
            }
            proof {
                let cur = self@.cells;
                assert forall|i: int| 0 <= i < 64 implies #[trigger] cur[i] == if partner(c0, vertical, p, i) && exists|m: int|
                    0 <= m < n + 1 && adj@[m] == i {
                    EMPTY
                } else {
                    c0[i]
                } by {
                    if i == to as int {
                        assert(adj@[n as int] == i);
                    } else {
                        if exists|m: int| 0 <= m < n + 1 && adj@[m] == i {
                            let m = choose|m: int| 0 <= m < n + 1 && adj@[m] == i;
                            assert(m < n);
                        }
                    }
                }
            }
            n = n + 1;
        }
        proof {
            let ns = cell_indices(adj@);
            assert forall|j: int| partner(c0, vertical, p, j) implies exists|m: int|
                0 <= m < adj@.len() && adj@[m] == j by {
                assert(ns.contains(j));
                let m = choose|m: int| 0 <= m < ns.len() && ns[m] == j;
                assert(adj@[m] as int == j);
            }
            assert(found == has_partner(c0, vertical, p)) by {
                let s = cross_stride(vertical);
                if has_partner(c0, vertical, p) {
                    let j = if partner(c0, vertical, p, p - s) {
                        p - s
                    } else {
                        p + s
                    };
                    let m = choose|m: int| 0 <= m < adj@.len() && adj@[m] == j;
                    assert(partner(c0, vertical, p, adj@[m] as int));
                }
                if found {
                    let m = choose|m: int| 0 <= m < n && partner(c0, vertical, p, #[trigger] adj@[m] as int);
                    assert(across(vertical, p, adj@[m] as int));
                }
            }
        }
        if found {
            self.set_cell(pos, EMPTY);
        }
        assert(self@.cells =~= erase_around(c0, vertical, p));
    }

    /// Shifts the line of rotator `dir` on `pos` by one cell.
    fn shift_line(&mut self, dir: u8, pos: u8)
        requires
            pos < 64,
            is_rotator(dir),
        ensures
            final(self)@.cells == shifted_by(old(self)@.cells, dir, pos as int),
            final(self)@.cells.len() == 64,
            final(self).pos == old(self).pos,
    {
        let vertical = dir == UP || dir == DOWN;
        let step: u8 = if vertical {
            8
        } else {
            1
        };
        let start: u8 = if vertical {
            pos % 8
        } else {
            pos - pos % 8
        };
        let ghost c0 = self@.cells;
        let ghost t = pos as int;
        if dir == UP || dir == LEFT {
            let tmp = self.cell(start);
            let mut k: u8 = 0;
            while k < 7
                invariant
                    k <= 7,
                    pos < 64,
                    t == pos as int,
                    is_rotator(dir),
                    vertical == is_vertical(dir),
                    step == stride(vertical),
                    start == line_start(vertical, t),
                    c0.len() == 64,
                    self@.cells.len() == 64,
                    self.pos == old(self).pos,
                    forall|i: int|
                        0 <= i < 64 ==> #[trigger] self@.cells[i] == if in_line(vertical, t, i) && line_index(
                            vertical,
                            i,
                        ) < k {
                            c0[i + step]
                        } else {
                            c0[i]
                        },
                decreases 7 - k,
            {
                let c = self.cell(start + (k + 1) * step);
                self.set_cell(start + k * step, c);
                k = k + 1;
            }
            self.set_cell(start + 7 * step, tmp);
        } else {
            let tmp = self.cell(start + 7 * step);
            let mut k: u8 = 7;
            while k > 0
                invariant
                    k <= 7,
                    pos < 64,
                    t == pos as int,
                    is_rotator(dir),
                    vertical == is_vertical(dir),
                    step == stride(vertical),
                    start == line_start(vertical, t),
                    c0.len() == 64,
                    self@.cells.len() == 64,
                    self.pos == old(self).pos,
                    forall|i: int|
                        0 <= i < 64 ==> #[trigger] self@.cells[i] == if in_line(vertical, t, i) && line_index(
                            vertical,
                            i,
                        ) > k {
                            c0[i - step]
                        } else {
                            c0[i]
                        },
                decreases k,
            {
                let c = self.cell(start + (k - 1) * step);
                self.set_cell(start + k * step, c);
                k = k - 1;
            }
            self.set_cell(start, tmp);
        }
        assert(self@.cells =~= shifted_by(c0, dir, t));
    }

    /// Erases every pair across the line through `pos`.
    fn erase_line(&mut self, vertical: bool, pos: u8)
        requires
            pos < 64,
        ensures
            final(self)@.cells == pairs_erased(old(self)@.cells, vertical, pos as int),
            final(self)@.cells.len() == 64,
            final(self).pos == old(self).pos,
    {
        let step: u8 = if vertical {
            8
        } else {
            1
        };
        let start: u8 = if vertical {
            pos % 8
        } else {
            pos - pos % 8
        };
        let n = self.size();
        let ghost c0 = self@.cells;
        let ghost t = pos as int;
        let mut k: u8 = 0;
        while k < 8
            invariant
                k <= 8,
                pos < 64,
                t == pos as int,
                step == stride(vertical),
                start == line_start(vertical, t),
                c0.len() == 64,
                self@.cells.len() == 64,
                self.pos == old(self).pos,
                forall|i: int|
                    0 <= i < 64 ==> #[trigger] self@.cells[i] == if line_index(vertical, i) < k && in_pair(
                        c0,
                        vertical,
                        t,
                        i,
                    ) {
                        EMPTY
                    } else {
                        c0[i]
                    },
            decreases 8 - k,
        {
            let p = start + k * step;
            let ghost before = self@.cells;
            if vertical {
                self.erase_h(p);
            } else {
                self.erase_v(p);
            }
            proof {
                let cur = self@.cells;
                assert(cur == erase_around(before, vertical, p as int));
                assert(in_line(vertical, t, p as int));
                assert(line_index(vertical, p as int) == k);
                assert forall|i: int| 0 <= i < 64 implies #[trigger] cur[i] == if line_index(vertical, i) < k + 1
                    && in_pair(c0, vertical, t, i) {
                    EMPTY
                } else {
                    c0[i]
                } by {
                    lemma_erase_step(c0, before, vertical, t, p as int, i);
                }
            }
            k = k + 1;
        }
        assert(self@.cells =~= pairs_erased(c0, vertical, t));
    }

    /// Shifts the line of rotator `dir` on `pos` and erases what has met.
    fn rotate(&mut self, dir: u8, pos: u8)
        requires
            pos < 64,
            is_rotator(dir),
        ensures
            final(self)@.cells == collapsed(shifted_by(old(self)@.cells, dir, pos as int), dir, pos as int),
            final(self).pos == old(self).pos,
    {
        let vertical = dir == UP || dir == DOWN;
        let step: u8 = if vertical {
            8
        } else {
            1
        };
        let start: u8 = if vertical {
            pos % 8
        } else {
            pos - pos % 8
        };
        self.shift_line(dir, pos);
        let ghost sh = self@.cells;
        let ghost t = pos as int;
        let i: u8 = if dir == UP || dir == LEFT {
            start + 6 * step
        } else {
            start
        };
        let j: u8 = i + step;
        assert(seam(dir, t) == (i as int, j as int));
        let a = self.cell(i);
        let b = self.cell(j);
        let erase_edge = a < N_KIND && a == b;
        self.erase_line(vertical, pos);
        if erase_edge {
            self.set_cell(i, EMPTY);
            self.set_cell(j, EMPTY);
        }
        assert(self@.cells =~= collapsed(sh, dir, t));
    }

    /// Applies the upward rotator on `pos`.
    pub(crate) fn rotate_up(&mut self, pos: u8)
        requires
            pos < 64,
            old(self)@.cells[pos as int] == UP,
        ensures
            final(self)@.cells == cells_after(old(self)@.cells, pos as int),
            final(self).pos == old(self).pos,
    {
        self.rotate(UP, pos);
    }

    /// Applies the downward rotator on `pos`.
    pub(crate) fn rotate_down(&mut self, pos: u8)
        requires
            pos < 64,
            old(self)@.cells[pos as int] == DOWN,
        ensures
            final(self)@.cells == cells_after(old(self)@.cells, pos as int),
            final(self).pos == old(self).pos,
    {
        self.rotate(DOWN, pos);
    }

    /// Applies the leftward rotator on `pos`.
    pub(crate) fn rotate_left(&mut self, pos: u8)
        requires
            pos < 64,
            old(self)@.cells[pos as int] == LEFT,
        ensures
            final(self)@.cells == cells_after(old(self)@.cells, pos as int),
            final(self).pos == old(self).pos,
    {
        self.rotate(LEFT, pos);
    }

    /// Applies the rightward rotator on `pos`.
    pub(crate) fn rotate_right(&mut self, pos: u8)
        requires
            pos < 64,
            old(self)@.cells[pos as int] == RIGHT,
        ensures
            final(self)@.cells == cells_after(old(self)@.cells, pos as int),
            final(self).pos == old(self).pos,
    {
        self.rotate(RIGHT, pos);
    }

    /// Selects the rotator on `pos`: its line is shifted by one cell, the
    /// pairs that the shift has formed are erased, and the actor moves to
    /// `pos`. The cell must hold a rotator.
    pub fn move_(&mut self, pos: u8)
        requires
            pos < 64,
            is_rotator(old(self)@.cells[pos as int]),
        ensures
            final(self)@ == old(self)@.after(pos as int),
    {
        let dir = self.cell(pos);
        if dir == UP {
            self.rotate_up(pos);
        } else if dir == DOWN {
            self.rotate_down(pos);
        } else if dir == LEFT {
            self.rotate_left(pos);
        } else {
            self.rotate_right(pos);
        }
        self.pos = pos;
    }

    /// Erases the piece on `pos` together with its equal neighbours in the
    /// same row.
    pub(crate) fn erase_h(&mut self, pos: u8)
        requires
            pos < 64,
        ensures
            final(self)@.cells == erase_around(old(self)@.cells, true, pos as int),
            final(self).pos == old(self).pos,
    {
        let adj = Board::adjacent_h(pos);
        self.erase_among(true, pos, adj);
    }

    /// Erases the piece on `pos` together with its equal neighbours in the
    /// same column.
    pub(crate) fn erase_v(&mut self, pos: u8)
        requires
            pos < 64,
        ensures
            final(self)@.cells == erase_around(old(self)@.cells, false, pos as int),
            final(self).pos == old(self).pos,
    {
        let adj = Board::adjacent_v(pos);
        self.erase_among(false, pos, adj);
    }
}

} // verus!
