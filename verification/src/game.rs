//! Sequences of moves, solutions, and what no move can undo.

use crate::board::{count_kind, kind_cells, solved, stuck, BoardView};
use crate::cells::{is_piece, is_rotator, EMPTY, N_KIND};
use crate::grid::{in_grid, is_adjacent};
use crate::rules::{in_line, 
    can_select, cells_after, collapsed, cross_stride, erased, in_pair, is_vertical,
    lemma_shift_bijective, partner, seam, shift_source, shift_target, shifted_by,
};
use crate::walk::is_move;
use vstd::prelude::*;

verus! {

/// The cells whose code satisfies `pred`.
pub open spec fn cells_where(cells: Seq<u8>, pred: spec_fn(u8) -> bool) -> Set<int> {
    Set::new(|i: int| in_grid(i) && pred(cells[i]))
}

/// The sort of the codes that are equal to `k`.
pub open spec fn code_is(k: u8) -> spec_fn(u8) -> bool {
    |c: u8| c == k
}

/// The sort of the codes that are pieces.
pub open spec fn any_piece() -> spec_fn(u8) -> bool {
    |c: u8| is_piece(c)
}

/// The cells that hold a piece.
pub open spec fn piece_cells(cells: Seq<u8>) -> Set<int> {
    cells_where(cells, any_piece())
}

/// The number of pieces on the board.
pub open spec fn piece_count(cells: Seq<u8>) -> nat {
    piece_cells(cells).len()
}

/// The board after the moves of `s` have been made in order.
pub open spec fn play(b: BoardView, s: Seq<u8>) -> BoardView
    decreases s.len(),
{
    if s.len() == 0 {
        b
    } else {
        play(b, s.drop_last()).after(s.last() as int)
    }
}

/// Every move of `s` is a legal move of the board on which it is made.
pub open spec fn legal(b: BoardView, s: Seq<u8>) -> bool
    decreases s.len(),
{
    s.len() == 0 || (legal(b, s.drop_last()) && is_move(play(b, s.drop_last()), s.last() as int))
}

/// `s` is a sequence of legal moves that leaves no piece on the board.
pub open spec fn is_solution(b: BoardView, s: Seq<u8>) -> bool {
    legal(b, s) && solved(play(b, s).cells)
}

/// `s` is a solution, and no solution has fewer moves.
pub open spec fn is_minimal_solution(b: BoardView, s: Seq<u8>) -> bool {
    is_solution(b, s) && forall|r: Seq<u8>| is_solution(b, r) ==> r.len() >= s.len()
}

/// A set of cells is finite and has at most 64 elements.
pub proof fn lemma_cells_where_finite(cells: Seq<u8>, pred: spec_fn(u8) -> bool)
    ensures
        cells_where(cells, pred).finite(),
        cells_where(cells, pred).len() <= 64,
{
    let all = vstd::set_lib::set_int_range(0, 64);
    vstd::set_lib::lemma_int_range(0, 64);
    assert(cells_where(cells, pred).subset_of(all));
    vstd::set_lib::lemma_len_subset(cells_where(cells, pred), all);
}

/// The cells that hold code `k`, said with `cells_where`.
pub proof fn lemma_kind_cells_where(cells: Seq<u8>, k: u8)
    requires
        cells.len() == 64,
    ensures
        kind_cells(cells, k) == cells_where(cells, code_is(k)),
{
    assert(kind_cells(cells, k) =~= cells_where(cells, code_is(k)));
}

/// A shift moves the codes about and changes none: as many cells as before
/// hold a code of any given sort.
pub proof fn lemma_shift_keeps(cells: Seq<u8>, dir: u8, t: int, pred: spec_fn(u8) -> bool)
    requires
        in_grid(t),
        cells.len() == 64,
    ensures
        cells_where(shifted_by(cells, dir, t), pred).len() == cells_where(cells, pred).len(),
{
    let sh = shifted_by(cells, dir, t);
    let x = cells_where(sh, pred);
    let y = cells_where(cells, pred);
    let f = |i: int| shift_source(dir, t, i);
    lemma_cells_where_finite(sh, pred);
    assert(vstd::relations::injective_on(f, x)) by {
        assert forall|a: int, b: int| x.contains(a) && x.contains(b) && #[trigger] f(a) == #[trigger] f(b) implies a == b by {
            lemma_shift_bijective(dir, t, a);
            lemma_shift_bijective(dir, t, b);
        }
    }
    assert(x.map(f) =~= y) by {
        assert forall|j: int| x.map(f).contains(j) <==> y.contains(j) by {
            if x.map(f).contains(j) {
                let i = choose|i: int| x.contains(i) && j == f(i);
                lemma_shift_bijective(dir, t, i);
            }
            if y.contains(j) {
                let i = shift_target(dir, t, j);
                lemma_shift_bijective(dir, t, j);
                assert(x.contains(i) && j == f(i));
            }
        }
    }
    vstd::set_lib::lemma_map_size(x, y, f);
}

/// Erasing only empties cells: the cells that hold a code of a sort to
/// which the empty code does not belong are among those that held one.
pub proof fn lemma_collapse_loses(sh: Seq<u8>, dir: u8, t: int, pred: spec_fn(u8) -> bool)
    requires
        sh.len() == 64,
        !pred(EMPTY),
    ensures
        cells_where(collapsed(sh, dir, t), pred).subset_of(cells_where(sh, pred)),
        cells_where(collapsed(sh, dir, t), pred).len() <= cells_where(sh, pred).len(),
{
    lemma_cells_where_finite(sh, pred);
    vstd::set_lib::lemma_len_subset(cells_where(collapsed(sh, dir, t), pred), cells_where(sh, pred));
}

/// A move adds no piece: afterwards the board holds at most as many pieces
/// as before, and at most as many of each kind.
pub proof fn lemma_move_adds_nothing(cells: Seq<u8>, t: int)
    requires
        can_select(cells, t),
    ensures
        piece_count(cells_after(cells, t)) <= piece_count(cells),
        forall|k: u8| k < N_KIND ==> count_kind(cells_after(cells, t), k) <= count_kind(cells, k),
{
    let dir = cells[t];
    let sh = shifted_by(cells, dir, t);
    let after = cells_after(cells, t);
    let pieces = any_piece();
    lemma_shift_keeps(cells, dir, t, pieces);
    lemma_collapse_loses(sh, dir, t, pieces);
    assert forall|k: u8| k < N_KIND implies count_kind(after, k) <= count_kind(cells, k) by {
        let of_kind = code_is(k);
        lemma_shift_keeps(cells, dir, t, of_kind);
        lemma_collapse_loses(sh, dir, t, of_kind);
        lemma_kind_cells_where(cells, k);
        lemma_kind_cells_where(after, k);
    }
}

/// A finite set with two different elements has at least two elements.
pub proof fn lemma_two_elements(s: Set<int>, a: int, b: int)
    requires
        s.finite(),
        s.contains(a),
        s.contains(b),
        a != b,
    ensures
        s.len() >= 2,
{
    assert(s.remove(a).contains(b));
    assert(s.remove(a).len() >= 1) by {
        if s.remove(a).len() == 0 {
            assert(s.remove(a) =~= Set::<int>::empty());
        }
    }
}

/// A cell is erased only together with another cell of its kind.
pub proof fn lemma_erased_has_twin(sh: Seq<u8>, dir: u8, t: int, i: int)
    requires
        in_grid(t),
        in_grid(i),
        is_rotator(dir),
        sh.len() == 64,
        erased(sh, dir, t, i),
    ensures
        is_piece(sh[i]),
        exists|j: int| in_grid(j) && j != i && is_adjacent(i, j) && sh[j] == sh[i] && #[trigger] erased(sh, dir, t, j),
{
    let v = is_vertical(dir);
    let s = cross_stride(v);
    let (a, b) = seam(dir, t);
    if in_pair(sh, v, t, i) {
        if partner(sh, v, i, i - s) && (!in_line(v, t, i) ==> in_line(v, t, i - s)) {
            assert(in_pair(sh, v, t, i - s));
            assert(in_grid(i - s) && i - s != i && is_adjacent(i, i - s) && sh[i - s] == sh[i] && erased(sh, dir, t, i - s));
        } else {
            assert(in_pair(sh, v, t, i + s));
            assert(in_grid(i + s) && i + s != i && is_adjacent(i, i + s) && sh[i + s] == sh[i] && erased(sh, dir, t, i + s));
        }
    } else {
        if i == a {
            assert(in_grid(b) && b != i && is_adjacent(i, b) && sh[b] == sh[i] && erased(sh, dir, t, b));
        } else {
            assert(in_grid(a) && a != i && is_adjacent(i, a) && sh[a] == sh[i] && erased(sh, dir, t, a));
        }
    }
}

/// Pieces leave in company: a move takes no piece of a kind or at least
/// two of them.
pub proof fn lemma_pieces_leave_in_company(cells: Seq<u8>, t: int, k: u8)
    requires
        can_select(cells, t),
        k < N_KIND,
    ensures
        count_kind(cells_after(cells, t), k) == count_kind(cells, k) || count_kind(cells_after(cells, t), k) + 2
            <= count_kind(cells, k),
{
    let dir = cells[t];
    let sh = shifted_by(cells, dir, t);
    let after = cells_after(cells, t);
    let of_kind = code_is(k);
    lemma_shift_keeps(cells, dir, t, of_kind);
    lemma_collapse_loses(sh, dir, t, of_kind);
    lemma_kind_cells_where(cells, k);
    lemma_kind_cells_where(after, k);
    lemma_cells_where_finite(sh, of_kind);
    lemma_cells_where_finite(after, of_kind);
    let before = cells_where(sh, of_kind);
    let left = cells_where(after, of_kind);
    let gone = before.difference(left);
    vstd::set_lib::lemma_set_difference_len(before, left);
    assert(before.intersect(left) =~= left);
    if gone.len() != 0 {
        let i = gone.choose();
        assert(gone.contains(i));
        assert(erased(sh, dir, t, i));
        lemma_erased_has_twin(sh, dir, t, i);
        let j = choose|j: int| in_grid(j) && j != i && is_adjacent(i, j) && sh[j] == sh[i] && #[trigger] erased(sh, dir, t, j);
        assert(gone.contains(j));
        lemma_two_elements(gone, i, j);
    }
}

/// The last piece of a kind stays: a kind with one piece has one piece
/// after any move.
pub proof fn lemma_orphan_stays(cells: Seq<u8>, t: int, k: u8)
    requires
        can_select(cells, t),
        k < N_KIND,
        count_kind(cells, k) == 1,
    ensures
        count_kind(cells_after(cells, t), k) == 1,
{
    let dir = cells[t];
    let sh = shifted_by(cells, dir, t);
    let after = cells_after(cells, t);
    let of_kind = code_is(k);
    lemma_shift_keeps(cells, dir, t, of_kind);
    lemma_collapse_loses(sh, dir, t, of_kind);
    lemma_kind_cells_where(cells, k);
    lemma_kind_cells_where(after, k);
    lemma_cells_where_finite(sh, of_kind);
    lemma_cells_where_finite(after, of_kind);
    let x = cells_where(sh, of_kind);
    assert(x.len() == 1);
    let a = x.choose();
    assert(x.contains(a));
    if erased(sh, dir, t, a) {
        lemma_erased_has_twin(sh, dir, t, a);
        let j = choose|j: int| in_grid(j) && j != a && is_adjacent(a, j) && sh[j] == sh[a] && #[trigger] erased(sh, dir, t, j);
        assert(x.contains(j));
        lemma_two_elements(x, a, j);
    }
    assert(cells_where(after, of_kind).contains(a));
    assert(cells_where(after, of_kind).len() >= 1) by {
        if cells_where(after, of_kind).len() == 0 {
            assert(cells_where(after, of_kind) =~= Set::<int>::empty());
        }
    }
}

/// A stuck board stays stuck.
pub proof fn lemma_stuck_stays(cells: Seq<u8>, t: int)
    requires
        can_select(cells, t),
        stuck(cells),
    ensures
        stuck(cells_after(cells, t)),
        !solved(cells),
{
    let k = choose|k: u8| k < N_KIND && count_kind(cells, k) == 1;
    lemma_orphan_stays(cells, t, k);
}

/// A move that erases nothing leaves the number of cells of every code as
/// it was: the board differs only by the shift and the actor's cell.
pub proof fn lemma_quiet_move(cells: Seq<u8>, t: int, k: u8)
    requires
        can_select(cells, t),
        forall|i: int| in_grid(i) ==> !erased(shifted_by(cells, cells[t], t), cells[t], t, i),
    ensures
        cells_after(cells, t) == shifted_by(cells, cells[t], t),
        count_kind(cells_after(cells, t), k) == count_kind(cells, k),
        piece_count(cells_after(cells, t)) == piece_count(cells),
{
    let dir = cells[t];
    let sh = shifted_by(cells, dir, t);
    assert(cells_after(cells, t) =~= sh);
    lemma_shift_keeps(cells, dir, t, code_is(k));
    lemma_shift_keeps(cells, dir, t, any_piece());
    lemma_kind_cells_where(cells, k);
    lemma_kind_cells_where(sh, k);
}

/// Playing two sequences one after the other is playing their
/// concatenation, and the concatenation is legal when both parts are.
pub proof fn lemma_play_split(b: BoardView, x: Seq<u8>, y: Seq<u8>)
    ensures
        play(b, x + y) == play(play(b, x), y),
        legal(b, x + y) == (legal(b, x) && legal(play(b, x), y)),
    decreases y.len(),
{
    if y.len() == 0 {
        assert(x + y =~= x);
    } else {
        assert((x + y).drop_last() =~= x + y.drop_last());
        assert((x + y).last() == y.last());
        lemma_play_split(b, x, y.drop_last());
    }
}

/// Playing a sequence with one more move at its end.
pub proof fn lemma_play_push(b: BoardView, s: Seq<u8>, t: u8)
    ensures
        play(b, s.push(t)) == play(b, s).after(t as int),
        legal(b, s.push(t)) == (legal(b, s) && is_move(play(b, s), t as int)),
{
    assert(s.push(t).drop_last() =~= s);
}

/// Playing a sequence move by move from its first move on.
pub proof fn lemma_play_first(b: BoardView, s: Seq<u8>)
    requires
        s.len() > 0,
    ensures
        play(b, s) == play(b.after(s[0] as int), s.subrange(1, s.len() as int)),
        legal(b, s) == (is_move(b, s[0] as int) && legal(b.after(s[0] as int), s.subrange(1, s.len() as int))),
{
    let x = seq![s[0]];
    let y = s.subrange(1, s.len() as int);
    assert(x + y =~= s);
    lemma_play_split(b, x, y);
    assert(x.drop_last() =~= Seq::<u8>::empty());
    assert(play(b, x) == play(b, x.drop_last()).after(x.last() as int));
    assert(legal(b, x.drop_last()));
}

/// Legal moves keep a board well formed.
pub proof fn lemma_play_wf(b: BoardView, s: Seq<u8>)
    requires
        b.wf(),
        legal(b, s),
    ensures
        play(b, s).wf(),
    decreases s.len(),
{
    if s.len() > 0 {
        lemma_play_wf(b, s.drop_last());
    }
}

/// Along any sequence of legal moves the number of pieces never rises: the
/// board after `n + 1` moves holds at most as many pieces as the board after
/// `n` moves, of every kind and in all.
pub proof fn lemma_play_adds_nothing(b: BoardView, s: Seq<u8>, n: int)
    requires
        b.wf(),
        legal(b, s),
        0 <= n < s.len(),
    ensures
        piece_count(play(b, s.take(n + 1)).cells) <= piece_count(play(b, s.take(n)).cells),
        forall|k: u8| k < N_KIND ==> count_kind(play(b, s.take(n + 1)).cells, k) <= count_kind(play(b, s.take(n)).cells, k),
{
    let x = s.take(n + 1);
    let y = s.skip(n + 1);
    assert(x + y =~= s);
    lemma_play_split(b, x, y);
    assert(x.drop_last() =~= s.take(n));
    lemma_play_wf(b, s.take(n));
    lemma_move_adds_nothing(play(b, s.take(n)).cells, x.last() as int);
}

/// A stuck board is never solved: whatever legal moves follow, the board
/// stays stuck, and a stuck board holds a piece.
pub proof fn lemma_stuck_never_solved(b: BoardView, s: Seq<u8>)
    requires
        b.wf(),
        stuck(b.cells),
        legal(b, s),
    ensures
        stuck(play(b, s).cells),
        !solved(play(b, s).cells),
    decreases s.len(),
{
    if s.len() > 0 {
        lemma_stuck_never_solved(b, s.drop_last());
        lemma_play_wf(b, s.drop_last());
        lemma_stuck_stays(play(b, s.drop_last()).cells, s.last() as int);
    }
    let k = choose|k: u8| k < N_KIND && count_kind(play(b, s).cells, k) == 1;
    assert(count_kind(play(b, s).cells, k) != 0);
}

/// No board on the way to a solved board is stuck.
pub proof fn lemma_solution_never_stuck(b: BoardView, s: Seq<u8>, n: int)
    requires
        b.wf(),
        is_solution(b, s),
        0 <= n <= s.len(),
    ensures
        !stuck(play(b, s.take(n)).cells),
{
    let x = s.take(n);
    let y = s.skip(n);
    assert(x + y =~= s);
    lemma_play_split(b, x, y);
    if stuck(play(b, x).cells) {
        lemma_play_wf(b, x);
        lemma_stuck_never_solved(play(b, x), y);
    }
}

} // verus!
