//! Cell codes and the fixed-size cell store of a board.

use generic_array::typenum::U64;
use generic_array::GenericArray;
use vstd::prelude::*;

verus! {

/// Number of piece kinds; a cell code below this value is a piece of that kind.
pub const N_KIND: u8 = 9;

/// The code of a cell that holds nothing.
pub const EMPTY: u8 = 0x7F;

/// The code of the rotator that shifts its column upwards.
pub const UP: u8 = 0x80;

/// The code of the rotator that shifts its column downwards.
pub const DOWN: u8 = 0x81;

/// The code of the rotator that shifts its row to the left.
pub const LEFT: u8 = 0x82;

/// The code of the rotator that shifts its row to the right.
pub const RIGHT: u8 = 0x83;

/// The code of a wall.
pub const WALL: u8 = 0xFF;

/// The code is a piece of some kind.
pub open spec fn is_piece(c: u8) -> bool {
    c < N_KIND
}

/// The code is one of the four rotator markers.
pub open spec fn is_rotator(c: u8) -> bool {
    c == UP || c == DOWN || c == LEFT || c == RIGHT
}

/// The cell store of a board: 64 cell codes in row-major order, kept in a
/// `GenericArray<u8, U64>`.
#[verifier::external_body]
#[derive(Debug, PartialEq, Eq)]
pub struct BoardArray {
    inner: GenericArray<u8, U64>,
}

/// The cell codes that a store holds, in index order.
pub uninterp spec fn array_cells(a: BoardArray) -> Seq<u8>;

/// Builds a store from a slice of exactly 64 codes
/// (`GenericArray::clone_from_slice`): the store holds the slice's codes in
/// the same order.
#[verifier::external_body]
pub(crate) fn array_from_slice(v: &[u8]) -> (a: BoardArray)
    requires
        v@.len() == 64,
    ensures
        array_cells(a) == v@,
{
    BoardArray { inner: GenericArray::clone_from_slice(v) }
}

/// The number of cells in a store (`len` of the store's slice view): a
/// store of this type always holds 64 codes.
#[verifier::external_body]
pub(crate) fn array_len(a: &BoardArray) -> (n: usize)
    ensures
        n == 64,
        n == array_cells(*a).len(),
{
    a.inner.len()
}

/// Reads one cell (`Index` through the store's slice view): the result is
/// the code at `i`.
#[verifier::external_body]
pub(crate) fn array_get(a: &BoardArray, i: usize) -> (c: u8)
    requires
        i < 64,
    ensures
        c == array_cells(*a)[i as int],
{
    a.inner[i]
}

/// Overwrites one cell (`IndexMut` through the store's slice view): only the
/// code at `i` changes.
#[verifier::external_body]
pub(crate) fn array_set(a: &mut BoardArray, i: usize, c: u8)
    requires
        i < 64,
    ensures
        array_cells(*final(a)) == array_cells(*old(a)).update(i as int, c),
{
    a.inner[i] = c;
}

/// Copies a store (`Clone::clone`): the copy holds the same codes.
#[verifier::external_body]
pub(crate) fn array_clone(a: &BoardArray) -> (b: BoardArray)
    ensures
        array_cells(b) == array_cells(*a),
{
    BoardArray { inner: a.inner.clone() }
}

} // verus!
