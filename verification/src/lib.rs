//! A solver for a rotating-grid elimination puzzle.
//!
//! An 8x8 board holds coloured pieces, walls and four kinds of rotator cells.
//! Selecting a rotator shifts its row or column cyclically by one cell; pieces
//! of the same kind that become neighbours across the shifted line are erased.
//! The goal is to erase every piece with as few rotations as possible.

pub mod cells;
pub mod grid;
pub mod board;
pub mod rules;
pub mod rotate;
pub mod walk;
pub mod util;
pub mod text;
pub mod notation;
pub mod distance;
pub mod reach;
pub mod bound;
pub mod game;
pub mod admissible;
pub mod search;
pub mod bfs;
pub mod ida;
pub mod chance;
pub mod genome;
pub mod genetic;
pub mod roomorder;

use crate::board::Board;
use crate::game::is_solution;
use crate::search::seqs_of;
use vstd::prelude::*;

verus! {

/// The failure of a solver that has run out of its node budget. It carries
/// the solutions that had been found by then.
#[derive(Debug)]
pub struct SolverError {
    sols: Vec<Vec<u8>>,
}

impl View for SolverError {
    type V = Seq<Seq<u8>>;

    /// The solutions that the error carries.
    closed spec fn view(&self) -> Seq<Seq<u8>> {
        seqs_of(self.sols@)
    }
}

impl SolverError {
    /// An error that carries `sols`.
    pub fn new(sols: Vec<Vec<u8>>) -> (e: Self)
        ensures
            e@ == seqs_of(sols@),
    {
        Self { sols }
    }

    /// The solutions that had been found when the solver gave up.
    pub fn solutions(&self) -> (r: &[Vec<u8>])
        ensures
            seqs_of(r@) == self@,
    {
        self.sols.as_slice()
    }
}

/// A search strategy. Given a board, a solver returns the solutions it has
/// found, or fails when its node budget is used up.
pub trait Solver {
    /// The solver has been set up so that it can search.
    spec fn ready(&self) -> bool;

    /// Every sequence that `solve` hands back, in its result or in its
    /// error, is a sequence of legal moves that leaves no piece on the
    /// board.
    fn solve(&mut self, board: &Board) -> (r: Result<Vec<Vec<u8>>, SolverError>)
        requires
            old(self).ready(),
            board@.wf(),
        ensures
            final(self).ready(),
            match r {
                Ok(sols) => forall|i: int| 0 <= i < sols@.len() ==> is_solution(board@, #[trigger] sols@[i]@),
                Err(e) => forall|i: int| 0 <= i < e@.len() ==> is_solution(board@, #[trigger] e@[i]),
            },
    ;
}

} // verus!
