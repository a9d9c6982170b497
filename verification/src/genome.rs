//! Genomes and what they stand for: a genome is a list of genes, each of
//! which selects one of the legal moves of the board that the genes before
//! it have made.

use crate::board::{count_kind, solved, stuck, Board, BoardView};
use crate::cells::N_KIND;
use crate::game::{legal, lemma_move_adds_nothing, lemma_play_push, lemma_play_wf, play};
use crate::util::{lemma_steps_between, travel};
use crate::walk::{is_move, lemma_move_order, move_order};
use vstd::prelude::*;

verus! {

/// How a play stands.
#[derive(Debug, PartialEq, Eq, Clone, Copy, Structural)]
pub enum BoardState {
    /// No piece is left.
    Solved,
    /// Some kind has a single piece left.
    Stuck,
    /// The actor can reach no rotator.
    NoMove,
    /// The play goes on.
    Playing,
}

/// How the play stands on board `b`.
pub open spec fn classify(b: BoardView) -> BoardState {
    if solved(b.cells) {
        BoardState::Solved
    } else if stuck(b.cells) {
        BoardState::Stuck
    } else if move_order(b).len() == 0 {
        BoardState::NoMove
    } else {
        BoardState::Playing
    }
}

/// The move that gene `g` selects on board `b`: the legal moves are counted
/// round in the order in which the search finds them.
pub open spec fn selected(b: BoardView, g: u8) -> u8 {
    move_order(b)[g as int % move_order(b).len() as int] as u8
}

/// The moves that the genes make of board `b`. Each gene selects a move
/// as long as the play goes on; the genes behind the end of the play select
/// nothing.
pub open spec fn decode(b: BoardView, genes: Seq<u8>) -> Seq<u8>
    decreases genes.len(),
{
    if genes.len() == 0 {
        Seq::empty()
    } else {
        let made = decode(b, genes.drop_last());
        let cur = play(b, made);
        if made.len() < genes.len() - 1 || classify(cur) != BoardState::Playing {
            made
        } else {
            made.push(selected(cur, genes.last()))
        }
    }
}

/// The number of pieces of the kinds below `n`.
pub open spec fn kinds_total(cells: Seq<u8>, n: int) -> int
    decreases n,
{
    if n <= 0 {
        0
    } else {
        kinds_total(cells, n - 1) + count_kind(cells, (n - 1) as u8)
    }
}

/// The number of pieces on the board.
pub open spec fn pieces_left(cells: Seq<u8>) -> int {
    kinds_total(cells, N_KIND as int)
}

/// The fitness of a play that stands at `state` after `rotate` moves and
/// `step` steps, with `k` pieces left of `k_ini`.
pub open spec fn fitness(state: BoardState, rotate: int, step: int, k: int, k_ini: int) -> int {
    match state {
        BoardState::Solved => 100000 - 100 * rotate - step,
        BoardState::Stuck => 1000 + 150 * rotate - (800 * (k * k)) / (k_ini * k_ini),
        BoardState::NoMove => 1000 + 150 * rotate - (800 * (k * k)) / (k_ini * k_ini),
        BoardState::Playing => 10000 + 150 * rotate - (8000 * (k * k)) / (k_ini * k_ini),
    }
}

/// The score that stands for a fitness: the fitness itself, but no less
/// than 0 and no more than fits in 32 bits.
pub open spec fn score_of(f: int) -> int {
    if f < 0 {
        0
    } else if f > u32::MAX {
        u32::MAX as int
    } else {
        f
    }
}

/// The moves that genes make are legal; there are no more moves than genes;
/// and the play went on before each move.
pub proof fn lemma_decode(b: BoardView, genes: Seq<u8>)
    requires
        b.wf(),
    ensures
        legal(b, decode(b, genes)),
        decode(b, genes).len() <= genes.len(),
        play(b, decode(b, genes)).wf(),
        decode(b, genes).len() < genes.len() ==> classify(play(b, decode(b, genes))) != BoardState::Playing,
    decreases genes.len(),
{
    if genes.len() > 0 {
        lemma_decode(b, genes.drop_last());
        let made = decode(b, genes.drop_last());
        let cur = play(b, made);
        if !(made.len() < genes.len() - 1 || classify(cur) != BoardState::Playing) {
            lemma_selected(cur, genes.last());
            lemma_play_push(b, made, selected(cur, genes.last()));
        }
        lemma_play_wf(b, decode(b, genes));
    }
}

/// While the play goes on, a gene selects a legal move.
pub proof fn lemma_selected(b: BoardView, g: u8)
    requires
        b.wf(),
        move_order(b).len() > 0,
    ensures
        is_move(b, selected(b, g) as int),
        selected(b, g) as int == move_order(b)[g as int % move_order(b).len() as int],
{
    lemma_move_order(b);
    let ms = move_order(b);
    let i = g as int % ms.len() as int;
    assert(ms.contains(ms[i]));
}

/// Once the play has come to an end, more genes make no more moves.
pub proof fn lemma_decode_ended(b: BoardView, genes: Seq<u8>, n: int)
    requires
        b.wf(),
        0 <= n <= genes.len(),
        decode(b, genes.take(n)).len() < n || classify(play(b, decode(b, genes.take(n)))) != BoardState::Playing,
    ensures
        decode(b, genes) == decode(b, genes.take(n)),
    decreases genes.len() - n,
{
    if n < genes.len() {
        let more = genes.take(n + 1);
        assert(more.drop_last() =~= genes.take(n));
        lemma_decode(b, genes.take(n));
        lemma_decode_ended(b, genes, n + 1);
    } else {
        assert(genes.take(n) =~= genes);
    }
}

/// A play never has more pieces of a kind than the board it began with.
pub proof fn lemma_play_loses(b: BoardView, s: Seq<u8>, k: u8)
    requires
        b.wf(),
        legal(b, s),
        k < N_KIND,
    ensures
        count_kind(play(b, s).cells, k) <= count_kind(b.cells, k),
    decreases s.len(),
{
    if s.len() > 0 {
        lemma_play_loses(b, s.drop_last(), k);
        lemma_play_wf(b, s.drop_last());
        lemma_move_adds_nothing(play(b, s.drop_last()).cells, s.last() as int);
    }
}

/// A play never has more pieces than the board it began with, and a board
/// that is not solved has a piece.
pub proof fn lemma_pieces_left(b: BoardView, s: Seq<u8>, n: int)
    requires
        b.wf(),
        legal(b, s),
        0 <= n <= N_KIND,
    ensures
        0 <= kinds_total(play(b, s).cells, n) <= kinds_total(b.cells, n),
        (exists|k: u8| k < n && count_kind(play(b, s).cells, k) > 0) ==> kinds_total(play(b, s).cells, n) > 0,
    decreases n,
{
    if n > 0 {
        lemma_pieces_left(b, s, n - 1);
        lemma_play_loses(b, s, (n - 1) as u8);
    }
}

/// How the play stands on a board.
pub fn state_of(board: &Board) -> (r: BoardState)
    requires
        board@.wf(),
    ensures
        r == classify(board@),
{
    if board.is_solved() {
        BoardState::Solved
    } else if board.is_stuck() {
        BoardState::Stuck
    } else {
        let moves = board.moves();
        assert(crate::grid::cell_indices(moves@).len() == moves@.len());
        if moves.len() == 0 {
            BoardState::NoMove
        } else {
            BoardState::Playing
        }
    }
}

/// The number of pieces on a board.
pub fn count_pieces(board: &Board) -> (r: u32)
    ensures
        r == pieces_left(board@.cells),
        r <= 9 * 255,
{
    let cnt = board.counts();
    let mut sum: u32 = 0;
    let mut k: u8 = 0;
    while k < N_KIND
        invariant
            k <= N_KIND,
            forall|j: u8| j < N_KIND ==> cnt@[j as int] == count_kind(board@.cells, j),
            sum == kinds_total(board@.cells, k as int),
            sum <= 255 * k,
        decreases N_KIND - k,
    {
        sum = sum + cnt[k as usize] as u32;
        k = k + 1;
    }
    sum
}

/// A genome together with what a play by it comes to.
#[derive(Debug)]
pub struct Candidate {
    pub v: Vec<u8>,
    pub state: BoardState,
    pub rotate: u32,
    pub step: u32,
    pub score: u32,
}

impl Candidate {
    /// The candidate holds what the play by its genome on board `b` comes
    /// to, where `b` has `k_ini` pieces.
    pub open spec fn plays(&self, b: BoardView, k_ini: int) -> bool {
        let made = decode(b, self.v@);
        &&& self.rotate == made.len()
        &&& self.state == classify(play(b, made))
        &&& self.step == travel(b, made)
        &&& self.score == score_of(
            fitness(self.state, self.rotate as int, self.step as int, pieces_left(play(b, made).cells), k_ini),
        )
    }

    /// The score of a play that stands at `state` on `board` after
    /// `rotate` moves and `step` steps, where `k_ini` pieces stood on the
    /// board at the beginning.
    pub fn evaluate(board: &Board, state: BoardState, rotate: u32, step: u32, k_ini: u32) -> (r: u32)
        requires
            state != BoardState::Solved ==> k_ini > 0,
        ensures
            r == score_of(fitness(state, rotate as int, step as int, pieces_left(board@.cells), k_ini as int)),
    {
        if state == BoardState::Solved {
            let cost: u64 = 100 * (rotate as u64) + step as u64;
            return if cost >= 100000 {
                0
            } else {
                (100000 - cost) as u32
            };
        }
        let k: u64 = count_pieces(board) as u64;
        let ki: u64 = k_ini as u64;
        assert(k * k <= 2295 * 2295) by (nonlinear_arith)
            requires
                k <= 2295,
        ;
        assert(0 < ki * ki <= 0xffff_ffff * 0xffff_ffff) by (nonlinear_arith)
            requires
                0 < ki <= 0xffff_ffff,
        ;
        let kk: u64 = k * k;
        let d: u64 = ki * ki;
        let (base, pen): (u64, u64) = match state {
            BoardState::Playing => (10000 + 150 * (rotate as u64), (8000 * kk) / d),
            _ => (1000 + 150 * (rotate as u64), (800 * kk) / d),
        };
        if pen >= base {
            0
        } else if base - pen > 0xffff_ffff {
            0xffff_ffff
        } else {
            (base - pen) as u32
        }
    }

    /// Plays the genome `v` on `board`, which holds `k_ini` pieces, and
    /// scores the play.
    pub fn new(board: &Board, v: Vec<u8>, k_ini: u32) -> (c: Self)
        requires
            board@.wf(),
            v@.len() <= 0x3ff_ffff,
            k_ini == pieces_left(board@.cells),
        ensures
            c.v@ == v@,
            c.plays(board@, k_ini as int),
    {
        let ghost b = board@;
        let ghost genes = v@;
        let mut cur = board.clone();
        let mut state = state_of(&cur);
        let mut rotate: u32 = 0;
        let mut step: u32 = 0;
        let mut i: usize = 0;
        let ghost mut made: Seq<u8> = Seq::empty();
        proof {
            assert(genes.take(0) =~= Seq::<u8>::empty());
        }
        while i < v.len() && state == BoardState::Playing
            invariant
                i <= genes.len(),
                genes == v@,
                genes.len() <= 0x3ff_ffff,
                b == board@,
                b.wf(),
                made == decode(b, genes.take(i as int)),
                made.len() == i,
                rotate == i,
                legal(b, made),
                cur@ == play(b, made),
                cur@.wf(),
                state == classify(cur@),
                step == travel(b, made),
                step <= 64 * i,
            decreases genes.len() - i,
        {
            let moves = cur.moves();
            let ghost ms = move_order(cur@);
            proof {
                assert(crate::grid::cell_indices(moves@).len() == moves@.len());
                lemma_selected(cur@, v@[i as int]);
            }
            let idx = v[i] as usize % moves.len();
            let dst = moves[idx];
            proof {
                assert(crate::grid::cell_indices(moves@)[idx as int] == dst as int);
                assert(dst == selected(cur@, genes[i as int]));
                assert(genes.take(i + 1).drop_last() =~= genes.take(i as int));
                assert(genes.take(i + 1).last() == genes[i as int]);
                lemma_play_push(b, made, dst);
                assert(made.push(dst).drop_last() =~= made);
            }
            rotate = rotate + 1;
            match cur.calc_step(cur.pos, dst) {
                Some(d) => {
                    proof {
                        lemma_steps_between(cur@.cells, cur@.pos, dst as int, d as int);
                    }
                    step = step + d;
                },
                None => {},
            }
            cur.move_(dst);
            proof {
                made = made.push(dst);
                lemma_play_wf(b, made);
            }
            state = state_of(&cur);
            i = i + 1;
        }
        proof {
            if i < genes.len() {
                lemma_decode_ended(b, genes, i as int);
            } else {
                assert(genes.take(i as int) =~= genes);
            }
            if state != BoardState::Solved {
                lemma_pieces_left(b, made, N_KIND as int);
                let k = choose|k: u8| k < N_KIND && count_kind(cur@.cells, k) != 0;
                assert(k < N_KIND as int && count_kind(play(b, made).cells, k) > 0);
            }
        }
        let score = Candidate::evaluate(&cur, state, rotate, step, k_ini);
        Self { v, state, rotate, step, score }
    }

    /// The first `len` genes.
    pub fn extract(&self, len: u32) -> (r: Vec<u8>)
        requires
            len <= self.v@.len(),
        ensures
            r@ == self.v@.take(len as int),
    {
        let mut r: Vec<u8> = Vec::new();
        let mut i: usize = 0;
        while i < len as usize
            invariant
                i <= len <= self.v@.len(),
                r@ == self.v@.take(i as int),
            decreases len - i,
        {
            r.push(self.v[i]);
            assert(r@ =~= self.v@.take(i + 1));
            i = i + 1;
        }
        r
    }

    /// The moves that the genome makes of `board`: the candidate's play.
    pub fn to_solution(&self, board: &Board) -> (r: Vec<u8>)
        requires
            board@.wf(),
            self.rotate == decode(board@, self.v@).len(),
        ensures
            r@ == decode(board@, self.v@),
    {
        let ghost b = board@;
        let ghost genes = self.v@;
        let mut res: Vec<u8> = Vec::new();
        let mut cur = board.clone();
        let mut i: u32 = 0;
        proof {
            assert(genes.take(0) =~= Seq::<u8>::empty());
            lemma_decode(b, genes);
        }
        while i < self.rotate
            invariant
                i <= self.rotate,
                self.rotate == decode(b, genes).len(),
                self.rotate <= genes.len(),
                genes == self.v@,
                b == board@,
                b.wf(),
                res@ == decode(b, genes.take(i as int)),
                res@.len() == i,
                cur@ == play(b, res@),
                cur@.wf(),
            decreases self.rotate - i,
        {
            let e = self.v[i as usize];
            proof {
                if classify(cur@) != BoardState::Playing {
                    lemma_decode_ended(b, genes, i as int);
                }
            }
            let moves = cur.moves();
            proof {
                assert(crate::grid::cell_indices(moves@).len() == moves@.len());
                lemma_selected(cur@, e);
            }
            let idx = e as usize % moves.len();
            let pos = moves[idx];
            proof {
                assert(crate::grid::cell_indices(moves@)[idx as int] == pos as int);
                assert(genes.take(i + 1).drop_last() =~= genes.take(i as int));
                assert(genes.take(i + 1).last() == e);
                lemma_play_push(b, res@, pos);
                lemma_decode(b, genes.take(i as int));
                lemma_play_wf(b, res@.push(pos));
            }
            res.push(pos);
            cur.move_(pos);
            i = i + 1;
        }
        proof {
            if i < genes.len() {
                if classify(cur@) == BoardState::Playing {
                    lemma_decode_grows(b, genes, i + 1);
                    assert(genes.take(i + 1).drop_last() =~= genes.take(i as int));
                }
                lemma_decode_ended(b, genes, i as int);
            } else {
                assert(genes.take(i as int) =~= genes);
            }
        }
        res
    }
}

/// More genes make no fewer moves.
pub proof fn lemma_decode_grows(b: BoardView, genes: Seq<u8>, n: int)
    requires
        0 <= n <= genes.len(),
    ensures
        decode(b, genes.take(n)).len() <= decode(b, genes).len(),
    decreases genes.len() - n,
{
    if n < genes.len() {
        assert(genes.take(n + 1).drop_last() =~= genes.take(n));
        lemma_decode_grows(b, genes, n + 1);
    } else {
        assert(genes.take(n) =~= genes);
    }
}

} // verus!
