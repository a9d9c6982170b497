//! A genetic search: a population of genomes is played and scored; the best
//! are kept, and the others give way to copies, crossings and mutations of
//! genomes drawn by their scores.

use crate::util::copy_moves;
use crate::board::{Board, BoardView};
use crate::chance::{new_rng, random_below, random_gene, random_weighted, total_weight};
use crate::game::is_solution;
use crate::genome::{count_pieces, decode, lemma_decode, pieces_left, BoardState, Candidate};
use crate::search::seqs_of;
use crate::{Solver, SolverError};
use rand::rngs::ThreadRng;
use vstd::prelude::*;

verus! {

/// Number of genomes in a population.
pub const N_CAND: usize = 1000;

/// Number of genomes that pass into the next population as they are.
pub const N_ELITE: usize = 10;

/// The greatest length of a genome.
pub const MAX_GENES: u32 = 0x3ff_ffff;

/// How a genome of the next population is made.
#[derive(Debug, PartialEq, Eq, Clone, Copy, Structural)]
pub enum Operation {
    Copy,
    Crossover,
    Mutate,
}

/// The crossing of two genomes of one length: `v1` with the genes from
/// `start` up to `end` taken from `v2`.
pub open spec fn crossed(v1: Seq<u8>, v2: Seq<u8>, start: int, end: int) -> Seq<u8> {
    v1.take(start) + v2.subrange(start, end) + v1.skip(end)
}

/// The genome `g` is one of `vs`.
pub open spec fn holds_genome(vs: Seq<Vec<u8>>, g: Seq<u8>) -> bool {
    exists|j: int| 0 <= j < vs.len() && (#[trigger] vs[j])@ == g
}

/// A candidate of `cands` has the genome `g`.
pub open spec fn plays_genome(cands: Seq<Candidate>, g: Seq<u8>) -> bool {
    exists|i: int| 0 <= i < cands.len() && (#[trigger] cands[i]).v@ == g
}

/// The operation that a drawn number stands for: 0 for a copy, 1 for a
/// crossing, any other number for a mutation.
pub open spec fn operation(op: usize) -> Operation {
    if op == 0 {
        Operation::Copy
    } else if op == 1 {
        Operation::Crossover
    } else {
        Operation::Mutate
    }
}

/// The numbers that are drawn to make one genome of the next population:
/// the operation, the first parent and, as far as the operation needs them,
/// the second parent and the two places between which a crossing takes its
/// genes from it, or the place and the gene of a mutation.
#[derive(Debug, Clone, Copy, PartialEq, Eq, Structural)]
pub struct Drawn {
    pub op: usize,
    pub first: usize,
    pub second: usize,
    pub start: usize,
    pub end: usize,
    pub place: usize,
    pub gene: u8,
}

impl Drawn {
    /// The numbers fit a population of `n` candidates whose genomes are cut
    /// to `len` genes: the parents are candidates, a crossing takes at least
    /// one gene from the second parent, and a mutation replaces a gene of the
    /// genome. Genomes without genes are neither crossed nor mutated.
    pub open spec fn fits(self, n: int, len: int) -> bool {
        &&& self.first < n
        &&& operation(self.op) == Operation::Crossover ==> self.second < n && (len > 0 ==> self.start < self.end <= len)
        &&& operation(self.op) == Operation::Mutate ==> (len > 0 ==> self.place < len)
    }
}

/// The genome that the drawn numbers make of the population `pop`, whose
/// genomes are cut to `len` genes: the first parent's genome as it is, or
/// with the genes from `start` up to `end` taken from the second parent, or
/// with the gene at `place` replaced by `gene`.
pub open spec fn child_of(pop: Seq<Candidate>, len: int, d: Drawn) -> Seq<u8> {
    let v1 = pop[d.first as int].v@.take(len);
    match operation(d.op) {
        Operation::Copy => v1,
        Operation::Crossover => if len > 0 {
            crossed(v1, pop[d.second as int].v@.take(len), d.start as int, d.end as int)
        } else {
            v1
        },
        Operation::Mutate => if len > 0 {
            v1.update(d.place as int, d.gene)
        } else {
            v1
        },
    }
}

/// The genome `g` is made of the population `pop` by some numbers that fit
/// it.
pub open spec fn bred(pop: Seq<Candidate>, len: int, g: Seq<u8>) -> bool {
    exists|d: Drawn| d.fits(pop.len() as int, len) && g == #[trigger] child_of(pop, len, d)
}

/// `a` comes before `b` in the order of the dictionary.
pub open spec fn lex_less(a: Seq<u8>, b: Seq<u8>) -> bool
    decreases a.len(),
{
    if b.len() == 0 {
        false
    } else if a.len() == 0 {
        true
    } else if a[0] != b[0] {
        a[0] < b[0]
    } else {
        lex_less(a.skip(1), b.skip(1))
    }
}

/// The sequences rise in the order of the dictionary, so none stands twice.
pub open spec fn rising(v: Seq<Seq<u8>>) -> bool {
    forall|i: int, j: int| 0 <= i < j < v.len() ==> lex_less(#[trigger] v[i], #[trigger] v[j])
}

/// Of two different sequences one comes before the other, and none comes
/// before itself.
pub proof fn lemma_lex_total(a: Seq<u8>, b: Seq<u8>)
    ensures
        !lex_less(a, a),
        a != b ==> lex_less(a, b) || lex_less(b, a),
        !(lex_less(a, b) && lex_less(b, a)),
    decreases a.len(),
{
    if a.len() > 0 {
        lemma_lex_total(a.skip(1), a.skip(1));
        if b.len() > 0 {
            lemma_lex_total(a.skip(1), b.skip(1));
            if a[0] == b[0] && a.skip(1) == b.skip(1) {
                assert(a =~= seq![a[0]] + a.skip(1));
                assert(b =~= seq![b[0]] + b.skip(1));
            }
        }
    } else {
        if b.len() == 0 {
            assert(a =~= b);
        }
    }
}

/// What comes before a sequence comes before everything behind it.
pub proof fn lemma_lex_trans(a: Seq<u8>, b: Seq<u8>, c: Seq<u8>)
    requires
        lex_less(a, b),
        lex_less(b, c),
    ensures
        lex_less(a, c),
    decreases a.len(),
{
    if a.len() > 0 && b.len() > 0 && c.len() > 0 {
        if a[0] == b[0] && b[0] == c[0] {
            lemma_lex_trans(a.skip(1), b.skip(1), c.skip(1));
        }
    }
}

/// Whether `a` comes before `b` in the order of the dictionary.
pub fn comes_before(a: &Vec<u8>, b: &Vec<u8>) -> (r: bool)
    ensures
        r == lex_less(a@, b@),
{
    let mut i: usize = 0;
    proof {
        assert(a@.skip(0) =~= a@);
        assert(b@.skip(0) =~= b@);
    }
    while i < a.len() && i < b.len()
        invariant
            i <= a@.len(),
            i <= b@.len(),
            lex_less(a@, b@) == lex_less(a@.skip(i as int), b@.skip(i as int)),
        decreases a@.len() - i,
    {
        proof {
            let x = a@.skip(i as int);
            let y = b@.skip(i as int);
            assert(x[0] == a@[i as int]);
            assert(y[0] == b@[i as int]);
            assert(x.skip(1) =~= a@.skip(i + 1));
            assert(y.skip(1) =~= b@.skip(i + 1));
        }
        if a[i] != b[i] {
            return a[i] < b[i];
        }
        i = i + 1;
    }
    i < b.len()
}

/// Puts `s` in its place in the rising list `v`, unless it stands there.
pub fn insert_rising(v: &mut Vec<Vec<u8>>, s: Vec<u8>)
    requires
        rising(seqs_of(old(v)@)),
    ensures
        rising(seqs_of(final(v)@)),
        forall|x: Seq<u8>| #[trigger] seqs_of(final(v)@).contains(x) <==> (seqs_of(old(v)@).contains(x) || x == s@),
{
    let ghost w = seqs_of(v@);
    let mut p: usize = 0;
    while p < v.len() && comes_before(&v[p], &s)
        invariant
            p <= v@.len(),
            w == seqs_of(v@),
            rising(w),
            forall|i: int| 0 <= i < p ==> lex_less(#[trigger] w[i], s@),
        decreases v@.len() - p,
    {
        assert(w[p as int] == v@[p as int]@);
        p = p + 1;
    }
    let same = p < v.len() && !comes_before(&s, &v[p]);
    proof {
        if p < v.len() {
            assert(w[p as int] == v@[p as int]@);
            lemma_lex_total(s@, w[p as int]);
        }
        crate::search::lemma_push_seq(w, s@);
    }
    if same {
        proof {
            assert(w.contains(w[p as int]));
        }
        return ;
    }
    proof {
        assert forall|i: int| p <= i < w.len() implies lex_less(s@, #[trigger] w[i]) by {
            if i > p {
                lemma_lex_trans(s@, w[p as int], w[i]);
            }
        }
    }
    v.insert(p, s);
    proof {
        let g = seqs_of(v@);
        assert(g =~= w.insert(p as int, s@));
        assert forall|i: int, j: int| 0 <= i < j < g.len() implies lex_less(#[trigger] g[i], #[trigger] g[j]) by {
            if i < p && j > p {
                lemma_lex_trans(w[i], s@, w[j - 1]);
            }
        }
        assert forall|x: Seq<u8>| #[trigger] g.contains(x) <==> (w.contains(x) || x == s@) by {
            if w.contains(x) {
                let i = choose|i: int| 0 <= i < w.len() && w[i] == x;
                if i < p {
                    assert(g[i] == x);
                } else {
                    assert(g[i + 1] == x);
                }
            }
            if x == s@ {
                assert(g[p as int] == x);
            }
            if g.contains(x) {
                let i = choose|i: int| 0 <= i < g.len() && g[i] == x;
                if i < p {
                    assert(w[i] == x);
                } else if i > p {
                    assert(w[i - 1] == x);
                }
            }
        }
    }
}

/// Crosses two genomes of one length: `v1` with the genes from `start` up
/// to `end` taken from `v2`.
pub fn cross(v1: &Vec<u8>, v2: &Vec<u8>, start: usize, end: usize) -> (r: Vec<u8>)
    requires
        v1@.len() == v2@.len(),
        start < end <= v1@.len(),
    ensures
        r@ == crossed(v1@, v2@, start as int, end as int),
        r@.len() == v1@.len(),
{
    let mut res: Vec<u8> = Vec::new();
    let ghost goal = crossed(v1@, v2@, start as int, end as int);
    let mut i: usize = 0;
    while i < v1.len()
        invariant
            i <= v1@.len(),
            v1@.len() == v2@.len(),
            start < end <= v1@.len(),
            goal == crossed(v1@, v2@, start as int, end as int),
            res@ == goal.take(i as int),
        decreases v1@.len() - i,
    {
        let g = if start <= i && i < end {
            v2[i]
        } else {
            v1[i]
        };
        res.push(g);
        assert(res@ =~= goal.take(i + 1));
        i = i + 1;
    }
    assert(goal.take(v1@.len() as int) =~= goal);
    res
}

/// The sum of the weights, as far as it fits in 64 bits.
pub fn sum_weights(w: &Vec<u32>) -> (r: u64)
    requires
        w@.len() <= 0xffff_ffff,
    ensures
        r == total_weight(w@),
{
    let mut sum: u64 = 0;
    let mut i: usize = 0;
    proof {
        assert(w@.take(0) =~= Seq::<u32>::empty());
    }
    while i < w.len()
        invariant
            i <= w@.len() <= 0xffff_ffff,
            sum == total_weight(w@.take(i as int)),
            sum <= 0xffff_ffff * i,
        decreases w@.len() - i,
    {
        assert(w@.take(i + 1).drop_last() =~= w@.take(i as int));
        sum = sum + w[i] as u64;
        i = i + 1;
    }
    assert(w@.take(w@.len() as int) =~= w@);
    sum
}

/// The weights with which the operations are drawn, in the order of
/// their numbers: 9 for a copy, 90 for a crossing, 1 for a mutation.
pub open spec fn operation_weights() -> Seq<u32> {
    seq![9u32, 90u32, 1u32]
}

/// The weights with which the operations are drawn.
pub fn weights_of_operations() -> (r: Vec<u32>)
    ensures
        r@ == operation_weights(),
        total_weight(r@) == 100,
{
    let mut ops: Vec<u32> = Vec::new();
    ops.push(9);
    ops.push(90);
    ops.push(1);
    proof {
        reveal_with_fuel(total_weight, 4);
        assert(ops@ =~= operation_weights());
        assert(ops@.drop_last() =~= seq![9u32, 90u32]);
        assert(ops@.drop_last().drop_last() =~= seq![9u32]);
        assert(ops@.drop_last().drop_last().drop_last() =~= Seq::<u32>::empty());
    }
    ops
}

/// The operation that a drawn number stands for.
pub fn operation_of(op: usize) -> (r: Operation)
    ensures
        r == operation(op),
{
    if op == 0 {
        Operation::Copy
    } else if op == 1 {
        Operation::Crossover
    } else {
        Operation::Mutate
    }
}

/// Makes a genome of the next population from the numbers that were drawn
/// for it.
pub fn make_child(cands: &Vec<Candidate>, len: u32, d: &Drawn) -> (r: Vec<u8>)
    requires
        d.fits(cands@.len() as int, len as int),
        forall|i: int| 0 <= i < cands@.len() ==> len <= (#[trigger] cands@[i]).v@.len(),
    ensures
        r@ == child_of(cands@, len as int, *d),
        r@.len() == len,
{
    let mut v = cands[d.first].extract(len);
    match operation_of(d.op) {
        Operation::Copy => v,
        Operation::Crossover => {
            if len > 0 {
                let w = cands[d.second].extract(len);
                cross(&v, &w, d.start, d.end)
            } else {
                v
            }
        },
        Operation::Mutate => {
            if len > 0 {
                v[d.place] = d.gene;
            }
            v
        },
    }
}

/// Every candidate of the list is of the sort `pred`.
pub open spec fn each(cands: Seq<Candidate>, pred: spec_fn(Candidate) -> bool) -> bool {
    forall|i: int| 0 <= i < cands.len() ==> pred(#[trigger] cands[i])
}

/// Some candidate of the list is of the sort `pred`.
pub open spec fn some(cands: Seq<Candidate>, pred: spec_fn(Candidate) -> bool) -> bool {
    exists|i: int| 0 <= i < cands.len() && pred(#[trigger] cands[i])
}

/// The scores of the candidates fall along the list.
pub open spec fn falling(cands: Seq<Candidate>) -> bool {
    forall|i: int, j: int| 0 <= i < j < cands.len() ==> (#[trigger] cands[i]).score >= (#[trigger] cands[j]).score
}

/// The candidates that hold the play of a genome of `len0` genes on board
/// `b` with `k` pieces.
pub open spec fn plays_with(b: BoardView, k: int, len0: int) -> spec_fn(Candidate) -> bool {
    |c: Candidate| c.plays(b, k) && c.v@.len() == len0
}

/// The candidates whose genome is one of `vs`.
pub open spec fn genome_in(vs: Seq<Vec<u8>>) -> spec_fn(Candidate) -> bool {
    |c: Candidate| holds_genome(vs, c.v@)
}

/// The candidates with the genome `g`.
pub open spec fn has_genome(g: Seq<u8>) -> spec_fn(Candidate) -> bool {
    |c: Candidate| c.v@ == g
}

/// The candidates that do not solve the board with fewer than `m` moves.
pub open spec fn not_shorter(m: int) -> spec_fn(Candidate) -> bool {
    |c: Candidate| c.state == BoardState::Solved ==> m <= c.rotate
}

/// The candidates that solve the board with `m` moves.
pub open spec fn solves_in(m: int) -> spec_fn(Candidate) -> bool {
    |c: Candidate| c.state == BoardState::Solved && m == c.rotate
}

/// The first `n` genomes of `vs`, each of `len0` genes, have been played
/// on board `b`, which holds `k` pieces: `cands` holds their plays in falling
/// order of their scores, and `max_len` is `len0` or, if that is less, the
/// least number of moves with which one of them solves the board.
pub open spec fn played_so_far(
    cands: Seq<Candidate>,
    b: BoardView,
    k: int,
    len0: int,
    vs: Seq<Vec<u8>>,
    n: int,
    max_len: int,
) -> bool {
    &&& cands.len() == n
    &&& max_len <= len0
    &&& each(cands, plays_with(b, k, len0))
    &&& falling(cands)
    &&& each(cands, genome_in(vs))
    &&& forall|j: int| 0 <= j < n ==> some(cands, has_genome((#[trigger] vs[j])@))
    &&& each(cands, not_shorter(max_len))
    &&& (max_len == len0 || some(cands, solves_in(max_len)))
}

/// A list of candidates of one sort stays so when one of that sort joins.
pub proof fn lemma_each_insert(cands: Seq<Candidate>, p: int, c: Candidate, pred: spec_fn(Candidate) -> bool)
    requires
        0 <= p <= cands.len(),
        each(cands, pred),
        pred(c),
    ensures
        each(cands.insert(p, c), pred),
{
    let after = cands.insert(p, c);
    assert forall|i: int| 0 <= i < after.len() implies pred(#[trigger] after[i]) by {
        if i < p {
            assert(after[i] == cands[i]);
        } else if i > p {
            assert(after[i] == cands[i - 1]);
        }
    }
}

/// A list that holds a candidate of a sort holds one when another
/// candidate joins, and holds one when a candidate of the sort joins.
pub proof fn lemma_some_insert(cands: Seq<Candidate>, p: int, c: Candidate, pred: spec_fn(Candidate) -> bool)
    requires
        0 <= p <= cands.len(),
        some(cands, pred) || pred(c),
    ensures
        some(cands.insert(p, c), pred),
{
    let after = cands.insert(p, c);
    if pred(c) {
        assert(pred(after[p]));
    } else {
        let i = choose|i: int| 0 <= i < cands.len() && pred(#[trigger] cands[i]);
        if i < p {
            assert(after[i] == cands[i]);
            assert(pred(after[i]));
        } else {
            assert(after[i + 1] == cands[i]);
            assert(pred(after[i + 1]));
        }
    }
}

/// The scores still fall along the list when a candidate joins behind
/// the candidates with no lower score and before the others.
pub proof fn lemma_falling_insert(cands: Seq<Candidate>, p: int, c: Candidate)
    requires
        0 <= p <= cands.len(),
        falling(cands),
        forall|i: int| p <= i < cands.len() ==> (#[trigger] cands[i]).score < c.score,
        p > 0 ==> cands[p - 1].score >= c.score,
    ensures
        falling(cands.insert(p, c)),
{
    let after = cands.insert(p, c);
    assert forall|i: int, j: int| 0 <= i < j < after.len() implies (#[trigger] after[i]).score >= (#[trigger] after[j]).score by {
        if i < p {
            assert(after[i] == cands[i]);
            if i < p - 1 {
                assert(cands[i].score >= cands[p - 1].score);
            }
        } else if i > p {
            assert(after[i] == cands[i - 1]);
        }
        if j < p {
            assert(after[j] == cands[j]);
        } else if j > p {
            assert(after[j] == cands[j - 1]);
        }
    }
}

/// The play of the next genome joins the plays so far at its place.
pub proof fn lemma_played_one_more(
    cands: Seq<Candidate>,
    b: BoardView,
    k: int,
    len0: int,
    vs: Seq<Vec<u8>>,
    n: int,
    max_len: int,
    c: Candidate,
    p: int,
)
    requires
        played_so_far(cands, b, k, len0, vs, n, max_len),
        0 <= n < vs.len(),
        c.plays(b, k),
        c.v@ == vs[n]@,
        c.v@.len() == len0,
        0 <= p <= cands.len(),
        forall|i: int| p <= i < cands.len() ==> (#[trigger] cands[i]).score < c.score,
        p > 0 ==> cands[p - 1].score >= c.score,
    ensures
        played_so_far(
            cands.insert(p, c),
            b,
            k,
            len0,
            vs,
            n + 1,
            if c.state == BoardState::Solved && c.rotate < max_len {
                c.rotate as int
            } else {
                max_len
            },
        ),
{
    let after = cands.insert(p, c);
    let new_len = if c.state == BoardState::Solved && c.rotate < max_len {
        c.rotate as int
    } else {
        max_len
    };
    lemma_each_insert(cands, p, c, plays_with(b, k, len0));
    lemma_falling_insert(cands, p, c);
    assert(holds_genome(vs, c.v@)) by {
        assert(vs[n]@ == c.v@);
    }
    lemma_each_insert(cands, p, c, genome_in(vs));
    assert forall|j: int| 0 <= j < n + 1 implies some(after, has_genome((#[trigger] vs[j])@)) by {
        lemma_some_insert(cands, p, c, has_genome(vs[j]@));
    }
    assert(each(cands, not_shorter(new_len))) by {
        assert forall|i: int| 0 <= i < cands.len() implies not_shorter(new_len)(#[trigger] cands[i]) by {
            assert(not_shorter(max_len)(cands[i]));
        }
    }
    lemma_each_insert(cands, p, c, not_shorter(new_len));
    if new_len != len0 {
        lemma_some_insert(cands, p, c, solves_in(new_len));
    }
}

/// The genetic solver. Its genomes have at most `max_len` genes, and it
/// lets `n_gene` populations follow the first one.
pub struct GeneticSolver {
    board: Board,
    max_len: u32,
    n_gene: u32,
    cands: Vec<Candidate>,
    rng: ThreadRng,
    k_ini: u32,
}

impl GeneticSolver {
    /// The number of genes of the genomes that the solver makes next.
    pub closed spec fn genome_len(&self) -> int {
        self.max_len as int
    }

    /// The number of populations that follow the first one.
    pub closed spec fn generations(&self) -> int {
        self.n_gene as int
    }

    /// The board on which the solver has searched last.
    pub closed spec fn searched(&self) -> BoardView {
        self.board@
    }

    /// The number of pieces that the solver has counted on that board.
    pub closed spec fn pieces(&self) -> int {
        self.k_ini as int
    }

    /// The candidates that the solver holds, the best first.
    pub closed spec fn population(&self) -> Seq<Candidate> {
        self.cands@
    }

    /// The board is set: it is well formed, and the solver knows the number
    /// of its pieces.
    pub open spec fn board_set(&self) -> bool {
        &&& self.searched().wf()
        &&& self.pieces() == pieces_left(self.searched().cells)
        &&& self.genome_len() <= MAX_GENES
    }

    /// The solver holds a population: `N_CAND` candidates that hold the
    /// plays of their genomes on the solver's board, in falling order of
    /// their scores. None has fewer genes than the solver makes next, and
    /// none solves the board with fewer moves than that.
    pub open spec fn populated(&self) -> bool {
        &&& self.board_set()
        &&& self.population().len() == N_CAND
        &&& forall|i: int|
            0 <= i < self.population().len() ==> {
                let c = #[trigger] self.population()[i];
                c.plays(self.searched(), self.pieces()) && self.genome_len() <= c.v@.len() <= MAX_GENES
            }
        &&& falling(self.population())
        &&& each(self.population(), not_shorter(self.genome_len()))
    }

    /// Some candidate of the population has solved the board by the moves
    /// `s`.
    pub open spec fn has_solved(&self, s: Seq<u8>) -> bool {
        exists|i: int|
            0 <= i < self.population().len() && (#[trigger] self.population()[i]).state == BoardState::Solved && decode(
                self.searched(),
                self.population()[i].v@,
            ) == s
    }

    /// Nothing but the source of chance differs between `self` and `other`.
    pub closed spec fn same_but_chance(&self, other: &Self) -> bool {
        &&& self.board == other.board
        &&& self.max_len == other.max_len
        &&& self.n_gene == other.n_gene
        &&& self.cands == other.cands
        &&& self.k_ini == other.k_ini
    }

    /// A solver whose genomes have `max_len` genes at first and which lets
    /// `n_gene` populations follow the first one.
    pub fn new(max_len: u32, n_gene: u32) -> (s: Self)
        requires
            max_len <= MAX_GENES,
        ensures
            s.ready(),
            s.genome_len() == max_len,
            s.generations() == n_gene,
    {
        let cells = [0u8; 64];
        Self { board: Board::new(0, cells.as_slice()), max_len, n_gene, cands: Vec::new(), rng: new_rng(), k_ini: 0 }
    }

    /// The scores of the population.
    fn scores(&self) -> (w: Vec<u32>)
        ensures
            w@.len() == self.cands@.len(),
            forall|i: int| 0 <= i < w@.len() ==> w@[i] == (#[trigger] self.cands@[i]).score,
    {
        let mut w: Vec<u32> = Vec::new();
        let mut i: usize = 0;
        while i < self.cands.len()
            invariant
                i <= self.cands@.len(),
                w@.len() == i,
                forall|k: int| 0 <= k < i ==> w@[k] == (#[trigger] self.cands@[k]).score,
            decreases self.cands@.len() - i,
        {
            w.push(self.cands[i].score);
            i = i + 1;
        }
        w
    }

    /// Draws a candidate: by the weights, if they can be used, and else
    /// with the same chance for each.
    fn select(&mut self, weights: &Vec<u32>, usable: bool) -> (r: usize)
        requires
            weights@.len() > 0,
            usable ==> 0 < total_weight(weights@) <= u32::MAX,
        ensures
            r < weights@.len(),
            usable ==> weights@[r as int] > 0,
            final(self).same_but_chance(old(self)),
    {
        if usable {
            random_weighted(&mut self.rng, weights)
        } else {
            random_below(&mut self.rng, 0, weights.len())
        }
    }

    /// A copy: the genome of a drawn candidate. `op` is the drawn number
    /// that stands for the copy.
    fn spawn_copy(&mut self, op: usize, weights: &Vec<u32>, usable: bool) -> (r: Vec<u8>)
        requires
            old(self).populated(),
            operation(op) == Operation::Copy,
            weights@.len() == N_CAND,
            usable ==> 0 < total_weight(weights@) <= u32::MAX,
        ensures
            final(self).same_but_chance(old(self)),
            r@.len() == old(self).genome_len(),
            bred(old(self).population(), old(self).genome_len(), r@),
    {
        let first = self.select(weights, usable);
        let d = Drawn { op, first, second: 0, start: 0, end: 0, place: 0, gene: 0 };
        let r = make_child(&self.cands, self.max_len, &d);
        assert(d.fits(self.cands@.len() as int, self.max_len as int) && r@ == child_of(self.cands@, self.max_len as int, d));
        r
    }

    /// A crossing of the genomes of two drawn candidates. `op` is the drawn
    /// number that stands for the crossing.
    fn spawn_crossover(&mut self, op: usize, weights: &Vec<u32>, usable: bool) -> (r: Vec<u8>)
        requires
            old(self).populated(),
            operation(op) == Operation::Crossover,
            weights@.len() == N_CAND,
            usable ==> 0 < total_weight(weights@) <= u32::MAX,
        ensures
            final(self).same_but_chance(old(self)),
            r@.len() == old(self).genome_len(),
            bred(old(self).population(), old(self).genome_len(), r@),
    {
        let first = self.select(weights, usable);
        let second = self.select(weights, usable);
        let (start, end) = if self.max_len > 0 {
            self.crossover_twopoint(self.max_len as usize)
        } else {
            (0, 0)
        };
        let d = Drawn { op, first, second, start, end, place: 0, gene: 0 };
        let r = make_child(&self.cands, self.max_len, &d);
        assert(d.fits(self.cands@.len() as int, self.max_len as int) && r@ == child_of(self.cands@, self.max_len as int, d));
        r
    }

    /// Draws the two places between which a crossing of genomes of `len`
    /// genes takes its genes from the second genome. At least one gene lies
    /// between them.
    fn crossover_twopoint(&mut self, len: usize) -> (r: (usize, usize))
        requires
            0 < len < usize::MAX,
        ensures
            final(self).same_but_chance(old(self)),
            r.0 < r.1 <= len,
    {
        let start = random_below(&mut self.rng, 0, len);
        let end = random_below(&mut self.rng, start + 1, len + 1);
        (start, end)
    }

    /// A mutation: the genome of a drawn candidate with one gene, at a
    /// random place, replaced by a random gene. `op` is the drawn number that
    /// stands for the mutation.
    fn spawn_mutate(&mut self, op: usize, weights: &Vec<u32>, usable: bool) -> (r: Vec<u8>)
        requires
            old(self).populated(),
            operation(op) == Operation::Mutate,
            weights@.len() == N_CAND,
            usable ==> 0 < total_weight(weights@) <= u32::MAX,
        ensures
            final(self).same_but_chance(old(self)),
            r@.len() == old(self).genome_len(),
            bred(old(self).population(), old(self).genome_len(), r@),
    {
        let first = self.select(weights, usable);
        let (place, gene) = if self.max_len > 0 {
            let j = random_below(&mut self.rng, 0, self.max_len as usize);
            let g = random_gene(&mut self.rng);
            (j, g)
        } else {
            (0, 0)
        };
        let d = Drawn { op, first, second: 0, start: 0, end: 0, place, gene };
        let r = make_child(&self.cands, self.max_len, &d);
        assert(d.fits(self.cands@.len() as int, self.max_len as int) && r@ == child_of(self.cands@, self.max_len as int, d));
        r
    }

    /// Plays and scores the genomes `vs`: they become the population, in
    /// falling order of their scores. Where a genome solves the board with
    /// fewer moves than the genomes have genes, the genomes made from now on
    /// have no more genes than that.
    fn update_cands(&mut self, vs: Vec<Vec<u8>>)
        requires
            old(self).board_set(),
            vs@.len() == N_CAND,
            forall|i: int| 0 <= i < vs@.len() ==> (#[trigger] vs@[i])@.len() == old(self).genome_len(),
        ensures
            final(self).populated(),
            final(self).board == old(self).board,
            final(self).n_gene == old(self).n_gene,
            final(self).genome_len() <= old(self).genome_len(),
            forall|i: int| 0 <= i < N_CAND ==> (#[trigger] final(self).cands@[i]).v@.len() == old(self).genome_len(),
            forall|i: int| 0 <= i < N_CAND ==> holds_genome(vs@, (#[trigger] final(self).cands@[i]).v@),
            forall|j: int| 0 <= j < N_CAND ==> plays_genome(final(self).cands@, (#[trigger] vs@[j])@),
            forall|i: int|
                0 <= i < N_CAND && (#[trigger] final(self).cands@[i]).state == BoardState::Solved ==> final(self).genome_len()
                    <= final(self).cands@[i].rotate,
            final(self).genome_len() == old(self).genome_len() || exists|i: int|
                0 <= i < N_CAND && (#[trigger] final(self).cands@[i]).state == BoardState::Solved && final(self).genome_len()
                    == final(self).cands@[i].rotate,
    {
        self.cands = Vec::new();
        let ghost len0 = self.max_len as int;
        let ghost b = self.board@;
        let ghost k = self.k_ini as int;
        let mut n: usize = 0;
        while n < vs.len()
            invariant
                n <= vs@.len(),
                vs@.len() == N_CAND,
                len0 == old(self).max_len,
                len0 <= MAX_GENES,
                b == self.board@,
                k == self.k_ini,
                forall|i: int| 0 <= i < vs@.len() ==> (#[trigger] vs@[i])@.len() == len0,
                self.board_set(),
                self.board == old(self).board,
                self.n_gene == old(self).n_gene,
                self.k_ini == old(self).k_ini,
                played_so_far(self.cands@, b, k, len0, vs@, n as int, self.max_len as int),
            decreases vs@.len() - n,
        {
            let cand = Candidate::new(&self.board, copy_moves(&vs[n]), self.k_ini);
            let ghost len1 = self.max_len as int;
            if cand.state == BoardState::Solved && cand.rotate < self.max_len {
                self.max_len = cand.rotate;
            }
            let mut p: usize = self.cands.len();
            while p > 0 && self.cands[p - 1].score < cand.score
                invariant
                    p <= self.cands@.len(),
                    forall|i: int| p <= i < self.cands@.len() ==> (#[trigger] self.cands@[i]).score < cand.score,
                decreases p,
            {
                p = p - 1;
            }
            proof {
                lemma_played_one_more(self.cands@, b, k, len0, vs@, n as int, len1, cand, p as int);
            }
            self.cands.insert(p, cand);
            n = n + 1;
        }
    }

    /// Where the genomes have become shorter than `before`, a candidate has
    /// solved the board with as many moves as they now have genes.
    proof fn lemma_shorter_by_solution(&self, before: int)
        requires
            self.populated(),
            self.genome_len() == before || exists|i: int|
                0 <= i < N_CAND && (#[trigger] self.population()[i]).state == BoardState::Solved && self.genome_len()
                    == self.population()[i].rotate,
        ensures
            self.genome_len() == before || exists|s: Seq<u8>| #[trigger]
                is_solution(self.searched(), s) && s.len() == self.genome_len(),
    {
        if self.genome_len() != before {
            let i = choose|i: int|
                0 <= i < N_CAND && (#[trigger] self.population()[i]).state == BoardState::Solved && self.genome_len()
                    == self.population()[i].rotate;
            let c = self.population()[i];
            let s = decode(self.searched(), c.v@);
            lemma_decode(self.searched(), c.v@);
            assert(is_solution(self.searched(), s) && s.len() == self.genome_len());
        }
    }

    /// A genome of random genes.
    fn random_v(&mut self) -> (r: Vec<u8>)
        ensures
            final(self).same_but_chance(old(self)),
            r@.len() == old(self).genome_len(),
    {
        let mut r: Vec<u8> = Vec::new();
        let mut i: u32 = 0;
        while i < self.max_len
            invariant
                i <= self.max_len,
                r@.len() == i,
                self.same_but_chance(old(self)),
            decreases self.max_len - i,
        {
            let g = random_gene(&mut self.rng);
            r.push(g);
            i = i + 1;
        }
        r
    }

    /// Makes the next population: the `N_ELITE` best genomes pass into it
    /// as they are, cut to the number of genes that genomes now have; each
    /// of the others is a copy, with 9 chances in 100, a crossing, with 90,
    /// or a mutation, with 1, of genomes drawn by their scores.
    fn evolve(&mut self)
        requires
            old(self).populated(),
        ensures
            final(self).populated(),
            final(self).board == old(self).board,
            final(self).n_gene == old(self).n_gene,
            final(self).genome_len() <= old(self).genome_len(),
            final(self).genome_len() == old(self).genome_len() || exists|i: int|
                0 <= i < N_CAND && (#[trigger] final(self).population()[i]).state == BoardState::Solved && final(self).genome_len() == final(self).population()[i].rotate,
            forall|i: int| 0 <= i < N_CAND ==> (#[trigger] final(self).population()[i]).v@.len() == old(self).genome_len(),
            forall|i: int|
                0 <= i < N_CAND ==> bred(old(self).population(), old(self).genome_len(), (#[trigger] final(self).population()[i]).v@),
            forall|k: int|
                0 <= k < N_ELITE ==> plays_genome(
                    final(self).population(),
                    (#[trigger] old(self).population()[k]).v@.take(old(self).genome_len()),
                ),
    {
        let mut vs: Vec<Vec<u8>> = Vec::new();
        let ghost pop = self.cands@;
        let ghost len = self.max_len as int;
        let mut i: usize = 0;
        while i < N_ELITE
            invariant
                i <= N_ELITE,
                self.populated(),
                self.same_but_chance(old(self)),
                pop == old(self).cands@,
                len == old(self).genome_len(),
                vs@.len() == i,
                forall|k: int| 0 <= k < vs@.len() ==> (#[trigger] vs@[k])@.len() == self.genome_len(),
                forall|k: int| 0 <= k < vs@.len() ==> (#[trigger] vs@[k])@ == pop[k].v@.take(len),
            decreases N_ELITE - i,
        {
            vs.push(self.cands[i].extract(self.max_len));
            i = i + 1;
        }
        let ops = weights_of_operations();
        let select = self.scores();
        let total = sum_weights(&select);
        let usable = 0 < total && total <= 0xffff_ffff;
        while vs.len() < N_CAND
            invariant
                N_ELITE <= vs@.len() <= N_CAND,
                self.populated(),
                self.same_but_chance(old(self)),
                pop == old(self).cands@,
                len == old(self).genome_len(),
                forall|k: int| 0 <= k < N_ELITE ==> (#[trigger] vs@[k])@ == pop[k].v@.take(len),
                forall|k: int| N_ELITE <= k < vs@.len() ==> bred(pop, len, (#[trigger] vs@[k])@),
                ops@ == operation_weights(),
                total_weight(ops@) == 100,
                select@.len() == N_CAND,
                usable ==> 0 < total_weight(select@) <= u32::MAX,
                forall|k: int| 0 <= k < vs@.len() ==> (#[trigger] vs@[k])@.len() == self.genome_len(),
            decreases N_CAND - vs@.len(),
        {
            let op = random_weighted(&mut self.rng, &ops);
            let v = match operation_of(op) {
                Operation::Copy => self.spawn_copy(op, &select, usable),
                Operation::Crossover => self.spawn_crossover(op, &select, usable),
                Operation::Mutate => self.spawn_mutate(op, &select, usable),
            };
            let ghost before = vs@;
            vs.push(v);
            proof {
                assert forall|k: int| N_ELITE <= k < vs@.len() implies bred(pop, len, (#[trigger] vs@[k])@) by {
                    if k < before.len() {
                        assert(vs@[k] == before[k]);
                    }
                }
                assert forall|k: int| 0 <= k < N_ELITE implies (#[trigger] vs@[k])@ == pop[k].v@.take(len) by {
                    assert(vs@[k] == before[k]);
                }
            }
        }
        let ghost made = vs@;
        self.update_cands(vs);
        proof {
            assert forall|i: int| 0 <= i < N_CAND implies bred(pop, len, (#[trigger] self.cands@[i]).v@) by {
                let g = self.cands@[i].v@;
                assert(holds_genome(made, g));
                let j = choose|j: int| 0 <= j < made.len() && (#[trigger] made[j])@ == g;
                if j < N_ELITE {
                    let d = Drawn { op: 0, first: j as usize, second: 0, start: 0, end: 0, place: 0, gene: 0 };
                    assert(d.fits(pop.len() as int, len) && g == child_of(pop, len, d));
                }
            }
            assert forall|k: int| 0 <= k < N_ELITE implies plays_genome(self.cands@, (#[trigger] pop[k]).v@.take(len)) by {
                assert(plays_genome(self.cands@, made[k]@));
            }
        }
    }
}

impl Solver for GeneticSolver {
    open spec fn ready(&self) -> bool {
        self.genome_len() <= MAX_GENES
    }

    /// Lets the populations follow each other and returns the plays by which
    /// candidates of the last population have solved the board, each once,
    /// in the order of the dictionary. Afterwards the solver holds that
    /// population: `N_CAND` candidates with the plays of their genomes on
    /// `board`, the best first, none with more genes than the solver made
    /// genomes with at first. So no sequence of the result has more moves than
    /// that, and none has fewer than the genomes that the solver makes next
    /// have genes. The search never fails; it may find nothing.
    fn solve(&mut self, board: &Board) -> (r: Result<Vec<Vec<u8>>, SolverError>)
        ensures
            final(self).searched() == board@,
            final(self).generations() == old(self).generations(),
            final(self).genome_len() <= old(self).genome_len(),
            final(self).genome_len() == old(self).genome_len() || exists|s: Seq<u8>| #[trigger]
                is_solution(board@, s) && s.len() == final(self).genome_len(),
            final(self).populated(),
            forall|i: int|
                0 <= i < N_CAND ==> (#[trigger] final(self).population()[i]).v@.len() <= old(self).genome_len(),
            r is Ok,
            rising(seqs_of(r->Ok_0@)),
            forall|s: Seq<u8>| #[trigger] seqs_of(r->Ok_0@).contains(s) <==> final(self).has_solved(s),
            forall|i: int|
                0 <= i < r->Ok_0@.len() ==> final(self).genome_len() <= (#[trigger] r->Ok_0@[i])@.len() <= old(self).genome_len(),
    {
        self.board = board.clone();
        self.k_ini = count_pieces(board);
        let mut vs: Vec<Vec<u8>> = Vec::new();
        while vs.len() < N_CAND
            invariant
                vs@.len() <= N_CAND,
                self.board_set(),
                self.board@ == board@,
                self.n_gene == old(self).n_gene,
                self.max_len == old(self).max_len,
                forall|k: int| 0 <= k < vs@.len() ==> (#[trigger] vs@[k])@.len() == self.genome_len(),
            decreases N_CAND - vs@.len(),
        {
            let v = self.random_v();
            vs.push(v);
        }
        self.update_cands(vs);
        proof {
            self.lemma_shorter_by_solution(old(self).max_len as int);
        }
        let mut i: u32 = 0;
        while i < self.n_gene
            invariant
                i <= self.n_gene,
                self.populated(),
                self.board@ == board@,
                self.n_gene == old(self).n_gene,
                self.max_len <= old(self).max_len,
                self.max_len == old(self).max_len || exists|s: Seq<u8>| #[trigger]
                    is_solution(board@, s) && s.len() == self.max_len,
                forall|k: int| 0 <= k < N_CAND ==> (#[trigger] self.cands@[k]).v@.len() <= old(self).max_len,
            decreases self.n_gene - i,
        {
            let ghost before = self.max_len as int;
            self.evolve();
            proof {
                self.lemma_shorter_by_solution(before);
            }
            i = i + 1;
        }
        let mut res: Vec<Vec<u8>> = Vec::new();
        let mut n: usize = 0;
        let ghost pop = self.cands@;
        proof {
            assert(seqs_of(res@) =~= Seq::<Seq<u8>>::empty());
        }
        while n < self.cands.len()
            invariant
                n <= self.cands@.len(),
                self.populated(),
                self.board@ == board@,
                self.n_gene == old(self).n_gene,
                self.max_len <= old(self).max_len,
                self.cands@ == pop,
                self.max_len == old(self).max_len || exists|s: Seq<u8>| #[trigger]
                    is_solution(board@, s) && s.len() == self.max_len,
                forall|k: int| 0 <= k < N_CAND ==> (#[trigger] self.cands@[k]).v@.len() <= old(self).max_len,
                rising(seqs_of(res@)),
                forall|s: Seq<u8>| #[trigger]
                    seqs_of(res@).contains(s) <==> exists|i: int|
                        0 <= i < n && (#[trigger] self.cands@[i]).state == BoardState::Solved && decode(
                            self.board@,
                            self.cands@[i].v@,
                        ) == s,
            decreases self.cands@.len() - n,
        {
            let ghost found = seqs_of(res@);
            let ghost c = self.cands@[n as int];
            if self.cands[n].state == BoardState::Solved {
                let sol = self.cands[n].to_solution(&self.board);
                insert_rising(&mut res, sol);
            }
            proof {
                let g = seqs_of(res@);
                assert forall|s: Seq<u8>| #[trigger]
                    g.contains(s) <==> exists|i: int|
                        0 <= i < n + 1 && (#[trigger] self.cands@[i]).state == BoardState::Solved && decode(
                            self.board@,
                            self.cands@[i].v@,
                        ) == s by {
                    if found.contains(s) {
                        let i = choose|i: int|
                            0 <= i < n && (#[trigger] self.cands@[i]).state == BoardState::Solved && decode(
                                self.board@,
                                self.cands@[i].v@,
                            ) == s;
                        assert(0 <= i < n + 1 && self.cands@[i].state == BoardState::Solved && decode(
                            self.board@,
                            self.cands@[i].v@,
                        ) == s);
                    }
                    if exists|i: int|
                        0 <= i < n + 1 && (#[trigger] self.cands@[i]).state == BoardState::Solved && decode(
                            self.board@,
                            self.cands@[i].v@,
                        ) == s {
                        let i = choose|i: int|
                            0 <= i < n + 1 && (#[trigger] self.cands@[i]).state == BoardState::Solved && decode(
                                self.board@,
                                self.cands@[i].v@,
                            ) == s;
                        if i < n {
                            assert(found.contains(s));
                        }
                    }
                }
            }
            n = n + 1;
        }
        proof {
            let g = seqs_of(res@);
            assert forall|i: int| 0 <= i < res@.len() implies is_solution(board@, #[trigger] res@[i]@) by {
                assert(g[i] == res@[i]@);
                assert(g.contains(g[i]));
                let k = choose|k: int|
                    0 <= k < self.cands@.len() && (#[trigger] self.cands@[k]).state == BoardState::Solved && decode(
                        self.board@,
                        self.cands@[k].v@,
                    ) == g[i];
                lemma_decode(board@, self.cands@[k].v@);
            }
            assert forall|i: int| 0 <= i < res@.len() implies self.max_len <= (#[trigger] res@[i])@.len() <= old(self).max_len by {
                assert(g[i] == res@[i]@);
                assert(g.contains(g[i]));
                let k = choose|k: int|
                    0 <= k < self.cands@.len() && (#[trigger] self.cands@[k]).state == BoardState::Solved && decode(
                        self.board@,
                        self.cands@[k].v@,
                    ) == g[i];
                lemma_decode(board@, self.cands@[k].v@);
                assert(not_shorter(self.max_len as int)(self.cands@[k]));
            }
        }
        Ok(res)
    }
}

} // verus!
