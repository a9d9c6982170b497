//! The order in which to visit six rooms: the round trips from a start
//! through all rooms and back that take the fewest steps.

use crate::text::ParseError;
use permutohedron::LexicalPermutation;
use vstd::prelude::*;
use vstd::string::StringSliceAdditionalSpecFns;

verus! {

/// A place on the plan.
#[derive(Debug, Clone, Copy, PartialEq, Eq, Structural)]
pub struct Point {
    pub x: i32,
    pub y: i32,
}

/// The number of steps between two places when each step leads to a
/// neighbour in the same row or column.
pub open spec fn manhattan(p: Point, q: Point) -> int {
    (if p.x >= q.x {
        p.x - q.x
    } else {
        q.x - p.x
    }) + (if p.y >= q.y {
        p.y - q.y
    } else {
        q.y - p.y
    })
}

impl Point {
    /// The place in column `x` of row `y`.
    pub fn new(x: i32, y: i32) -> (p: Self)
        ensures
            p.x == x,
            p.y == y,
    {
        Self { x, y }
    }

    /// The number of steps from here to `other`.
    pub fn distance(&self, other: &Point) -> (r: i32)
        requires
            manhattan(*self, *other) <= i32::MAX,
        ensures
            r == manhattan(*self, *other),
    {
        let dx: i64 = if self.x >= other.x {
            self.x as i64 - other.x as i64
        } else {
            other.x as i64 - self.x as i64
        };
        let dy: i64 = if self.y >= other.y {
            self.y as i64 - other.y as i64
        } else {
            other.y as i64 - self.y as i64
        };
        (dx + dy) as i32
    }
}

/// Number of rooms on a plan.
pub const N_ROOMS: usize = 6;

/// A plan: the start and the rooms, numbered from 0.
#[derive(Debug, PartialEq, Eq)]
pub struct Problem {
    pub start: Point,
    pub rooms: Vec<Point>,
}

/// The place lies on the plan, which has 7 columns and 5 rows.
pub open spec fn on_plan(p: Point) -> bool {
    0 <= p.x < 7 && 0 <= p.y < 5
}

/// The cell of the plan, counted row by row, on which a place lies.
pub open spec fn plan_cell(p: Point) -> int {
    7 * p.y + p.x
}

impl Problem {
    /// There are six rooms, and they and the start lie on the plan.
    pub open spec fn wf(&self) -> bool {
        &&& self.rooms@.len() == N_ROOMS
        &&& on_plan(self.start)
        &&& forall|i: int| 0 <= i < self.rooms@.len() ==> on_plan(#[trigger] self.rooms@[i])
    }

    /// The start and the rooms lie on seven different cells.
    pub open spec fn spread(&self) -> bool {
        &&& forall|i: int| 0 <= i < self.rooms@.len() ==> (#[trigger] self.rooms@[i]) != self.start
        &&& forall|i: int, j: int| 0 <= i < j < self.rooms@.len() ==> (#[trigger] self.rooms@[i]) != (#[trigger] self.rooms@[j])
    }
}

/// The byte at cell `i` of the text of a plan.
pub open spec fn plan_byte(s: Seq<u8>, i: int) -> u8 {
    s[8 * (i / 7) + i % 7]
}

/// The text has the shape of a plan: five lines of seven bytes, each but
/// the last ended by a line feed, which may end the last one too.
pub open spec fn plan_shaped(s: Seq<u8>) -> bool {
    &&& (s.len() == 39 || s.len() == 40)
    &&& forall|k: int| 0 <= k < s.len() ==> (#[trigger] s[k] == 0x0a) == (k % 8 == 7)
}

/// The byte is a mark of a plan: `.` for nothing, `s` for the start or a
/// digit below 6 for a room.
pub open spec fn is_plan_mark(c: u8) -> bool {
    c == 0x2e || c == 0x73 || (0x30 <= c && c <= 0x35)
}

/// The last cell before `n` that holds the byte `c`, or -1.
pub open spec fn last_mark(s: Seq<u8>, c: u8, n: int) -> int
    decreases n,
{
    if n <= 0 {
        -1
    } else if plan_byte(s, n - 1) == c {
        n - 1
    } else {
        last_mark(s, c, n - 1)
    }
}

/// The byte that marks room `r`.
pub open spec fn room_mark(r: int) -> u8 {
    (0x30 + r) as u8
}

/// The cell on which room `r` is marked last, or -1.
pub open spec fn room_place(s: Seq<u8>, r: int, n: int) -> int {
    last_mark(s, room_mark(r), n)
}

/// The place of a cell of the plan.
pub open spec fn cell_point(i: int) -> Point {
    Point { x: (i % 7) as i32, y: (i / 7) as i32 }
}

/// What the text of a plan stands for: the start and the six rooms. A mark
/// that stands twice counts where it stands last.
pub open spec fn parse_plan(s: Seq<u8>) -> Result<(Point, Seq<Point>), ParseError> {
    if !plan_shaped(s) {
        Err(ParseError::LineCount)
    } else if exists|i: int| 0 <= i < 35 && !is_plan_mark(#[trigger] plan_byte(s, i)) {
        Err(ParseError::BadCharacter)
    } else if last_mark(s, 0x73, 35) < 0 || exists|r: int| 0 <= r < 6 && #[trigger] room_place(s, r, 35) < 0 {
        Err(ParseError::Missing)
    } else {
        Ok((cell_point(last_mark(s, 0x73, 35)), Seq::new(6, |r: int| cell_point(room_place(s, r, 35)))))
    }
}

/// The mark on cell `i` of a plan on which the start and the first `m`
/// rooms have been drawn.
pub open spec fn mark_at(start: Point, rooms: Seq<Point>, i: int, m: int) -> u8
    decreases m,
{
    if m <= 0 {
        if plan_cell(start) == i {
            0x73
        } else {
            0x2e
        }
    } else if plan_cell(rooms[m - 1]) == i {
        room_mark(m - 1)
    } else {
        mark_at(start, rooms, i, m - 1)
    }
}

/// The text of a plan on which the start and the first `m` rooms have been
/// drawn: 40 bytes.
pub open spec fn plan_text_upto(start: Point, rooms: Seq<Point>, m: int) -> Seq<u8> {
    Seq::new(
        40,
        |k: int|
            if k % 8 == 7 {
                0x0au8
            } else {
                mark_at(start, rooms, 7 * (k / 8) + k % 8, m)
            },
    )
}

/// The text of a plan.
pub open spec fn plan_text(start: Point, rooms: Seq<Point>) -> Seq<u8> {
    plan_text_upto(start, rooms, rooms.len() as int)
}

impl Problem {
    /// Reads a plan from its text.
    pub fn from_bytes(s: &[u8]) -> (r: Result<Problem, ParseError>)
        ensures
            match r {
                Ok(p) => parse_plan(s@) == Ok::<(Point, Seq<Point>), ParseError>((p.start, p.rooms@)) && p.wf(),
                Err(e) => parse_plan(s@) == Err::<(Point, Seq<Point>), ParseError>(e),
            },
    {
        let n = s.len();
        if n != 39 && n != 40 {
            return Err(ParseError::LineCount);
        }
        let mut k: usize = 0;
        while k < n
            invariant
                k <= n,
                n == s@.len(),
                forall|j: int| 0 <= j < k ==> (#[trigger] s@[j] == 0x0a) == (j % 8 == 7),
            decreases n - k,
        {
            if (s[k] == 0x0a) != (k % 8 == 7) {
                assert(!plan_shaped(s@));
                return Err(ParseError::LineCount);
            }
            k = k + 1;
        }
        assert(plan_shaped(s@));
        let mut start: Option<Point> = None;
        let mut rooms: Vec<Option<Point>> = Vec::new();
        let mut m: usize = 0;
        while m < 6
            invariant
                m <= 6,
                rooms@.len() == m,
                forall|j: int| 0 <= j < m ==> (#[trigger] rooms@[j]).is_none(),
            decreases 6 - m,
        {
            rooms.push(None);
            m = m + 1;
        }
        let mut i: usize = 0;
        while i < 35
            invariant
                i <= 35,
                rooms@.len() == 6,
                s@.len() >= 39,
                plan_shaped(s@),
                forall|j: int| 0 <= j < i ==> is_plan_mark(#[trigger] plan_byte(s@, j)),
                match start {
                    Some(p) => last_mark(s@, 0x73, i as int) >= 0 && p == cell_point(last_mark(s@, 0x73, i as int)),
                    None => last_mark(s@, 0x73, i as int) < 0,
                },
                forall|r: int|
                    0 <= r < 6 ==> match #[trigger] rooms@[r] {
                        Some(p) => room_place(s@, r, i as int) >= 0 && p == cell_point(
                            room_place(s@, r, i as int),
                        ),
                        None => room_place(s@, r, i as int) < 0,
                    },
            decreases 35 - i,
        {
            let c = s[8 * (i / 7) + i % 7];
            assert(c == plan_byte(s@, i as int));
            let p = Point::new((i % 7) as i32, (i / 7) as i32);
            let ghost before = rooms@;
            if c == 0x73 {
                start = Some(p);
            } else if 0x30 <= c && c <= 0x35 {
                rooms[(c - 0x30) as usize] = Some(p);
            } else if c != 0x2e {
                assert(!is_plan_mark(plan_byte(s@, i as int)));
                return Err(ParseError::BadCharacter);
            }
            proof {
                assert forall|r: int| 0 <= r < 6 implies match #[trigger] rooms@[r] {
                    Some(p) => room_place(s@, r, i + 1) >= 0 && p == cell_point(
                        room_place(s@, r, i + 1),
                    ),
                    None => room_place(s@, r, i + 1) < 0,
                } by {
                    if !(0x30 <= c && c <= 0x35 && r == c - 0x30) {
                        assert(rooms@[r] == before[r]);
                    }
                }
            }
            i = i + 1;
        }
        let start = match start {
            Some(p) => p,
            None => {
                return Err(ParseError::Missing);
            },
        };
        let mut found: Vec<Point> = Vec::new();
        let mut q: usize = 0;
        while q < 6
            invariant
                q <= 6,
                rooms@.len() == 6,
                found@.len() == q,
                plan_shaped(s@),
                forall|j: int| 0 <= j < 35 ==> is_plan_mark(#[trigger] plan_byte(s@, j)),
                forall|r: int|
                    0 <= r < 6 ==> match #[trigger] rooms@[r] {
                        Some(p) => room_place(s@, r, 35) >= 0 && p == cell_point(room_place(s@, r, 35)),
                        None => room_place(s@, r, 35) < 0,
                    },
                forall|j: int| 0 <= j < q ==> #[trigger] room_place(s@, j, 35) >= 0,
                found@ == Seq::new(q as nat, |j: int| cell_point(room_place(s@, j, 35))),
            decreases 6 - q,
        {
            let ghost f0 = found@;
            match rooms[q] {
                Some(p) => {
                    found.push(p);
                },
                None => {
                    assert(room_place(s@, q as int, 35) < 0);
                    return Err(ParseError::Missing);
                },
            }
            proof {
                assert(rooms@[q as int].is_some());
                assert(found@ =~= Seq::new((q + 1) as nat, |j: int| cell_point(room_place(s@, j, 35))));
            }
            q = q + 1;
        }
        proof {
            assert forall|r: int| 0 <= r < 6 implies on_plan(#[trigger] found@[r]) by {
                lemma_last_mark(s@, room_mark(r), 35);
            }
            lemma_last_mark(s@, 0x73, 35);
        }
        Ok(Problem { start, rooms: found })
    }

    /// Reads a plan from its text.
    pub fn from_str(s: &str) -> (r: Result<Problem, ParseError>)
        ensures
            match r {
                Ok(p) => parse_plan(s.spec_bytes()) == Ok::<(Point, Seq<Point>), ParseError>((p.start, p.rooms@)) && p.wf(),
                Err(e) => parse_plan(s.spec_bytes()) == Err::<(Point, Seq<Point>), ParseError>(e),
            },
    {
        Problem::from_bytes(s.as_bytes())
    }
}

/// A mark that stands on the plan stands on one of its cells.
pub proof fn lemma_last_mark(s: Seq<u8>, c: u8, n: int)
    requires
        0 <= n <= 35,
    ensures
        -1 <= last_mark(s, c, n) < n,
        last_mark(s, c, n) >= 0 ==> on_plan(cell_point(last_mark(s, c, n))) && plan_byte(s, last_mark(s, c, n)) == c,
    decreases n,
{
    if n > 0 && plan_byte(s, n - 1) != c {
        lemma_last_mark(s, c, n - 1);
    }
}

/// The steps between the rooms of the first `n` legs of a tour.
pub open spec fn legs(rooms: Seq<Point>, perm: Seq<usize>, n: int) -> int
    decreases n,
{
    if n <= 0 {
        0
    } else {
        legs(rooms, perm, n - 1) + manhattan(rooms[perm[n - 1] as int], rooms[perm[n] as int])
    }
}

/// The steps of the round trip from the start through the rooms in the
/// order `perm` and back to the start.
pub open spec fn tour(start: Point, rooms: Seq<Point>, perm: Seq<usize>) -> int {
    manhattan(start, rooms[perm[0] as int]) + manhattan(start, rooms[perm.last() as int]) + legs(
        rooms,
        perm,
        perm.len() - 1,
    )
}

/// The number of steps of the round trip from the start through the rooms
/// in the order `perm` and back. `perm` must name at least one room.
pub fn calc_step(problem: &Problem, perm: &[usize]) -> (r: i32)
    requires
        problem.wf(),
        0 < perm@.len() <= 100_000_000,
        forall|i: int| 0 <= i < perm@.len() ==> #[trigger] perm@[i] < N_ROOMS,
    ensures
        r == tour(problem.start, problem.rooms@, perm@),
        0 <= r <= 10 * (perm@.len() + 1),
{
    let n = perm.len();
    let first = &problem.rooms[perm[0]];
    let last = &problem.rooms[perm[n - 1]];
    assert(on_plan(problem.rooms@[perm@[0] as int]));
    assert(on_plan(problem.rooms@[perm@[n - 1] as int]));
    let mut step: i32 = problem.start.distance(first) + problem.start.distance(last);
    let ghost head = step as int;
    let mut i: usize = 0;
    while i + 1 < n
        invariant
            i < n,
            n == perm@.len(),
            n <= 100_000_000,
            problem.wf(),
            forall|k: int| 0 <= k < perm@.len() ==> #[trigger] perm@[k] < N_ROOMS,
            0 <= head <= 20,
            step == head + legs(problem.rooms@, perm@, i as int),
            head <= step <= 20 + 10 * i,
        decreases n - i,
    {
        let src = problem.rooms[perm[i]];
        let dst = problem.rooms[perm[i + 1]];
        assert(on_plan(problem.rooms@[perm@[i as int] as int]));
        assert(on_plan(problem.rooms@[perm@[i + 1] as int]));
        step = step + src.distance(&dst);
        i = i + 1;
    }
    step
}

/// `a` comes before `b` in the order of the dictionary.
pub open spec fn lex_lt(a: Seq<usize>, b: Seq<usize>) -> bool
    decreases a.len(),
{
    if b.len() == 0 {
        false
    } else if a.len() == 0 {
        true
    } else if a[0] != b[0] {
        a[0] < b[0]
    } else {
        lex_lt(a.skip(1), b.skip(1))
    }
}

/// `p` holds what `q` holds, perhaps in another order.
pub open spec fn is_arrangement(p: Seq<usize>, q: Seq<usize>) -> bool {
    p.to_multiset() == q.to_multiset()
}

/// `b` is the arrangement that follows `a` in the order of the dictionary:
/// it comes behind `a`, and no arrangement lies between the two.
pub open spec fn is_next_arrangement(a: Seq<usize>, b: Seq<usize>) -> bool {
    &&& is_arrangement(b, a)
    &&& lex_lt(a, b)
    &&& forall|p: Seq<usize>| is_arrangement(p, a) && lex_lt(a, p) ==> !#[trigger] lex_lt(p, b)
}

/// Rearranges `a` into the arrangement that follows it in the order of the
/// dictionary (`LexicalPermutation::next_permutation` on the slice). If
/// there is one, the result is `true`. Otherwise `a` stays as it is and the
/// result is `false`; this happens when no item of `a` is less than the
/// one behind it.
#[verifier::external_body]
pub(crate) fn next_permutation(a: &mut Vec<usize>) -> (r: bool)
    ensures
        r ==> is_next_arrangement(old(a)@, final(a)@),
        !r ==> final(a)@ == old(a)@ && forall|i: int, j: int|
            0 <= i < j < old(a)@.len() ==> old(a)@[i] >= old(a)@[j],
{
    a.as_mut_slice().next_permutation()
}

/// The rooms in the order of their numbers.
pub open spec fn room_numbers() -> Seq<usize> {
    seq![0usize, 1usize, 2usize, 3usize, 4usize, 5usize]
}

/// `p` is an order in which to visit the rooms.
pub open spec fn is_order(p: Seq<usize>) -> bool {
    is_arrangement(p, room_numbers())
}

/// An order names each room once.
pub proof fn lemma_order(p: Seq<usize>)
    requires
        is_order(p),
    ensures
        p.len() == 6,
        forall|i: int| 0 <= i < 6 ==> #[trigger] p[i] < 6,
        p.no_duplicates(),
{
    broadcast use vstd::seq_lib::group_to_multiset_ensures;

    let base = room_numbers();
    assert(p.to_multiset().len() == base.to_multiset().len());
    assert forall|i: int| 0 <= i < 6 implies #[trigger] p[i] < 6 by {
        assert(p.to_multiset().count(p[i]) > 0);
        assert(base.to_multiset().count(p[i]) > 0);
        assert(base.contains(p[i]));
    }
    base.lemma_multiset_has_no_duplicates();
    p.lemma_multiset_has_no_duplicates_conv();
}

/// The place of an order in the dictionary: the number that its six
/// digits spell to the base 6.
pub open spec fn order_rank(p: Seq<usize>) -> int {
    7776 * p[0] + 1296 * p[1] + 216 * p[2] + 36 * p[3] + 6 * p[4] + p[5]
}

/// The six items of a sequence, one by one.
proof fn lemma_six(a: Seq<usize>, b: Seq<usize>)
    requires
        a.len() == 6,
        b.len() == 6,
    ensures
        lex_lt(a, b) == if a[0] != b[0] {
            a[0] < b[0]
        } else if a[1] != b[1] {
            a[1] < b[1]
        } else if a[2] != b[2] {
            a[2] < b[2]
        } else if a[3] != b[3] {
            a[3] < b[3]
        } else if a[4] != b[4] {
            a[4] < b[4]
        } else {
            a[5] < b[5]
        },
{
    reveal_with_fuel(lex_lt, 8);
    let a1 = a.skip(1);
    let b1 = b.skip(1);
    let a2 = a1.skip(1);
    let b2 = b1.skip(1);
    let a3 = a2.skip(1);
    let b3 = b2.skip(1);
    let a4 = a3.skip(1);
    let b4 = b3.skip(1);
    let a5 = a4.skip(1);
    let b5 = b4.skip(1);
    assert(a1[0] == a[1] && b1[0] == b[1]);
    assert(a2[0] == a[2] && b2[0] == b[2]);
    assert(a3[0] == a[3] && b3[0] == b[3]);
    assert(a4[0] == a[4] && b4[0] == b[4]);
    assert(a5[0] == a[5] && b5[0] == b[5]);
    assert(a5.skip(1).len() == 0 && b5.skip(1).len() == 0);
}

/// Of two different orders one comes before the other, and none comes
/// before itself.
pub proof fn lemma_order_total(a: Seq<usize>, b: Seq<usize>)
    requires
        a.len() == 6,
        b.len() == 6,
    ensures
        !lex_lt(a, a),
        a != b ==> lex_lt(a, b) || lex_lt(b, a),
{
    lemma_six(a, a);
    lemma_six(a, b);
    lemma_six(b, a);
    if a != b && !lex_lt(a, b) && !lex_lt(b, a) {
        assert(a =~= b);
    }
}

/// What comes before an order comes before everything behind it.
pub proof fn lemma_order_trans(a: Seq<usize>, b: Seq<usize>, c: Seq<usize>)
    requires
        a.len() == 6,
        b.len() == 6,
        c.len() == 6,
        lex_lt(a, b),
        lex_lt(b, c),
    ensures
        lex_lt(a, c),
{
    lemma_six(a, b);
    lemma_six(b, c);
    lemma_six(a, c);
}

/// An order that comes later has a greater rank.
pub proof fn lemma_order_rank(a: Seq<usize>, b: Seq<usize>)
    requires
        is_order(a),
        is_order(b),
    ensures
        lex_lt(a, b) ==> order_rank(a) < order_rank(b),
        0 <= order_rank(a) < 46656,
{
    lemma_order(a);
    lemma_order(b);
    lemma_six(a, b);
}

/// No order comes before the rooms in the order of their numbers.
pub proof fn lemma_order_first(a: Seq<usize>)
    requires
        is_order(a),
    ensures
        !lex_lt(a, room_numbers()),
{
    lemma_order(a);
    lemma_distinct_six(a);
    lemma_six(a, room_numbers());
}

/// No order comes behind an order in which no room has a lower number than
/// the one behind it.
pub proof fn lemma_order_last(a: Seq<usize>, b: Seq<usize>)
    requires
        is_order(a),
        is_order(b),
        forall|i: int, j: int| 0 <= i < j < a.len() ==> a[i] >= a[j],
    ensures
        !lex_lt(a, b),
{
    lemma_order(a);
    lemma_order(b);
    lemma_distinct_six(a);
    lemma_distinct_six(b);
    assert(a[0] >= a[1] >= a[2] >= a[3] >= a[4] >= a[5]);
    assert(a[0] == 5 && a[1] == 4 && a[2] == 3 && a[3] == 2 && a[4] == 1 && a[5] == 0);
    lemma_six(a, b);
}

/// The six items of an order differ from each other.
proof fn lemma_distinct_six(p: Seq<usize>)
    requires
        is_order(p),
    ensures
        p[0] != p[1] && p[0] != p[2] && p[0] != p[3] && p[0] != p[4] && p[0] != p[5],
        p[1] != p[2] && p[1] != p[3] && p[1] != p[4] && p[1] != p[5],
        p[2] != p[3] && p[2] != p[4] && p[2] != p[5],
        p[3] != p[4] && p[3] != p[5],
        p[4] != p[5],
{
    lemma_order(p);
}

impl Problem {
    /// Whether the plan has six rooms and they and the start lie on it.
    pub fn is_wf(&self) -> (r: bool)
        ensures
            r == self.wf(),
    {
        if self.rooms.len() != N_ROOMS {
            return false;
        }
        if !(0 <= self.start.x && self.start.x < 7 && 0 <= self.start.y && self.start.y < 5) {
            return false;
        }
        let mut i: usize = 0;
        while i < self.rooms.len()
            invariant
                i <= self.rooms@.len(),
                forall|k: int| 0 <= k < i ==> on_plan(#[trigger] self.rooms@[k]),
            decreases self.rooms@.len() - i,
        {
            let p = self.rooms[i];
            if !(0 <= p.x && p.x < 7 && 0 <= p.y && p.y < 5) {
                return false;
            }
            i = i + 1;
        }
        true
    }

    /// Whether the start and the rooms lie on different cells.
    pub fn is_spread(&self) -> (r: bool)
        ensures
            r == self.spread(),
    {
        let n = self.rooms.len();
        let mut i: usize = 0;
        while i < n
            invariant
                i <= n,
                n == self.rooms@.len(),
                forall|k: int| 0 <= k < i ==> (#[trigger] self.rooms@[k]) != self.start,
                forall|k: int, j: int| 0 <= k < j < self.rooms@.len() && k < i ==> (#[trigger] self.rooms@[k]) != (
                #[trigger] self.rooms@[j]),
            decreases n - i,
        {
            let p = self.rooms[i];
            if p.x == self.start.x && p.y == self.start.y {
                return false;
            }
            let mut j: usize = i + 1;
            while j < n
                invariant
                    i < j <= n,
                    n == self.rooms@.len(),
                    p == self.rooms@[i as int],
                    forall|m: int| i < m < j ==> p != #[trigger] self.rooms@[m],
                decreases n - j,
            {
                let q = self.rooms[j];
                if p.x == q.x && p.y == q.y {
                    return false;
                }
                j = j + 1;
            }
            i = i + 1;
        }
        true
    }

    /// The text of the plan as bytes. The start and the rooms must lie on
    /// different cells.
    pub fn to_bytes(&self) -> (r: Vec<u8>)
        requires
            self.wf(),
            self.spread(),
        ensures
            r@ == plan_text(self.start, self.rooms@),
    {
        let mut buf: Vec<u8> = Vec::new();
        let mut k: usize = 0;
        while k < 40
            invariant
                k <= 40,
                buf@.len() == k,
                forall|j: int| 0 <= j < k ==> #[trigger] buf@[j] == if j % 8 == 7 {
                    0x0au8
                } else {
                    0x2eu8
                },
            decreases 40 - k,
        {
            buf.push(if k % 8 == 7 {
                0x0a
            } else {
                0x2e
            });
            k = k + 1;
        }
        let at = (8 * self.start.y + self.start.x) as usize;
        buf[at] = 0x73;
        assert(buf@ =~= plan_text_upto(self.start, self.rooms@, 0));
        let mut m: usize = 0;
        while m < 6
            invariant
                m <= 6,
                self.wf(),
                buf@ == plan_text_upto(self.start, self.rooms@, m as int),
            decreases 6 - m,
        {
            let room = self.rooms[m];
            assert(on_plan(self.rooms@[m as int]));
            let at = (8 * room.y + room.x) as usize;
            buf[at] = 0x30 + m as u8;
            assert(buf@ =~= plan_text_upto(self.start, self.rooms@, m + 1));
            m = m + 1;
        }
        buf
    }

    /// The text of the plan.
    pub fn to_string(&self) -> (r: String)
        requires
            self.wf(),
            self.spread(),
        ensures
            r@ == crate::notation::text_chars(plan_text(self.start, self.rooms@)),
    {
        let bytes = self.to_bytes();
        let mut r = String::new();
        let mut i: usize = 0;
        while i < bytes.len()
            invariant
                i <= bytes@.len(),
                r@ == crate::notation::text_chars(bytes@.take(i as int)),
            decreases bytes@.len() - i,
        {
            r.push(bytes[i] as char);
            assert(r@ =~= crate::notation::text_chars(bytes@.take(i + 1)));
            i = i + 1;
        }
        assert(bytes@.take(i as int) =~= bytes@);
        r
    }
}

/// The orders that a list of vectors holds.
pub open spec fn orders_of(v: Seq<Vec<usize>>) -> Seq<Seq<usize>> {
    v.map_values(|x: Vec<usize>| x@)
}

/// A copy of an order.
pub fn copy_order(v: &Vec<usize>) -> (r: Vec<usize>)
    ensures
        r@ == v@,
{
    let r = v.clone();
    assert(r@ =~= v@);
    r
}

/// The orders of the least number of steps: every order in which the round
/// trip through the rooms takes as few steps as any, in the order of the
/// dictionary, and that number of steps.
pub fn solve(problem: &Problem) -> (r: (Vec<Vec<usize>>, i32))
    requires
        problem.wf(),
    ensures
        r.0@.len() > 0,
        forall|p: Seq<usize>| is_order(p) ==> tour(problem.start, problem.rooms@, p) >= r.1,
        forall|p: Seq<usize>| #[trigger]
            orders_of(r.0@).contains(p) <==> is_order(p) && tour(problem.start, problem.rooms@, p) == r.1,
        forall|i: int, j: int| 0 <= i < j < r.0@.len() ==> lex_lt(#[trigger] r.0@[i]@, #[trigger] r.0@[j]@),
{
    let mut res: Vec<Vec<usize>> = Vec::new();
    let mut step_min: i32 = 999999999;
    let mut perm: Vec<usize> = Vec::new();
    perm.push(0);
    perm.push(1);
    perm.push(2);
    perm.push(3);
    perm.push(4);
    perm.push(5);
    let ghost start = problem.start;
    let ghost rooms = problem.rooms@;
    proof {
        assert(perm@ =~= room_numbers());
        assert forall|p: Seq<usize>| is_order(p) implies !lex_lt(p, perm@) by {
            lemma_order_first(p);
        }
    }
    loop
        invariant
            problem.wf(),
            start == problem.start,
            rooms == problem.rooms@,
            is_order(perm@),
            res@.len() == 0 ==> step_min == 999999999,
            forall|p: Seq<usize>| is_order(p) && #[trigger] lex_lt(p, perm@) ==> tour(start, rooms, p) >= step_min,
            forall|p: Seq<usize>|
                is_order(p) && #[trigger] lex_lt(p, perm@) && tour(start, rooms, p) == step_min ==> orders_of(res@).contains(p),
            forall|i: int|
                0 <= i < res@.len() ==> {
                    let p = #[trigger] res@[i]@;
                    is_order(p) && lex_lt(p, perm@) && tour(start, rooms, p) == step_min
                },
            forall|i: int, j: int| 0 <= i < j < res@.len() ==> lex_lt(#[trigger] res@[i]@, #[trigger] res@[j]@),
        decreases 46656 - order_rank(perm@),
    {
        let ghost cur = perm@;
        let ghost found = res@;
        proof {
            lemma_order(cur);
        }
        let step = calc_step(problem, perm.as_slice());
        if step <= step_min {
            if step < step_min {
                res = Vec::new();
            }
            res.push(copy_order(&perm));
            step_min = step;
        }
        proof {
            assert forall|p: Seq<usize>| #[trigger] orders_of(res@).contains(p) <==> is_order(p) && (lex_lt(p, cur) || p == cur) && tour(
                start,
                rooms,
                p,
            ) == step_min by {
                if orders_of(res@).contains(p) {
                    let i = choose|i: int| 0 <= i < orders_of(res@).len() && orders_of(res@)[i] == p;
                    assert(res@[i]@ == p);
                    if i < found.len() && res@.len() > 1 {
                        assert(res@[i] == found[i]);
                    }
                }
                if is_order(p) && (lex_lt(p, cur) || p == cur) && tour(start, rooms, p) == step_min {
                    if p == cur {
                        assert(orders_of(res@)[res@.len() - 1] == p);
                    } else {
                        assert(orders_of(found).contains(p));
                        let i = choose|i: int| 0 <= i < orders_of(found).len() && orders_of(found)[i] == p;
                        assert(res@[i] == found[i]);
                        assert(orders_of(res@)[i] == p);
                    }
                }
            }
        }
        if !next_permutation(&mut perm) {
            proof {
                assert forall|p: Seq<usize>| is_order(p) implies lex_lt(p, cur) || p == cur by {
                    lemma_order(p);
                    lemma_order_last(cur, p);
                    lemma_order_total(cur, p);
                }
                assert forall|i: int, j: int| 0 <= i < j < res@.len() implies lex_lt(#[trigger] res@[i]@, #[trigger] res@[j]@) by {
                    if j < found.len() && res@.len() == found.len() {
                    } else if res@.len() == found.len() + 1 {
                        assert(res@[i] == found[i]);
                        if j < found.len() {
                            assert(res@[j] == found[j]);
                        }
                    }
                }
            }
            return (res, step_min);
        }
        proof {
            let nxt = perm@;
            lemma_order(nxt);
            lemma_order_rank(cur, nxt);
            lemma_order_rank(nxt, cur);
            assert forall|p: Seq<usize>| is_order(p) && #[trigger] lex_lt(p, nxt) implies lex_lt(p, cur) || p == cur by {
                lemma_order(p);
                lemma_order_total(cur, p);
            }
            assert forall|i: int| 0 <= i < res@.len() implies {
                let p = #[trigger] res@[i]@;
                is_order(p) && lex_lt(p, nxt) && tour(start, rooms, p) == step_min
            } by {
                let p = res@[i]@;
                assert(orders_of(res@)[i] == p);
                assert(orders_of(res@).contains(p));
                lemma_order(p);
                if p != cur {
                    lemma_order_trans(p, cur, nxt);
                }
            }
            assert forall|i: int, j: int| 0 <= i < j < res@.len() implies lex_lt(#[trigger] res@[i]@, #[trigger] res@[j]@) by {
                if res@.len() == found.len() + 1 {
                    assert(res@[i] == found[i]);
                    if j < found.len() {
                        assert(res@[j] == found[j]);
                    }
                }
            }
            assert forall|p: Seq<usize>|
                is_order(p) && #[trigger] lex_lt(p, nxt) && tour(start, rooms, p) == step_min implies orders_of(res@).contains(
                p,
            ) by {
                assert(lex_lt(p, cur) || p == cur);
            }
        }
    }
}

} // verus!
