//! The text form of a board.
//!
//! The first line holds the actor's column and row. Eight lines of eight
//! characters follow, one character for each cell: `.` for an empty cell,
//! `^`, `v`, `<` and `>` for the rotators, `#` for a wall and a digit for a
//! piece of that kind.

use crate::board::{Board, BoardView};
use crate::cells::{is_rotator, DOWN, EMPTY, LEFT, RIGHT, UP, WALL};
use crate::grid::{col, row};
use crate::text::{is_space, number, numbers, numbers_from, read_numbers, word_end, ParseError};
use vstd::prelude::*;
use vstd::string::StringSliceAdditionalSpecFns;

verus! {

/// The code can be written: it is a digit's value, empty, a rotator or a
/// wall.
pub open spec fn displayable(c: u8) -> bool {
    c <= 9 || c == EMPTY || is_rotator(c) || c == WALL
}

/// The byte with which a code is written.
pub open spec fn cell_byte(c: u8) -> u8 {
    if c == EMPTY {
        0x2e
    } else if c == UP {
        0x5e
    } else if c == DOWN {
        0x76
    } else if c == LEFT {
        0x3c
    } else if c == RIGHT {
        0x3e
    } else if c == WALL {
        0x23
    } else {
        (0x30 + c) as u8
    }
}

/// The code that a byte stands for, if it stands for one.
pub open spec fn byte_cell(x: u8) -> Option<u8> {
    if x == 0x2e {
        Some(EMPTY)
    } else if x == 0x5e {
        Some(UP)
    } else if x == 0x76 {
        Some(DOWN)
    } else if x == 0x3c {
        Some(LEFT)
    } else if x == 0x3e {
        Some(RIGHT)
    } else if x == 0x23 {
        Some(WALL)
    } else if 0x30 <= x && x <= 0x39 {
        Some((x - 0x30) as u8)
    } else {
        None
    }
}

/// The place in the text of a board, behind its first line, where cell `i`
/// is written.
pub open spec fn cell_place(i: int) -> int {
    9 * row(i) + col(i)
}

/// The text of a board: 76 bytes.
pub open spec fn board_text(b: BoardView) -> Seq<u8> {
    Seq::new(
        76,
        |k: int|
            if k == 0 {
                (0x30 + col(b.pos)) as u8
            } else if k == 1 {
                0x20u8
            } else if k == 2 {
                (0x30 + row(b.pos)) as u8
            } else if k == 3 {
                0x0au8
            } else if (k - 4) % 9 == 8 {
                0x0au8
            } else {
                cell_byte(b.cells[8 * ((k - 4) / 9) + (k - 4) % 9])
            },
    )
}

/// Every cell of the board can be written.
pub open spec fn can_be_written(b: BoardView) -> bool {
    b.wf() && forall|i: int| 0 <= i < 64 ==> displayable(#[trigger] b.cells[i])
}

/// The end of the line that begins at `i`: the next line feed, or the end
/// of the text.
pub open spec fn line_end(s: Seq<u8>, i: int) -> int
    decreases s.len() - i,
{
    if i >= s.len() || s[i] == 0x0a {
        i
    } else {
        line_end(s, i + 1)
    }
}

/// The lines of cells have their shape: eight lines of eight bytes, each
/// but the last ended by a line feed, which may end the last one too.
pub open spec fn rows_shaped(body: Seq<u8>) -> bool {
    &&& (body.len() == 71 || body.len() == 72)
    &&& forall|k: int| 0 <= k < body.len() ==> (#[trigger] body[k] == 0x0a) == (k % 9 == 8)
}

/// Every cell is written with a byte that stands for a code.
pub open spec fn rows_readable(body: Seq<u8>) -> bool {
    forall|i: int| 0 <= i < 64 ==> byte_cell(#[trigger] body[cell_place(i)]).is_some()
}

/// The cells that the lines of cells stand for.
pub open spec fn rows_cells(body: Seq<u8>) -> Seq<u8> {
    Seq::new(64, |i: int| byte_cell(body[cell_place(i)]).unwrap())
}

/// What a text stands for. The first line must hold two numbers below 8,
/// the actor's column and row, with white space between them; the lines of
/// cells must follow.
pub open spec fn parse_board(s: Seq<u8>) -> Result<BoardView, ParseError> {
    let h = line_end(s, 0);
    if h >= s.len() {
        Err(ParseError::LineCount)
    } else {
        match numbers(s.take(h)) {
            None => Err(ParseError::BadInteger),
            Some(v) => if v.len() != 2 || v[0] >= 8 || v[1] >= 8 {
                Err(ParseError::BadInteger)
            } else {
                let body = s.skip(h + 1);
                if !rows_shaped(body) {
                    Err(ParseError::LineCount)
                } else if !rows_readable(body) {
                    Err(ParseError::BadCharacter)
                } else {
                    Ok(BoardView { pos: 8 * v[1] + v[0], cells: rows_cells(body) })
                }
            },
        }
    }
}

/// A line ends within the text and holds no line feed.
pub proof fn lemma_line_end(s: Seq<u8>, i: int)
    requires
        0 <= i <= s.len(),
    ensures
        i <= line_end(s, i) <= s.len(),
        forall|k: int| i <= k < line_end(s, i) ==> #[trigger] s[k] != 0x0a,
        line_end(s, i) < s.len() ==> s[line_end(s, i)] == 0x0a,
    decreases s.len() - i,
{
    if i < s.len() && s[i] != 0x0a {
        lemma_line_end(s, i + 1);
    }
}

/// A line ends at the first line feed.
pub proof fn lemma_line_end_at(s: Seq<u8>, i: int, h: int)
    requires
        0 <= i <= h <= s.len(),
        forall|k: int| i <= k < h ==> #[trigger] s[k] != 0x0a,
        h < s.len() ==> s[h] == 0x0a,
    ensures
        line_end(s, i) == h,
    decreases h - i,
{
    if i < h {
        lemma_line_end_at(s, i + 1, h);
    }
}

/// The byte that stands for a code, if it stands for one.
pub fn read_cell(x: u8) -> (r: Option<u8>)
    ensures
        r == byte_cell(x),
{
    if x == 0x2e {
        Some(EMPTY)
    } else if x == 0x5e {
        Some(UP)
    } else if x == 0x76 {
        Some(DOWN)
    } else if x == 0x3c {
        Some(LEFT)
    } else if x == 0x3e {
        Some(RIGHT)
    } else if x == 0x23 {
        Some(WALL)
    } else if 0x30 <= x && x <= 0x39 {
        Some(x - 0x30)
    } else {
        None
    }
}

impl Board {
    /// Reads a board from its text.
    #[verifier::loop_isolation(false)]
    pub fn from_bytes(s: &[u8]) -> (r: Result<Board, ParseError>)
        ensures
            match r {
                Ok(b) => parse_board(s@) == Ok::<BoardView, ParseError>(b@),
                Err(e) => parse_board(s@) == Err::<BoardView, ParseError>(e),
            },
    {
        let mut h: usize = 0;
        while h < s.len() && s[h] != 0x0a
            invariant
                h <= s@.len(),
                forall|k: int| 0 <= k < h ==> #[trigger] s@[k] != 0x0a,
            decreases s@.len() - h,
        {
            h = h + 1;
        }
        proof {
            lemma_line_end_at(s@, 0, h as int);
        }
        if h >= s.len() {
            return Err(ParseError::LineCount);
        }
        let mut head: Vec<u8> = Vec::new();
        let mut k: usize = 0;
        while k < h
            invariant
                k <= h < s@.len(),
                head@ == s@.take(k as int),
            decreases h - k,
        {
            head.push(s[k]);
            assert(head@ =~= s@.take(k + 1));
            k = k + 1;
        }
        let v = match read_numbers(head.as_slice()) {
            Ok(v) => v,
            Err(e) => {
                return Err(ParseError::BadInteger);
            },
        };
        if v.len() != 2 || v[0] >= 8 || v[1] >= 8 {
            return Err(ParseError::BadInteger);
        }
        let start: usize = h + 1;
        let ghost body = s@.skip(h + 1);
        let n: usize = s.len() - start;
        if n != 71 && n != 72 {
            return Err(ParseError::LineCount);
        }
        let mut k: usize = 0;
        while k < n
            invariant
                k <= n,
                n == body.len(),
                start + n == s@.len(),
                body == s@.skip(start as int),
                forall|j: int| 0 <= j < k ==> (#[trigger] body[j] == 0x0a) == (j % 9 == 8),
            decreases n - k,
        {
            let c = s[start + k];
            assert(body[k as int] == c);
            if (c == 0x0a) != (k % 9 == 8) {
                assert(!rows_shaped(body));
                return Err(ParseError::LineCount);
            }
            k = k + 1;
        }
        let mut cells: Vec<u8> = Vec::new();
        let mut i: usize = 0;
        while i < 64
            invariant
                i <= 64,
                n == body.len(),
                n >= 71,
                start + n == s@.len(),
                body == s@.skip(start as int),
                cells@.len() == i,
                forall|j: int| 0 <= j < i ==> byte_cell(#[trigger] body[cell_place(j)]) == Some(cells@[j]),
            decreases 64 - i,
        {
            let p = 9 * (i / 8) + i % 8;
            let c = s[start + p];
            assert(body[cell_place(i as int)] == c);
            match read_cell(c) {
                Some(x) => {
                    cells.push(x);
                },
                None => {
                    assert(rows_shaped(body));
                    assert(!rows_readable(body));
                    return Err(ParseError::BadCharacter);
                },
            }
            i = i + 1;
        }
        proof {
            assert(rows_shaped(body));
            assert(rows_readable(body));
            assert(cells@ =~= rows_cells(body));
        }
        Ok(Board::new(8 * v[1] + v[0], cells.as_slice()))
    }

    /// Reads a board from its text. The text must be exact: wrong lines,
    /// wrong numbers and unknown characters are errors.
    pub fn from_str(s: &str) -> (r: Result<Board, ParseError>)
        ensures
            match r {
                Ok(b) => parse_board(s.spec_bytes()) == Ok::<BoardView, ParseError>(b@),
                Err(e) => parse_board(s.spec_bytes()) == Err::<BoardView, ParseError>(e),
            },
    {
        Board::from_bytes(s.as_bytes())
    }

    /// Whether the board can be written: the actor stands on the grid, and
    /// every cell holds a code that has a character.
    pub fn is_writable(&self) -> (r: bool)
        ensures
            r == can_be_written(self@),
    {
        let n = self.size();
        if self.pos >= 64 {
            return false;
        }
        let mut i: u8 = 0;
        while i < 64
            invariant
                i <= 64,
                self@.cells.len() == 64,
                forall|k: int| 0 <= k < i ==> displayable(#[trigger] self@.cells[k]),
            decreases 64 - i,
        {
            let c = self.cell(i);
            if !(c <= 9 || c == EMPTY || c == UP || c == DOWN || c == LEFT || c == RIGHT || c == WALL) {
                return false;
            }
            i = i + 1;
        }
        true
    }

    /// The text of the board as bytes.
    pub fn to_bytes(&self) -> (r: Vec<u8>)
        requires
            can_be_written(self@),
        ensures
            r@ == board_text(self@),
    {
        let mut r: Vec<u8> = Vec::new();
        r.push(0x30 + self.pos % 8);
        r.push(0x20);
        r.push(0x30 + self.pos / 8);
        r.push(0x0a);
        let ghost t = board_text(self@);
        let mut i: u8 = 0;
        while i < 64
            invariant
                i <= 64,
                t == board_text(self@),
                can_be_written(self@),
                r@.len() == 4 + i + i / 8,
                forall|k: int| 0 <= k < r@.len() ==> r@[k] == t[k],
            decreases 64 - i,
        {
            let c = self.cell(i);
            assert(displayable(self@.cells[i as int]));
            let x: u8 = if c == EMPTY {
                0x2e
            } else if c == UP {
                0x5e
            } else if c == DOWN {
                0x76
            } else if c == LEFT {
                0x3c
            } else if c == RIGHT {
                0x3e
            } else if c == WALL {
                0x23
            } else {
                0x30 + c
            };
            r.push(x);
            if i % 8 == 7 {
                r.push(0x0a);
            }
            i = i + 1;
        }
        assert(r@ =~= t);
        r
    }

    /// The text of the board.
    pub fn to_string(&self) -> (r: String)
        requires
            can_be_written(self@),
        ensures
            r@ == text_chars(board_text(self@)),
    {
        let bytes = self.to_bytes();
        let mut r = String::new();
        let mut i: usize = 0;
        while i < bytes.len()
            invariant
                i <= bytes@.len(),
                r@ == text_chars(bytes@.take(i as int)),
            decreases bytes@.len() - i,
        {
            r.push(bytes[i] as char);
            assert(r@ =~= text_chars(bytes@.take(i + 1)));
            i = i + 1;
        }
        assert(bytes@.take(i as int) =~= bytes@);
        r
    }
}

/// The characters of a text of bytes below 128.
pub open spec fn text_chars(t: Seq<u8>) -> Seq<char> {
    Seq::new(t.len(), |i: int| t[i] as char)
}

/// Appends a character to a string (`String::push`): the string holds the
/// characters it held, and `ch` behind them.
pub assume_specification[ String::push ](s: &mut String, ch: char)
    ensures
        final(s)@ == old(s)@.push(ch),
;

impl core::str::FromStr for Board {
    type Err = ParseError;

    fn from_str(s: &str) -> (r: Result<Self, ParseError>)
        ensures
            match r {
                Ok(b) => parse_board(s.spec_bytes()) == Ok::<BoardView, ParseError>(b@),
                Err(e) => parse_board(s.spec_bytes()) == Err::<BoardView, ParseError>(e),
            },
    {
        Board::from_bytes(s.as_bytes())
    }
}

/// Writing a code and reading the byte gives the code again, and the other
/// way round.
pub proof fn lemma_cell_byte(c: u8, x: u8)
    ensures
        displayable(c) ==> byte_cell(cell_byte(c)) == Some(c) && cell_byte(c) != 0x0a,
        byte_cell(x).is_some() ==> cell_byte(byte_cell(x).unwrap()) == x && displayable(byte_cell(x).unwrap()),
{
}

/// The numbers of a first line of three bytes with a blank in the middle.
proof fn lemma_short_header(hd: Seq<u8>)
    requires
        hd.len() == 3,
        is_space(hd[1]),
    ensures
        numbers(hd) == if is_space(hd[0]) {
            if is_space(hd[2]) {
                Some(Seq::<u8>::empty())
            } else {
                match number(hd.subrange(2, 3)) {
                    Some(y) => Some(seq![y]),
                    None => None,
                }
            }
        } else {
            match number(hd.subrange(0, 1)) {
                None => None,
                Some(x) => if is_space(hd[2]) {
                    Some(seq![x])
                } else {
                    match number(hd.subrange(2, 3)) {
                        Some(y) => Some(seq![x, y]),
                        None => None,
                    }
                },
            }
        },
{
    reveal_with_fuel(numbers_from, 5);
    reveal_with_fuel(word_end, 3);
    assert(numbers_from(hd, 3) == Some(Seq::<u8>::empty()));
    if !is_space(hd[2]) {
        assert(word_end(hd, 2) == 3);
        match number(hd.subrange(2, 3)) {
            Some(y) => {
                assert(seq![y] + Seq::<u8>::empty() =~= seq![y]);
                assert(numbers_from(hd, 2) == Some(seq![y]));
            },
            None => {
                assert(numbers_from(hd, 2).is_none());
            },
        }
    } else {
        assert(numbers_from(hd, 2) == Some(Seq::<u8>::empty()));
    }
    assert(numbers_from(hd, 1) == numbers_from(hd, 2));
    if !is_space(hd[0]) {
        assert(word_end(hd, 0) == 1);
        match number(hd.subrange(0, 1)) {
            Some(x) => {
                match numbers_from(hd, 1) {
                    Some(rest) => {
                        if rest.len() == 0 {
                            assert(seq![x] + rest =~= seq![x]);
                        } else {
                            assert(seq![x] + rest =~= seq![x, rest[0]]);
                        }
                    },
                    None => {},
                }
            },
            None => {},
        }
    }
}

/// The number that a word of one byte stands for.
proof fn lemma_one_digit(w: Seq<u8>)
    requires
        w.len() == 1,
    ensures
        number(w) == if crate::text::is_digit(w[0]) {
            Some((w[0] - 0x30) as u8)
        } else {
            None
        },
{
    reveal_with_fuel(crate::text::decimal, 2);
    assert(w.drop_last().len() == 0);
}

/// The text of a board stands for that board.
pub proof fn lemma_parse_text(b: BoardView)
    requires
        can_be_written(b),
    ensures
        parse_board(board_text(b)) == Ok::<BoardView, ParseError>(b),
{
    let t = board_text(b);
    lemma_line_end_at(t, 0, 3);
    let hd = t.take(3);
    lemma_short_header(hd);
    lemma_one_digit(hd.subrange(0, 1));
    lemma_one_digit(hd.subrange(2, 3));
    let x = col(b.pos) as u8;
    let y = row(b.pos) as u8;
    assert(numbers(hd) == Some(seq![x, y]));
    let body = t.skip(4);
    assert forall|k: int| 0 <= k < body.len() implies (#[trigger] body[k] == 0x0a) == (k % 9 == 8) by {
        assert(body[k] == t[k + 4]);
        if k % 9 != 8 {
            let i = 8 * (k / 9) + k % 9;
            assert(displayable(b.cells[i]));
            lemma_cell_byte(b.cells[i], 0);
        }
    }
    assert forall|i: int| 0 <= i < 64 implies byte_cell(#[trigger] body[cell_place(i)]) == Some(b.cells[i]) by {
        let k = cell_place(i);
        assert(body[k] == t[k + 4]);
        assert(displayable(b.cells[i]));
        lemma_cell_byte(b.cells[i], 0);
    }
    assert(rows_cells(body) =~= b.cells);
}

/// A text that stands for a board and is written in the plain way, with
/// one blank between two digits on its first line and a line feed at its
/// end, is the text of that board.
pub proof fn lemma_text_parse(s: Seq<u8>, b: BoardView)
    requires
        parse_board(s) == Ok::<BoardView, ParseError>(b),
        s.len() == 76,
        s[1] == 0x20,
        s[3] == 0x0a,
    ensures
        board_text(b) == s,
        can_be_written(b),
{
    lemma_line_end(s, 0);
    let h = line_end(s, 0);
    assert(h == 3) by {
        if h > 3 {
            assert(s[3] != 0x0a);
        }
    }
    let hd = s.take(3);
    lemma_short_header(hd);
    lemma_one_digit(hd.subrange(0, 1));
    lemma_one_digit(hd.subrange(2, 3));
    let v = numbers(hd).unwrap();
    assert(v.len() == 2);
    assert(v[0] == (s[0] - 0x30) as u8);
    assert(v[1] == (s[2] - 0x30) as u8);
    let body = s.skip(4);
    let t = board_text(b);
    assert forall|k: int| 0 <= k < 76 implies t[k] == s[k] by {
        if k >= 4 {
            assert(body[k - 4] == s[k]);
            if (k - 4) % 9 != 8 {
                let i = 8 * ((k - 4) / 9) + (k - 4) % 9;
                assert(cell_place(i) == k - 4);
                assert(byte_cell(body[cell_place(i)]).is_some());
                lemma_cell_byte(0, body[k - 4]);
            }
        }
    }
    assert(t =~= s);
    assert forall|i: int| 0 <= i < 64 implies displayable(#[trigger] b.cells[i]) by {
        assert(byte_cell(body[cell_place(i)]).is_some());
        lemma_cell_byte(0, body[cell_place(i)]);
    }
}

} // verus!
