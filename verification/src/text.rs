//! Reading numbers from text: words of decimal digits with white space
//! between them.

use vstd::prelude::*;

verus! {

/// Why a text could not be read.
#[derive(Debug, Clone, Copy, PartialEq, Eq, Structural)]
pub enum ParseError {
    /// The text does not have the lines it should have, or a line does not
    /// have the length it should have.
    LineCount,
    /// A word is not a decimal number, or the number is too large, or a
    /// number is missing or one too many.
    BadInteger,
    /// A cell is written with a character that stands for nothing.
    BadCharacter,
    /// A mark that the text must hold is not there.
    Missing,
}

/// The byte is white space: a blank, a tab, a line feed, a vertical tab, a
/// form feed or a carriage return.
pub open spec fn is_space(c: u8) -> bool {
    c == 0x20 || (0x09 <= c && c <= 0x0d)
}

/// The byte is a decimal digit.
pub open spec fn is_digit(c: u8) -> bool {
    0x30 <= c && c <= 0x39
}

/// The place behind the word that begins at `i`: the next white space, or
/// the end of the text.
pub open spec fn word_end(s: Seq<u8>, i: int) -> int
    decreases s.len() - i,
{
    if i >= s.len() || is_space(s[i]) {
        i
    } else {
        word_end(s, i + 1)
    }
}

/// The number that the digits of `w` spell, or `None` if a byte of `w` is
/// not a digit. No digits spell 0.
pub open spec fn decimal(w: Seq<u8>) -> Option<int>
    decreases w.len(),
{
    if w.len() == 0 {
        Some(0)
    } else {
        match decimal(w.drop_last()) {
            Some(v) => if is_digit(w.last()) {
                Some(10 * v + (w.last() - 0x30))
            } else {
                None
            },
            None => None,
        }
    }
}

/// The byte that the word `w` stands for: `w` is one or more decimal digits
/// and spells a number of at most 255.
pub open spec fn number(w: Seq<u8>) -> Option<u8> {
    match decimal(w) {
        Some(v) => if w.len() > 0 && v <= 255 {
            Some(v as u8)
        } else {
            None
        },
        None => None,
    }
}

/// The numbers that the words of `s` from `i` on stand for, or `None` if
/// one of the words stands for no number.
pub open spec fn numbers_from(s: Seq<u8>, i: int) -> Option<Seq<u8>>
    decreases s.len() - i,
{
    if i < 0 || i >= s.len() {
        Some(Seq::empty())
    } else if is_space(s[i]) {
        numbers_from(s, i + 1)
    } else {
        let j = word_end(s, i);
        if j <= i || j > s.len() {
            None
        } else {
            match number(s.subrange(i, j)) {
                Some(v) => match numbers_from(s, j) {
                    Some(rest) => Some(seq![v] + rest),
                    None => None,
                },
                None => None,
            }
        }
    }
}

/// The numbers that the words of `s` stand for.
pub open spec fn numbers(s: Seq<u8>) -> Option<Seq<u8>> {
    numbers_from(s, 0)
}

/// A word ends within the text, behind its beginning if it begins with
/// anything but white space; it holds no white space, and white space or the
/// end of the text follows it.
pub proof fn lemma_word_end(s: Seq<u8>, i: int)
    requires
        0 <= i <= s.len(),
    ensures
        i <= word_end(s, i) <= s.len(),
        i < s.len() && !is_space(s[i]) ==> i < word_end(s, i),
        forall|k: int| i <= k < word_end(s, i) ==> !is_space(#[trigger] s[k]),
        word_end(s, i) < s.len() ==> is_space(s[word_end(s, i)]),
    decreases s.len() - i,
{
    if i < s.len() && !is_space(s[i]) {
        lemma_word_end(s, i + 1);
    }
}

/// A word ends where a word that begins within it ends.
pub proof fn lemma_word_end_same(s: Seq<u8>, i: int, k: int)
    requires
        0 <= i <= k <= word_end(s, i),
        k <= s.len(),
    ensures
        word_end(s, k) == word_end(s, i),
    decreases k - i,
{
    if i < k {
        lemma_word_end(s, i);
        lemma_word_end_same(s, i + 1, k);
    }
}

/// What the beginning of a word spells bounds what the word spells: once
/// a byte is no digit the word spells nothing, and the number never falls
/// when digits follow.
pub proof fn lemma_decimal_grows(w: Seq<u8>, k: int)
    requires
        0 <= k <= w.len(),
    ensures
        decimal(w.take(k)).is_none() ==> decimal(w).is_none(),
        decimal(w.take(k)).is_some() && decimal(w).is_some() ==> decimal(w).unwrap() >= decimal(w.take(k)).unwrap() >= 0,
    decreases w.len() - k,
{
    if k < w.len() {
        assert(w.take(k + 1).drop_last() =~= w.take(k));
        lemma_decimal_grows(w, k + 1);
        lemma_decimal_nonneg(w.take(k));
    } else {
        assert(w.take(k) =~= w);
        lemma_decimal_nonneg(w);
    }
}

/// Digits spell no negative number.
pub proof fn lemma_decimal_nonneg(w: Seq<u8>)
    ensures
        decimal(w).is_some() ==> decimal(w).unwrap() >= 0,
    decreases w.len(),
{
    if w.len() > 0 {
        lemma_decimal_nonneg(w.drop_last());
    }
}

/// Reads the word `s[i..j]` as a number.
pub fn read_number(s: &[u8], i: usize, j: usize) -> (r: Option<u8>)
    requires
        i <= j <= s@.len(),
    ensures
        r == number(s@.subrange(i as int, j as int)),
{
    let ghost w = s@.subrange(i as int, j as int);
    if i == j {
        return None;
    }
    let mut v: u32 = 0;
    let mut k: usize = i;
    proof {
        assert(w.take(0) =~= Seq::<u8>::empty());
    }
    while k < j
        invariant
            i <= k <= j <= s@.len(),
            w == s@.subrange(i as int, j as int),
            decimal(w.take(k - i)) == Some(v as int),
            v <= 255,
        decreases j - k,
    {
        let c = s[k];
        proof {
            assert(w.take(k - i + 1).drop_last() =~= w.take(k - i));
            assert(w.take(k - i + 1).last() == c);
            lemma_decimal_grows(w, k - i + 1);
        }
        if c < 0x30 || c > 0x39 {
            return None;
        }
        v = 10 * v + (c - 0x30) as u32;
        if v > 255 {
            return None;
        }
        k = k + 1;
    }
    proof {
        assert(w.take(j - i) =~= w);
    }
    Some(v as u8)
}

/// Reads the numbers that the words of `s` stand for.
pub fn read_numbers(s: &[u8]) -> (r: Result<Vec<u8>, ParseError>)
    ensures
        match r {
            Ok(v) => numbers(s@) == Some(v@),
            Err(e) => numbers(s@).is_none() && e == ParseError::BadInteger,
        },
{
    let mut res: Vec<u8> = Vec::new();
    let mut i: usize = 0;
    while i < s.len()
        invariant
            i <= s@.len(),
            numbers(s@) == match numbers_from(s@, i as int) {
                Some(rest) => Some(res@ + rest),
                None => None,
            },
        decreases s@.len() - i,
    {
        let c = s[i];
        if c == 0x20 || (0x09 <= c && c <= 0x0d) {
            i = i + 1;
        } else {
            let mut j: usize = i + 1;
            proof {
                lemma_word_end(s@, i as int);
            }
            while j < s.len() && !(s[j] == 0x20 || (0x09 <= s[j] && s[j] <= 0x0d))
                invariant
                    i < j <= s@.len(),
                    j <= word_end(s@, i as int),
                    forall|k: int| i <= k < j ==> !is_space(#[trigger] s@[k]),
                decreases s@.len() - j,
            {
                proof {
                    lemma_word_end_same(s@, i as int, j as int);
                    lemma_word_end(s@, j as int);
                }
                j = j + 1;
            }
            proof {
                lemma_word_end_same(s@, i as int, j as int);
                lemma_word_end(s@, j as int);
                assert(word_end(s@, i as int) == j);
            }
            match read_number(s, i, j) {
                Some(v) => {
                    proof {
                        let rest = numbers_from(s@, j as int);
                        if rest.is_some() {
                            assert(res@.push(v) + rest.unwrap() =~= res@ + (seq![v] + rest.unwrap()));
                        }
                    }
                    res.push(v);
                },
                None => {
                    return Err(ParseError::BadInteger);
                },
            }
            i = j;
        }
    }
    proof {
        assert(res@ + Seq::<u8>::empty() =~= res@);
    }
    Ok(res)
}

} // verus!
