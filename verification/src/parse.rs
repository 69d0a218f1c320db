//! The map loader: a header line `"W H"` of two decimal numbers, then `H`
//! rows of tile characters. Unrecognized characters in a row are dropped,
//! so a parsed row may be shorter than the declared width.

use vstd::prelude::*;

use crate::grid::grid_of;
use crate::tile::Tile;

verus! {

/// Why loading a map failed.
#[derive(Clone, Copy, Debug, PartialEq, Eq, Structural)]
pub enum ParseError {
    /// The header line does not hold two decimal numbers that fit the
    /// machine's word size.
    MalformedHeader,
    /// Fewer map rows were supplied than the header declared.
    InsufficientRows,
}

/// The whitespace that separates the header's tokens.
pub open spec fn is_space_char(c: char) -> bool {
    c == ' ' || c == '\t' || c == '\r' || c == '\n'
}

/// A decimal digit: the code points of `'0'` through `'9'`.
pub open spec fn is_digit_char(c: char) -> bool {
    48 <= c as u32 && c as u32 <= 57
}

/// The numeric value of a digit character.
pub open spec fn digit_of(c: char) -> int {
    c as u32 - 48
}

/// The first index at or after `i` holding a non-space character, or the
/// length if there is none.
pub open spec fn skip_spaces(s: Seq<char>, i: int) -> int
    decreases s.len() - i,
    when 0 <= i <= s.len()
{
    if i >= s.len() {
        s.len() as int
    } else if is_space_char(s[i]) {
        skip_spaces(s, i + 1)
    } else {
        i
    }
}

/// The first index at or after `i` holding a space character, or the
/// length if there is none: the end of the token that begins at `i`.
pub open spec fn token_end(s: Seq<char>, i: int) -> int
    decreases s.len() - i,
    when 0 <= i <= s.len()
{
    if i >= s.len() {
        s.len() as int
    } else if is_space_char(s[i]) {
        i
    } else {
        token_end(s, i + 1)
    }
}

/// Every character of `s[i..j]` is a decimal digit.
pub open spec fn all_digits(s: Seq<char>, i: int, j: int) -> bool {
    forall|k: int| i <= k < j ==> is_digit_char(#[trigger] s[k])
}

/// The value of the decimal numeral `s[i..j]`.
pub open spec fn digits_value(s: Seq<char>, i: int, j: int) -> int
    decreases j - i,
{
    if j <= i {
        0
    } else {
        digits_value(s, i, j - 1) * 10 + digit_of(s[j - 1])
    }
}

/// What the header line means: its first two whitespace-separated tokens
/// read as decimal numerals `(width, height)`, or nothing when a token is
/// missing or holds a non-digit. Anything after the second token is
/// ignored.
pub open spec fn spec_header(s: Seq<char>) -> Option<(int, int)> {
    let a0 = skip_spaces(s, 0);
    let a1 = token_end(s, a0);
    let b0 = skip_spaces(s, a1);
    let b1 = token_end(s, b0);
    if a0 < a1 && b0 < b1 && all_digits(s, a0, a1) && all_digits(s, b0, b1) {
        Some((digits_value(s, a0, a1), digits_value(s, b0, b1)))
    } else {
        None
    }
}

/// The header means a pair of numbers and both fit in `usize`.
pub open spec fn header_ok(s: Seq<char>) -> bool {
    spec_header(s) matches Some(wh) && wh.0 <= usize::MAX as int && wh.1 <= usize::MAX as int
}

/// What one map row means: its characters decoded in order, unrecognized
/// ones dropped.
pub open spec fn spec_row(s: Seq<char>) -> Seq<Tile>
    decreases s.len(),
{
    if s.len() == 0 {
        Seq::empty()
    } else {
        let rest = spec_row(s.drop_last());
        match Tile::spec_from_char(s.last()) {
            Some(t) => rest.push(t),
            None => rest,
        }
    }
}

proof fn lemma_digits_value_nonneg(s: Seq<char>, i: int, j: int)
    requires
        all_digits(s, i, j),
    ensures
        digits_value(s, i, j) >= 0,
    decreases j - i,
{
    if j > i {
        lemma_digits_value_nonneg(s, i, j - 1);
    }
}

proof fn lemma_digits_value_monotone(s: Seq<char>, i: int, j1: int, j2: int)
    requires
        i <= j1 <= j2,
        all_digits(s, i, j2),
    ensures
        digits_value(s, i, j1) <= digits_value(s, i, j2),
    decreases j2 - j1,
{
    if j1 < j2 {
        lemma_digits_value_monotone(s, i, j1, j2 - 1);
        lemma_digits_value_nonneg(s, i, j2 - 1);
    }
}

fn is_space(c: char) -> (r: bool)
    ensures
        r == is_space_char(c),
{
    c == ' ' || c == '\t' || c == '\r' || c == '\n'
}

fn skip_spaces_exec(line: &Vec<char>, start: usize) -> (r: usize)
    requires
        start <= line@.len(),
    ensures
        start <= r <= line@.len(),
        r as int == skip_spaces(line@, start as int),
{
    let mut i = start;
    while i < line.len() && is_space(line[i])
        invariant
            start <= i <= line@.len(),
            skip_spaces(line@, i as int) == skip_spaces(line@, start as int),
        decreases line@.len() - i,
    {
        i = i + 1;
    }
    i
}

fn token_end_exec(line: &Vec<char>, start: usize) -> (r: usize)
    requires
        start <= line@.len(),
    ensures
        start <= r <= line@.len(),
        r as int == token_end(line@, start as int),
{
    let mut i = start;
    while i < line.len() && !is_space(line[i])
        invariant
            start <= i <= line@.len(),
            token_end(line@, i as int) == token_end(line@, start as int),
        decreases line@.len() - i,
    {
        i = i + 1;
    }
    i
}

/// Read the numeral `line[start..end]`, or nothing when the range is
/// empty, holds a non-digit, or names a number too large for `usize`.
fn token_to_usize(line: &Vec<char>, start: usize, end: usize) -> (r: Option<usize>)
    requires
        start <= end <= line@.len(),
    ensures
        match r {
            Some(v) => {
                &&& start < end
                &&& all_digits(line@, start as int, end as int)
                &&& v as int == digits_value(line@, start as int, end as int)
            },
            None => {
                ||| start >= end
                ||| !all_digits(line@, start as int, end as int)
                ||| digits_value(line@, start as int, end as int) > usize::MAX as int
            },
        },
{
    if start >= end {
        return None;
    }
    let mut acc: usize = 0;
    let mut k = start;
    while k < end
        invariant
            start <= k <= end <= line@.len(),
            all_digits(line@, start as int, k as int),
            acc as int == digits_value(line@, start as int, k as int),
        decreases end - k,
    {
        let c = line[k];
        let u = c as u32;
        if u < 48 || u > 57 {
            assert(!is_digit_char(line@[k as int]));
            return None;
        }
        let d = (u - 48) as usize;
        assert(is_digit_char(line@[k as int]));
        assert(d as int == digit_of(line@[k as int]));
        let shifted = match acc.checked_mul(10) {
            Some(x) => x,
            None => {
                proof {
                    if all_digits(line@, start as int, end as int) {
                        lemma_digits_value_nonneg(line@, start as int, k as int);
                        lemma_digits_value_monotone(
                            line@,
                            start as int,
                            k as int + 1,
                            end as int,
                        );
                    }
                }
                return None;
            },
        };
        let next = match shifted.checked_add(d) {
            Some(x) => x,
            None => {
                proof {
                    if all_digits(line@, start as int, end as int) {
                        lemma_digits_value_nonneg(line@, start as int, k as int);
                        lemma_digits_value_monotone(
                            line@,
                            start as int,
                            k as int + 1,
                            end as int,
                        );
                    }
                }
                return None;
            },
        };
        acc = next;
        k = k + 1;
    }
    Some(acc)
}

/// Parse the header line `"W H"`.
///
/// Succeeds exactly when the line's first two whitespace-separated tokens
/// are decimal numerals whose values fit in `usize`; anything after them
/// is ignored. Everything else is a malformed header.
pub fn parse_header(line: &Vec<char>) -> (r: Result<(usize, usize), ParseError>)
    ensures
        r is Ok <==> header_ok(line@),
        r matches Ok(wh) ==> spec_header(line@) == Some((wh.0 as int, wh.1 as int)),
        r matches Err(e) ==> e == ParseError::MalformedHeader,
{
    let a0 = skip_spaces_exec(line, 0);
    let a1 = token_end_exec(line, a0);
    let b0 = skip_spaces_exec(line, a1);
    let b1 = token_end_exec(line, b0);
    let w = token_to_usize(line, a0, a1);
    let h = token_to_usize(line, b0, b1);
    match (w, h) {
        (Some(w), Some(h)) => Ok((w, h)),
        _ => Err(ParseError::MalformedHeader),
    }
}

/// Decode one row of the map, dropping unrecognized characters.
pub fn parse_row(line: &Vec<char>) -> (r: Vec<Tile>)
    ensures
        r@ == spec_row(line@),
{
    let mut r: Vec<Tile> = Vec::new();
    let mut i: usize = 0;
    while i < line.len()
        invariant
            i <= line@.len(),
            r@ == spec_row(line@.take(i as int)),
        decreases line@.len() - i,
    {
        proof {
            assert(line@.take(i as int + 1).drop_last() =~= line@.take(i as int));
            assert(line@.take(i as int + 1).last() == line@[i as int]);
        }
        match Tile::from_char(line[i]) {
            Some(t) => r.push(t),
            None => (),
        }
        i = i + 1;
    }
    proof {
        assert(line@.take(line@.len() as int) =~= line@);
    }
    r
}

/// Decode the map's rows: the first `height` lines, each parsed by
/// `parse_row`. Fails exactly when fewer than `height` lines were given;
/// lines beyond `height` are ignored.
pub fn parse_map(lines: &Vec<Vec<char>>, height: usize) -> (r: Result<
    Vec<Vec<Tile>>,
    ParseError,
>)
    ensures
        r is Ok <==> lines@.len() >= height,
        r matches Ok(m) ==> {
            &&& m@.len() == height
            &&& forall|i: int|
                0 <= i < height ==> grid_of(m@)[i] == spec_row(lines@[i]@)
        },
        r matches Err(e) ==> e == ParseError::InsufficientRows,
{
    if lines.len() < height {
        return Err(ParseError::InsufficientRows);
    }
    let mut m: Vec<Vec<Tile>> = Vec::new();
    let mut i: usize = 0;
    while i < height
        invariant
            i <= height <= lines@.len(),
            m@.len() == i,
            forall|j: int| 0 <= j < i ==> grid_of(m@)[j] == spec_row(lines@[j]@),
        decreases height - i,
    {
        let row = parse_row(&lines[i]);
        let ghost prev = m@;
        m.push(row);
        proof {
            assert forall|j: int| 0 <= j < i as int + 1 implies grid_of(m@)[j] == spec_row(
                lines@[j]@,
            ) by {
                if j < i as int {
                    assert(m@[j] == prev[j]);
                    assert(grid_of(prev)[j] == spec_row(lines@[j]@));
                } else {
                    assert(m@[j] == row);
                }
            }
        }
        i = i + 1;
    }
    Ok(m)
}

} // verus!
