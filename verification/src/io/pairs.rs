//! The body of both formats: one pair of vertices per line, after the
//! header, with blank and comment lines passed over.
use vstd::prelude::*;
use crate::io::lex::{blank, find_visible, first_visible, is_space};
use crate::io::utf8::decoded;
use vstd::utf8::{decode_utf8, valid_utf8};
use crate::io::syntax::{find_line_end, line_at, line_end, lemma_line_end, lemma_line_end_prefix, lemma_line_end_shift, lemma_number_at_append, number_at, read_line, read_number, Field, ReadError};

verus! {

/// The two text formats.
#[derive(Debug, Clone, Copy, PartialEq, Eq)]
pub enum Format {
    /// Lines `u v` of 0-based vertices; comments start with `#` or `%`.
    EdgeList,
    /// Lines `row col` of 1-based indices; comments start with `%`.
    MatrixMarket,
}

/// A line the reader passes over: blank, or starting (after leading spaces)
/// with a comment mark of the format.
pub open spec fn passed_over(f: Format, s: Seq<char>) -> bool {
    ||| blank(s)
    ||| first_visible(s) == '%'
    ||| f == Format::EdgeList && first_visible(s) == '#'
}

/// Whether the line is passed over.
pub fn skip_line(f: Format, s: &Vec<char>) -> (b: bool)
    ensures
        b == passed_over(f, s@),
{
    let a = find_visible(s, 0);
    if a >= s.len() {
        return true;
    }
    let c = s[a];
    c == '%' || (matches!(f, Format::EdgeList) && c == '#')
}

/// The pair on a body line: two vertices for an edge list; row and column,
/// which must not be zero, made 0-based for Matrix Market.
pub open spec fn pair_numbers(f: Format, s: Seq<char>) -> Result<(u32, u32), ReadError> {
    let (first, second) = if f == Format::EdgeList {
        (Field::U, Field::V)
    } else {
        (Field::Row, Field::Col)
    };
    match number_at(s, 0, u32::MAX as nat, first) {
        Err(x) => Err(x),
        Ok((a, e)) => match number_at(s, e, u32::MAX as nat, second) {
            Err(x) => Err(x),
            Ok((b, _)) => if f == Format::EdgeList {
                Ok((a as u32, b as u32))
            } else if a == 0 || b == 0 {
                Err(ReadError::ZeroIndex)
            } else {
                Ok(((a - 1) as u32, (b - 1) as u32))
            },
        },
    }
}

/// Words after the two numbers of a body line are not read: a line that
/// reads as a pair reads as the same pair with a space and any text after it.
pub proof fn lemma_pair_numbers_ignore_rest(f: Format, s: Seq<char>, u: Seq<char>)
    requires
        pair_numbers(f, s) is Ok,
        u.len() > 0,
        is_space(u[0]),
    ensures
        pair_numbers(f, s + u) == pair_numbers(f, s),
{
    let (first, second) = if f == Format::EdgeList {
        (Field::U, Field::V)
    } else {
        (Field::Row, Field::Col)
    };
    lemma_number_at_append(s, u, 0, u32::MAX as nat, first);
    if let Ok((_, e)) = number_at(s, 0, u32::MAX as nat, first) {
        lemma_number_at_append(s, u, e, u32::MAX as nat, second);
    }
}

/// Moving to the next line leaves less input.
#[via_fn]
proof fn pairs_from_decreases(f: Format, b: Seq<u8>, i: int) {
    if 0 <= i < b.len() {
        lemma_line_end(b, i);
    }
}

/// The pairs on the lines from `i` on, in order, or the first error met.
pub open spec fn pairs_from(f: Format, b: Seq<u8>, i: int) -> Result<Seq<(u32, u32)>, ReadError>
    decreases b.len() + 1 - i,
    via pairs_from_decreases
{
    if i < 0 || i >= b.len() {
        Ok(Seq::empty())
    } else {
        let e = line_end(b, i);
        match line_at(b, i) {
            None => Err(ReadError::InvalidUtf8),
            Some(s) => if passed_over(f, s) {
                pairs_from(f, b, e + 1)
            } else {
                match pair_numbers(f, s) {
                    Err(x) => Err(x),
                    Ok(p) => match pairs_from(f, b, e + 1) {
                        Err(x) => Err(x),
                        Ok(rest) => Ok(seq![p] + rest),
                    },
                }
            },
        }
    }
}

/// The pairs read so far in front of the rest, or the first error met.
pub open spec fn with_prefix(
    acc: Seq<(u32, u32)>,
    r: Result<Seq<(u32, u32)>, ReadError>,
) -> Result<Seq<(u32, u32)>, ReadError> {
    match r {
        Ok(rest) => Ok(acc + rest),
        Err(x) => Err(x),
    }
}

/// Reads the pair on a body line.
fn read_pair(f: Format, s: &Vec<char>) -> (r: Result<(u32, u32), ReadError>)
    ensures
        r == pair_numbers(f, s@),
{
    let (first, second) = match f {
        Format::EdgeList => (Field::U, Field::V),
        Format::MatrixMarket => (Field::Row, Field::Col),
    };
    let (a, after) = match read_number(s, 0, u32::MAX as u64, first) {
        Ok(x) => x,
        Err(x) => {
            return Err(x);
        },
    };
    let (b, _) = match read_number(s, after, u32::MAX as u64, second) {
        Ok(x) => x,
        Err(x) => {
            return Err(x);
        },
    };
    match f {
        Format::EdgeList => Ok((a as u32, b as u32)),
        Format::MatrixMarket => {
            if a == 0 || b == 0 {
                Err(ReadError::ZeroIndex)
            } else {
                Ok(((a - 1) as u32, (b - 1) as u32))
            }
        },
    }
}

/// Reads the pairs on the lines from `start` on.
pub fn read_pairs(f: Format, b: &[u8], start: usize) -> (r: Result<Vec<(u32, u32)>, ReadError>)
    requires
        start <= b@.len() + 1,
        b@.len() <= isize::MAX,
    ensures
        match pairs_from(f, b@, start as int) {
            Ok(p) => r matches Ok(v) && v@ == p && v@.len() <= b@.len(),
            Err(x) => r == Err::<Vec<(u32, u32)>, ReadError>(x),
        },
{
    let mut acc: Vec<(u32, u32)> = Vec::new();
    let mut pos = start;
    proof {
        assert(Seq::<(u32, u32)>::empty() + pairs_from(f, b@, pos as int)->Ok_0 =~= pairs_from(f, b@, pos as int)->Ok_0);
    }
    while pos < b.len()
        invariant
            pos <= b@.len() + 1,
            b@.len() <= isize::MAX,
            acc@.len() <= pos,
            acc@.len() <= b@.len(),
            pairs_from(f, b@, start as int) == with_prefix(acc@, pairs_from(f, b@, pos as int)),
        decreases b@.len() + 1 - pos,
    {
        let e = find_line_end(b, pos);
        match read_line(b, pos, e) {
            None => {
                return Err(ReadError::InvalidUtf8);
            },
            Some(s) => {
                if skip_line(f, &s) {
                    pos = e + 1;
                } else {
                    let p = match read_pair(f, &s) {
                        Ok(p) => p,
                        Err(x) => {
                            return Err(x);
                        },
                    };
                    let ghost acc0 = acc@;
                    acc.push(p);
                    proof {
                        match pairs_from(f, b@, e + 1) {
                            Ok(rest) => {
                                assert(acc0 + (seq![p] + rest) =~= acc@ + rest);
                            },
                            Err(_) => {},
                        }
                    }
                    pos = e + 1;
                }
            },
        }
    }
    proof {
        assert(acc@ + Seq::<(u32, u32)>::empty() =~= acc@);
    }
    Ok(acc)
}

/// The pairs of a first part of the text, then (when it reads) the pairs
/// after it.
pub open spec fn then_pairs(
    first: Result<Seq<(u32, u32)>, ReadError>,
    rest: Result<Seq<(u32, u32)>, ReadError>,
) -> Result<Seq<(u32, u32)>, ReadError> {
    match first {
        Ok(a) => with_prefix(a, rest),
        Err(x) => Err(x),
    }
}

/// Reading the body across a line boundary: the lines of a prefix that ends
/// with a line break, then the lines after it.
pub proof fn lemma_pairs_split(f: Format, p: Seq<u8>, x: Seq<u8>, i: int)
    requires
        p.len() > 0,
        p.last() == 10,
        0 <= i <= p.len(),
    ensures
        pairs_from(f, p + x, i) == then_pairs(pairs_from(f, p, i), pairs_from(f, p + x, p.len() as int)),
    decreases p.len() - i,
{
    if i == p.len() {
        match pairs_from(f, p + x, i) {
            Ok(r) => {
                assert(Seq::<(u32, u32)>::empty() + r =~= r);
            },
            Err(_) => {},
        }
    } else {
        lemma_line_end_prefix(p, x, i);
        let e = line_end(p, i);
        lemma_pairs_split(f, p, x, e + 1);
        match line_at(p, i) {
            None => {},
            Some(s) => {
                if !passed_over(f, s) {
                    match pair_numbers(f, s) {
                        Err(_) => {},
                        Ok(q) => {
                            match pairs_from(f, p, e + 1) {
                                Ok(a) => {
                                    match pairs_from(f, p + x, p.len() as int) {
                                        Ok(r) => {
                                            assert(seq![q] + (a + r) =~= (seq![q] + a) + r);
                                        },
                                        Err(_) => {},
                                    }
                                },
                                Err(_) => {},
                            }
                        },
                    }
                }
            },
        }
    }
}

/// Reading the body of the text after a prefix is reading that text.
pub proof fn lemma_pairs_shift(f: Format, p: Seq<u8>, x: Seq<u8>, j: int)
    requires
        0 <= j <= x.len() + 1,
    ensures
        pairs_from(f, p + x, p.len() + j) == pairs_from(f, x, j),
    decreases x.len() + 1 - j,
{
    if j < x.len() {
        lemma_line_end_shift(p, x, j);
        lemma_line_end(x, j);
        lemma_pairs_shift(f, p, x, line_end(x, j) + 1);
    }
}

/// A line break as a byte.
pub open spec fn line_break() -> Seq<u8> {
    seq![10u8]
}

/// A line of UTF-8 text without line break that is blank, or starts (after
/// leading spaces) with `%`, or, for an edge list, with `#`, changes nothing
/// where it stands at the start of the body: the pairs read are those of the
/// text after it.
pub proof fn lemma_pairs_skip_line(f: Format, line: Seq<u8>, x: Seq<u8>)
    requires
        forall|k: int| 0 <= k < line.len() ==> #[trigger] line[k] != 10,
        valid_utf8(line),
        blank(decode_utf8(line)) || first_visible(decode_utf8(line)) == '%' || (f == Format::EdgeList
            && first_visible(decode_utf8(line)) == '#'),
    ensures
        pairs_from(f, line + line_break() + x, 0) == pairs_from(f, x, 0),
{
    let l = line + line_break();
    lemma_skipped_line(f, line, x);
    lemma_pairs_shift(f, l, x, 0);
}

/// A line of UTF-8 text without line break, with a line break after it,
/// placed before a text: it is the first line, it reads as its decoded
/// characters, and (when blank or starting with a comment mark of the
/// format) it is passed over.
pub proof fn lemma_skipped_line(f: Format, line: Seq<u8>, x: Seq<u8>)
    requires
        forall|k: int| 0 <= k < line.len() ==> #[trigger] line[k] != 10,
        valid_utf8(line),
        blank(decode_utf8(line)) || first_visible(decode_utf8(line)) == '%' || (f == Format::EdgeList
            && first_visible(decode_utf8(line)) == '#'),
    ensures
        line_end(line + line_break() + x, 0) == line.len(),
        line_at(line + line_break() + x, 0) == Some(decode_utf8(line)),
        passed_over(f, decode_utf8(line)),
        (line + line_break()).len() == line.len() + 1,
{
    lemma_first_line(line, x);
}

/// A line of UTF-8 text without line break, with a line break after it,
/// placed before a text: it is the first line, and it reads as its decoded
/// characters.
pub proof fn lemma_first_line(line: Seq<u8>, x: Seq<u8>)
    requires
        forall|k: int| 0 <= k < line.len() ==> #[trigger] line[k] != 10,
        valid_utf8(line),
    ensures
        line_end(line + line_break() + x, 0) == line.len(),
        line_at(line + line_break() + x, 0) == Some(decode_utf8(line)),
        (line + line_break()).len() == line.len() + 1,
{
    let l = line + line_break();
    let b = l + x;
    assert forall|k: int| 0 <= k < line.len() implies #[trigger] b[k] != 10 by {
        assert(b[k] == line[k]);
    }
    assert(b[line.len() as int] == 10);
    lemma_line_end_run(b, 0, line.len() as int);
    assert(b.subrange(0, line.len() as int) =~= line);
}

/// A line of UTF-8 text without line break that is not blank and does not
/// start (after leading spaces) with a comment mark of the format is read
/// as a pair where it stands at the start of the body: its pair comes
/// first, then the pairs of the text after it; or the error on that line.
pub proof fn lemma_pairs_entry_line(f: Format, line: Seq<u8>, x: Seq<u8>)
    requires
        forall|k: int| 0 <= k < line.len() ==> #[trigger] line[k] != 10,
        valid_utf8(line),
        !blank(decode_utf8(line)),
        first_visible(decode_utf8(line)) != '%',
        f == Format::EdgeList ==> first_visible(decode_utf8(line)) != '#',
    ensures
        pairs_from(f, line + line_break() + x, 0) == match pair_numbers(f, decode_utf8(line)) {
            Err(e) => Err(e),
            Ok(q) => with_prefix(seq![q], pairs_from(f, x, 0)),
        },
{
    lemma_first_line(line, x);
    lemma_pairs_shift(f, line + line_break(), x, 0);
}

/// A line ends at the first line break at or after its start.
pub proof fn lemma_line_end_run(b: Seq<u8>, i: int, j: int)
    requires
        0 <= i <= j <= b.len(),
        forall|k: int| i <= k < j ==> #[trigger] b[k] != 10,
        j == b.len() || b[j] == 10,
    ensures
        line_end(b, i) == j,
    decreases j - i,
{
    if i < j {
        lemma_line_end_run(b, i + 1, j);
    }
}

/// A blank or comment line put in at a line boundary of the body changes
/// nothing: reading the body from a line start `k` before the new line gives
/// the same pairs, or the same error, as without it.
pub proof fn lemma_pairs_insert_line(f: Format, p: Seq<u8>, line: Seq<u8>, x: Seq<u8>, k: int)
    requires
        p.len() == 0 || p.last() == 10,
        0 <= k <= p.len(),
        forall|j: int| 0 <= j < line.len() ==> #[trigger] line[j] != 10,
        valid_utf8(line),
        blank(decode_utf8(line)) || first_visible(decode_utf8(line)) == '%' || (f == Format::EdgeList
            && first_visible(decode_utf8(line)) == '#'),
    ensures
        pairs_from(f, p + (line + line_break()) + x, k) == pairs_from(f, p + x, k),
{
    let l = line + line_break();
    lemma_pairs_skip_line(f, line, x);
    if p.len() == 0 {
        assert(p + l + x =~= l + x);
        assert(p + x =~= x);
    } else {
        assert(p + l + x =~= p + (l + x));
        lemma_pairs_split(f, p, l + x, k);
        lemma_pairs_shift(f, p, l + x, 0);
        lemma_pairs_split(f, p, x, k);
        lemma_pairs_shift(f, p, x, 0);
    }
}

} // verus!
