//! What the readers share: lines of the input, numbers in a line, and the
//! reasons an input is refused.
use vstd::prelude::*;
use crate::io::lex::{find_space, find_visible, is_space, lemma_next_word_append, next_word, parse_range, parse_unsigned, NumberError};
use crate::io::utf8::{decode_range, decoded};

verus! {

/// The number a reader expected and did not find.
#[derive(Debug, Clone, Copy, PartialEq, Eq)]
pub enum Field {
    /// Number of vertices (edge-list header).
    Nv,
    /// Number of edges (edge-list header).
    Ne,
    /// First vertex of an edge.
    U,
    /// Second vertex of an edge.
    V,
    /// Number of rows (Matrix Market size line).
    Nrow,
    /// Number of columns (Matrix Market size line).
    Ncol,
    /// Number of entries (Matrix Market size line).
    Nnz,
    /// Row of an entry.
    Row,
    /// Column of an entry.
    Col,
}

/// Why an input is not a graph in the expected format.
#[derive(Debug, Clone, PartialEq, Eq)]
pub enum ReadError {
    /// The input has no line at all, or (edge lists) only blank and comment lines.
    EmptyInput,
    /// The Matrix Market input ends before its size line.
    MissingSizeLine,
    /// A line read is not valid UTF-8.
    InvalidUtf8,
    /// A line has fewer words than the numbers it must hold.
    Missing(Field),
    /// A word is not an unsigned integer of the expected width.
    BadNumber(NumberError),
    /// The first line does not start with `%%MatrixMarket` (in any case).
    MissingBanner,
    /// The banner does not name the symmetric format.
    NotSymmetric,
    /// The banner does not name the coordinate format.
    NotCoordinate,
    /// The banner does not name the pattern format (entries without values).
    NotPattern,
    /// The matrix has different numbers of rows and columns.
    NonSquare,
    /// A Matrix Market entry has a zero row or column.
    ZeroIndex,
    /// The edge list declares another number of distinct edges than it lists.
    EdgeCountMismatch { declared: usize, found: usize },
    /// The Matrix Market input declares another number of entries than it lists.
    EntryCountMismatch { declared: usize, found: usize },
    /// The edges do not form a simple graph on the declared vertices.
    InvalidGraph(String),
}

/// Position of the line break that ends the line starting at `i`, or the end
/// of the input.
pub open spec fn line_end(b: Seq<u8>, i: int) -> int
    decreases b.len() - i,
{
    if i >= b.len() || b[i] == 10 {
        i
    } else {
        line_end(b, i + 1)
    }
}

/// A line ends at or after its start and within the input.
pub proof fn lemma_line_end(b: Seq<u8>, i: int)
    requires
        0 <= i <= b.len(),
    ensures
        i <= line_end(b, i) <= b.len(),
    decreases b.len() - i,
{
    if i < b.len() && b[i] != 10 {
        lemma_line_end(b, i + 1);
    }
}

/// Within a text that ends with a line break, a line ends where it ends in
/// any longer text with that prefix.
pub proof fn lemma_line_end_prefix(p: Seq<u8>, x: Seq<u8>, i: int)
    requires
        p.len() > 0,
        p.last() == 10,
        0 <= i < p.len(),
    ensures
        line_end(p + x, i) == line_end(p, i),
        i <= line_end(p, i) < p.len(),
        line_at(p + x, i) == line_at(p, i),
    decreases p.len() - i,
{
    assert((p + x)[i] == p[i]);
    if p[i] != 10 {
        assert(i + 1 < p.len());
        lemma_line_end_prefix(p, x, i + 1);
    }
    assert((p + x).subrange(i, line_end(p, i)) =~= p.subrange(i, line_end(p, i)));
}

/// Lines of the text after a prefix are the lines of that text, moved.
pub proof fn lemma_line_end_shift(p: Seq<u8>, x: Seq<u8>, j: int)
    requires
        0 <= j <= x.len(),
    ensures
        line_end(p + x, p.len() + j) == p.len() + line_end(x, j),
        j < x.len() ==> line_at(p + x, p.len() + j) == line_at(x, j),
    decreases x.len() - j,
{
    if j < x.len() {
        assert((p + x)[p.len() + j] == x[j]);
        if x[j] != 10 {
            lemma_line_end_shift(p, x, j + 1);
        }
        lemma_line_end(x, j);
        assert((p + x).subrange(p.len() + j, p.len() + line_end(x, j)) =~= x.subrange(j, line_end(x, j)));
    }
}

/// A header or size line found in a text, with the position after it moved
/// by `d` (the text read behind a prefix of `d` bytes).
pub open spec fn moved(r: Result<(nat, nat, int), ReadError>, d: int) -> Result<(nat, nat, int), ReadError> {
    match r {
        Ok((a, b, k)) => Ok((a, b, k + d)),
        Err(x) => Err(x),
    }
}

/// The characters of the line starting at `i`, or `None` when it is not UTF-8.
pub open spec fn line_at(b: Seq<u8>, i: int) -> Option<Seq<char>> {
    decoded(b.subrange(i, line_end(b, i)))
}

/// End of the line starting at `i`.
pub fn find_line_end(b: &[u8], i: usize) -> (e: usize)
    requires
        i <= b@.len(),
    ensures
        e == line_end(b@, i as int),
        i <= e <= b@.len(),
{
    let mut e = i;
    while e < b.len() && b[e] != 10
        invariant
            i <= e <= b@.len(),
            line_end(b@, i as int) == line_end(b@, e as int),
        decreases b@.len() - e,
    {
        e += 1;
    }
    e
}

/// The characters of the line from `i` to `e`, when they are UTF-8.
pub fn read_line(b: &[u8], i: usize, e: usize) -> (r: Option<Vec<char>>)
    requires
        i <= b@.len(),
        e == line_end(b@, i as int),
    ensures
        match line_at(b@, i as int) {
            Some(s) => r matches Some(cs) && cs@ == s,
            None => r is None,
        },
{
    proof {
        lemma_line_end(b@, i as int);
    }
    decode_range(b, i, e)
}

/// The number in the next word at or after `i`, at most `max`, with the end
/// of that word; `which` names it when the word is missing.
pub open spec fn number_at(s: Seq<char>, i: int, max: nat, which: Field) -> Result<(nat, int), ReadError> {
    match next_word(s, i) {
        None => Err(ReadError::Missing(which)),
        Some((a, e)) => match parse_unsigned(s.subrange(a, e), max) {
            Err(x) => Err(ReadError::BadNumber(x)),
            Ok(v) => Ok((v, e)),
        },
    }
}

/// Text that starts with a space, put after a line, leaves a number read
/// in the line, and where its word ends, as they are.
pub proof fn lemma_number_at_append(s: Seq<char>, u: Seq<char>, i: int, max: nat, which: Field)
    requires
        0 <= i,
        u.len() > 0,
        is_space(u[0]),
        number_at(s, i, max, which) is Ok,
    ensures
        number_at(s + u, i, max, which) == number_at(s, i, max, which),
        number_at(s, i, max, which) matches Ok((_, e)) && i <= e <= s.len(),
{
    lemma_next_word_append(s, u, i);
}

/// Reads the number in the next word at or after `i`.
pub fn read_number(s: &Vec<char>, i: usize, max: u64, which: Field) -> (r: Result<(u64, usize), ReadError>)
    requires
        i <= s@.len(),
        max >= 9,
    ensures
        r matches Ok((v, e)) ==> number_at(s@, i as int, max as nat, which) == Ok::<(nat, int), ReadError>(
            (v as nat, e as int),
        ) && v <= max && i <= e <= s@.len(),
        r matches Err(x) ==> number_at(s@, i as int, max as nat, which) == Err::<(nat, int), ReadError>(x),
{
    let a = find_visible(s, i);
    if a >= s.len() {
        return Err(ReadError::Missing(which));
    }
    let e = find_space(s, a);
    match parse_range(s, a, e, max) {
        Ok(v) => Ok((v, e)),
        Err(x) => Err(ReadError::BadNumber(x)),
    }
}

} // verus!
