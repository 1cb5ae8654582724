//! Matrix Market text, symmetric coordinate pattern: a banner line, a size
//! line `n n nnz`, then one line `row col` (1-based) per entry.
use vstd::prelude::*;
use crate::io::lex::{blank, find_visible, first_visible, is_space, skip_spaces, space};
use crate::io::pairs::{lemma_first_line, lemma_skipped_line, line_break, pairs_from, passed_over, read_pairs, skip_line, Format};
use crate::graph::Graph;
use crate::iter::{edge_list, edges};
use crate::model::{adjacency_of_edges, edges_valid, num_edges};
use crate::text::{ascii_bytes, decimal, lemma_ascii_bytes_add, pair_line, push_decimal, push_pair_line};
use vstd::string::{StrSliceExecFns, StringSliceAdditionalSpecFns};
use vstd::utf8::{decode_utf8, is_ascii_chars, is_ascii_chars_encode_utf8, valid_utf8};
use crate::simple_graph::{bad_edge_message, first_bad_edge, too_many_vertices_message, SimpleGraph};
use crate::io::syntax::{find_line_end, line_at, line_end, lemma_line_end, lemma_line_end_prefix, lemma_line_end_shift, moved, number_at, read_line, read_number, Field, ReadError};

verus! {

/// The lowercase form of a character outside ASCII that `char::to_lowercase`
/// gives: one to three characters by Unicode's case tables.
pub uninterp spec fn lowercase_of(c: char) -> Seq<char>;

/// The lowercase form of an ASCII character: `A`..`Z` become `a`..`z`,
/// the others stay.
pub open spec fn ascii_lowercase(c: char) -> char {
    if 'A' <= c <= 'Z' {
        ((c as u32) + 32) as char
    } else {
        c
    }
}

/// The lowercase form of a character.
pub open spec fn lowercase_form(c: char) -> Seq<char> {
    if '\0' <= c <= '\u{7f}' {
        seq![ascii_lowercase(c)]
    } else {
        lowercase_of(c)
    }
}

/// Lowercases one character with `char::to_lowercase`; claims the result is,
/// as Unicode's tables give for ASCII, the single character
/// `ascii_lowercase(c)` for an ASCII `c`, and otherwise `lowercase_of(c)`, a
/// function of `c` alone.
#[verifier::external_body]
fn lowercase(c: char) -> (r: Vec<char>)
    ensures
        '\0' <= c <= '\u{7f}' ==> r@ == seq![ascii_lowercase(c)],
        !('\0' <= c <= '\u{7f}') ==> r@ == lowercase_of(c),
{
    c.to_lowercase().collect()
}

/// The characters of `s`, each replaced by its lowercase form.
pub open spec fn lower_chars(s: Seq<char>) -> Seq<char>
    decreases s.len(),
{
    if s.len() == 0 {
        Seq::empty()
    } else {
        lower_chars(s.drop_last()) + lowercase_form(s.last())
    }
}

/// Position just after the last non-space before `j`, or 0.
pub open spec fn trim_end(s: Seq<char>, j: int) -> int
    decreases j,
{
    if j <= 0 || !is_space(s[j - 1]) {
        j
    } else {
        trim_end(s, j - 1)
    }
}

/// The line without leading and trailing spaces.
pub open spec fn trimmed(s: Seq<char>) -> Seq<char> {
    if blank(s) {
        Seq::empty()
    } else {
        s.subrange(skip_spaces(s, 0), trim_end(s, s.len() as int))
    }
}

/// `t` starts with `p`.
pub open spec fn starts_with(t: Seq<char>, p: Seq<char>) -> bool {
    p.len() <= t.len() && t.subrange(0, p.len() as int) == p
}

/// `p` occurs in `t`.
pub open spec fn occurs_in(t: Seq<char>, p: Seq<char>) -> bool {
    exists|k: int| 0 <= k && k + p.len() <= t.len() && #[trigger] t.subrange(k, k + p.len()) == p
}

/// The word the banner starts with, lowercased.
pub open spec fn banner_word() -> Seq<char> {
    seq!['%', '%', 'm', 'a', 't', 'r', 'i', 'x', 'm', 'a', 'r', 'k', 'e', 't']
}

/// The word naming the symmetric format.
pub open spec fn symmetric_word() -> Seq<char> {
    seq!['s', 'y', 'm', 'm', 'e', 't', 'r', 'i', 'c']
}

/// The word naming the coordinate format.
pub open spec fn coordinate_word() -> Seq<char> {
    seq!['c', 'o', 'o', 'r', 'd', 'i', 'n', 'a', 't', 'e']
}

/// The word naming the pattern (value-free) format.
pub open spec fn pattern_word() -> Seq<char> {
    seq!['p', 'a', 't', 't', 'e', 'r', 'n']
}

/// What is wrong with the banner line, if anything: checked on the trimmed,
/// lowercased line, which must name the coordinate pattern symmetric format.
pub open spec fn banner_problem(s: Seq<char>) -> Option<ReadError> {
    let low = lower_chars(trimmed(s));
    if !starts_with(low, banner_word()) {
        Some(ReadError::MissingBanner)
    } else if !occurs_in(low, symmetric_word()) {
        Some(ReadError::NotSymmetric)
    } else if !occurs_in(low, coordinate_word()) {
        Some(ReadError::NotCoordinate)
    } else if !occurs_in(low, pattern_word()) {
        Some(ReadError::NotPattern)
    } else {
        None
    }
}

/// After a non-space at `a`, the trimmed end of the first `j` characters is
/// past `a`.
proof fn lemma_trim_end(s: Seq<char>, a: int, j: int)
    requires
        0 <= a < j <= s.len(),
        !is_space(s[a]),
    ensures
        a < trim_end(s, j) <= j,
    decreases j,
{
    if is_space(s[j - 1]) {
        lemma_trim_end(s, a, j - 1);
    }
}

/// The start and end of the trimmed line.
fn trim_range(s: &Vec<char>) -> (r: (usize, usize))
    ensures
        r.0 <= r.1 <= s@.len(),
        trimmed(s@) == s@.subrange(r.0 as int, r.1 as int),
{
    let a = find_visible(s, 0);
    if a >= s.len() {
        proof {
            assert(s@.subrange(a as int, a as int) =~= Seq::<char>::empty());
        }
        return (a, a);
    }
    let mut z = s.len();
    while z > 0 && space(s[z - 1])
        invariant
            z <= s@.len(),
            trim_end(s@, s@.len() as int) == trim_end(s@, z as int),
        decreases z,
    {
        z -= 1;
    }
    proof {
        lemma_trim_end(s@, a as int, s@.len() as int);
    }
    (a, z)
}

/// The lowercased characters of `s[a..z]`.
fn lower_range(s: &Vec<char>, a: usize, z: usize) -> (r: Vec<char>)
    requires
        a <= z <= s@.len(),
    ensures
        r@ == lower_chars(s@.subrange(a as int, z as int)),
{
    let mut r: Vec<char> = Vec::new();
    let mut i = a;
    proof {
        assert(s@.subrange(a as int, a as int) =~= Seq::<char>::empty());
    }
    while i < z
        invariant
            a <= i <= z <= s@.len(),
            r@ == lower_chars(s@.subrange(a as int, i as int)),
        decreases z - i,
    {
        let mut l = lowercase(s[i]);
        proof {
            assert(s@.subrange(a as int, i + 1).drop_last() =~= s@.subrange(a as int, i as int));
        }
        r.append(&mut l);
        i += 1;
    }
    r
}

/// Whether `p` occurs in `t` at position `k`.
fn occurs_at(t: &Vec<char>, p: &Vec<char>, k: usize) -> (b: bool)
    requires
        k + p@.len() <= t@.len(),
    ensures
        b == (t@.subrange(k as int, k + p@.len()) == p@),
{
    let tl = t.len();
    let mut j: usize = 0;
    while j < p.len()
        invariant
            j <= p@.len(),
            k + p@.len() <= t@.len(),
            forall|m: int| 0 <= m < j ==> t@[k + m] == p@[m],
            tl == t@.len(),
        decreases p@.len() - j,
    {
        let at = k + j;
        if t[at] != p[j] {
            proof {
                assert(t@.subrange(k as int, k + p@.len())[j as int] != p@[j as int]);
            }
            return false;
        }
        j += 1;
    }
    proof {
        assert(t@.subrange(k as int, k + p@.len()) =~= p@);
    }
    true
}

/// Whether `t` starts with `p`.
fn has_prefix(t: &Vec<char>, p: &Vec<char>) -> (b: bool)
    ensures
        b == starts_with(t@, p@),
{
    p.len() <= t.len() && occurs_at(t, p, 0)
}

/// Whether `p` occurs in `t`.
fn has_infix(t: &Vec<char>, p: &Vec<char>) -> (b: bool)
    ensures
        b == occurs_in(t@, p@),
{
    if p.len() > t.len() {
        return false;
    }
    let last = t.len() - p.len();
    let mut k: usize = 0;
    loop
        invariant
            p@.len() <= t@.len(),
            last == t@.len() - p@.len(),
            k <= last,
            forall|m: int| 0 <= m < k ==> #[trigger] t@.subrange(m, m + p@.len()) != p@,
        ensures
            forall|m: int| 0 <= m <= last ==> #[trigger] t@.subrange(m, m + p@.len()) != p@,
        decreases last - k,
    {
        if occurs_at(t, p, k) {
            return true;
        }
        if k == last {
            break;
        }
        k += 1;
    }
    false
}

/// The numbers on the size line: rows, columns and entries.
pub open spec fn size_numbers(s: Seq<char>) -> Result<(nat, nat, nat), ReadError> {
    match number_at(s, 0, usize::MAX as nat, Field::Nrow) {
        Err(x) => Err(x),
        Ok((nrow, e1)) => match number_at(s, e1, usize::MAX as nat, Field::Ncol) {
            Err(x) => Err(x),
            Ok((ncol, e2)) => match number_at(s, e2, usize::MAX as nat, Field::Nnz) {
                Err(x) => Err(x),
                Ok((nnz, _)) => Ok((nrow, ncol, nnz)),
            },
        },
    }
}

/// Moving to the next line leaves less input.
#[via_fn]
proof fn size_from_decreases(b: Seq<u8>, i: int) {
    if 0 <= i < b.len() {
        lemma_line_end(b, i);
    }
}

/// The size line found at or after `i` (past blank and comment lines): the
/// order of the square matrix, the declared number of entries, and where the
/// next line starts.
pub open spec fn size_from(b: Seq<u8>, i: int) -> Result<(nat, nat, int), ReadError>
    decreases b.len() + 1 - i,
    via size_from_decreases
{
    if i < 0 || i >= b.len() {
        Err(ReadError::MissingSizeLine)
    } else {
        let e = line_end(b, i);
        match line_at(b, i) {
            None => Err(ReadError::InvalidUtf8),
            Some(s) => if passed_over(Format::MatrixMarket, s) {
                size_from(b, e + 1)
            } else {
                match size_numbers(s) {
                    Err(x) => Err(x),
                    Ok((nrow, ncol, nnz)) => if nrow != ncol {
                        Err(ReadError::NonSquare)
                    } else {
                        Ok((nrow, nnz, e + 1))
                    },
                }
            },
        }
    }
}

/// Across a prefix that ends with a line break: a size line found in the
/// prefix is found, the same, in any longer text; otherwise the search goes
/// on after the prefix.
pub proof fn lemma_size_split(p: Seq<u8>, x: Seq<u8>, i: int)
    requires
        p.len() > 0,
        p.last() == 10,
        0 <= i <= p.len(),
    ensures
        size_from(p + x, i) == if size_from(p, i) == Err::<(nat, nat, int), ReadError>(ReadError::MissingSizeLine) {
            size_from(p + x, p.len() as int)
        } else {
            size_from(p, i)
        },
        size_from(p, i) matches Ok((_, _, k)) ==> k <= p.len(),
    decreases p.len() - i,
{
    if i < p.len() {
        lemma_line_end_prefix(p, x, i);
        let e = line_end(p, i);
        if line_at(p, i) matches Some(s) && passed_over(Format::MatrixMarket, s) {
            lemma_size_split(p, x, e + 1);
        }
    }
}

/// A size line is found on a line at or after `i`, and the next line
/// starts at most one past the end of the text.
pub proof fn lemma_size_bound(b: Seq<u8>, i: int)
    ensures
        size_from(b, i) matches Ok((_, _, k)) ==> i < k <= b.len() + 1,
    decreases b.len() + 1 - i,
{
    if 0 <= i < b.len() {
        lemma_line_end(b, i);
        lemma_size_bound(b, line_end(b, i) + 1);
    }
}

/// The size-line search in the text after a prefix is the search in that
/// text.
pub proof fn lemma_size_shift(p: Seq<u8>, x: Seq<u8>, j: int)
    requires
        0 <= j <= x.len() + 1,
    ensures
        size_from(p + x, p.len() + j) == moved(size_from(x, j), p.len() as int),
    decreases x.len() + 1 - j,
{
    if j < x.len() {
        lemma_line_end_shift(p, x, j);
        lemma_line_end(x, j);
        lemma_size_shift(p, x, line_end(x, j) + 1);
    }
}

/// A blank or comment line at the start of the text is passed over by the
/// size-line search: the size line is the one of the text after it, found
/// one line later.
pub proof fn lemma_size_skip_line(line: Seq<u8>, x: Seq<u8>)
    requires
        forall|j: int| 0 <= j < line.len() ==> #[trigger] line[j] != 10,
        valid_utf8(line),
        blank(decode_utf8(line)) || first_visible(decode_utf8(line)) == '%',
    ensures
        size_from(line + line_break() + x, 0) == moved(size_from(x, 0), (line + line_break()).len() as int),
{
    lemma_skipped_line(Format::MatrixMarket, line, x);
    lemma_size_shift(line + line_break(), x, 0);
}

/// A line at the start of the text that is not blank and does not start
/// (after leading spaces) with `%` is the size line: a square order and the
/// number of entries, or the error on it.
pub proof fn lemma_size_first_line(line: Seq<u8>, x: Seq<u8>)
    requires
        forall|j: int| 0 <= j < line.len() ==> #[trigger] line[j] != 10,
        valid_utf8(line),
        !blank(decode_utf8(line)),
        first_visible(decode_utf8(line)) != '%',
    ensures
        size_from(line + line_break() + x, 0) == match size_numbers(decode_utf8(line)) {
            Err(e) => Err(e),
            Ok((nrow, ncol, nnz)) => if nrow != ncol {
                Err(ReadError::NonSquare)
            } else {
                Ok((nrow, nnz, (line + line_break()).len() as int))
            },
        },
{
    lemma_first_line(line, x);
}

/// What the text declares and lists: the order of the matrix, the declared
/// number of entries and the entries made 0-based, or the first error met
/// reading it.
pub open spec fn matrix_market_syntax(b: Seq<u8>) -> Result<(nat, nat, Seq<(u32, u32)>), ReadError> {
    if b.len() == 0 {
        Err(ReadError::EmptyInput)
    } else {
        match line_at(b, 0) {
            None => Err(ReadError::InvalidUtf8),
            Some(s) => match banner_problem(s) {
                Some(x) => Err(x),
                None => match size_from(b, line_end(b, 0) + 1) {
                    Err(x) => Err(x),
                    Ok((n, nnz, i)) => match pairs_from(Format::MatrixMarket, b, i) {
                        Err(x) => Err(x),
                        Ok(entries) => Ok((n, nnz, entries)),
                    },
                },
            },
        }
    }
}

/// What reading the Matrix Market text `b` gives. A text that cannot be
/// read gives the first error met. Otherwise the number of entries must be
/// the declared one, then the order must fit in `u32` and every entry join
/// two distinct vertices below it (else the message names the first
/// offending entry); the graph is the one whose edges are the entries.
pub open spec fn matrix_market_read(b: Seq<u8>, r: Result<SimpleGraph, ReadError>) -> bool {
    match matrix_market_syntax(b) {
        Err(x) => r == Err::<SimpleGraph, ReadError>(x),
        Ok((n, declared, entries)) => {
            if entries.len() != declared {
                r == Err::<SimpleGraph, ReadError>(
                    ReadError::EntryCountMismatch { declared: declared as usize, found: entries.len() as usize },
                )
            } else if n > u32::MAX {
                r matches Err(ReadError::InvalidGraph(m)) && m@ == too_many_vertices_message(n)
            } else if !edges_valid(n, entries) {
                exists|i: int|
                    first_bad_edge(n, entries, i) && (r matches Err(ReadError::InvalidGraph(m)) && m@
                        == bad_edge_message(n, #[trigger] entries[i]))
            } else {
                r matches Ok(g) && g.wf() && adjacency_of_edges(g@, n, entries)
            }
        },
    }
}

/// The lowercased words the banner is checked against.
fn banner_words() -> (r: (Vec<char>, Vec<char>, Vec<char>, Vec<char>))
    ensures
        r.0@ == banner_word(),
        r.1@ == symmetric_word(),
        r.2@ == coordinate_word(),
        r.3@ == pattern_word(),
{
    let b = vec!['%', '%', 'm', 'a', 't', 'r', 'i', 'x', 'm', 'a', 'r', 'k', 'e', 't'];
    let s = vec!['s', 'y', 'm', 'm', 'e', 't', 'r', 'i', 'c'];
    let c = vec!['c', 'o', 'o', 'r', 'd', 'i', 'n', 'a', 't', 'e'];
    let p = vec!['p', 'a', 't', 't', 'e', 'r', 'n'];
    proof {
        assert(b@ =~= banner_word());
        assert(s@ =~= symmetric_word());
        assert(c@ =~= coordinate_word());
        assert(p@ =~= pattern_word());
    }
    (b, s, c, p)
}

/// Checks the banner line.
fn check_banner(s: &Vec<char>) -> (r: Option<ReadError>)
    ensures
        r == banner_problem(s@),
{
    let (a, z) = trim_range(s);
    let low = lower_range(s, a, z);
    let (banner, symmetric, coordinate, pattern) = banner_words();
    if !has_prefix(&low, &banner) {
        Some(ReadError::MissingBanner)
    } else if !has_infix(&low, &symmetric) {
        Some(ReadError::NotSymmetric)
    } else if !has_infix(&low, &coordinate) {
        Some(ReadError::NotCoordinate)
    } else if !has_infix(&low, &pattern) {
        Some(ReadError::NotPattern)
    } else {
        None
    }
}

/// Finds the size line and reads its three numbers.
fn find_size(b: &[u8], start: usize) -> (r: Result<(usize, usize, usize), ReadError>)
    requires
        start <= b@.len() + 1,
        b@.len() <= isize::MAX,
    ensures
        match size_from(b@, start as int) {
            Ok((n, nnz, i)) => r == Ok::<(usize, usize, usize), ReadError>((n as usize, nnz as usize, i as usize))
                && 0 < i <= b@.len() + 1 && n <= usize::MAX && nnz <= usize::MAX,
            Err(x) => r == Err::<(usize, usize, usize), ReadError>(x),
        },
{
    let mut pos: usize = start;
    while pos < b.len()
        invariant
            pos <= b@.len() + 1,
            b@.len() <= isize::MAX,
            size_from(b@, start as int) == size_from(b@, pos as int),
        decreases b@.len() + 1 - pos,
    {
        let e = find_line_end(b, pos);
        match read_line(b, pos, e) {
            None => {
                return Err(ReadError::InvalidUtf8);
            },
            Some(s) => {
                if skip_line(Format::MatrixMarket, &s) {
                    pos = e + 1;
                } else {
                    let (nrow, e1) = match read_number(&s, 0, usize::MAX as u64, Field::Nrow) {
                        Ok(x) => x,
                        Err(x) => {
                            return Err(x);
                        },
                    };
                    let (ncol, e2) = match read_number(&s, e1, usize::MAX as u64, Field::Ncol) {
                        Ok(x) => x,
                        Err(x) => {
                            return Err(x);
                        },
                    };
                    let (nnz, _) = match read_number(&s, e2, usize::MAX as u64, Field::Nnz) {
                        Ok(x) => x,
                        Err(x) => {
                            return Err(x);
                        },
                    };
                    if nrow != ncol {
                        return Err(ReadError::NonSquare);
                    }
                    return Ok((nrow as usize, nnz as usize, e + 1));
                }
            },
        }
    }
    Err(ReadError::MissingSizeLine)
}

/// Read a graph from Matrix Market symmetric coordinate pattern text. The
/// banner must name that format (`coordinate`, `pattern` and `symmetric`); indices are 1-based and made 0-based.
/// Errors on an invalid format, a count mismatch, self-loops or vertices out
/// of range. (No slice is longer than `isize::MAX` bytes.)
pub fn read_matrix_market(input: &[u8]) -> (r: Result<SimpleGraph, ReadError>)
    requires
        input@.len() <= isize::MAX,
    ensures
        matrix_market_read(input@, r),
        r matches Ok(g) ==> g.wf(),
{
    if input.len() == 0 {
        return Err(ReadError::EmptyInput);
    }
    let e = find_line_end(input, 0);
    let banner = match read_line(input, 0, e) {
        Some(s) => s,
        None => {
            return Err(ReadError::InvalidUtf8);
        },
    };
    if let Some(x) = check_banner(&banner) {
        return Err(x);
    }
    let (n, declared, start) = match find_size(input, e + 1) {
        Ok(h) => h,
        Err(x) => {
            return Err(x);
        },
    };
    let entries = match read_pairs(Format::MatrixMarket, input, start) {
        Ok(p) => p,
        Err(x) => {
            return Err(x);
        },
    };
    proof {
        assert(matrix_market_syntax(input@) == Ok::<(nat, nat, Seq<(u32, u32)>), ReadError>(
            (n as nat, declared as nat, entries@),
        ));
    }
    if entries.len() != declared {
        return Err(ReadError::EntryCountMismatch { declared, found: entries.len() });
    }
    match SimpleGraph::try_from_edges(n, &entries) {
        Ok(g) => Ok(g),
        Err(m) => Err(ReadError::InvalidGraph(m)),
    }
}

/// The banner line that is written.
pub open spec fn banner_line() -> Seq<char> {
    "%%MatrixMarket matrix coordinate pattern symmetric\n"@
}

/// The entry lines `row col` (1-based, row above column) of the pairs
/// `(v, u)` with `v < u`, in order.
pub open spec fn entry_lines(es: Seq<(u32, u32)>) -> Seq<char>
    decreases es.len(),
{
    if es.len() == 0 {
        Seq::empty()
    } else {
        entry_lines(es.drop_last()) + pair_line((es.last().1 + 1) as nat, (es.last().0 + 1) as nat)
    }
}

/// The Matrix Market text of a graph: the banner, `n n ne`, then each edge
/// as `u+1 v+1` with `v < u`, edges in lexicographic order of `(v, u)`.
pub open spec fn matrix_market_text(adj: Seq<Seq<u32>>) -> Seq<char> {
    banner_line() + decimal(adj.len()) + seq![' '] + pair_line(adj.len(), num_edges(adj)) + entry_lines(
        edge_list(adj),
    )
}

/// Appends the banner line.
fn push_banner(out: &mut Vec<u8>)
    ensures
        final(out)@ == old(out)@ + ascii_bytes(banner_line()),
{
    let text = "%%MatrixMarket matrix coordinate pattern symmetric\n";
    proof {
        reveal_strlit("%%MatrixMarket matrix coordinate pattern symmetric\n");
        assert(is_ascii_chars(text@));
        is_ascii_chars_encode_utf8(text@);
        assert(text.spec_bytes() =~= ascii_bytes(text@));
    }
    let mut bytes = text.as_bytes_vec();
    out.append(&mut bytes);
}

/// Write a graph in Matrix Market symmetric coordinate pattern format,
/// 1-based, one entry per edge in the lower triangle (row > col).
pub fn write_matrix_market<G: Graph>(graph: &G, out: &mut Vec<u8>)
    requires
        graph.inv(),
    ensures
        final(out)@ == old(out)@ + ascii_bytes(matrix_market_text(graph.adj())),
{
    let ghost base = out@;
    let ghost adj = graph.adj();
    let n = graph.nv();
    let ne = graph.ne();
    push_banner(out);
    push_decimal(out, n as u64);
    out.push(32);
    push_pair_line(out, n as u64, ne as u64);
    let ghost head = banner_line() + decimal(adj.len()) + seq![' '] + pair_line(adj.len(), num_edges(adj));
    proof {
        lemma_ascii_bytes_add(banner_line(), decimal(adj.len()));
        lemma_ascii_bytes_add(banner_line() + decimal(adj.len()), seq![' ']);
        lemma_ascii_bytes_add(banner_line() + decimal(adj.len()) + seq![' '], pair_line(adj.len(), num_edges(adj)));
        assert(ascii_bytes(seq![' ']) =~= seq![32u8]);
        assert(out@ =~= base + ascii_bytes(head));
    }
    let mut it = edges(graph);
    let ghost total = it.remaining();
    let ghost mut done: Seq<(u32, u32)> = Seq::empty();
    loop
        invariant
            it.wf(),
            it.graph_adj() == adj,
            total == edge_list(adj),
            done + it.remaining() == total,
            out@ == base + ascii_bytes(head) + ascii_bytes(entry_lines(done)),
        ensures
            out@ == base + ascii_bytes(head) + ascii_bytes(entry_lines(total)),
        decreases it.remaining().len(),
    {
        match it.next() {
            Some((v, u)) => {
                push_pair_line(out, u as u64 + 1, v as u64 + 1);
                proof {
                    let d1 = done.push((v, u));
                    assert(d1.drop_last() =~= done);
                    lemma_ascii_bytes_add(entry_lines(done), pair_line((u + 1) as nat, (v + 1) as nat));
                    assert(out@ =~= base + ascii_bytes(head) + ascii_bytes(entry_lines(d1)));
                    assert(d1 + it.remaining() =~= total);
                    done = d1;
                }
            },
            None => {
                proof {
                    assert(done =~= total);
                }
                break;
            },
        }
    }
    proof {
        lemma_ascii_bytes_add(head, entry_lines(total));
        assert(out@ =~= base + ascii_bytes(matrix_market_text(adj)));
    }
}

} // verus!
