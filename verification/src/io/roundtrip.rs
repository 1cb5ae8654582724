//! Reading back what the writers write.
use vstd::prelude::*;
use crate::io::lex::{blank, digit_value, digits_from, first_visible, is_digit, is_space, parse_unsigned, skip_spaces, skip_word};
use crate::io::syntax::{number_at, Field, ReadError};
use crate::io::edge_list::{edge_list_syntax, edge_list_text, pair_lines};
use crate::io::matrix_market::{
    ascii_lowercase, banner_line, banner_problem, banner_word, coordinate_word, entry_lines, lower_chars,
    matrix_market_syntax, matrix_market_text, occurs_in, pattern_word, size_from, size_numbers, starts_with, symmetric_word, trim_end,
    trimmed,
};
use crate::io::pairs::{pair_numbers, pairs_from, passed_over, Format};
use crate::io::syntax::{line_at, line_end};
use crate::iter::{edge_list, lemma_edges_from};
use crate::model::{num_edges, valid_adjacency};
use crate::io::utf8::decoded;
use crate::text::{ascii_bytes, decimal, digit_char, lemma_ascii_bytes_add, pair_line};
use vstd::utf8::{encode_utf8, encode_utf8_decode_utf8, encode_utf8_valid_utf8, is_ascii_chars, is_ascii_chars_encode_utf8};

verus! {

/// The value of a string of decimal digits.
pub open spec fn digits_value(t: Seq<char>) -> nat
    decreases t.len(),
{
    if t.len() == 0 {
        0
    } else {
        digits_value(t.drop_last()) * 10 + digit_value(t.last())
    }
}

/// The digit for `d` is a digit worth `d`.
proof fn lemma_digit_char(d: nat)
    requires
        d < 10,
    ensures
        is_digit(digit_char(d)),
        digit_value(digit_char(d)) == d,
{
    let b = (d + 48) as u8;
    assert(b == d + 48);
    let c = b as char;
    assert(c as u32 == b as u32);
}

/// Decimal notation is a nonempty string of digits with the number's value.
pub proof fn lemma_decimal(n: nat)
    ensures
        decimal(n).len() >= 1,
        forall|i: int| 0 <= i < decimal(n).len() ==> is_digit(#[trigger] decimal(n)[i]),
        digits_value(decimal(n)) == n,
    decreases n,
{
    if n < 10 {
        let t = decimal(n);
        lemma_digit_char(n);
        assert(t == seq![digit_char(n)]);
        assert(t.drop_last() =~= Seq::<char>::empty());
        assert(t.last() == digit_char(n));
        assert(digits_value(t.drop_last()) == 0);
    } else {
        lemma_decimal(n / 10);
        lemma_digit_char(n % 10);
        let t = decimal(n);
        let p = decimal(n / 10);
        assert(t == p.push(digit_char(n % 10)));
        assert(t.drop_last() =~= p);
        assert(t.last() == digit_char(n % 10));
        assert((n / 10) * 10 + n % 10 == n) by (nonlinear_arith);
        assert forall|i: int| 0 <= i < t.len() implies is_digit(#[trigger] t[i]) by {
            if i < p.len() {
                assert(t[i] == p[i]);
            }
        }
    }
}

/// A prefix of a digit string is worth at most the whole.
proof fn lemma_digits_value_prefix(t: Seq<char>, i: int)
    requires
        0 <= i <= t.len(),
    ensures
        digits_value(t.take(i)) <= digits_value(t),
    decreases t.len(),
{
    if i < t.len() {
        lemma_digits_value_prefix(t.drop_last(), i);
        assert(t.drop_last().take(i) =~= t.take(i));
    } else {
        assert(t.take(i) =~= t);
    }
}

/// Reading a digit string from position `i`, with the value of the digits
/// before `i` accumulated, gives the value of the whole.
proof fn lemma_digits_from(t: Seq<char>, i: int, max: nat)
    requires
        0 <= i <= t.len(),
        forall|k: int| 0 <= k < t.len() ==> is_digit(#[trigger] t[k]),
        digits_value(t) <= max,
    ensures
        digits_from(t, i, digits_value(t.take(i)), max) == Ok::<nat, crate::io::lex::NumberError>(digits_value(t)),
    decreases t.len() - i,
{
    if i == t.len() {
        assert(t.take(i) =~= t);
    } else {
        let acc = digits_value(t.take(i));
        assert(t.take(i + 1).drop_last() =~= t.take(i));
        assert(t.take(i + 1).last() == t[i]);
        lemma_digits_value_prefix(t, i + 1);
        lemma_digits_from(t, i + 1, max);
    }
}

/// The decimal notation of `n` parses back to `n`.
pub proof fn lemma_parse_decimal(n: nat, max: nat)
    requires
        n <= max,
    ensures
        parse_unsigned(decimal(n), max) == Ok::<nat, crate::io::lex::NumberError>(n),
{
    lemma_decimal(n);
    let t = decimal(n);
    assert(is_digit(t[0]));
    assert(t.take(0) =~= Seq::<char>::empty());
    lemma_digits_from(t, 0, max);
}

/// A run of non-spaces from `i` ends at the first space at or after it.
proof fn lemma_skip_word_run(s: Seq<char>, i: int, j: int)
    requires
        0 <= i <= j <= s.len(),
        forall|k: int| i <= k < j ==> !is_space(#[trigger] s[k]),
        j == s.len() || is_space(s[j]),
    ensures
        skip_word(s, i) == j,
    decreases j - i,
{
    if i < j {
        lemma_skip_word_run(s, i + 1, j);
    }
}

/// The numbers in the line `a b ...`: the first word is `a`, ending at the
/// space after it.
proof fn lemma_first_number(da: Seq<char>, rest: Seq<char>, a: nat, max: nat, which: Field)
    requires
        da == decimal(a),
        a <= max,
        rest.len() > 0,
        rest[0] == ' ',
    ensures
        number_at(da + rest, 0, max, which) == Ok::<(nat, int), ReadError>((a, da.len() as int)),
        !blank(da + rest),
        is_digit(first_visible(da + rest)),
{
    let s = da + rest;
    lemma_decimal(a);
    lemma_parse_decimal(a, max);
    assert(s[0] == da[0]);
    assert(skip_spaces(s, 0) == 0);
    assert forall|k: int| 0 <= k < da.len() implies !is_space(#[trigger] s[k]) by {
        assert(s[k] == da[k]);
    }
    assert(s[da.len() as int] == ' ');
    lemma_skip_word_run(s, 0, da.len() as int);
    assert(s.subrange(0, da.len() as int) =~= da);
}

/// The number in a word `d` preceded by a space and followed by a space or
/// the end of the line, read from that space.
proof fn lemma_next_number(pre: Seq<char>, dd: Seq<char>, rest: Seq<char>, d: nat, max: nat, which: Field)
    requires
        dd == decimal(d),
        d <= max,
        pre.len() > 0,
        pre.last() == ' ',
        rest.len() == 0 || rest[0] == ' ',
    ensures
        number_at(pre + dd + rest, pre.len() - 1, max, which) == Ok::<(nat, int), ReadError>(
            (d, (pre.len() + dd.len()) as int),
        ),
{
    let s = pre + dd + rest;
    let i = pre.len() - 1;
    let j = (pre.len() + dd.len()) as int;
    lemma_decimal(d);
    lemma_parse_decimal(d, max);
    assert(s[i] == ' ');
    assert(s[i + 1] == dd[0]);
    assert(skip_spaces(s, i + 1) == i + 1);
    assert(skip_spaces(s, i) == i + 1);
    assert forall|k: int| i + 1 <= k < j implies !is_space(#[trigger] s[k]) by {
        assert(s[k] == dd[k - i - 1]);
    }
    if j < s.len() {
        assert(s[j] == rest[0]);
    }
    lemma_skip_word_run(s, i + 1, j);
    assert(s.subrange(i + 1, j) =~= dd);
}

/// The first and second numbers of the line `a b`.
proof fn lemma_two_numbers(a: nat, b: nat, max: nat, f1: Field, f2: Field)
    requires
        a <= max,
        b <= max,
    ensures
        ({
            let s = decimal(a) + seq![' '] + decimal(b);
            &&& number_at(s, 0, max, f1) == Ok::<(nat, int), ReadError>((a, decimal(a).len() as int))
            &&& number_at(s, decimal(a).len() as int, max, f2) == Ok::<(nat, int), ReadError>((b, s.len() as int))
            &&& !blank(s)
            &&& is_digit(first_visible(s))
        }),
{
    let da = decimal(a);
    let db = decimal(b);
    let s = da + seq![' '] + db;
    lemma_first_number(da, seq![' '] + db, a, max, f1);
    assert(s =~= da + (seq![' '] + db));
    lemma_next_number(da + seq![' '], db, Seq::<char>::empty(), b, max, f2);
    assert(s =~= da + seq![' '] + db + Seq::<char>::empty());
}

/// A line break ends the line at the first `\n` at or after its start.
proof fn lemma_line_end_run(b: Seq<u8>, i: int, j: int)
    requires
        0 <= i <= j <= b.len(),
        forall|k: int| i <= k < j ==> #[trigger] b[k] != 10,
        j == b.len() || b[j] == 10,
    ensures
        line_end(b, i) == j,
    decreases j - i,
{
    if i < j {
        lemma_line_end_run(b, i + 1, j);
    }
}

/// ASCII text decodes to itself.
proof fn lemma_decode_ascii(s: Seq<char>)
    requires
        is_ascii_chars(s),
    ensures
        decoded(ascii_bytes(s)) == Some(s),
{
    is_ascii_chars_encode_utf8(s);
    assert(encode_utf8(s) =~= ascii_bytes(s));
    encode_utf8_valid_utf8(s);
    encode_utf8_decode_utf8(s);
}

/// The line of an ASCII text `s` followed by a line break, placed after
/// `pre`: it ends at the break and reads as `s`.
proof fn lemma_ascii_line(pre: Seq<u8>, s: Seq<char>, post: Seq<u8>)
    requires
        is_ascii_chars(s),
        forall|k: int| 0 <= k < s.len() ==> #[trigger] s[k] != '\n',
    ensures
        ({
            let b = pre + ascii_bytes(s + seq!['\n']) + post;
            &&& line_end(b, pre.len() as int) == pre.len() + s.len()
            &&& line_at(b, pre.len() as int) == Some(s)
        }),
{
    let b = pre + ascii_bytes(s + seq!['\n']) + post;
    let i = pre.len() as int;
    let j = i + s.len();
    assert forall|k: int| i <= k < j implies #[trigger] b[k] != 10 by {
        let c = s[k - i];
        assert('\0' <= c <= '\u{7f}' && c != '\n');
        assert(b[k] == c as u8);
    }
    assert(b[j] == '\n' as u8);
    lemma_line_end_run(b, i, j);
    assert(b.subrange(i, j) =~= ascii_bytes(s));
    lemma_decode_ascii(s);
}

/// Digits and the space are ASCII characters other than the line break.
proof fn lemma_number_line_ascii(a: nat, b: nat)
    ensures
        ({
            let s = decimal(a) + seq![' '] + decimal(b);
            is_ascii_chars(s) && forall|k: int| 0 <= k < s.len() ==> #[trigger] s[k] != '\n'
        }),
{
    let da = decimal(a);
    let db = decimal(b);
    let s = da + seq![' '] + db;
    lemma_decimal(a);
    lemma_decimal(b);
    assert forall|k: int| 0 <= k < s.len() implies '\0' <= #[trigger] s[k] <= '\u{7f}' && s[k] != '\n' by {
        if k < da.len() {
            assert(s[k] == da[k]);
        } else if k > da.len() {
            assert(s[k] == db[k - da.len() - 1]);
        }
    }
}

/// The line `a b` placed after `pre`.
proof fn lemma_pair_line_at(pre: Seq<u8>, a: nat, b: nat, post: Seq<u8>)
    ensures
        ({
            let s = decimal(a) + seq![' '] + decimal(b);
            let bytes = pre + ascii_bytes(pair_line(a, b)) + post;
            &&& pair_line(a, b) == s + seq!['\n']
            &&& line_end(bytes, pre.len() as int) == pre.len() + s.len()
            &&& line_at(bytes, pre.len() as int) == Some(s)
        }),
{
    lemma_number_line_ascii(a, b);
    lemma_ascii_line(pre, decimal(a) + seq![' '] + decimal(b), post);
}

/// The lines of a nonempty list of pairs: the first line, then the rest.
proof fn lemma_pair_lines_front(es: Seq<(u32, u32)>)
    requires
        es.len() > 0,
    ensures
        pair_lines(es) == pair_line(es[0].0 as nat, es[0].1 as nat) + pair_lines(es.drop_first()),
    decreases es.len(),
{
    let first = pair_line(es[0].0 as nat, es[0].1 as nat);
    if es.len() == 1 {
        assert(es.drop_last() =~= Seq::<(u32, u32)>::empty());
        assert(es.drop_first() =~= Seq::<(u32, u32)>::empty());
        assert(pair_lines(es) =~= first + pair_lines(es.drop_first()));
    } else {
        let pre = es.drop_last();
        lemma_pair_lines_front(pre);
        assert(pre.drop_first() =~= es.drop_first().drop_last());
        assert(es.drop_first().last() == es.last());
        assert(pair_lines(es) =~= first + pair_lines(es.drop_first()));
    }
}

/// The edge lines written after `pre` read back as the same pairs.
proof fn lemma_read_back_pairs(pre: Seq<u8>, es: Seq<(u32, u32)>)
    ensures
        pairs_from(Format::EdgeList, pre + ascii_bytes(pair_lines(es)), pre.len() as int) == Ok::<
            Seq<(u32, u32)>,
            ReadError,
        >(es),
    decreases es.len(),
{
    let b = pre + ascii_bytes(pair_lines(es));
    if es.len() == 0 {
        assert(ascii_bytes(pair_lines(es)) =~= Seq::<u8>::empty());
        assert(b =~= pre);
        assert(es =~= Seq::<(u32, u32)>::empty());
    } else {
        lemma_pair_lines_front(es);
        let e = es[0];
        let rest = es.drop_first();
        let l = pair_line(e.0 as nat, e.1 as nat);
        lemma_ascii_bytes_add(l, pair_lines(rest));
        let post = ascii_bytes(pair_lines(rest));
        assert(b =~= pre + ascii_bytes(l) + post);
        lemma_pair_line_at(pre, e.0 as nat, e.1 as nat, post);
        lemma_two_numbers(e.0 as nat, e.1 as nat, u32::MAX as nat, Field::U, Field::V);
        let pre2 = pre + ascii_bytes(l);
        assert(b =~= pre2 + post);
        lemma_read_back_pairs(pre2, rest);
        assert(seq![e] + rest =~= es);
        let sl = decimal(e.0 as nat) + seq![' '] + decimal(e.1 as nat);
        let i = pre.len() as int;
        assert(i < b.len());
        assert(line_at(b, i) == Some(sl));
        assert(line_end(b, i) + 1 == pre2.len());
        assert(!passed_over(Format::EdgeList, sl));
        assert(pair_numbers(Format::EdgeList, sl) == Ok::<(u32, u32), ReadError>(e));
    }
}

/// Reading the edge-list text of a graph gives its vertex count, its number
/// of edges and its edge list.
pub proof fn lemma_edge_list_syntax(adj: Seq<Seq<u32>>)
    requires
        valid_adjacency(adj),
        num_edges(adj) <= usize::MAX,
    ensures
        edge_list_syntax(ascii_bytes(edge_list_text(adj))) == Ok::<(nat, nat, Seq<(u32, u32)>), ReadError>(
            (adj.len(), num_edges(adj), edge_list(adj)),
        ),
{
    let n = adj.len();
    let m = num_edges(adj);
    let head = pair_line(n, m);
    let b = ascii_bytes(edge_list_text(adj));
    let post = ascii_bytes(pair_lines(edge_list(adj)));
    lemma_ascii_bytes_add(head, pair_lines(edge_list(adj)));
    assert(b =~= Seq::<u8>::empty() + ascii_bytes(head) + post);
    lemma_pair_line_at(Seq::<u8>::empty(), n, m, post);
    lemma_two_numbers(n, m, usize::MAX as nat, Field::Nv, Field::Ne);
    assert(b =~= ascii_bytes(head) + post);
    lemma_read_back_pairs(ascii_bytes(head), edge_list(adj));
}

/// ASCII text lowercases character by character.
proof fn lemma_lower_ascii(s: Seq<char>)
    requires
        is_ascii_chars(s),
    ensures
        lower_chars(s) == s.map_values(|c: char| ascii_lowercase(c)),
    decreases s.len(),
{
    if s.len() > 0 {
        let pre = s.drop_last();
        assert(is_ascii_chars(pre)) by {
            assert forall|k: int| 0 <= k < pre.len() implies '\0' <= #[trigger] pre[k] <= '\u{7f}' by {
                assert(pre[k] == s[k]);
            }
        }
        lemma_lower_ascii(pre);
        assert('\0' <= s[s.len() - 1] <= '\u{7f}');
        assert(s.map_values(|c: char| ascii_lowercase(c)) =~= pre.map_values(|c: char| ascii_lowercase(c)) + seq![
            ascii_lowercase(s.last()),
        ]);
    }
}

/// The banner line that is written passes the banner check.
proof fn lemma_banner(post: Seq<u8>)
    ensures
        ({
            let b = ascii_bytes(banner_line()) + post;
            let s = banner_line().drop_last();
            &&& banner_line() == s + seq!['\n']
            &&& line_end(b, 0) == s.len()
            &&& line_at(b, 0) == Some(s)
            &&& banner_problem(s) is None
        }),
{
    reveal_strlit("%%MatrixMarket matrix coordinate pattern symmetric\n");
    reveal_strlit("%%matrixmarket matrix coordinate pattern symmetric");
    let full = banner_line();
    let s = full.drop_last();
    assert(full =~= s + seq!['\n']);
    assert(is_ascii_chars(s));
    lemma_ascii_line(Seq::<u8>::empty(), s, post);
    assert(Seq::<u8>::empty() + ascii_bytes(s + seq!['\n']) + post =~= ascii_bytes(banner_line()) + post);
    assert(!is_space(s[0]));
    assert(skip_spaces(s, 0) == 0);
    assert(!is_space(s[s.len() - 1]));
    assert(trim_end(s, s.len() as int) == s.len());
    assert(trimmed(s) =~= s);
    lemma_lower_ascii(s);
    let low = "%%matrixmarket matrix coordinate pattern symmetric"@;
    assert(lower_chars(s) =~= low);
    assert(low.subrange(0, 14) =~= banner_word());
    assert(low.subrange(41, 50) =~= symmetric_word());
    assert(low.subrange(22, 32) =~= coordinate_word());
    assert(low.subrange(41, 41 + symmetric_word().len() as int) == symmetric_word());
    assert(low.subrange(22, 22 + coordinate_word().len() as int) == coordinate_word());
    assert(low.subrange(33, 40) =~= pattern_word());
    assert(low.subrange(33, 33 + pattern_word().len() as int) == pattern_word());
    assert(starts_with(lower_chars(trimmed(s)), banner_word()));
    assert(occurs_in(lower_chars(trimmed(s)), symmetric_word()));
    assert(occurs_in(lower_chars(trimmed(s)), coordinate_word()));
    assert(occurs_in(lower_chars(trimmed(s)), pattern_word()));
}

/// The size line `n n m` placed after `pre`.
proof fn lemma_size_line_at(pre: Seq<u8>, n: nat, m: nat, post: Seq<u8>)
    requires
        n <= usize::MAX,
        m <= usize::MAX,
    ensures
        ({
            let s = decimal(n) + seq![' '] + decimal(n) + seq![' '] + decimal(m);
            let bytes = pre + ascii_bytes(decimal(n) + seq![' '] + pair_line(n, m)) + post;
            &&& decimal(n) + seq![' '] + pair_line(n, m) == s + seq!['\n']
            &&& line_end(bytes, pre.len() as int) == pre.len() + s.len()
            &&& line_at(bytes, pre.len() as int) == Some(s)
            &&& !passed_over(Format::MatrixMarket, s)
            &&& size_numbers(s) == Ok::<(nat, nat, nat), ReadError>((n, n, m))
        }),
{
    let dn = decimal(n);
    let dm = decimal(m);
    let s = dn + seq![' '] + dn + seq![' '] + dm;
    assert(dn + seq![' '] + pair_line(n, m) =~= s + seq!['\n']);
    lemma_decimal(n);
    lemma_decimal(m);
    assert forall|k: int| 0 <= k < s.len() implies '\0' <= #[trigger] s[k] <= '\u{7f}' && s[k] != '\n' by {
        let a = dn.len() as int;
        if k < a {
            assert(s[k] == dn[k]);
        } else if a < k < 2 * a + 1 {
            assert(s[k] == dn[k - a - 1]);
        } else if k > 2 * a + 1 {
            assert(s[k] == dm[k - 2 * a - 2]);
        }
    }
    lemma_ascii_line(pre, s, post);
    let max = usize::MAX as nat;
    lemma_first_number(dn, seq![' '] + dn + seq![' '] + dm, n, max, Field::Nrow);
    assert(s =~= dn + (seq![' '] + dn + seq![' '] + dm));
    lemma_next_number(dn + seq![' '], dn, seq![' '] + dm, n, max, Field::Ncol);
    assert(s =~= dn + seq![' '] + dn + (seq![' '] + dm));
    lemma_next_number(dn + seq![' '] + dn + seq![' '], dm, Seq::<char>::empty(), m, max, Field::Nnz);
    assert(s =~= dn + seq![' '] + dn + seq![' '] + dm + Seq::<char>::empty());
}

/// The entry lines of a nonempty list of pairs: the first line, then the rest.
proof fn lemma_entry_lines_front(es: Seq<(u32, u32)>)
    requires
        es.len() > 0,
    ensures
        entry_lines(es) == pair_line((es[0].1 + 1) as nat, (es[0].0 + 1) as nat) + entry_lines(es.drop_first()),
    decreases es.len(),
{
    let first = pair_line((es[0].1 + 1) as nat, (es[0].0 + 1) as nat);
    if es.len() == 1 {
        assert(es.drop_last() =~= Seq::<(u32, u32)>::empty());
        assert(es.drop_first() =~= Seq::<(u32, u32)>::empty());
        assert(entry_lines(es) =~= first + entry_lines(es.drop_first()));
    } else {
        let pre = es.drop_last();
        lemma_entry_lines_front(pre);
        assert(pre.drop_first() =~= es.drop_first().drop_last());
        assert(es.drop_first().last() == es.last());
        assert(entry_lines(es) =~= first + entry_lines(es.drop_first()));
    }
}

/// Each pair with its two vertices exchanged.
pub open spec fn swapped(es: Seq<(u32, u32)>) -> Seq<(u32, u32)> {
    es.map_values(|e: (u32, u32)| (e.1, e.0))
}

/// The entry lines written after `pre` read back as the pairs, each with its
/// vertices exchanged (row above column).
proof fn lemma_read_back_entries(pre: Seq<u8>, es: Seq<(u32, u32)>)
    requires
        forall|k: int| 0 <= k < es.len() ==> (#[trigger] es[k]).0 < u32::MAX && es[k].1 < u32::MAX,
    ensures
        pairs_from(Format::MatrixMarket, pre + ascii_bytes(entry_lines(es)), pre.len() as int) == Ok::<
            Seq<(u32, u32)>,
            ReadError,
        >(swapped(es)),
    decreases es.len(),
{
    let b = pre + ascii_bytes(entry_lines(es));
    if es.len() == 0 {
        assert(ascii_bytes(entry_lines(es)) =~= Seq::<u8>::empty());
        assert(b =~= pre);
        assert(swapped(es) =~= Seq::<(u32, u32)>::empty());
    } else {
        lemma_entry_lines_front(es);
        let e = es[0];
        let rest = es.drop_first();
        let r1 = (e.1 + 1) as nat;
        let c1 = (e.0 + 1) as nat;
        let l = pair_line(r1, c1);
        lemma_ascii_bytes_add(l, entry_lines(rest));
        let post = ascii_bytes(entry_lines(rest));
        assert(b =~= pre + ascii_bytes(l) + post);
        lemma_pair_line_at(pre, r1, c1, post);
        lemma_two_numbers(r1, c1, u32::MAX as nat, Field::Row, Field::Col);
        let pre2 = pre + ascii_bytes(l);
        assert(b =~= pre2 + post);
        assert forall|k: int| 0 <= k < rest.len() implies (#[trigger] rest[k]).0 < u32::MAX && rest[k].1 < u32::MAX by {
            assert(rest[k] == es[k + 1]);
        }
        lemma_read_back_entries(pre2, rest);
        assert(seq![(e.1, e.0)] + swapped(rest) =~= swapped(es));
        let sl = decimal(r1) + seq![' '] + decimal(c1);
        let i = pre.len() as int;
        assert(i < b.len());
        assert(line_at(b, i) == Some(sl));
        assert(line_end(b, i) + 1 == pre2.len());
        assert(!passed_over(Format::MatrixMarket, sl));
        assert(pair_numbers(Format::MatrixMarket, sl) == Ok::<(u32, u32), ReadError>((e.1, e.0)));
    }
}

/// Reading the Matrix Market text of a graph gives its order, its number of
/// edges and its edge list with each pair exchanged.
pub proof fn lemma_matrix_market_syntax(adj: Seq<Seq<u32>>)
    requires
        valid_adjacency(adj),
        num_edges(adj) <= usize::MAX,
    ensures
        matrix_market_syntax(ascii_bytes(matrix_market_text(adj))) == Ok::<(nat, nat, Seq<(u32, u32)>), ReadError>(
            (adj.len(), num_edges(adj), swapped(edge_list(adj))),
        ),
{
    let n = adj.len();
    let m = num_edges(adj);
    let el = edge_list(adj);
    let size = decimal(n) + seq![' '] + pair_line(n, m);
    let b = ascii_bytes(matrix_market_text(adj));
    let rest = ascii_bytes(size) + ascii_bytes(entry_lines(el));
    assert(matrix_market_text(adj) =~= banner_line() + size + entry_lines(el));
    lemma_ascii_bytes_add(banner_line() + size, entry_lines(el));
    lemma_ascii_bytes_add(banner_line(), size);
    assert(b =~= ascii_bytes(banner_line()) + rest);
    lemma_banner(rest);
    let pre = ascii_bytes(banner_line());
    assert(line_end(b, 0) + 1 == pre.len());
    assert(b =~= pre + ascii_bytes(size) + ascii_bytes(entry_lines(el)));
    lemma_size_line_at(pre, n, m, ascii_bytes(entry_lines(el)));
    let pre2 = pre + ascii_bytes(size);
    assert(b =~= pre2 + ascii_bytes(entry_lines(el)));
    lemma_edges_from(adj, 0);
    assert forall|k: int| 0 <= k < el.len() implies (#[trigger] el[k]).0 < u32::MAX && el[k].1 < u32::MAX by {}
    lemma_read_back_entries(pre2, el);
    let s3 = decimal(n) + seq![' '] + decimal(n) + seq![' '] + decimal(m);
    assert(size_from(b, pre.len() as int) == Ok::<(nat, nat, int), ReadError>((n, m, pre2.len() as int)));
}

} // verus!
