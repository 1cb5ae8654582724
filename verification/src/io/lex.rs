//! Words and numbers within one decoded line, as `str::trim`,
//! `str::split_whitespace` and `str::parse` for unsigned integers see them.
use vstd::prelude::*;

verus! {

/// Unicode `White_Space` characters, as tested by `char::is_whitespace`.
pub open spec fn is_space(c: char) -> bool {
    let v = c as u32;
    ||| 0x09 <= v <= 0x0d
    ||| v == 0x20
    ||| v == 0x85
    ||| v == 0xa0
    ||| v == 0x1680
    ||| 0x2000 <= v <= 0x200a
    ||| v == 0x2028
    ||| v == 0x2029
    ||| v == 0x202f
    ||| v == 0x205f
    ||| v == 0x3000
}

/// Whether `c` is a white-space character.
pub fn space(c: char) -> (b: bool)
    ensures
        b == is_space(c),
{
    let v = c as u32;
    (0x09 <= v && v <= 0x0d) || v == 0x20 || v == 0x85 || v == 0xa0 || v == 0x1680 || (0x2000 <= v && v
        <= 0x200a) || v == 0x2028 || v == 0x2029 || v == 0x202f || v == 0x205f || v == 0x3000
}

/// First position at or after `i` that does not hold a space, or the end.
pub open spec fn skip_spaces(s: Seq<char>, i: int) -> int
    decreases s.len() - i,
{
    if i >= s.len() || !is_space(s[i]) {
        i
    } else {
        skip_spaces(s, i + 1)
    }
}

/// First position at or after `i` that holds a space, or the end.
pub open spec fn skip_word(s: Seq<char>, i: int) -> int
    decreases s.len() - i,
{
    if i >= s.len() || is_space(s[i]) {
        i
    } else {
        skip_word(s, i + 1)
    }
}

/// The line holds nothing but spaces (it trims to the empty string).
pub open spec fn blank(s: Seq<char>) -> bool {
    skip_spaces(s, 0) >= s.len()
}

/// The first character of the trimmed line.
pub open spec fn first_visible(s: Seq<char>) -> char {
    s[skip_spaces(s, 0)]
}

/// The next word at or after `i`, as its start and end positions.
pub open spec fn next_word(s: Seq<char>, i: int) -> Option<(int, int)> {
    let a = skip_spaces(s, i);
    if a >= s.len() {
        None
    } else {
        Some((a, skip_word(s, a)))
    }
}

/// Text put after a line does not move a position that the spaces from
/// `i` on stop at inside the line.
pub proof fn lemma_skip_spaces_append(s: Seq<char>, u: Seq<char>, i: int)
    requires
        0 <= i,
        skip_spaces(s, i) < s.len(),
    ensures
        skip_spaces(s + u, i) == skip_spaces(s, i),
    decreases s.len() - i,
{
    assert((s + u)[i] == s[i]);
    if is_space(s[i]) {
        lemma_skip_spaces_append(s, u, i + 1);
    }
}

/// Text put after a line, when it starts with a space, does not move the end
/// of a word of the line.
pub proof fn lemma_skip_word_append(s: Seq<char>, u: Seq<char>, i: int)
    requires
        0 <= i <= s.len(),
        u.len() > 0,
        is_space(u[0]),
    ensures
        skip_word(s + u, i) == skip_word(s, i),
    decreases s.len() - i,
{
    if i < s.len() {
        assert((s + u)[i] == s[i]);
        if !is_space(s[i]) {
            lemma_skip_word_append(s, u, i + 1);
        }
    } else {
        assert((s + u)[i] == u[0]);
    }
}

/// Text that starts with a space, put after a line, leaves a word found in
/// the line where it is.
pub proof fn lemma_next_word_append(s: Seq<char>, u: Seq<char>, i: int)
    requires
        0 <= i,
        u.len() > 0,
        is_space(u[0]),
        next_word(s, i) is Some,
    ensures
        next_word(s + u, i) == next_word(s, i),
        next_word(s, i) matches Some((a, e)) && i <= a < e <= s.len() && (s + u).subrange(a, e) == s.subrange(a, e),
{
    lemma_skip_spaces_append(s, u, i);
    let a = skip_spaces(s, i);
    lemma_skip_spaces_bounds(s, i);
    lemma_skip_word_append(s, u, a);
    lemma_skip_word_bounds(s, a);
    let e = skip_word(s, a);
    assert((s + u).subrange(a, e) =~= s.subrange(a, e));
}

/// Where the spaces from `i` stop.
pub proof fn lemma_skip_spaces_bounds(s: Seq<char>, i: int)
    requires
        0 <= i,
    ensures
        i <= skip_spaces(s, i),
        i <= s.len() ==> skip_spaces(s, i) <= s.len(),
        skip_spaces(s, i) < s.len() ==> !is_space(s[skip_spaces(s, i)]),
    decreases s.len() - i,
{
    if i < s.len() && is_space(s[i]) {
        lemma_skip_spaces_bounds(s, i + 1);
    }
}

/// Where the word from `i` ends.
pub proof fn lemma_skip_word_bounds(s: Seq<char>, i: int)
    requires
        0 <= i,
    ensures
        i <= skip_word(s, i),
        i <= s.len() ==> skip_word(s, i) <= s.len(),
        i < s.len() && !is_space(s[i]) ==> i < skip_word(s, i),
    decreases s.len() - i,
{
    if i < s.len() && !is_space(s[i]) {
        lemma_skip_word_bounds(s, i + 1);
    }
}

/// Position of the first space at or after `i` (or the end).
pub fn find_space(s: &Vec<char>, i: usize) -> (j: usize)
    requires
        i <= s@.len(),
    ensures
        j == skip_word(s@, i as int),
        i <= j <= s@.len(),
        j < s@.len() ==> is_space(s@[j as int]),
{
    let mut j = i;
    while j < s.len() && !space(s[j])
        invariant
            i <= j <= s@.len(),
            skip_word(s@, i as int) == skip_word(s@, j as int),
        decreases s@.len() - j,
    {
        j += 1;
    }
    j
}

/// Position of the first non-space at or after `i` (or the end).
pub fn find_visible(s: &Vec<char>, i: usize) -> (j: usize)
    requires
        i <= s@.len(),
    ensures
        j == skip_spaces(s@, i as int),
        i <= j <= s@.len(),
        j < s@.len() ==> !is_space(s@[j as int]),
{
    let mut j = i;
    while j < s.len() && space(s[j])
        invariant
            i <= j <= s@.len(),
            skip_spaces(s@, i as int) == skip_spaces(s@, j as int),
        decreases s@.len() - j,
    {
        j += 1;
    }
    j
}

/// Why a word is not a number.
#[derive(Debug, Clone, Copy, PartialEq, Eq)]
pub enum NumberError {
    /// A character that is not an ASCII digit ("invalid digit found in string").
    InvalidDigit,
    /// The value does not fit the target type ("number too large to fit in target type").
    TooLarge,
}

/// Whether `c` is an ASCII digit.
pub open spec fn is_digit(c: char) -> bool {
    '0' <= c <= '9'
}

/// Value of the ASCII digit `c`.
pub open spec fn digit_value(c: char) -> nat {
    (c as u32 - '0' as u32) as nat
}

/// Reading the digits of `t` from `i` on into `acc`, left to right, failing at
/// the first non-digit or as soon as the value exceeds `max`.
pub open spec fn digits_from(t: Seq<char>, i: int, acc: nat, max: nat) -> Result<nat, NumberError>
    decreases t.len() - i,
{
    if i >= t.len() {
        Ok(acc)
    } else if !is_digit(t[i]) {
        Err(NumberError::InvalidDigit)
    } else if acc * 10 + digit_value(t[i]) > max {
        Err(NumberError::TooLarge)
    } else {
        digits_from(t, i + 1, acc * 10 + digit_value(t[i]), max)
    }
}

/// The value of a (nonempty) word read as an unsigned integer of at most
/// `max`: an optional `+` then decimal digits, as `str::parse` reads them.
pub open spec fn parse_unsigned(t: Seq<char>, max: nat) -> Result<nat, NumberError> {
    if t.len() == 1 && (t[0] == '+' || t[0] == '-') {
        Err(NumberError::InvalidDigit)
    } else if t.len() > 0 && t[0] == '+' {
        digits_from(t, 1, 0, max)
    } else {
        digits_from(t, 0, 0, max)
    }
}

/// Reads `s[a..b]` as an unsigned integer of at most `max`.
pub fn parse_range(s: &Vec<char>, a: usize, b: usize, max: u64) -> (r: Result<u64, NumberError>)
    requires
        a < b <= s@.len(),
        max >= 9,
    ensures
        match parse_unsigned(s@.subrange(a as int, b as int), max as nat) {
            Ok(v) => v <= max && r == Ok::<u64, NumberError>(v as u64),
            Err(e) => r == Err::<u64, NumberError>(e),
        },
        r matches Ok(v) ==> v <= max,
{
    let ghost t = s@.subrange(a as int, b as int);
    let mut i = a;
    if b - a == 1 && (s[a] == '+' || s[a] == '-') {
        return Err(NumberError::InvalidDigit);
    }
    if s[a] == '+' {
        i = a + 1;
    }
    let mut acc: u64 = 0;
    while i < b
        invariant
            a <= i <= b <= s@.len(),
            t == s@.subrange(a as int, b as int),
            acc <= max,
            max >= 9,
            parse_unsigned(t, max as nat) == digits_from(t, i - a, acc as nat, max as nat),
        decreases b - i,
    {
        let c = s[i];
        assert(t[i - a] == c);
        if !('0' <= c && c <= '9') {
            return Err(NumberError::InvalidDigit);
        }
        let d = (c as u32 - '0' as u32) as u64;
        assert(d <= 9 && d == digit_value(c));
        if acc > (max - d) / 10 {
            proof {
                assert(acc * 10 + d > max) by (nonlinear_arith)
                    requires
                        acc > (max - d) / 10,
                        d <= 9,
                        max >= 9,
                ;
            }
            return Err(NumberError::TooLarge);
        }
        proof {
            assert(acc * 10 + d <= max) by (nonlinear_arith)
                requires
                    acc <= (max - d) / 10,
                    d <= 9,
                    max >= 9,
            ;
        }
        acc = acc * 10 + d;
        i += 1;
    }
    Ok(acc)
}

} // verus!
