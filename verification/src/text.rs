//! Decimal notation of numbers, shared by messages and the text formats.
use vstd::prelude::*;

verus! {

/// The ASCII digit for `d` (0..=9).
pub open spec fn digit_char(d: nat) -> char {
    ((d + 48) as u8) as char
}

/// Decimal notation of `n`, without sign or leading zeros ("0" for zero).
pub open spec fn decimal(n: nat) -> Seq<char>
    decreases n,
{
    if n < 10 {
        seq![digit_char(n)]
    } else {
        decimal(n / 10).push(digit_char(n % 10))
    }
}

/// The bytes of an ASCII text, one per character.
pub open spec fn ascii_bytes(s: Seq<char>) -> Seq<u8> {
    s.map_values(|c: char| c as u8)
}

/// The bytes of a concatenation are the concatenated bytes.
pub proof fn lemma_ascii_bytes_add(a: Seq<char>, b: Seq<char>)
    ensures
        ascii_bytes(a + b) == ascii_bytes(a) + ascii_bytes(b),
{
    assert(ascii_bytes(a + b) =~= ascii_bytes(a) + ascii_bytes(b));
}

/// Appends the decimal notation of `n` to `out`.
pub fn push_decimal(out: &mut Vec<u8>, n: u64)
    ensures
        final(out)@ == old(out)@ + ascii_bytes(decimal(n as nat)),
    decreases n,
{
    if n >= 10 {
        push_decimal(out, n / 10);
    }
    let d = (n % 10) as u8;
    out.push(48 + d);
    proof {
        let ghost m = n as nat;
        if n >= 10 {
            assert(decimal(m) == decimal(m / 10).push(digit_char(m % 10)));
            lemma_ascii_bytes_add(decimal(m / 10), seq![digit_char(m % 10)]);
            assert(decimal(m / 10).push(digit_char(m % 10)) =~= decimal(m / 10) + seq![digit_char(m % 10)]);
        }
        assert(ascii_bytes(seq![digit_char(m % 10)]) =~= seq![(48 + d) as u8]);
        assert(final(out)@ =~= old(out)@ + ascii_bytes(decimal(m)));
    }
}

/// A line of two numbers separated by a space.
pub open spec fn pair_line(a: nat, b: nat) -> Seq<char> {
    decimal(a) + seq![' '] + decimal(b) + seq!['\n']
}

/// Appends the line `a b` to `out`.
pub fn push_pair_line(out: &mut Vec<u8>, a: u64, b: u64)
    ensures
        final(out)@ == old(out)@ + ascii_bytes(pair_line(a as nat, b as nat)),
{
    let ghost base = out@;
    push_decimal(out, a);
    out.push(32);
    push_decimal(out, b);
    out.push(10);
    proof {
        let da = decimal(a as nat);
        let db = decimal(b as nat);
        lemma_ascii_bytes_add(da + seq![' '] + db, seq!['\n']);
        lemma_ascii_bytes_add(da + seq![' '], db);
        lemma_ascii_bytes_add(da, seq![' ']);
        assert(ascii_bytes(seq![' ']) =~= seq![32u8]);
        assert(ascii_bytes(seq!['\n']) =~= seq![10u8]);
        assert(final(out)@ =~= base + ascii_bytes(pair_line(a as nat, b as nat)));
    }
}

} // verus!
