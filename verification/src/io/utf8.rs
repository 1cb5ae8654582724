//! Decoding one line of input bytes as UTF-8.
use vstd::prelude::*;
use vstd::utf8::{
    char_u32_cast, decode_first_scalar, decode_utf8, is_scalar, length_of_first_scalar,
    pop_first_scalar, valid_first_scalar, valid_utf8,
};

verus! {

/// Converts a value to a `char` with `char::from_u32`, which std documents
/// to succeed exactly on Unicode scalar values (not a surrogate, at most
/// `0x10FFFF`); claims that and that the `char` has the given value.
#[verifier::external_body]
fn char_of_scalar(v: u32) -> (r: Option<char>)
    ensures
        r is Some <==> is_scalar(v),
        r matches Some(c) ==> c as u32 == v,
{
    char::from_u32(v)
}

/// Decoded characters of `bytes`, or `None` when they are not valid UTF-8.
pub open spec fn decoded(bytes: Seq<u8>) -> Option<Seq<char>> {
    if valid_utf8(bytes) {
        Some(decode_utf8(bytes))
    } else {
        None
    }
}

/// Decodes `b[start..end]` as UTF-8: the characters, or `None` when the bytes
/// are not valid UTF-8.
pub fn decode_range(b: &[u8], start: usize, end: usize) -> (r: Option<Vec<char>>)
    requires
        start <= end <= b@.len(),
    ensures
        r is Some <==> valid_utf8(b@.subrange(start as int, end as int)),
        r matches Some(cs) ==> cs@ == decode_utf8(b@.subrange(start as int, end as int)),
{
    let ghost whole = b@.subrange(start as int, end as int);
    let mut out: Vec<char> = Vec::new();
    let mut i = start;
    proof {
        assert(b@.subrange(i as int, end as int) == whole);
    }
    while i < end
        invariant
            start <= i <= end <= b@.len(),
            whole == b@.subrange(start as int, end as int),
            valid_utf8(whole) <==> valid_utf8(b@.subrange(i as int, end as int)),
            valid_utf8(whole) ==> decode_utf8(whole) == out@ + decode_utf8(b@.subrange(i as int, end as int)),
        decreases end - i,
    {
        let ghost rest = b@.subrange(i as int, end as int);
        let b0 = b[i];
        let mut ok = false;
        let mut w: usize = 1;
        let mut cp: u32 = 0;
        if b0 <= 0x7f {
            cp = (b0 & 0x7F) as u32;
            assert((b0 & 0x7F) as u32 <= 0x7F) by (bit_vector);
            ok = true;
        } else if 0xc0 <= b0 && b0 <= 0xdf {
            if end - i > 1 {
                let b1 = b[i + 1];
                if 0x80 <= b1 && b1 <= 0xbf {
                    cp = (((b0 & 0x1F) as u32) << 6) | ((b1 & 0x3F) as u32);
                    assert((((b0 & 0x1F) as u32) << 6) | ((b1 & 0x3F) as u32) <= 0x7FF) by (bit_vector);
                    w = 2;
                    ok = 0x80 <= cp;
                }
            }
        } else if 0xe0 <= b0 && b0 <= 0xef {
            if end - i > 2 {
                let b1 = b[i + 1];
                let b2 = b[i + 2];
                if 0x80 <= b1 && b1 <= 0xbf && 0x80 <= b2 && b2 <= 0xbf {
                    cp = (((b0 & 0x0F) as u32) << 12) | (((b1 & 0x3F) as u32) << 6) | ((b2 & 0x3F) as u32);
                    assert((((b0 & 0x0F) as u32) << 12) | (((b1 & 0x3F) as u32) << 6) | ((b2 & 0x3F) as u32)
                        <= 0xFFFF) by (bit_vector);
                    w = 3;
                    ok = 0x800 <= cp && !(0xD800 <= cp && cp <= 0xDFFF);
                }
            }
        } else if 0xf0 <= b0 && b0 <= 0xf7 {
            if end - i > 3 {
                let b1 = b[i + 1];
                let b2 = b[i + 2];
                let b3 = b[i + 3];
                if 0x80 <= b1 && b1 <= 0xbf && 0x80 <= b2 && b2 <= 0xbf && 0x80 <= b3 && b3 <= 0xbf {
                    cp = (((b0 & 0x07) as u32) << 18) | (((b1 & 0x3F) as u32) << 12) | (((b2 & 0x3F) as u32) << 6)
                        | ((b3 & 0x3F) as u32);
                    w = 4;
                    ok = 0x10000 <= cp && cp <= 0x10FFFF;
                }
            }
        }
        if !ok {
            proof {
                assert(rest.len() > 0);
                assert(rest[0] == b0);
                assert(!valid_first_scalar(rest));
                assert(!valid_utf8(rest));
            }
            return None;
        }
        proof {
            assert(rest[0] == b0);
            assert(valid_first_scalar(rest));
            assert(decode_first_scalar(rest) == cp);
            assert(length_of_first_scalar(rest) == w);
            assert(pop_first_scalar(rest) =~= b@.subrange(i + w, end as int));
            assert(is_scalar(cp));
        }
        match char_of_scalar(cp) {
            Some(c) => {
                proof {
                    char_u32_cast(c, cp);
                }
                out.push(c);
            },
            None => {
                return None;
            },
        }
        i = i + w;
    }
    proof {
        assert(b@.subrange(i as int, end as int) =~= Seq::<u8>::empty());
        assert(out@ + Seq::<char>::empty() =~= out@);
    }
    Some(out)
}

} // verus!
