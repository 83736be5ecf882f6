//! Characters as bytes: the UTF-8 encoding the header is written in.
//!
//! Header lines carry each character in its natural byte encoding. The two
//! functions here turn a character into its UTF-8 bytes and read the first
//! character back out of a byte range, proved against the UTF-8 theory of
//! `vstd::utf8`.

use vstd::prelude::*;
use vstd::utf8::{
    char_is_scalar, decode_first_scalar, encode_scalar, is_scalar, length_of_first_scalar,
    valid_first_scalar,
};

verus! {

/// Relies on `char::from_u32`: exactly the Unicode scalar values convert,
/// each to the character with that code point.
#[verifier::external_body]
fn char_from_u32(v: u32) -> (r: Option<char>)
    ensures
        r matches Some(c) ==> c as u32 == v,
        is_scalar(v) ==> r is Some,
        !is_scalar(v) ==> r is None,
{
    char::from_u32(v)
}

/// Appends the UTF-8 encoding of `c` to `out`.
pub(crate) fn push_utf8(out: &mut Vec<u8>, c: char)
    ensures
        final(out)@ == old(out)@ + encode_scalar(c as u32),
{
    let ghost orig = out@;
    let v = c as u32;
    proof {
        char_is_scalar(c);
    }
    if v < 0x80 {
        out.push(v as u8);
        proof {
            assert((v & 0x7F) as u8 == v as u8) by (bit_vector)
                requires
                    v < 0x80,
            ;
            assert(out@ =~= orig + encode_scalar(v));
        }
    } else if v < 0x800 {
        out.push(0xC0 | ((v >> 6) & 0x1F) as u8);
        out.push(0x80 | (v & 0x3F) as u8);
        proof {
            assert(out@ =~= orig + encode_scalar(v));
        }
    } else if v < 0x10000 {
        out.push(0xE0 | ((v >> 12) & 0x0F) as u8);
        out.push(0x80 | ((v >> 6) & 0x3F) as u8);
        out.push(0x80 | (v & 0x3F) as u8);
        proof {
            assert(out@ =~= orig + encode_scalar(v));
        }
    } else {
        out.push(0xF0 | ((v >> 18) & 0x7) as u8);
        out.push(0x80 | ((v >> 12) & 0x3F) as u8);
        out.push(0x80 | ((v >> 6) & 0x3F) as u8);
        out.push(0x80 | (v & 0x3F) as u8);
        proof {
            assert(out@ =~= orig + encode_scalar(v));
        }
    }
}

/// Reads the first character encoded in `input[start..end]`: the character
/// and the number of bytes its encoding takes, or nothing when the range
/// does not begin with a well-formed scalar encoding.
pub(crate) fn decode_first_char(input: &Vec<u8>, start: usize, end: usize) -> (r: Option<
    (char, usize),
>)
    requires
        start <= end <= input@.len(),
    ensures
        match r {
            Some(p) => {
                &&& valid_first_scalar(input@.subrange(start as int, end as int))
                &&& p.0 as u32 == decode_first_scalar(input@.subrange(start as int, end as int))
                &&& p.1 as int == length_of_first_scalar(
                    input@.subrange(start as int, end as int),
                )
                &&& start + p.1 <= end
                &&& 1 <= p.1 <= 4
            },
            None => !valid_first_scalar(input@.subrange(start as int, end as int)),
        },
{
    let ghost sub = input@.subrange(start as int, end as int);
    if start >= end {
        return None;
    }
    let b0 = input[start];
    proof {
        assert(sub[0] == input@[start as int]);
    }
    if b0 < 0x80 {
        proof {
            assert((b0 & 0x7F) as u32 == b0 as u32) by (bit_vector)
                requires
                    b0 < 0x80,
            ;
            assert(is_scalar(b0 as u32));
        }
        match char_from_u32(b0 as u32) {
            Some(c) => Some((c, 1)),
            None => {
                proof {
                    assert(false);
                }
                None
            },
        }
    } else if b0 >= 0xC0 && b0 < 0xE0 {
        if end - start < 2 {
            return None;
        }
        let b1 = input[start + 1];
        proof {
            assert(sub[1] == input@[start as int + 1]);
        }
        if !(b1 >= 0x80 && b1 < 0xC0) {
            return None;
        }
        let cp = (((b0 & 0x1F) as u32) << 6) | ((b1 & 0x3F) as u32);
        if cp < 0x80 {
            return None;
        }
        proof {
            assert((((b0 & 0x1F) as u32) << 6) | ((b1 & 0x3F) as u32) <= 0x7FF) by (bit_vector);
            assert(is_scalar(cp));
        }
        match char_from_u32(cp) {
            Some(c) => Some((c, 2)),
            None => {
                proof {
                    assert(false);
                }
                None
            },
        }
    } else if b0 >= 0xE0 && b0 < 0xF0 {
        if end - start < 3 {
            return None;
        }
        let b1 = input[start + 1];
        let b2 = input[start + 2];
        proof {
            assert(sub[1] == input@[start as int + 1]);
            assert(sub[2] == input@[start as int + 2]);
        }
        if !(b1 >= 0x80 && b1 < 0xC0) {
            return None;
        }
        if !(b2 >= 0x80 && b2 < 0xC0) {
            return None;
        }
        let cp = (((b0 & 0x0F) as u32) << 12) | (((b1 & 0x3F) as u32) << 6) | ((b2 & 0x3F) as u32);
        if cp < 0x800 {
            return None;
        }
        if cp >= 0xD800 && cp <= 0xDFFF {
            return None;
        }
        proof {
            assert((((b0 & 0x0F) as u32) << 12) | (((b1 & 0x3F) as u32) << 6) | ((b2
                & 0x3F) as u32) <= 0xFFFF) by (bit_vector);
            assert(is_scalar(cp));
        }
        match char_from_u32(cp) {
            Some(c) => Some((c, 3)),
            None => {
                proof {
                    assert(false);
                }
                None
            },
        }
    } else if b0 >= 0xF0 && b0 < 0xF8 {
        if end - start < 4 {
            return None;
        }
        let b1 = input[start + 1];
        let b2 = input[start + 2];
        let b3 = input[start + 3];
        proof {
            assert(sub[1] == input@[start as int + 1]);
            assert(sub[2] == input@[start as int + 2]);
            assert(sub[3] == input@[start as int + 3]);
        }
        if !(b1 >= 0x80 && b1 < 0xC0) {
            return None;
        }
        if !(b2 >= 0x80 && b2 < 0xC0) {
            return None;
        }
        if !(b3 >= 0x80 && b3 < 0xC0) {
            return None;
        }
        let cp = (((b0 & 0x07) as u32) << 18) | (((b1 & 0x3F) as u32) << 12) | (((b2
            & 0x3F) as u32) << 6) | ((b3 & 0x3F) as u32);
        if cp < 0x10000 || cp > 0x10FFFF {
            return None;
        }
        proof {
            assert(is_scalar(cp));
        }
        match char_from_u32(cp) {
            Some(c) => Some((c, 4)),
            None => {
                proof {
                    assert(false);
                }
                None
            },
        }
    } else {
        None
    }
}

} // verus!
