//! The code table's wire format.
//!
//! The header is text: one line per table entry, sorted by ascending
//! character, each line the character's own bytes followed by its code
//! written as ASCII `0`/`1` digits. The line-terminator character cannot
//! open a line literally — its byte is the line break itself — so its
//! entry appears as an empty line followed by a line of only digits, which
//! is why the parser looks one line ahead whenever it reads an empty line:
//! a second empty line ends the header, anything else codes the
//! terminator.

use crate::bits::{bit_vec_capacity, NewBitVec};
use crate::codes::codes_view;
use crate::errors::{HuffmanEncodingError, SpecHuffmanEncodingError};
use crate::unicode::{decode_first_char, push_utf8};
use vstd::prelude::*;
use vstd::utf8::{decode_first_scalar, encode_scalar, length_of_first_scalar, valid_first_scalar};

verus! {

/// A code as header digits: one ASCII `0` or `1` byte per bit.
pub open spec fn digits_of(code: Seq<bool>) -> Seq<u8> {
    code.map(|i: int, b: bool| if b {
        0x31u8
    } else {
        0x30u8
    })
}

/// One header line: the character's bytes, its code's digits, and the
/// line terminator.
pub open spec fn entry_bytes(c: char, code: Seq<bool>) -> Seq<u8> {
    encode_scalar(c as u32) + digits_of(code) + seq![0x0Au8]
}

/// The header's lines, one per entry, in table order.
pub open spec fn header_bytes(t: Seq<(char, Seq<bool>)>) -> Seq<u8>
    decreases t.len(),
{
    if t.len() == 0 {
        Seq::<u8>::empty()
    } else {
        entry_bytes(t[0].0, t[0].1) + header_bytes(t.drop_first())
    }
}

/// Header lines concatenate over table concatenation.
pub proof fn lemma_header_bytes_concat(a: Seq<(char, Seq<bool>)>, b: Seq<(char, Seq<bool>)>)
    ensures
        header_bytes(a + b) == header_bytes(a) + header_bytes(b),
    decreases a.len(),
{
    if a.len() == 0 {
        assert(a + b =~= b);
        assert(header_bytes(a) + header_bytes(b) =~= header_bytes(b));
    } else {
        assert((a + b).drop_first() =~= a.drop_first() + b);
        lemma_header_bytes_concat(a.drop_first(), b);
        assert(header_bytes(a + b) =~= header_bytes(a) + header_bytes(b));
    }
}

/// The position of the next line terminator at or after `pos`, if one
/// remains.
pub open spec fn find_nl(bytes: Seq<u8>, pos: int) -> Option<int>
    decreases bytes.len() - pos,
    when 0 <= pos <= bytes.len()
{
    if pos == bytes.len() {
        None
    } else if bytes[pos] == 0x0A {
        Some(pos)
    } else {
        find_nl(bytes, pos + 1)
    }
}

/// What the terminator search answers: the first terminator at or after
/// `pos`, or none to the end of the input.
pub proof fn lemma_find_nl(bytes: Seq<u8>, pos: int)
    requires
        0 <= pos <= bytes.len(),
    ensures
        match find_nl(bytes, pos) {
            Some(e) => pos <= e < bytes.len() && bytes[e] == 0x0A && (forall|k: int|
                pos <= k < e ==> bytes[k] != 0x0A),
            None => forall|k: int| pos <= k < bytes.len() ==> bytes[k] != 0x0A,
        },
    decreases bytes.len() - pos,
{
    if pos < bytes.len() && bytes[pos] != 0x0A {
        lemma_find_nl(bytes, pos + 1);
    }
}

/// The terminator found first is the one whose run of other bytes leads
/// to it.
pub proof fn lemma_find_nl_at(bytes: Seq<u8>, pos: int, e: int)
    requires
        0 <= pos <= e < bytes.len(),
        bytes[e] == 0x0A,
        forall|k: int| pos <= k < e ==> bytes[k] != 0x0A,
    ensures
        find_nl(bytes, pos) == Some(e),
    decreases e - pos,
{
    if pos < e {
        lemma_find_nl_at(bytes, pos + 1, e);
    }
}

/// Reads code digits between `from` and `to` onto `acc`: the bits read,
/// or on any byte other than the two digits the bits collected so far.
pub open spec fn spec_parse_digits(bytes: Seq<u8>, from: int, to: int, acc: Seq<bool>) -> Result<
    Seq<bool>,
    Seq<bool>,
>
    decreases to - from,
    when 0 <= from && to <= bytes.len()
{
    if from >= to {
        Ok(acc)
    } else if bytes[from] == 0x30 {
        spec_parse_digits(bytes, from + 1, to, acc.push(false))
    } else if bytes[from] == 0x31 {
        spec_parse_digits(bytes, from + 1, to, acc.push(true))
    } else {
        Err(acc)
    }
}

/// Reads header entries from `pos` onto `acc`: the finished table and the
/// position after the header's closing empty line, or how parsing failed.
pub open spec fn spec_parse_entries(
    bytes: Seq<u8>,
    pos: int,
    acc: Seq<(char, Seq<bool>)>,
) -> Result<(Seq<(char, Seq<bool>)>, int), SpecHuffmanEncodingError>
    decreases bytes.len() - pos,
    when 0 <= pos <= bytes.len()
    via spec_parse_entries_decreases
{
    match find_nl(bytes, pos) {
        None => Err(SpecHuffmanEncodingError::TruncatedHeader),
        Some(e) => {
            if e == pos {
                match find_nl(bytes, pos + 1) {
                    None => Err(SpecHuffmanEncodingError::TruncatedHeader),
                    Some(e2) => {
                        if e2 == pos + 1 {
                            Ok((acc, pos + 2))
                        } else {
                            match spec_parse_digits(bytes, pos + 1, e2, Seq::<bool>::empty()) {
                                Ok(code) => spec_parse_entries(
                                    bytes,
                                    e2 + 1,
                                    acc.push(('\n', code)),
                                ),
                                Err(partial) => Err(SpecHuffmanEncodingError::MalformedDigit(partial)),
                            }
                        }
                    },
                }
            } else {
                let line = bytes.subrange(pos, e);
                if !valid_first_scalar(line) {
                    Err(SpecHuffmanEncodingError::InvalidEncoding)
                } else {
                    let c = decode_first_scalar(line) as char;
                    let l = length_of_first_scalar(line);
                    match spec_parse_digits(bytes, pos + l, e, Seq::<bool>::empty()) {
                        Ok(code) => spec_parse_entries(bytes, e + 1, acc.push((c, code))),
                        Err(partial) => Err(SpecHuffmanEncodingError::MalformedDigit(partial)),
                    }
                }
            }
        },
    }
}

#[via_fn]
proof fn spec_parse_entries_decreases(bytes: Seq<u8>, pos: int, acc: Seq<(char, Seq<bool>)>) {
    lemma_find_nl(bytes, pos);
    match find_nl(bytes, pos) {
        None => {},
        Some(e) => {
            if e == pos {
                lemma_find_nl(bytes, pos + 1);
            }
        },
    }
}

/// Writes the table as header lines, sorted by ascending character as the
/// table itself is.
pub fn serialize_huffman_encoding(encoding: &Vec<(char, NewBitVec)>) -> (r: Vec<u8>)
    ensures
        r@ == header_bytes(codes_view(encoding@)),
{
    let ghost tv = codes_view(encoding@);
    let mut out: Vec<u8> = Vec::new();
    proof {
        assert(tv.take(0) =~= Seq::<(char, Seq<bool>)>::empty());
        assert(out@ =~= header_bytes(tv.take(0)));
    }
    let mut i: usize = 0;
    while i < encoding.len()
        invariant
            i <= encoding@.len(),
            tv == codes_view(encoding@),
            out@ == header_bytes(tv.take(i as int)),
        decreases encoding@.len() - i,
    {
        let c = encoding[i].0;
        let ghost code = tv[i as int].1;
        let ghost head = out@;
        push_utf8(&mut out, c);
        let mut k: usize = 0;
        let codelen = encoding[i].1.len();
        proof {
            assert(code == encoding@[i as int].1@);
            assert(digits_of(code.take(0)) =~= Seq::<u8>::empty());
            assert(out@ =~= head + encode_scalar(c as u32) + digits_of(code.take(0)));
        }
        while k < codelen
            invariant
                k <= codelen,
                i < encoding@.len(),
                tv == codes_view(encoding@),
                code == tv[i as int].1,
                code == encoding@[i as int].1@,
                codelen == code.len(),
                out@ == head + encode_scalar(c as u32) + digits_of(code.take(k as int)),
            decreases codelen - k,
        {
            let bit = encoding[i].1.get(k);
            out.push(if bit {
                0x31
            } else {
                0x30
            });
            proof {
                assert(digits_of(code.take(k as int + 1)) =~= digits_of(
                    code.take(k as int),
                ).push(if code[k as int] {
                    0x31u8
                } else {
                    0x30u8
                }));
                assert(out@ =~= head + encode_scalar(c as u32) + digits_of(code.take(k as int + 1)));
            }
            k = k + 1;
        }
        out.push(0x0A);
        proof {
            assert(code.take(code.len() as int) =~= code);
            assert(out@ =~= head + entry_bytes(c, code));
            assert(tv.take(i as int + 1) =~= tv.take(i as int) + seq![tv[i as int]]);
            lemma_header_bytes_concat(tv.take(i as int), seq![tv[i as int]]);
            assert(header_bytes(seq![tv[i as int]]) =~= entry_bytes(c, code)) by {
                assert(seq![tv[i as int]].drop_first() =~= Seq::<(char, Seq<bool>)>::empty());
                assert(header_bytes(Seq::<(char, Seq<bool>)>::empty()) =~= Seq::<u8>::empty());
                assert(entry_bytes(c, code) + Seq::<u8>::empty() =~= entry_bytes(c, code));
            }
            assert(out@ =~= header_bytes(tv.take(i as int + 1)));
        }
        i = i + 1;
    }
    proof {
        assert(tv.take(encoding@.len() as int) =~= tv);
    }
    out
}

/// The position of the next line terminator at or after `pos`, if one
/// remains.
fn find_line_end(input: &Vec<u8>, pos: usize) -> (r: Option<usize>)
    requires
        pos <= input@.len(),
    ensures
        match r {
            Some(e) => find_nl(input@, pos as int) == Some(e as int) && pos <= e
                < input@.len(),
            None => find_nl(input@, pos as int) is None,
        },
{
    let mut p: usize = pos;
    while p < input.len()
        invariant
            pos <= p <= input@.len(),
            find_nl(input@, pos as int) == find_nl(input@, p as int),
        decreases input@.len() - p,
    {
        if input[p] == 0x0A {
            return Some(p);
        }
        p = p + 1;
    }
    None
}

/// Reads the code digits of one line.
fn parse_digits(input: &Vec<u8>, from: usize, to: usize) -> (r: Result<NewBitVec, NewBitVec>)
    requires
        from <= to <= input@.len(),
        input@.len() < bit_vec_capacity(),
    ensures
        match r {
            Ok(bits) => spec_parse_digits(input@, from as int, to as int, Seq::<bool>::empty())
                == Ok::<Seq<bool>, Seq<bool>>(bits@),
            Err(bits) => spec_parse_digits(input@, from as int, to as int, Seq::<bool>::empty())
                == Err::<Seq<bool>, Seq<bool>>(bits@),
        },
{
    let mut bits = NewBitVec::new();
    let mut p: usize = from;
    while p < to
        invariant
            from <= p <= to <= input@.len(),
            input@.len() < bit_vec_capacity(),
            bits@.len() <= p - from,
            spec_parse_digits(input@, from as int, to as int, Seq::<bool>::empty())
                == spec_parse_digits(input@, p as int, to as int, bits@),
        decreases to - p,
    {
        let b = input[p];
        if b == 0x30 {
            bits.push(false);
        } else if b == 0x31 {
            bits.push(true);
        } else {
            return Err(bits);
        }
        p = p + 1;
    }
    Ok(bits)
}

/// Reads the header: the code table in file order and the position of the
/// body's first byte, or how the header is malformed.
pub fn build_decoding_table(input: &Vec<u8>) -> (r: Result<(Vec<(char, NewBitVec)>, usize), HuffmanEncodingError>)
    requires
        input@.len() < bit_vec_capacity(),
    ensures
        match r {
            Ok(p) => spec_parse_entries(input@, 0, Seq::<(char, Seq<bool>)>::empty()) == Ok::<
                _,
                SpecHuffmanEncodingError,
            >((codes_view(p.0@), p.1 as int)) && p.1 <= input@.len(),
            Err(e) => spec_parse_entries(input@, 0, Seq::<(char, Seq<bool>)>::empty())
                == Err::<(Seq<(char, Seq<bool>)>, int), _>(e@),
        },
{
    let mut table: Vec<(char, NewBitVec)> = Vec::new();
    let mut pos: usize = 0;
    proof {
        assert(codes_view(table@) =~= Seq::<(char, Seq<bool>)>::empty());
    }
    loop
        invariant
            pos <= input@.len(),
            input@.len() < bit_vec_capacity(),
            spec_parse_entries(input@, 0, Seq::<(char, Seq<bool>)>::empty())
                == spec_parse_entries(input@, pos as int, codes_view(table@)),
        decreases input@.len() - pos,
    {
        let e = match find_line_end(input, pos) {
            Some(e) => e,
            None => {
                return Err(HuffmanEncodingError::TruncatedHeader);
            },
        };
        if e == pos {
            // an empty line: either the end of the header or the
            // terminator character's entry
            let e2 = match find_line_end(input, pos + 1) {
                Some(e2) => e2,
                None => {
                    return Err(HuffmanEncodingError::TruncatedHeader);
                },
            };
            if e2 == pos + 1 {
                return Ok((table, pos + 2));
            }
            let code = match parse_digits(input, pos + 1, e2) {
                Ok(code) => code,
                Err(partial) => {
                    return Err(HuffmanEncodingError::MalformedDigit(partial.to_bools()));
                },
            };
            let ghost before = codes_view(table@);
            table.push(('\n', code));
            proof {
                assert(codes_view(table@) =~= before.push(('\n', code@)));
            }
            pos = e2 + 1;
        } else {
            let (c, l) = match decode_first_char(input, pos, e) {
                Some(p) => p,
                None => {
                    return Err(HuffmanEncodingError::InvalidEncoding);
                },
            };
            let code = match parse_digits(input, pos + l, e) {
                Ok(code) => code,
                Err(partial) => {
                    return Err(HuffmanEncodingError::MalformedDigit(partial.to_bools()));
                },
            };
            let ghost before = codes_view(table@);
            table.push((c, code));
            proof {
                let line = input@.subrange(pos as int, e as int);
                assert(c as u32 == decode_first_scalar(line));
                vstd::utf8::char_u32_cast(c, decode_first_scalar(line));
                assert(c == decode_first_scalar(line) as char);
                assert(codes_view(table@) =~= before.push((c, code@)));
            }
            pos = e + 1;
        }
    }
}


/// The terminator's own byte encoding is the line break itself.
pub proof fn lemma_terminator_scalar()
    ensures
        encode_scalar('\n' as u32) == seq![0x0Au8],
{
    assert(vstd::utf8::has_width_1_encoding('\n' as u32));
    assert((0x0Au32 & 0x7F) as u8 == 0x0Au8) by (bit_vector);
    assert(encode_scalar('\n' as u32) =~= seq![0x0Au8]);
}

/// A character's encoding is one to four bytes long.
proof fn lemma_encode_scalar_len(c: char)
    ensures
        1 <= encode_scalar(c as u32).len() <= 4,
{
    vstd::utf8::char_is_scalar(c);
}

/// No byte of another character's encoding is the line terminator.
proof fn lemma_encode_scalar_no_nl(c: char)
    requires
        c != '\n',
    ensures
        forall|k: int|
            0 <= k < encode_scalar(c as u32).len() ==> #[trigger] encode_scalar(c as u32)[k]
                != 0x0Au8,
{
    vstd::utf8::char_is_scalar(c);
    let v = c as u32;
    assert(v != 0x0A) by {
        if v == 0x0A {
            vstd::utf8::char_u32_cast(c, v);
            assert(c == (0x0Au32 as char));
            assert(('\n' as u32) == 0x0A);
            vstd::utf8::char_u32_cast('\n', 0x0A);
        }
    }
    let e = encode_scalar(v);
    assert((v & 0x7F) as u8 != 0x0A || !(v < 0x80 && v != 0x0A)) by (bit_vector);
    assert((0xC0u8 | ((v >> 6) & 0x1F) as u8) != 0x0A) by (bit_vector);
    assert((0xE0u8 | ((v >> 12) & 0x0F) as u8) != 0x0A) by (bit_vector);
    assert((0xF0u8 | ((v >> 18) & 0x7) as u8) != 0x0A) by (bit_vector);
    assert((0x80u8 | ((v >> 6) & 0x3F) as u8) != 0x0A) by (bit_vector);
    assert((0x80u8 | ((v >> 12) & 0x3F) as u8) != 0x0A) by (bit_vector);
    assert((0x80u8 | (v & 0x3F) as u8) != 0x0A) by (bit_vector);
    assert forall|k: int| 0 <= k < e.len() implies #[trigger] e[k] != 0x0Au8 by {
        if vstd::utf8::has_width_1_encoding(v) {
            assert(e[k] == vstd::utf8::leading_byte_width_1(v));
        }
    }
}

/// The digit characters of a code, as the header writes them.
pub open spec fn digit_chars(code: Seq<bool>) -> Seq<char> {
    code.map(|i: int, b: bool| if b {
        '1'
    } else {
        '0'
    })
}

/// Digit characters encode to digit bytes, one for one.
proof fn lemma_digit_bytes(code: Seq<bool>)
    ensures
        vstd::utf8::encode_utf8(digit_chars(code)) == digits_of(code),
{
    let chars = digit_chars(code);
    assert(vstd::utf8::is_ascii_chars(chars)) by {
        assert forall|i: int| 0 <= i < chars.len() implies '\0' <= #[trigger] chars[i]
            <= '\u{7f}' by {
            assert(chars[i] == (if code[i] {
                '1'
            } else {
                '0'
            }));
        }
    }
    vstd::utf8::is_ascii_chars_encode_utf8(chars);
    assert(vstd::utf8::encode_utf8(chars) =~= digits_of(code)) by {
        assert forall|i: int| 0 <= i < code.len() implies vstd::utf8::encode_utf8(chars)[i]
            == digits_of(code)[i] by {
            assert(chars[i] as u8 == vstd::utf8::encode_utf8(chars)[i]);
            assert(chars[i] == (if code[i] {
                '1'
            } else {
                '0'
            }));
        }
    }
}

/// A header line begins with the character it codes: the character's own
/// bytes form its first scalar, whatever digits follow.
proof fn lemma_entry_line_first_char(c: char, code: Seq<bool>)
    ensures
        valid_first_scalar(encode_scalar(c as u32) + digits_of(code)),
        decode_first_scalar(encode_scalar(c as u32) + digits_of(code)) == c as u32,
        length_of_first_scalar(encode_scalar(c as u32) + digits_of(code)) == encode_scalar(
            c as u32,
        ).len(),
{
    let chars = seq![c] + digit_chars(code);
    assert(chars[0] == c);
    assert(chars.drop_first() =~= digit_chars(code));
    lemma_digit_bytes(code);
    assert(vstd::utf8::encode_utf8(chars) =~= encode_scalar(c as u32) + digits_of(code));
    vstd::utf8::encode_utf8_first_scalar(chars);
}

/// Parsing digit bytes reads the code back.
proof fn lemma_parse_digits_of(bytes: Seq<u8>, from: int, code: Seq<bool>, acc: Seq<bool>)
    requires
        0 <= from,
        from + code.len() <= bytes.len(),
        bytes.subrange(from, from + code.len()) == digits_of(code),
    ensures
        spec_parse_digits(bytes, from, from + code.len(), acc) == Ok::<Seq<bool>, Seq<bool>>(
            acc + code,
        ),
    decreases code.len(),
{
    if code.len() == 0 {
        assert(acc + code =~= acc);
    } else {
        assert(bytes[from] == digits_of(code)[0]);
        assert(digits_of(code)[0] == (if code[0] {
            0x31u8
        } else {
            0x30u8
        }));
        assert(bytes.subrange(from + 1, from + code.len()) =~= digits_of(code.drop_first())) by {
            assert forall|k: int| 0 <= k < code.len() - 1 implies bytes.subrange(
                from + 1,
                from + code.len(),
            )[k] == digits_of(code.drop_first())[k] by {
                assert(bytes[from + 1 + k] == digits_of(code)[k + 1]);
            }
        }
        lemma_parse_digits_of(bytes, from + 1, code.drop_first(), acc.push(code[0]));
        assert(acc.push(code[0]) + code.drop_first() =~= acc + code);
    }
}

/// Reading a header that writes a table gives the table back: entry lines
/// parse one by one, the terminator's entry through its empty-line form,
/// and the closing empty line ends the header exactly where the body
/// begins. The terminator's own code must not be empty, or its entry
/// would read as the end of the header.
pub proof fn lemma_parse_header(bytes: Seq<u8>, pos: int, t: Seq<(char, Seq<bool>)>, acc: Seq<
    (char, Seq<bool>),
>)
    requires
        0 <= pos,
        pos + header_bytes(t).len() + 2 <= bytes.len(),
        bytes.subrange(pos, pos + header_bytes(t).len() + 2) == header_bytes(t) + seq![
            0x0Au8,
            0x0Au8,
        ],
        forall|i: int| #![trigger t[i]] 0 <= i < t.len() && t[i].0 == '\n' ==> t[i].1.len() >= 1,
    ensures
        spec_parse_entries(bytes, pos, acc) == Ok::<_, SpecHuffmanEncodingError>(
            (acc + t, pos + header_bytes(t).len() + 2),
        ),
    decreases t.len(),
{
    let hb = header_bytes(t);
    let hlen = hb.len();
    if t.len() == 0 {
        assert(bytes[pos] == (hb + seq![0x0Au8, 0x0Au8])[0]);
        assert(bytes[pos + 1] == (hb + seq![0x0Au8, 0x0Au8])[1]);
        assert(bytes[pos] == 0x0A);
        assert(bytes[pos + 1] == 0x0A);
        assert(find_nl(bytes, pos) == Some(pos));
        assert(find_nl(bytes, pos + 1) == Some(pos + 1));
        assert(acc + t =~= acc);
    } else {
        let c = t[0].0;
        let code = t[0].1;
        let entry = entry_bytes(c, code);
        let scalar = encode_scalar(c as u32);
        let sl = scalar.len() as int;
        let dl = code.len() as int;
        lemma_encode_scalar_len(c);
        assert(hb == entry + header_bytes(t.drop_first()));
        let t2 = t.drop_first();
        let hb2 = header_bytes(t2);
        // every byte of the entry is where the concatenation says
        assert forall|k: int| 0 <= k < hlen + 2 implies #[trigger] bytes[pos + k] == (hb + seq![
            0x0Au8,
            0x0Au8,
        ])[k] by {
            assert(bytes.subrange(pos, pos + hlen + 2)[k] == (hb + seq![0x0Au8, 0x0Au8])[k]);
        }
        assert forall|k: int| 0 <= k < sl implies bytes[pos + k] == #[trigger] scalar[k] by {
            assert((hb + seq![0x0Au8, 0x0Au8])[k] == entry[k]);
            assert(entry[k] == scalar[k]);
        }
        assert forall|k: int| 0 <= k < dl implies bytes[pos + sl + k] == #[trigger] digits_of(
            code,
        )[k] by {
            assert((hb + seq![0x0Au8, 0x0Au8])[sl + k] == entry[sl + k]);
            assert(entry[sl + k] == digits_of(code)[k]);
        }
        assert(bytes[pos + sl + dl] == 0x0A) by {
            assert((hb + seq![0x0Au8, 0x0Au8])[sl + dl] == entry[sl + dl]);
        }
        let e = pos + sl + dl;
        assert forall|k: int| 0 <= k < dl implies #[trigger] bytes[pos + sl + k] != 0x0A by {
            assert(digits_of(code)[k] == (if code[k] {
                0x31u8
            } else {
                0x30u8
            }));
        }
        // the digits of the line parse back to the code
        assert(bytes.subrange(pos + sl, pos + sl + dl) =~= digits_of(code));
        lemma_parse_digits_of(bytes, pos + sl, code, Seq::<bool>::empty());
        assert(Seq::<bool>::empty() + code =~= code);
        // the rest of the header sits right after this entry
        assert(bytes.subrange(e + 1, e + 1 + hb2.len() + 2) =~= hb2 + seq![0x0Au8, 0x0Au8]) by {
            assert forall|k: int| 0 <= k < hb2.len() + 2 implies bytes.subrange(
                e + 1,
                e + 1 + hb2.len() + 2,
            )[k] == (hb2 + seq![0x0Au8, 0x0Au8])[k] by {
                assert(bytes[e + 1 + k] == (hb + seq![0x0Au8, 0x0Au8])[sl + dl + 1 + k]);
                if k < hb2.len() {
                    assert((hb + seq![0x0Au8, 0x0Au8])[sl + dl + 1 + k] == hb2[k]);
                }
            }
        }
        assert forall|i: int| #![trigger t2[i]] 0 <= i < t2.len() && t2[i].0 == '\n' implies
            t2[i].1.len() >= 1 by {
            assert(t2[i] == t[i + 1]);
        }
        if c == '\n' {
            // the terminator's entry: an empty line, then its digits
            assert(('\n' as u32) < 0x80);
            assert(scalar =~= seq![0x0Au8]) by {
                assert(vstd::utf8::has_width_1_encoding('\n' as u32));
                assert((0x0Au32 & 0x7F) as u8 == 0x0Au8) by (bit_vector);
                assert(vstd::utf8::leading_byte_width_1('\n' as u32) == 0x0Au8);
            }
            assert(sl == 1);
            assert(dl >= 1);
            assert(bytes[pos + 0] == scalar[0]);
            assert(scalar[0] == 0x0Au8);
            assert(bytes[pos] == 0x0A);
            assert(find_nl(bytes, pos) == Some(pos));
            assert forall|k: int| pos + 1 <= k < e implies bytes[k] != 0x0A by {
                let k2 = k - (pos + sl);
                assert(bytes[pos + sl + k2] != 0x0A);
            }
            lemma_find_nl_at(bytes, pos + 1, e);
            assert(find_nl(bytes, pos + 1) == Some(e));
            assert(e != pos + 1);
            lemma_parse_header(bytes, e + 1, t2, acc.push(('\n', code)));
            assert(acc.push(('\n', code)) =~= acc.push(t[0]));
            assert(acc.push(t[0]) + t2 =~= acc + t);
        } else {
            lemma_encode_scalar_no_nl(c);
            assert forall|k: int| pos <= k < e implies bytes[k] != 0x0A by {
                if k < pos + sl {
                    assert(bytes[pos + (k - pos)] == scalar[k - pos]);
                    assert(scalar[k - pos] != 0x0Au8);
                } else {
                    let k2 = k - (pos + sl);
                    assert(bytes[pos + sl + k2] != 0x0A);
                }
            }
            lemma_find_nl_at(bytes, pos, e);
            assert(find_nl(bytes, pos) == Some(e));
            assert(e != pos);
            let line = bytes.subrange(pos, e);
            assert(line =~= scalar + digits_of(code));
            lemma_entry_line_first_char(c, code);
            assert(valid_first_scalar(line));
            assert(decode_first_scalar(line) == c as u32);
            vstd::utf8::char_u32_cast(c, c as u32);
            assert(decode_first_scalar(line) as char == c);
            assert(length_of_first_scalar(line) == sl);
            lemma_parse_header(bytes, e + 1, t2, acc.push((c, code)));
            assert(acc.push((c, code)) =~= acc.push(t[0]));
            assert(acc.push(t[0]) + t2 =~= acc + t);
        }
    }
}

/// Parsing reads back any table the header writes, and stops at the
/// body's first byte, whatever follows.
pub proof fn lemma_header_round_trip(t: Seq<(char, Seq<bool>)>, rest: Seq<u8>)
    requires
        forall|i: int| #![trigger t[i]] 0 <= i < t.len() && t[i].0 == '\n' ==> t[i].1.len() >= 1,
    ensures
        spec_parse_entries(
            header_bytes(t) + seq![0x0Au8, 0x0Au8] + rest,
            0,
            Seq::<(char, Seq<bool>)>::empty(),
        ) == Ok::<_, SpecHuffmanEncodingError>((t, header_bytes(t).len() as int + 2)),
{
    let bytes = header_bytes(t) + seq![0x0Au8, 0x0Au8] + rest;
    assert(bytes.subrange(0, header_bytes(t).len() as int + 2) =~= header_bytes(t) + seq![
        0x0Au8,
        0x0Au8,
    ]);
    lemma_parse_header(bytes, 0, t, Seq::<(char, Seq<bool>)>::empty());
    assert(Seq::<(char, Seq<bool>)>::empty() + t =~= t);
}

} // verus!
