//! A lossless text compressor built on Huffman coding.
//!
//! Encoding counts the characters of the text, builds a prefix-free code
//! table by greedy least-count merging, writes the table as a text header,
//! and packs each line's codes — the line terminator's after each line —
//! into body bytes, least-significant-bit first. Decoding parses the header
//! back into the table and matches growing bit patterns against it to
//! recover the text. [`encode`] and [`decode`] are the two entry points;
//! reading, rewinding and writing the underlying streams belong to the
//! caller.

pub mod assoc;
pub mod bits;
pub mod body;
pub mod codes;
pub mod errors;
pub mod freq;
pub mod header;
pub mod huffman;
pub mod pack;
pub mod table;
pub mod unicode;

use crate::assoc::{has_key, lemma_put_len, lemma_put_lookup, spec_lookup};
use crate::bits::bit_vec_capacity;
use crate::body::{
    codes_concat, decode_body, encode_body, lemma_body_round_trip, lemma_dec_nomatch, pad_safe,
    spec_decode_body, terminated_text, MAX_CANDIDATE_BITS,
};
use crate::codes::{lemma_has_key_iff, map_prefix_free};
use crate::errors::{HuffmanEncodingError, SpecHuffmanEncodingError};
use crate::freq::{
    count_chars, joined, lemma_char_in_joined, lemma_count_text_lookup, lemma_count_text_sorted,
    lemma_freq_sorted, lines_view, spec_count_text, spec_freq, terminator_count,
};
use crate::header::{
    build_decoding_table, header_bytes, lemma_header_round_trip, serialize_huffman_encoding,
    spec_parse_entries,
};
use crate::huffman::{
    char_count_to_huffman_encoding, lemma_sum_count_text, lemma_sum_put, lemma_table_of_props,
    spec_table_of, sum_counts,
};
use crate::pack::{lemma_unpack_stream_len, pack_stream};
use vstd::prelude::*;

verus! {

/// The code table a text builds.
pub open spec fn spec_table(lines: Seq<Seq<char>>) -> Seq<(char, Seq<bool>)> {
    spec_table_of(spec_freq(lines))
}

/// The whole wire image of a text: the header's entry lines, the empty
/// line that closes the header, and the packed body.
pub open spec fn spec_encode(lines: Seq<Seq<char>>) -> Seq<u8> {
    header_bytes(spec_table(lines)) + seq![0x0Au8, 0x0Au8] + pack_stream(
        codes_concat(spec_table(lines), terminated_text(lines)),
    )
}

/// What a wire image decodes to: the header's table read back, then the
/// body matched against it.
pub open spec fn spec_decode(bytes: Seq<u8>) -> Result<Seq<char>, SpecHuffmanEncodingError> {
    match spec_parse_entries(bytes, 0, Seq::<(char, Seq<bool>)>::empty()) {
        Err(e) => Err(e),
        Ok((t, pos)) => spec_decode_body(t, bytes.subrange(pos, bytes.len() as int)),
    }
}

/// The frequency table always holds the terminator's entry.
proof fn lemma_freq_has_terminator(lines: Seq<Seq<char>>)
    ensures
        spec_freq(lines).len() >= 1,
        has_key(spec_freq(lines), '\n'),
        spec_lookup(spec_freq(lines), '\n') == Some(terminator_count(lines)),
{
    let ct = spec_count_text(joined(lines));
    lemma_count_text_sorted(joined(lines));
    lemma_put_len(ct, '\n', terminator_count(lines));
    lemma_put_lookup(ct, '\n', terminator_count(lines), '\n');
}

/// Every character of the lines keeps its entry when the terminator's is
/// written.
proof fn lemma_freq_has_char(lines: Seq<Seq<char>>, i: int, j: int)
    requires
        0 <= i < lines.len(),
        0 <= j < lines[i].len(),
        lines[i][j] != '\n',
    ensures
        has_key(spec_freq(lines), lines[i][j]),
{
    let c = lines[i][j];
    let ct = spec_count_text(joined(lines));
    lemma_char_in_joined(lines, i, j);
    lemma_count_text_lookup(joined(lines), c);
    lemma_count_text_sorted(joined(lines));
    lemma_put_lookup(ct, '\n', terminator_count(lines), c);
}

/// The counts of a text total at most its characters and line boundaries.
proof fn lemma_freq_sum(lines: Seq<Seq<char>>)
    ensures
        sum_counts(spec_freq(lines)) <= joined(lines).len() + lines.len(),
{
    let ct = spec_count_text(joined(lines));
    lemma_sum_count_text(joined(lines));
    lemma_count_text_sorted(joined(lines));
    lemma_sum_put(ct, '\n', terminator_count(lines));
}

/// Writes the wire image of a text: header, separator, body.
pub fn encode(lines: &Vec<Vec<char>>) -> (r: Vec<u8>)
    requires
        joined(lines_view(lines@)).len() + lines@.len() <= u32::MAX,
        codes_concat(
            spec_table(lines_view(lines@)),
            terminated_text(lines_view(lines@)),
        ).len() <= bit_vec_capacity(),
    ensures
        r@ == spec_encode(lines_view(lines@)),
{
    let ghost lv = lines_view(lines@);
    let ghost fv = spec_freq(lv);
    proof {
        lemma_freq_sorted(lv);
        lemma_freq_has_terminator(lv);
        lemma_freq_sum(lv);
    }
    let char_count = count_chars(lines);
    let encoding = char_count_to_huffman_encoding(char_count);
    proof {
        lemma_table_of_props(fv);
        assert forall|i: int, j: int|
            #![trigger lines@[i]@[j]]
            0 <= i < lines@.len() && 0 <= j < lines@[i]@.len() implies has_key(
            spec_table(lv),
            lines@[i]@[j],
        ) by {
            assert(lv[i] == lines@[i]@);
            if lines@[i]@[j] == '\n' {
            } else {
                lemma_freq_has_char(lv, i, j);
            }
        }
    }
    let mut out = serialize_huffman_encoding(&encoding);
    out.push(0x0A);
    out.push(0x0A);
    let mut body = encode_body(lines, &encoding);
    out.append(&mut body);
    proof {
        assert(out@ =~= spec_encode(lv));
    }
    out
}

/// Reads a wire image back into its text, or says how it is malformed.
pub fn decode(input: &Vec<u8>) -> (r: Result<Vec<char>, HuffmanEncodingError>)
    requires
        input@.len() < bit_vec_capacity(),
    ensures
        match r {
            Ok(v) => spec_decode(input@) == Ok::<_, SpecHuffmanEncodingError>(v@),
            Err(e) => spec_decode(input@) == Err::<Seq<char>, _>(e@),
        },
{
    let (table, pos) = match build_decoding_table(input) {
        Ok(p) => p,
        Err(e) => {
            return Err(e);
        },
    };
    match decode_body(input, pos, &table) {
        Ok(v) => Ok(v),
        Err(e) => Err(e),
    }
}

/// Every character of the terminated text is a terminator or a character
/// of some line.
proof fn lemma_text_chars(lines: Seq<Seq<char>>, k: int)
    requires
        0 <= k < terminated_text(lines).len(),
    ensures
        terminated_text(lines)[k] == '\n' || exists|i: int, j: int|
            0 <= i < lines.len() && 0 <= j < lines[i].len() && #[trigger] lines[i][j]
                == terminated_text(lines)[k],
    decreases lines.len(),
{
    let text = terminated_text(lines);
    if lines.len() > 0 {
        let prev = terminated_text(lines.drop_last());
        let line = lines.last();
        if k < prev.len() {
            lemma_text_chars(lines.drop_last(), k);
            assert(text[k] == prev[k]);
            if prev[k] != '\n' {
                let (i, j) = choose|i: int, j: int|
                    0 <= i < lines.drop_last().len() && 0 <= j < lines.drop_last()[i].len()
                        && #[trigger] lines.drop_last()[i][j] == prev[k];
                assert(lines[i][j] == text[k]);
            }
        } else if k < prev.len() + line.len() {
            let i = lines.len() - 1;
            let j = k - prev.len();
            assert(lines[i][j] == text[k]);
        } else {
            assert(text[k] == '\n');
        }
    }
}

/// A small alphabet keeps every code inside the decoder's width bound:
/// texts of at most thirty-two distinct characters meet the round-trip
/// law's width condition outright.
pub proof fn lemma_small_alphabet_short_codes(lines: Seq<Seq<char>>)
    requires
        spec_freq(lines).len() <= MAX_CANDIDATE_BITS + 1,
    ensures
        forall|i: int|
            #![trigger spec_table(lines)[i]]
            0 <= i < spec_table(lines).len() ==> spec_table(lines)[i].1.len()
                <= MAX_CANDIDATE_BITS,
{
    lemma_freq_sorted(lines);
    lemma_freq_has_terminator(lines);
    lemma_table_of_props(spec_freq(lines));
}

/// Round trip: a text of terminated lines decodes from its own wire
/// image, provided no code outgrows the decoder's width bound and the
/// final byte's padding completes no code. Input of empty lines alone is
/// left out: its header carries one empty code and reads back as empty
/// input.
pub proof fn lemma_encode_decode_round_trip(lines: Seq<Seq<char>>)
    requires
        forall|i: int, j: int|
            0 <= i < lines.len() && 0 <= j < lines[i].len() ==> #[trigger] lines[i][j] != '\n',
        lines.len() == 0 || (exists|i: int| 0 <= i < lines.len() && #[trigger] lines[i].len() > 0),
        joined(lines).len() + lines.len() <= u32::MAX,
        forall|i: int|
            #![trigger spec_table(lines)[i]]
            0 <= i < spec_table(lines).len() ==> spec_table(lines)[i].1.len()
                <= MAX_CANDIDATE_BITS,
        pad_safe(spec_table(lines), codes_concat(spec_table(lines), terminated_text(lines)).len()),
    ensures
        spec_decode(spec_encode(lines)) == Ok::<_, SpecHuffmanEncodingError>(terminated_text(lines)),
{
    let fv = spec_freq(lines);
    let t = spec_table(lines);
    let text = terminated_text(lines);
    let bs = spec_encode(lines);
    lemma_freq_sorted(lines);
    lemma_freq_has_terminator(lines);
    lemma_table_of_props(fv);
    if lines.len() == 0 {
        // the degenerate image: the terminator's entry writes two empty
        // lines, the separator two more; the parsed table is empty and
        // the sixteen body bits match nothing
        assert(joined(lines) =~= Seq::<char>::empty());
        assert(spec_count_text(Seq::<char>::empty()) =~= Seq::<(char, nat)>::empty());
        assert(fv =~= seq![('\n', 0nat)]);
        assert(fv[0].0 == '\n');
        assert(t == seq![('\n', Seq::<bool>::empty())]);
        crate::header::lemma_terminator_scalar();
        assert(crate::header::digits_of(Seq::<bool>::empty()) =~= Seq::<u8>::empty());
        assert(crate::header::entry_bytes('\n', Seq::<bool>::empty()) =~= seq![0x0Au8, 0x0Au8]);
        assert(header_bytes(t) =~= seq![0x0Au8, 0x0Au8]) by {
            assert(t.drop_first() =~= Seq::<(char, Seq<bool>)>::empty());
            assert(header_bytes(Seq::<(char, Seq<bool>)>::empty()) =~= Seq::<u8>::empty());
            assert(header_bytes(t) == crate::header::entry_bytes(t[0].0, t[0].1) + header_bytes(
                t.drop_first(),
            ));
            assert(crate::header::entry_bytes('\n', Seq::<bool>::empty()) + Seq::<u8>::empty()
                =~= crate::header::entry_bytes('\n', Seq::<bool>::empty()));
        }
        assert(text =~= Seq::<char>::empty());
        assert(codes_concat(t, text) =~= Seq::<bool>::empty());
        assert(pack_stream(Seq::<bool>::empty()) =~= Seq::<u8>::empty());
        assert(bs =~= seq![0x0Au8, 0x0Au8, 0x0Au8, 0x0Au8]);
        assert(crate::header::find_nl(bs, 0) == Some(0int));
        assert(crate::header::find_nl(bs, 1) == Some(1int));
        let empty_t = Seq::<(char, Seq<bool>)>::empty();
        assert(spec_parse_entries(bs, 0, empty_t) == Ok::<_, SpecHuffmanEncodingError>((empty_t, 2int)));
        let rest = bs.subrange(2, 4);
        assert(rest =~= seq![0x0Au8, 0x0Au8]);
        lemma_unpack_stream_len(rest);
        lemma_dec_nomatch(
            empty_t,
            crate::pack::unpack_stream(rest),
            Seq::<bool>::empty(),
            Seq::<char>::empty(),
        );
    } else {
        // at least one character competes with the terminator, so the
        // table is prefix-free with no empty code
        let i0 = choose|i: int| 0 <= i < lines.len() && #[trigger] lines[i].len() > 0;
        let c0 = lines[i0][0];
        assert(c0 != '\n');
        lemma_freq_has_char(lines, i0, 0);
        assert(fv.len() >= 2) by {
            lemma_has_key_iff(fv, c0);
            lemma_has_key_iff(fv, '\n');
            let k0 = choose|k: int| 0 <= k < fv.len() && (#[trigger] fv[k]).0 == c0;
            let k1 = choose|k: int| 0 <= k < fv.len() && (#[trigger] fv[k]).0 == '\n';
            assert(k0 != k1);
        }
        assert(map_prefix_free(t));
        assert(t.len() >= 2);
        lemma_header_round_trip(t, pack_stream(codes_concat(t, text)));
        assert(bs =~= (header_bytes(t) + seq![0x0Au8, 0x0Au8]) + pack_stream(
            codes_concat(t, text),
        ));
        assert(spec_parse_entries(bs, 0, Seq::<(char, Seq<bool>)>::empty()) == Ok::<
            _,
            SpecHuffmanEncodingError,
        >((t, header_bytes(t).len() as int + 2)));
        let body = bs.subrange(header_bytes(t).len() as int + 2, bs.len() as int);
        assert(body =~= pack_stream(codes_concat(t, text)));
        assert forall|k: int| 0 <= k < text.len() implies has_key(t, #[trigger] text[k]) by {
            lemma_text_chars(lines, k);
            if text[k] == '\n' {
            } else {
                let (i, j) = choose|i: int, j: int|
                    0 <= i < lines.len() && 0 <= j < lines[i].len() && #[trigger] lines[i][j]
                        == text[k];
                lemma_freq_has_char(lines, i, j);
            }
        }
        lemma_body_round_trip(t, text);
    }
}

} // verus!
