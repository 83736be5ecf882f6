//! The body of the wire format: code bits packed into bytes.
//!
//! The encoder walks the text line by line, appends each character's code
//! and then the terminator's code to a bit buffer, and packs the buffer
//! eight bits to a byte. The decoder unpacks the bytes in production
//! order, grows a candidate pattern bit by bit, emits a character whenever
//! the pattern is exactly a code, and gives up with a runaway error when
//! the pattern outgrows the widest code a count could justify. Bits left
//! unmatched at the end of input are padding and are dropped silently.

use crate::assoc::{has_key, keys_sorted, spec_lookup};
use crate::bits::{bit_vec_capacity, NewBitVec};
use crate::codes::{codes_view, map_prefix_free};
use crate::errors::{HuffmanEncodingError, SpecHuffmanEncodingError};
use crate::pack::{
    lemma_pack_stream_concat, lemma_unpack_pack_stream, lemma_unpack_stream_concat, pack_byte_at,
    pack_stream, pad_len, unpack_byte, unpack_byte_into, unpack_stream, zeros,
};
use crate::table::{
    code_index, lemma_lookup_code_at, lemma_prefix_not_code, match_code, spec_lookup_code,
};
use vstd::prelude::*;

verus! {

/// Widest candidate pattern the decoder accepts: the bit width of the
/// count type, as no plausible code outgrows it.
pub const MAX_CANDIDATE_BITS: usize = 32;

/// The lines of a text with the terminator each line ends with.
pub open spec fn terminated_text(lines: Seq<Seq<char>>) -> Seq<char>
    decreases lines.len(),
{
    if lines.len() == 0 {
        Seq::<char>::empty()
    } else {
        terminated_text(lines.drop_last()) + lines.last() + seq!['\n']
    }
}

/// The code the table assigns to `c`.
pub open spec fn code_of(t: Seq<(char, Seq<bool>)>, c: char) -> Seq<bool>
    recommends
        has_key(t, c),
{
    spec_lookup(t, c)->Some_0
}

/// The codes of a text, run together in order.
pub open spec fn codes_concat(t: Seq<(char, Seq<bool>)>, text: Seq<char>) -> Seq<bool>
    decreases text.len(),
{
    if text.len() == 0 {
        Seq::<bool>::empty()
    } else {
        code_of(t, text[0]) + codes_concat(t, text.drop_first())
    }
}

/// Codes concatenate over text concatenation.
pub proof fn lemma_codes_concat_concat(t: Seq<(char, Seq<bool>)>, a: Seq<char>, b: Seq<char>)
    ensures
        codes_concat(t, a + b) == codes_concat(t, a) + codes_concat(t, b),
    decreases a.len(),
{
    if a.len() == 0 {
        assert(a + b =~= b);
        assert(codes_concat(t, a) + codes_concat(t, b) =~= codes_concat(t, b));
    } else {
        assert((a + b).drop_first() =~= a.drop_first() + b);
        lemma_codes_concat_concat(t, a.drop_first(), b);
        assert(codes_concat(t, a + b) =~= codes_concat(t, a) + codes_concat(t, b));
    }
}

/// Every table entry is found again under its key.
pub proof fn lemma_lookup_entry<V>(s: Seq<(char, V)>, c: char)
    requires
        has_key(s, c),
    ensures
        exists|i: int|
            0 <= i < s.len() && (#[trigger] s[i]).0 == c && spec_lookup(s, c) == Some(s[i].1),
    decreases s.len(),
{
    if s.len() > 0 {
        if s[0].0 == c {
            assert(s[0].0 == c && spec_lookup(s, c) == Some(s[0].1));
        } else {
            lemma_lookup_entry(s.drop_first(), c);
            let i = choose|i: int|
                0 <= i < s.drop_first().len() && (#[trigger] s.drop_first()[i]).0 == c
                    && spec_lookup(s.drop_first(), c) == Some(s.drop_first()[i].1);
            assert(s[i + 1].0 == c && spec_lookup(s, c) == Some(s[i + 1].1));
        }
    }
}

/// One step of the decoder over a bit stream: grow the candidate, give up
/// past the width bound, emit on an exact code match. The candidate is
/// examined only after a bit is consumed, so a zero-length code never
/// matches and a degenerate table decodes nothing rather than looping.
pub open spec fn spec_dec(
    t: Seq<(char, Seq<bool>)>,
    bits: Seq<bool>,
    cand: Seq<bool>,
    acc: Seq<char>,
) -> Result<Seq<char>, SpecHuffmanEncodingError>
    decreases bits.len(),
{
    if bits.len() == 0 {
        Ok(acc)
    } else {
        let cand2 = cand.push(bits[0]);
        if cand2.len() > MAX_CANDIDATE_BITS {
            Err(SpecHuffmanEncodingError::RunawayCode(cand2))
        } else {
            match spec_lookup_code(t, cand2) {
                Some(c) => spec_dec(t, bits.drop_first(), Seq::<bool>::empty(), acc.push(c)),
                None => spec_dec(t, bits.drop_first(), cand2, acc),
            }
        }
    }
}

/// What the body's bytes decode to under a table.
pub open spec fn spec_decode_body(t: Seq<(char, Seq<bool>)>, bytes: Seq<u8>) -> Result<
    Seq<char>,
    SpecHuffmanEncodingError,
> {
    spec_dec(t, unpack_stream(bytes), Seq::<bool>::empty(), Seq::<char>::empty())
}

/// No padding prefix is mistaken for a code: what the final byte's unused
/// zero bits must satisfy for them to be dropped silently.
pub open spec fn pad_safe(t: Seq<(char, Seq<bool>)>, nbits: nat) -> bool {
    forall|j: int|
        1 <= j <= pad_len(nbits) ==> #[trigger] spec_lookup_code(t, zeros(j as nat)) is None
}


/// Walks the decoder down a run of prefixes that match nothing.
proof fn lemma_runaway_from(t: Seq<(char, Seq<bool>)>, bits: Seq<bool>, j: int, acc: Seq<char>)
    requires
        0 <= j <= MAX_CANDIDATE_BITS < bits.len(),
        forall|j2: int|
            j < j2 <= MAX_CANDIDATE_BITS + 1 ==> #[trigger] spec_lookup_code(
                t,
                bits.take(j2),
            ) is None,
    ensures
        spec_dec(t, bits.skip(j), bits.take(j), acc) == Err::<Seq<char>, _>(
            SpecHuffmanEncodingError::RunawayCode(bits.take(MAX_CANDIDATE_BITS as int + 1)),
        ),
    decreases MAX_CANDIDATE_BITS - j,
{
    let rest = bits.skip(j);
    assert(rest.len() > 0);
    assert(rest[0] == bits[j]);
    let cand2 = bits.take(j).push(bits[j]);
    assert(cand2 =~= bits.take(j + 1));
    assert(rest.drop_first() =~= bits.skip(j + 1));
    if j == MAX_CANDIDATE_BITS {
        assert(cand2.len() > MAX_CANDIDATE_BITS);
    } else {
        assert(spec_lookup_code(t, cand2) is None);
        lemma_runaway_from(t, bits, j + 1, acc);
    }
}

/// A stream is runaway when none of its prefixes up to one bit past the
/// width bound is a code: the decoder fails with that overlong pattern,
/// whatever follows, rather than matching or reading on.
pub proof fn lemma_runaway_overlong(t: Seq<(char, Seq<bool>)>, bits: Seq<bool>)
    requires
        bits.len() > MAX_CANDIDATE_BITS,
        forall|j: int|
            1 <= j <= MAX_CANDIDATE_BITS + 1 ==> #[trigger] spec_lookup_code(
                t,
                bits.take(j),
            ) is None,
    ensures
        spec_dec(t, bits, Seq::<bool>::empty(), Seq::<char>::empty()) == Err::<Seq<char>, _>(
            SpecHuffmanEncodingError::RunawayCode(bits.take(MAX_CANDIDATE_BITS as int + 1)),
        ),
{
    assert(bits.skip(0) =~= bits);
    assert(bits.take(0) =~= Seq::<bool>::empty());
    lemma_runaway_from(t, bits, 0, Seq::<char>::empty());
}

/// Consuming one full code emits its character and clears the candidate.
proof fn lemma_dec_code_from(
    t: Seq<(char, Seq<bool>)>,
    idx: int,
    k: int,
    rest: Seq<bool>,
    acc: Seq<char>,
)
    requires
        map_prefix_free(t),
        0 <= idx < t.len(),
        1 <= t[idx].1.len() <= MAX_CANDIDATE_BITS,
        0 <= k < t[idx].1.len(),
    ensures
        spec_dec(t, t[idx].1.skip(k) + rest, t[idx].1.take(k), acc) == spec_dec(
            t,
            rest,
            Seq::<bool>::empty(),
            acc.push(t[idx].0),
        ),
    decreases t[idx].1.len() - k,
{
    let code = t[idx].1;
    let bits = code.skip(k) + rest;
    assert(bits.len() > 0);
    assert(bits[0] == code[k]);
    let cand2 = code.take(k).push(code[k]);
    assert(cand2 =~= code.take(k + 1));
    assert(cand2.len() == k + 1);
    assert(bits.drop_first() =~= code.skip(k + 1) + rest);
    if k + 1 == code.len() {
        assert(cand2 =~= code);
        lemma_lookup_code_at(t, idx);
        assert(spec_lookup_code(t, cand2) == Some(t[idx].0));
        assert(code.skip(k + 1) =~= Seq::<bool>::empty());
        assert(code.skip(k + 1) + rest =~= rest);
    } else {
        assert(cand2 =~= code.subrange(0, k + 1));
        lemma_prefix_not_code(t, idx, k + 1);
        assert(spec_lookup_code(t, cand2) is None);
        lemma_dec_code_from(t, idx, k + 1, rest, acc);
    }
}

/// Trailing zero padding that never completes a code is dropped.
proof fn lemma_dec_zeros(t: Seq<(char, Seq<bool>)>, p: int, j: int, acc: Seq<char>)
    requires
        0 <= j <= p <= MAX_CANDIDATE_BITS,
        forall|j2: int|
            1 <= j2 <= p ==> #[trigger] spec_lookup_code(t, zeros(j2 as nat)) is None,
    ensures
        spec_dec(t, zeros((p - j) as nat), zeros(j as nat), acc) == Ok::<_, SpecHuffmanEncodingError>(acc),
    decreases p - j,
{
    if j < p {
        let bits = zeros((p - j) as nat);
        assert(bits[0] == false);
        let cand2 = zeros(j as nat).push(false);
        assert(cand2 =~= zeros((j + 1) as nat));
        assert(spec_lookup_code(t, cand2) is None);
        assert(bits.drop_first() =~= zeros((p - (j + 1)) as nat));
        lemma_dec_zeros(t, p, j + 1, acc);
    }
}

/// A prefix-free table decodes its own coded text: each code in turn
/// emits its character, and the padding falls away.
pub proof fn lemma_dec_text(t: Seq<(char, Seq<bool>)>, text: Seq<char>, p: int, acc: Seq<char>)
    requires
        map_prefix_free(t),
        forall|i: int| 0 <= i < text.len() ==> has_key(t, #[trigger] text[i]),
        forall|i: int|
            #![trigger t[i]]
            0 <= i < t.len() ==> 1 <= t[i].1.len() <= MAX_CANDIDATE_BITS,
        0 <= p <= 7,
        forall|j2: int|
            1 <= j2 <= p ==> #[trigger] spec_lookup_code(t, zeros(j2 as nat)) is None,
    ensures
        spec_dec(t, codes_concat(t, text) + zeros(p as nat), Seq::<bool>::empty(), acc) == Ok::<
            _,
            SpecHuffmanEncodingError,
        >(acc + text),
    decreases text.len(),
{
    if text.len() == 0 {
        assert(codes_concat(t, text) + zeros(p as nat) =~= zeros(p as nat));
        assert(zeros(0) =~= Seq::<bool>::empty());
        lemma_dec_zeros(t, p, 0, acc);
        assert(acc + text =~= acc);
    } else {
        let c = text[0];
        assert(has_key(t, c));
        lemma_lookup_entry(t, c);
        let idx = choose|i: int|
            0 <= i < t.len() && (#[trigger] t[i]).0 == c && spec_lookup(t, c) == Some(t[i].1);
        assert(code_of(t, c) == t[idx].1);
        let tail = codes_concat(t, text.drop_first()) + zeros(p as nat);
        assert(codes_concat(t, text) + zeros(p as nat) =~= t[idx].1 + tail);
        assert(t[idx].1.skip(0) =~= t[idx].1);
        assert(t[idx].1.take(0) =~= Seq::<bool>::empty());
        lemma_dec_code_from(t, idx, 0, tail, acc);
        assert forall|i: int| 0 <= i < text.drop_first().len() implies has_key(
            t,
            #[trigger] text.drop_first()[i],
        ) by {
            assert(text.drop_first()[i] == text[i + 1]);
        }
        lemma_dec_text(t, text.drop_first(), p, acc.push(c));
        assert(acc.push(c) + text.drop_first() =~= acc + text);
    }
}

/// With a table that matches nothing, a short stream decodes to nothing.
pub proof fn lemma_dec_nomatch(t: Seq<(char, Seq<bool>)>, bits: Seq<bool>, cand: Seq<bool>, acc: Seq<char>)
    requires
        t.len() == 0,
        cand.len() + bits.len() <= MAX_CANDIDATE_BITS,
    ensures
        spec_dec(t, bits, cand, acc) == Ok::<_, SpecHuffmanEncodingError>(acc),
    decreases bits.len(),
{
    if bits.len() > 0 {
        lemma_dec_nomatch(t, bits.drop_first(), cand.push(bits[0]), acc);
    }
}

/// Unpacking a packed body and decoding it greedily recovers the text.
pub proof fn lemma_body_round_trip(t: Seq<(char, Seq<bool>)>, text: Seq<char>)
    requires
        map_prefix_free(t),
        forall|i: int| 0 <= i < text.len() ==> has_key(t, #[trigger] text[i]),
        forall|i: int|
            #![trigger t[i]]
            0 <= i < t.len() ==> 1 <= t[i].1.len() <= MAX_CANDIDATE_BITS,
        pad_safe(t, codes_concat(t, text).len()),
    ensures
        spec_decode_body(t, pack_stream(codes_concat(t, text))) == Ok::<_, SpecHuffmanEncodingError>(text),
{
    let bits = codes_concat(t, text);
    lemma_unpack_pack_stream(bits);
    let p = pad_len(bits.len());
    assert(p <= 7);
    lemma_dec_text(t, text, p as int, Seq::<char>::empty());
    assert(Seq::<char>::empty() + text =~= text);
}

/// Appends the code of one character to the bit buffer.
fn append_code(buffer: &mut NewBitVec, table: &Vec<(char, NewBitVec)>, c: char)
    requires
        keys_sorted(codes_view(table@)),
        has_key(codes_view(table@), c),
        old(buffer)@.len() + code_of(codes_view(table@), c).len() <= bit_vec_capacity(),
    ensures
        final(buffer)@ == old(buffer)@ + code_of(codes_view(table@), c),
{
    let ghost tv = codes_view(table@);
    let ghost orig = buffer@;
    let i = match code_index(table, c) {
        Some(i) => i,
        None => {
            proof {
                assert(false);
            }
            0
        },
    };
    let ghost code = tv[i as int].1;
    proof {
        assert(code == code_of(tv, c));
        assert(code == table@[i as int].1@);
    }
    let n = table[i].1.len();
    let mut k: usize = 0;
    proof {
        assert(buffer@ =~= orig + code.take(0));
    }
    while k < n
        invariant
            k <= n,
            i < table@.len(),
            tv == codes_view(table@),
            code == tv[i as int].1,
            code == table@[i as int].1@,
            n == code.len(),
            orig.len() + code.len() <= bit_vec_capacity(),
            buffer@ == orig + code.take(k as int),
        decreases n - k,
    {
        let bit = table[i].1.get(k);
        buffer.push(bit);
        proof {
            assert(code.take(k as int + 1) =~= code.take(k as int).push(code[k as int]));
            assert(buffer@ =~= orig + code.take(k as int + 1));
        }
        k = k + 1;
    }
    proof {
        assert(code.take(n as int) =~= code);
    }
}

/// Writes the body: every line's codes, each line closed by the
/// terminator's code, packed eight bits to a byte.
pub(crate) fn encode_body(lines: &Vec<Vec<char>>, table: &Vec<(char, NewBitVec)>) -> (r: Vec<u8>)
    requires
        keys_sorted(codes_view(table@)),
        has_key(codes_view(table@), '\n'),
        forall|i: int, j: int|
            #![trigger lines@[i]@[j]]
            0 <= i < lines@.len() && 0 <= j < lines@[i]@.len() ==> has_key(
                codes_view(table@),
                lines@[i]@[j],
            ),
        codes_concat(
            codes_view(table@),
            terminated_text(crate::freq::lines_view(lines@)),
        ).len() <= bit_vec_capacity(),
    ensures
        r@ == pack_stream(
            codes_concat(codes_view(table@), terminated_text(crate::freq::lines_view(lines@))),
        ),
{
    let ghost tv = codes_view(table@);
    let ghost lv = crate::freq::lines_view(lines@);
    let ghost text = terminated_text(lv);
    let mut buffer = NewBitVec::new();
    proof {
        assert(lv.take(0) =~= Seq::<Seq<char>>::empty());
        assert(terminated_text(lv.take(0)) =~= Seq::<char>::empty());
        assert(buffer@ =~= codes_concat(tv, terminated_text(lv.take(0))));
    }
    let mut li: usize = 0;
    while li < lines.len()
        invariant
            li <= lines@.len(),
            tv == codes_view(table@),
            lv == crate::freq::lines_view(lines@),
            text == terminated_text(lv),
            keys_sorted(tv),
            has_key(tv, '\n'),
            forall|i: int, j: int|
                #![trigger lines@[i]@[j]]
                0 <= i < lines@.len() && 0 <= j < lines@[i]@.len() ==> has_key(
                    tv,
                    lines@[i]@[j],
                ),
            codes_concat(tv, text).len() <= bit_vec_capacity(),
            buffer@ == codes_concat(tv, terminated_text(lv.take(li as int))),
        decreases lines@.len() - li,
    {
        let line = &lines[li];
        proof {
            assert(lv[li as int] == line@);
        }
        let ghost line_head = terminated_text(lv.take(li as int));
        let mut ci: usize = 0;
        proof {
            assert(line@.take(0) =~= Seq::<char>::empty());
            assert(codes_concat(tv, line@.take(0)) =~= Seq::<bool>::empty());
            assert(line_head + line@.take(0) =~= line_head);
            lemma_codes_concat_concat(tv, line_head, line@.take(0));
            assert(buffer@ =~= codes_concat(tv, line_head + line@.take(0)));
        }
        while ci < line.len()
            invariant
                ci <= line@.len(),
                li < lines@.len(),
                tv == codes_view(table@),
                lv == crate::freq::lines_view(lines@),
                text == terminated_text(lv),
                lv[li as int] == line@,
                line_head == terminated_text(lv.take(li as int)),
                keys_sorted(tv),
                forall|i: int, j: int|
                    #![trigger lines@[i]@[j]]
                    0 <= i < lines@.len() && 0 <= j < lines@[i]@.len() ==> has_key(
                        tv,
                        lines@[i]@[j],
                    ),
                codes_concat(tv, text).len() <= bit_vec_capacity(),
                buffer@ == codes_concat(tv, line_head + line@.take(ci as int)),
            decreases line@.len() - ci,
        {
            let c = line[ci];
            proof {
                assert(lines@[li as int]@[ci as int] == c);
                assert(has_key(tv, c));
                // the bits built so far plus this code still fit
                let prefix = line_head + line@.take(ci as int);
                lemma_codes_concat_concat(tv, prefix, seq![c]);
                assert(codes_concat(tv, seq![c]) =~= code_of(tv, c) + codes_concat(
                    tv,
                    Seq::<char>::empty(),
                )) by {
                    assert(seq![c].drop_first() =~= Seq::<char>::empty());
                    assert(seq![c][0] == c);
                }
                assert(codes_concat(tv, seq![c]) =~= code_of(tv, c));
                assert(prefix + seq![c] =~= line_head + line@.take(ci as int + 1));
                lemma_line_prefix_bound(tv, lv, li as int, ci as int + 1);
            }
            append_code(&mut buffer, table, c);
            proof {
                assert(buffer@ =~= codes_concat(tv, line_head + line@.take(ci as int + 1)));
            }
            ci = ci + 1;
        }
        proof {
            assert(line@.take(line@.len() as int) =~= line@);
            let prefix = line_head + line@;
            lemma_codes_concat_concat(tv, prefix, seq!['\n']);
            assert(codes_concat(tv, seq!['\n']) =~= code_of(tv, '\n')) by {
                assert(seq!['\n'].drop_first() =~= Seq::<char>::empty());
                assert(seq!['\n'][0] == '\n');
            }
            assert(terminated_text(lv.take(li as int + 1)) =~= prefix + seq!['\n']) by {
                assert(lv.take(li as int + 1).drop_last() =~= lv.take(li as int));
                assert(lv.take(li as int + 1).last() == lv[li as int]);
            }
            lemma_line_prefix_bound(tv, lv, li as int + 1, 0);
            assert(terminated_text(lv.take(li as int + 1)).take(0)
                =~= Seq::<char>::empty());
            lemma_codes_concat_concat(tv, terminated_text(lv.take(li as int + 1)), Seq::<char>::empty());
            assert(terminated_text(lv.take(li as int + 1)) + Seq::<char>::empty()
                =~= terminated_text(lv.take(li as int + 1)));
        }
        append_code(&mut buffer, table, '\n');
        proof {
            assert(buffer@ =~= codes_concat(tv, terminated_text(lv.take(li as int + 1))));
        }
        li = li + 1;
    }
    proof {
        assert(lv.take(lines@.len() as int) =~= lv);
    }
    // pack the buffer, eight bits to a byte, the tail zero-padded
    let ghost bits = buffer@;
    let total = buffer.len();
    proof {
        assert(total <= usize::MAX / 8);
    }
    let mut out: Vec<u8> = Vec::new();
    let mut i: usize = 0;
    proof {
        assert(bits.take(0) =~= Seq::<bool>::empty());
        assert(out@ =~= pack_stream(bits.take(0)));
    }
    while i + 8 <= total
        invariant
            i <= total,
            i % 8 == 0,
            total == bits.len(),
            total <= usize::MAX / 8,
            bits == buffer@,
            out@ == pack_stream(bits.take(i as int)),
        decreases total - i,
    {
        let b = pack_byte_at(&buffer, i, 8);
        out.push(b);
        proof {
            let chunk = bits.subrange(i as int, i as int + 8);
            assert(bits.take(i as int + 8) =~= bits.take(i as int) + chunk);
            lemma_pack_stream_concat(bits.take(i as int), chunk);
            assert(pack_stream(chunk) =~= seq![b]);
            assert(out@ =~= pack_stream(bits.take(i as int + 8)));
        }
        i = i + 8;
    }
    if i < total {
        let rem = total - i;
        let b = pack_byte_at(&buffer, i, rem);
        out.push(b);
        proof {
            let chunk = bits.subrange(i as int, total as int);
            assert(bits =~= bits.take(i as int) + chunk);
            lemma_pack_stream_concat(bits.take(i as int), chunk);
            assert(pack_stream(chunk) =~= seq![b]);
            assert(out@ =~= pack_stream(bits));
        }
    } else {
        proof {
            assert(bits.take(i as int) =~= bits);
        }
    }
    out
}

/// The codes of any cut of the text fit wherever the whole text's do.
proof fn lemma_line_prefix_bound(
    t: Seq<(char, Seq<bool>)>,
    lv: Seq<Seq<char>>,
    li: int,
    ci: int,
)
    requires
        0 <= li <= lv.len(),
        li < lv.len() ==> 0 <= ci <= lv[li].len(),
    ensures
        li < lv.len() ==> codes_concat(t, terminated_text(lv.take(li)) + lv[li].take(ci)).len()
            <= codes_concat(t, terminated_text(lv)).len(),
        codes_concat(t, terminated_text(lv.take(li))).len() <= codes_concat(
            t,
            terminated_text(lv),
        ).len(),
    decreases lv.len() - li,
{
    if li == lv.len() {
        assert(lv.take(li) =~= lv);
    } else {
        lemma_line_prefix_bound(t, lv, li + 1, 0);
        let head = terminated_text(lv.take(li));
        assert(terminated_text(lv.take(li + 1)) =~= head + lv[li] + seq!['\n']) by {
            assert(lv.take(li + 1).drop_last() =~= lv.take(li));
            assert(lv.take(li + 1).last() == lv[li]);
        }
        // the mid-line cut extends to the end of its line
        assert(head + lv[li] + seq!['\n'] =~= (head + lv[li].take(ci)) + (lv[li].skip(ci)
            + seq!['\n']));
        lemma_codes_concat_concat(t, head + lv[li].take(ci), lv[li].skip(ci) + seq!['\n']);
        assert(codes_concat(t, head + lv[li].take(ci)).len() <= codes_concat(
            t,
            terminated_text(lv.take(li + 1)),
        ).len());
        // the line's head alone extends likewise
        assert(head + lv[li] + seq!['\n'] =~= head + (lv[li] + seq!['\n']));
        lemma_codes_concat_concat(t, head, lv[li] + seq!['\n']);
        assert(codes_concat(t, head).len() <= codes_concat(
            t,
            terminated_text(lv.take(li + 1)),
        ).len());
    }
}

/// Reads the body from `from` on: unpacks each byte in production order,
/// grows the candidate pattern, emits on a match, and drops an unmatched
/// tail.
pub(crate) fn decode_body(input: &Vec<u8>, from: usize, table: &Vec<(char, NewBitVec)>) -> (r:
    Result<Vec<char>, HuffmanEncodingError>)
    requires
        from <= input@.len(),
    ensures
        match r {
            Ok(v) => spec_decode_body(
                codes_view(table@),
                input@.subrange(from as int, input@.len() as int),
            ) == Ok::<_, SpecHuffmanEncodingError>(v@),
            Err(e) => spec_decode_body(
                codes_view(table@),
                input@.subrange(from as int, input@.len() as int),
            ) == Err::<Seq<char>, _>(e@),
        },
{
    let ghost tv = codes_view(table@);
    let ghost body = input@.subrange(from as int, input@.len() as int);
    let mut allbits: Vec<bool> = Vec::new();
    let mut p: usize = from;
    proof {
        assert(input@.subrange(from as int, from as int) =~= Seq::<u8>::empty());
        assert(allbits@ =~= unpack_stream(input@.subrange(from as int, from as int)));
    }
    while p < input.len()
        invariant
            from <= p <= input@.len(),
            allbits@ == unpack_stream(input@.subrange(from as int, p as int)),
        decreases input@.len() - p,
    {
        let byte = input[p];
        unpack_byte_into(byte, &mut allbits);
        proof {
            let pre = input@.subrange(from as int, p as int);
            let one = seq![input@[p as int]];
            assert(input@.subrange(from as int, p as int + 1) =~= pre + one);
            lemma_unpack_stream_concat(pre, one);
            assert(unpack_stream(one) =~= unpack_byte(input@[p as int])) by {
                assert(one.drop_first() =~= Seq::<u8>::empty());
                assert(unpack_stream(Seq::<u8>::empty()) =~= Seq::<bool>::empty());
                assert(unpack_byte(input@[p as int]) + Seq::<bool>::empty() =~= unpack_byte(
                    input@[p as int],
                ));
            }
            assert(allbits@ =~= unpack_stream(input@.subrange(from as int, p as int + 1)));
        }
        p = p + 1;
    }
    let ghost stream = allbits@;
    let mut cand = NewBitVec::new();
    let mut out: Vec<char> = Vec::new();
    let mut i: usize = 0;
    proof {
        assert(stream.skip(0) =~= stream);
    }
    while i < allbits.len()
        invariant
            i <= allbits@.len(),
            stream == allbits@,
            from <= input@.len(),
            stream == unpack_stream(input@.subrange(from as int, input@.len() as int)),
            tv == codes_view(table@),
            cand@.len() <= MAX_CANDIDATE_BITS,
            spec_dec(tv, stream, Seq::<bool>::empty(), Seq::<char>::empty()) == spec_dec(
                tv,
                stream.skip(i as int),
                cand@,
                out@,
            ),
        decreases allbits@.len() - i,
    {
        let bit = allbits[i];
        let ghost rest = stream.skip(i as int);
        let ghost cand0 = cand@;
        proof {
            assert(rest[0] == stream[i as int]);
            assert(rest.drop_first() =~= stream.skip(i as int + 1));
        }
        cand.push(bit);
        if cand.len() > MAX_CANDIDATE_BITS {
            proof {
                assert(cand@ == cand0.push(bit));
                assert(spec_dec(tv, rest, cand0, out@) == Err::<Seq<char>, _>(
                    SpecHuffmanEncodingError::RunawayCode(cand0.push(bit)),
                ));
            }
            return Err(HuffmanEncodingError::RunawayCode(cand.to_bools()));
        }
        match match_code(table, &cand) {
            Some(c) => {
                out.push(c);
                cand.clear();
            },
            None => {},
        }
        i = i + 1;
    }
    proof {
        assert(stream.skip(allbits@.len() as int) =~= Seq::<bool>::empty());
    }
    Ok(out)
}

} // verus!
