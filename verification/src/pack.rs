//! Packing bit sequences into bytes and unpacking them again.
//!
//! The body of the wire format holds code bits packed least-significant-bit
//! first: the first bit produced for a byte occupies its lowest bit position,
//! and the final byte is zero-filled in its unused high positions. This
//! module defines that packing over mathematical bit sequences, proves the
//! unpack-of-pack round trip, and provides the verified byte-level helpers
//! the encoder and decoder are built on.

use crate::bits::NewBitVec;
use vstd::prelude::*;

verus! {

/// `2^k`, used to bound packed values.
pub open spec fn two_pow(k: nat) -> nat
    decreases k,
{
    if k == 0 {
        1
    } else {
        2 * two_pow((k - 1) as nat)
    }
}

/// A run of `n` zero bits, as the padding of a final byte.
pub open spec fn zeros(n: nat) -> Seq<bool> {
    Seq::new(n, |i: int| false)
}

/// The value of a bit sequence read least-significant-bit first.
pub open spec fn pack_bits(bits: Seq<bool>) -> nat
    decreases bits.len(),
{
    if bits.len() == 0 {
        0
    } else {
        (if bits[0] {
            1nat
        } else {
            0nat
        }) + 2 * pack_bits(bits.drop_first())
    }
}

/// The low `k` bits of `n`, least significant first.
pub open spec fn unpack_bits(n: nat, k: nat) -> Seq<bool>
    decreases k,
{
    if k == 0 {
        Seq::<bool>::empty()
    } else {
        seq![n % 2 == 1] + unpack_bits(n / 2, (k - 1) as nat)
    }
}

/// The eight bits of one packed body byte, in production order.
pub open spec fn unpack_byte(b: u8) -> Seq<bool> {
    unpack_bits(b as nat, 8)
}

/// Every bit a byte sequence holds, in production order.
pub open spec fn unpack_stream(bytes: Seq<u8>) -> Seq<bool>
    decreases bytes.len(),
{
    if bytes.len() == 0 {
        Seq::<bool>::empty()
    } else {
        unpack_byte(bytes[0]) + unpack_stream(bytes.drop_first())
    }
}

/// The bytes that carry `bits`, eight bits per byte, the final byte
/// zero-padded.
pub open spec fn pack_stream(bits: Seq<bool>) -> Seq<u8>
    decreases bits.len(),
{
    if bits.len() == 0 {
        Seq::<u8>::empty()
    } else if bits.len() <= 8 {
        seq![pack_bits(bits) as u8]
    } else {
        seq![pack_bits(bits.take(8)) as u8] + pack_stream(bits.skip(8))
    }
}

/// Number of padding bits the final packed byte carries for a body of
/// `n` bits.
pub open spec fn pad_len(n: nat) -> nat {
    if n % 8 == 0 {
        0
    } else {
        (8 - n % 8) as nat
    }
}

/// A packed value is bounded by two to the number of bits packed.
pub proof fn lemma_pack_bits_bound(bits: Seq<bool>)
    ensures
        pack_bits(bits) < two_pow(bits.len()),
    decreases bits.len(),
{
    if bits.len() > 0 {
        lemma_pack_bits_bound(bits.drop_first());
    }
}

/// Zero unpacks to zero bits alone.
proof fn lemma_unpack_zero(k: nat)
    ensures
        unpack_bits(0, k) == zeros(k),
    decreases k,
{
    if k == 0 {
        assert(unpack_bits(0, k) =~= zeros(k));
    } else {
        lemma_unpack_zero((k - 1) as nat);
        assert(unpack_bits(0, k) =~= zeros(k));
    }
}

/// Unpacking `k` bits of a value packed from fewer bits gives those bits
/// back, zero-filled at the end.
pub proof fn lemma_unpack_pack(bits: Seq<bool>, k: nat)
    requires
        bits.len() <= k,
    ensures
        unpack_bits(pack_bits(bits), k) == bits + zeros((k - bits.len()) as nat),
    decreases bits.len(),
{
    if bits.len() == 0 {
        lemma_unpack_zero(k);
        assert(bits + zeros(k) =~= zeros(k));
    } else {
        let rest = bits.drop_first();
        let n = pack_bits(bits);
        let m = pack_bits(rest);
        assert(n == (if bits[0] {
            1nat
        } else {
            0nat
        }) + 2 * m);
        assert(n % 2 == (if bits[0] {
            1int
        } else {
            0int
        }));
        assert(n / 2 == m);
        lemma_unpack_pack(rest, (k - 1) as nat);
        assert(unpack_bits(n, k) =~= bits + zeros((k - bits.len()) as nat));
    }
}

/// Splitting a bit sequence at a byte boundary splits its packing.
pub proof fn lemma_pack_stream_concat(x: Seq<bool>, y: Seq<bool>)
    requires
        x.len() % 8 == 0,
    ensures
        pack_stream(x + y) == pack_stream(x) + pack_stream(y),
    decreases x.len(),
{
    if x.len() == 0 {
        assert(x + y =~= y);
        assert(pack_stream(x) + pack_stream(y) =~= pack_stream(y));
    } else {
        let xy = x + y;
        assert(x.len() >= 8);
        assert(x.take(8) =~= xy.take(8));
        assert(x.skip(8) + y =~= xy.skip(8));
        lemma_pack_stream_concat(x.skip(8), y);
        if x.len() == 8 {
            assert(x.take(8) =~= x);
            assert(x.skip(8) =~= Seq::<bool>::empty());
            assert(pack_stream(Seq::<bool>::empty()) =~= Seq::<u8>::empty());
            assert(seq![pack_bits(x.take(8)) as u8] + pack_stream(x.skip(8)) =~= pack_stream(x));
        } else {
            assert(seq![pack_bits(x.take(8)) as u8] + pack_stream(x.skip(8)) =~= pack_stream(x));
        }
        if y.len() == 0 {
            assert(xy =~= x);
            assert(pack_stream(y) =~= Seq::<u8>::empty());
            assert(pack_stream(x) + pack_stream(y) =~= pack_stream(x));
        } else {
            assert(xy.len() > 8);
            assert(pack_stream(xy) == seq![pack_bits(xy.take(8)) as u8] + pack_stream(xy.skip(8)));
            assert(pack_stream(xy.skip(8)) == pack_stream(x.skip(8)) + pack_stream(y));
            assert(seq![pack_bits(x.take(8)) as u8] + (pack_stream(x.skip(8)) + pack_stream(y))
                =~= (seq![pack_bits(x.take(8)) as u8] + pack_stream(x.skip(8))) + pack_stream(y));
            assert(pack_stream(xy) =~= pack_stream(x) + pack_stream(y));
        }
    }
}

/// Unpacking concatenates bytewise.
pub proof fn lemma_unpack_stream_concat(x: Seq<u8>, y: Seq<u8>)
    ensures
        unpack_stream(x + y) == unpack_stream(x) + unpack_stream(y),
    decreases x.len(),
{
    if x.len() == 0 {
        assert(x + y =~= y);
        assert(unpack_stream(x) + unpack_stream(y) =~= unpack_stream(y));
    } else {
        assert(x.drop_first() + y =~= (x + y).drop_first());
        lemma_unpack_stream_concat(x.drop_first(), y);
        assert(unpack_stream(x + y) =~= unpack_stream(x) + unpack_stream(y));
    }
}

/// Unpacking a packed body gives the bits back, followed by the padding
/// of the final byte.
pub proof fn lemma_unpack_pack_stream(bits: Seq<bool>)
    ensures
        unpack_stream(pack_stream(bits)) == bits + zeros(pad_len(bits.len())),
    decreases bits.len(),
{
    if bits.len() == 0 {
        assert(unpack_stream(pack_stream(bits)) =~= bits + zeros(pad_len(bits.len())));
    } else if bits.len() <= 8 {
        lemma_pack_bits_bound(bits);
        assert(two_pow(bits.len()) <= 256) by {
            reveal_with_fuel(two_pow, 9);
            lemma_two_pow_increases(bits.len(), 8);
        }
        let b = pack_bits(bits) as u8;
        assert(b as nat == pack_bits(bits));
        lemma_unpack_pack(bits, 8);
        assert(pack_stream(bits) =~= seq![b]);
        assert(seq![b].drop_first() =~= Seq::<u8>::empty());
        assert(unpack_stream(Seq::<u8>::empty()) =~= Seq::<bool>::empty());
        assert(unpack_byte(b) + Seq::<bool>::empty() =~= unpack_byte(b));
        assert(unpack_stream(seq![b]) =~= unpack_byte(b));
        assert(zeros((8 - bits.len()) as nat) =~= zeros(pad_len(bits.len())));
    } else {
        let head = bits.take(8);
        let tail = bits.skip(8);
        assert(head.len() == 8);
        lemma_pack_bits_bound(head);
        assert(two_pow(8) == 256) by {
            reveal_with_fuel(two_pow, 9);
        }
        let b = pack_bits(head) as u8;
        assert(b as nat == pack_bits(head));
        lemma_unpack_pack(head, 8);
        assert(unpack_byte(b) =~= head);
        lemma_unpack_stream_concat(seq![b], pack_stream(tail));
        assert(seq![b] + pack_stream(tail) =~= pack_stream(bits));
        assert(seq![b].drop_first() =~= Seq::<u8>::empty());
        assert(unpack_stream(Seq::<u8>::empty()) =~= Seq::<bool>::empty());
        assert(unpack_byte(b) + Seq::<bool>::empty() =~= unpack_byte(b));
        assert(unpack_stream(seq![b]) =~= unpack_byte(b));
        lemma_unpack_pack_stream(tail);
        assert(tail.len() % 8 == bits.len() % 8);
        assert(unpack_stream(pack_stream(bits)) =~= bits + zeros(pad_len(bits.len())));
    }
}

/// `two_pow` grows with its exponent.
proof fn lemma_two_pow_increases(a: nat, b: nat)
    requires
        a <= b,
    ensures
        two_pow(a) <= two_pow(b),
    decreases b,
{
    if a < b {
        lemma_two_pow_increases(a, (b - 1) as nat);
    }
}

/// Packs the eight bits of `buffer` that start at `start` into one byte,
/// least-significant-bit first.
pub(crate) fn pack_byte_at(buffer: &NewBitVec, start: usize, count: usize) -> (r: u8)
    requires
        1 <= count <= 8,
        start + count <= buffer@.len(),
        start + count <= usize::MAX,
    ensures
        r as nat == pack_bits(buffer@.subrange(start as int, start as int + count as int)),
{
    let chunk = Ghost(buffer@.subrange(start as int, start as int + count as int));
    let mut acc: u32 = 0;
    let mut j: usize = count;
    proof {
        assert(chunk@.skip(count as int) =~= Seq::<bool>::empty());
    }
    while j > 0
        invariant
            j <= count,
            1 <= count <= 8,
            start + count <= buffer@.len(),
            start + count <= usize::MAX,
            chunk@ == buffer@.subrange(start as int, start as int + count as int),
            acc as nat == pack_bits(chunk@.skip(j as int)),
            acc < 256,
        decreases j,
    {
        j = j - 1;
        let bit = buffer.get(start + j);
        proof {
            assert(chunk@.skip(j as int) =~= seq![chunk@[j as int]] + chunk@.skip(j as int + 1));
            assert((seq![chunk@[j as int]] + chunk@.skip(j as int + 1)).drop_first() =~= chunk@.skip(
                j as int + 1,
            ));
            assert(chunk@[j as int] == buffer@[start + j]);
            assert(pack_bits(chunk@.skip(j as int)) == (if chunk@[j as int] {
                1nat
            } else {
                0nat
            }) + 2 * pack_bits(chunk@.skip(j as int + 1)));
            lemma_pack_bits_bound(chunk@.skip(j as int));
            lemma_two_pow_increases(chunk@.skip(j as int).len(), 8);
            assert(two_pow(8) == 256) by {
                reveal_with_fuel(two_pow, 9);
            }
        }
        acc = 2 * acc + (if bit {
            1
        } else {
            0
        });
    }
    proof {
        assert(chunk@.skip(0) =~= chunk@);
    }
    acc as u8
}

/// Appends the eight bits of `byte` to `out`, least significant first:
/// the order in which the body's bits were produced.
pub(crate) fn unpack_byte_into(byte: u8, out: &mut Vec<bool>)
    ensures
        final(out)@ == old(out)@ + unpack_byte(byte),
{
    let ghost start = out@;
    let mut v: u8 = byte;
    let mut j: usize = 0;
    while j < 8
        invariant
            j <= 8,
            out@.len() == start.len() + j,
            start + unpack_byte(byte) == out@ + unpack_bits(v as nat, (8 - j) as nat),
        decreases 8 - j,
    {
        let bit = v % 2 == 1;
        proof {
            assert(unpack_bits(v as nat, (8 - j) as nat) =~= seq![v as nat % 2 == 1]
                + unpack_bits(v as nat / 2, (8 - (j + 1)) as nat));
            assert((v % 2 == 1) == (v as nat % 2 == 1));
            assert(v as nat / 2 == (v / 2) as nat);
        }
        out.push(bit);
        v = v / 2;
        j = j + 1;
        proof {
            assert(start + unpack_byte(byte) =~= out@ + unpack_bits(v as nat, (8 - j) as nat));
        }
    }
    proof {
        assert(unpack_bits(v as nat, 0) =~= Seq::<bool>::empty());
        assert(out@ =~= start + unpack_byte(byte));
    }
}


/// Unpacking yields one bit per position asked for.
pub proof fn lemma_unpack_bits_len(n: nat, k: nat)
    ensures
        unpack_bits(n, k).len() == k,
    decreases k,
{
    if k > 0 {
        lemma_unpack_bits_len(n / 2, (k - 1) as nat);
    }
}

/// Unpacking yields eight bits per byte.
pub proof fn lemma_unpack_stream_len(bytes: Seq<u8>)
    ensures
        unpack_stream(bytes).len() == 8 * bytes.len(),
    decreases bytes.len(),
{
    if bytes.len() > 0 {
        lemma_unpack_bits_len(bytes[0] as nat, 8);
        lemma_unpack_stream_len(bytes.drop_first());
    }
}

} // verus!
