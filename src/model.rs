//! What encoding and decoding mean, on 40-bit groups and on whole buffers.

use vstd::prelude::*;
use crate::tables::{code_of, nibble_of, lemma_code_word_bound, lemma_tables_inverse};

verus! {

/// Eight 5-bit code words packed into one 40-bit value, the first word in
/// bits 39 to 35 and the last in bits 4 to 0.
pub open spec fn pack(
    w0: u8,
    w1: u8,
    w2: u8,
    w3: u8,
    w4: u8,
    w5: u8,
    w6: u8,
    w7: u8,
) -> u64 {
    (w0 as u64) << 35u64 | (w1 as u64) << 30u64 | (w2 as u64) << 25u64 | (w3 as u64) << 20u64
        | (w4 as u64) << 15u64 | (w5 as u64) << 10u64 | (w6 as u64) << 5u64 | (w7 as u64)
}

/// The 40-bit value that encodes the four bytes `g`: each byte gives its
/// high nibble's code word, then its low nibble's.
pub open spec fn encode_value(g: Seq<u8>) -> u64 {
    pack(
        code_of(g[0] >> 4u8),
        code_of(g[0] & 0x0fu8),
        code_of(g[1] >> 4u8),
        code_of(g[1] & 0x0fu8),
        code_of(g[2] >> 4u8),
        code_of(g[2] & 0x0fu8),
        code_of(g[3] >> 4u8),
        code_of(g[3] & 0x0fu8),
    )
}

/// The low 40 bits of `v` as five bytes, the most significant first.
pub open spec fn bytes_of_value(v: u64) -> Seq<u8> {
    seq![(v >> 32u64) as u8, (v >> 24u64) as u8, (v >> 16u64) as u8, (v >> 8u64) as u8, v as u8]
}

/// The value whose low 40 bits are the five bytes `q`, the most significant
/// first; its upper 24 bits are zero.
pub open spec fn value_of_bytes(q: Seq<u8>) -> u64 {
    (q[0] as u64) << 32u64 | (q[1] as u64) << 24u64 | (q[2] as u64) << 16u64 | (q[3] as u64)
        << 8u64 | (q[4] as u64)
}

/// The 5-bit field of `v` at position `j` (0 to 7), counted from bits 39 to 35.
pub open spec fn field(v: u64, j: int) -> u8 {
    ((v >> ((35 - 5 * j) as u64)) & 0x1fu64) as u8
}

/// A byte from its high and low nibble.
pub open spec fn join(hi: u8, lo: u8) -> u8 {
    (hi << 4u8) | lo
}

/// The nibble that field `j` of `v` decodes to (meaningful where it decodes).
pub open spec fn field_nibble(v: u64, j: int) -> u8 {
    nibble_of(field(v, j))->0
}

/// The four bytes that the eight fields of `v` decode to, or `None` when one
/// of the fields is no code word.
pub open spec fn decode_value(v: u64) -> Option<Seq<u8>> {
    if forall|j: int| 0 <= j < 8 ==> #[trigger] nibble_of(field(v, j)) is Some {
        Some(Seq::new(4, |k: int| join(field_nibble(v, 2 * k), field_nibble(v, 2 * k + 1))))
    } else {
        None
    }
}

/// The five bytes that record the four bytes `g`.
pub open spec fn encode_group(g: Seq<u8>) -> Seq<u8> {
    bytes_of_value(encode_value(g))
}

/// The four bytes that the five recorded bytes `q` decode to, if they do.
pub open spec fn decode_group(q: Seq<u8>) -> Option<Seq<u8>> {
    decode_value(value_of_bytes(q))
}

/// A whole buffer encoded: each complete group of four bytes in turn, with
/// the one to three bytes after the last complete group left out.
pub open spec fn encode_bytes(b: Seq<u8>) -> Seq<u8>
    decreases b.len(),
{
    if b.len() < 4 {
        Seq::empty()
    } else {
        encode_group(b.take(4)) + encode_bytes(b.skip(4))
    }
}

/// A whole buffer decoded: each complete group of five bytes in turn, with
/// the one to four bytes after the last complete group left out; `None` as
/// soon as one group does not decode.
pub open spec fn decode_bytes(b: Seq<u8>) -> Option<Seq<u8>>
    decreases b.len(),
{
    if b.len() < 5 {
        Some(Seq::empty())
    } else {
        match (decode_group(b.take(5)), decode_bytes(b.skip(5))) {
            (Some(h), Some(t)) => Some(h + t),
            _ => None,
        }
    }
}

/// Bit facts on packing eight 5-bit words: each comes back out of its field,
/// and the packed value survives the trip through its five bytes.
proof fn lemma_pack_bits(w0: u8, w1: u8, w2: u8, w3: u8, w4: u8, w5: u8, w6: u8, w7: u8)
    by (bit_vector)
    requires
        w0 < 32,
        w1 < 32,
        w2 < 32,
        w3 < 32,
        w4 < 32,
        w5 < 32,
        w6 < 32,
        w7 < 32,
    ensures
        ((pack(w0, w1, w2, w3, w4, w5, w6, w7) >> 35u64) & 0x1fu64) as u8 == w0,
        ((pack(w0, w1, w2, w3, w4, w5, w6, w7) >> 30u64) & 0x1fu64) as u8 == w1,
        ((pack(w0, w1, w2, w3, w4, w5, w6, w7) >> 25u64) & 0x1fu64) as u8 == w2,
        ((pack(w0, w1, w2, w3, w4, w5, w6, w7) >> 20u64) & 0x1fu64) as u8 == w3,
        ((pack(w0, w1, w2, w3, w4, w5, w6, w7) >> 15u64) & 0x1fu64) as u8 == w4,
        ((pack(w0, w1, w2, w3, w4, w5, w6, w7) >> 10u64) & 0x1fu64) as u8 == w5,
        ((pack(w0, w1, w2, w3, w4, w5, w6, w7) >> 5u64) & 0x1fu64) as u8 == w6,
        ((pack(w0, w1, w2, w3, w4, w5, w6, w7) >> 0u64) & 0x1fu64) as u8 == w7,
        (((pack(w0, w1, w2, w3, w4, w5, w6, w7) >> 32u64) as u8) as u64) << 32u64 | (((pack(
            w0,
            w1,
            w2,
            w3,
            w4,
            w5,
            w6,
            w7,
        ) >> 24u64) as u8) as u64) << 24u64 | (((pack(w0, w1, w2, w3, w4, w5, w6, w7)
            >> 16u64) as u8) as u64) << 16u64 | (((pack(w0, w1, w2, w3, w4, w5, w6, w7)
            >> 8u64) as u8) as u64) << 8u64 | ((pack(w0, w1, w2, w3, w4, w5, w6, w7) as u8) as u64)
            == pack(w0, w1, w2, w3, w4, w5, w6, w7),
{
}

/// A byte splits into two nibbles that join back into it.
proof fn lemma_split_join(b: u8)
    by (bit_vector)
    ensures
        b >> 4u8 < 16,
        b & 0x0fu8 < 16,
        (((b >> 4u8) << 4u8) | (b & 0x0fu8)) == b,
{
}

/// A group of four bytes decodes back from its five recorded bytes.
pub proof fn lemma_group_round_trip(g: Seq<u8>)
    requires
        g.len() == 4,
    ensures
        decode_group(encode_group(g)) == Some(g),
{
    let w = seq![
        code_of(g[0] >> 4u8),
        code_of(g[0] & 0x0fu8),
        code_of(g[1] >> 4u8),
        code_of(g[1] & 0x0fu8),
        code_of(g[2] >> 4u8),
        code_of(g[2] & 0x0fu8),
        code_of(g[3] >> 4u8),
        code_of(g[3] & 0x0fu8),
    ];
    lemma_tables_inverse();
    lemma_split_join(g[0]);
    lemma_split_join(g[1]);
    lemma_split_join(g[2]);
    lemma_split_join(g[3]);
    assert forall|j: int| 0 <= j < 8 implies w[j] < 32 && #[trigger] nibble_of(w[j]) == Some(
        if j % 2 == 0 {
            g[j / 2] >> 4u8
        } else {
            g[j / 2] & 0x0fu8
        },
    ) by {
        let n = if j % 2 == 0 {
            g[j / 2] >> 4u8
        } else {
            g[j / 2] & 0x0fu8
        };
        lemma_code_word_bound(n);
        assert(w[j] == code_of(n));
    }
    let v = encode_value(g);
    lemma_pack_bits(w[0], w[1], w[2], w[3], w[4], w[5], w[6], w[7]);
    assert(value_of_bytes(bytes_of_value(v)) == v);
    assert forall|j: int| 0 <= j < 8 implies #[trigger] field(v, j) == w[j] by {}
    assert forall|j: int| 0 <= j < 8 implies #[trigger] nibble_of(field(v, j)) is Some by {
        assert(field(v, j) == w[j]);
    }
    let d = Seq::new(4, |k: int| join(field_nibble(v, 2 * k), field_nibble(v, 2 * k + 1)));
    assert forall|k: int| 0 <= k < 4 implies #[trigger] d[k] == g[k] by {
        assert(field(v, 2 * k) == w[2 * k]);
        assert(field(v, 2 * k + 1) == w[2 * k + 1]);
    }
    assert(d =~= g);
}

/// Encoding gives five bytes per complete group of four, and only those
/// groups count: the bytes after the last complete group change nothing.
pub proof fn lemma_encode_length(b: Seq<u8>)
    ensures
        encode_bytes(b).len() == (b.len() / 4) * 5,
        encode_bytes(b) == encode_bytes(b.take(4 * (b.len() / 4) as int)),
    decreases b.len(),
{
    if b.len() >= 4 {
        let t = b.take(4 * (b.len() / 4) as int);
        lemma_encode_length(b.skip(4));
        assert(b.skip(4).len() / 4 == b.len() / 4 - 1);
        assert(t.take(4) =~= b.take(4));
        assert(t.skip(4) =~= b.skip(4).take(4 * (b.skip(4).len() / 4) as int));
    } else {
        assert(b.take(0).len() == 0);
    }
}

/// Decoding what was encoded gives back every buffer whose length is a
/// multiple of four.
pub proof fn lemma_round_trip(b: Seq<u8>)
    requires
        b.len() % 4 == 0,
    ensures
        decode_bytes(encode_bytes(b)) == Some(b),
    decreases b.len(),
{
    if b.len() >= 4 {
        let e = encode_bytes(b);
        let h = encode_group(b.take(4));
        lemma_round_trip(b.skip(4));
        lemma_group_round_trip(b.take(4));
        assert(h.len() == 5);
        assert(e.take(5) =~= h);
        assert(e.skip(5) =~= encode_bytes(b.skip(4)));
        assert(b.take(4) + b.skip(4) =~= b);
    } else {
        assert(b =~= Seq::<u8>::empty());
    }
}

/// One complete group of five bytes that does not decode makes the whole
/// buffer fail to decode.
pub proof fn lemma_decode_fails_with_group(b: Seq<u8>, g: int)
    requires
        0 <= g < b.len() / 5,
        decode_group(b.subrange(5 * g, 5 * g + 5)) is None,
    ensures
        decode_bytes(b) is None,
    decreases b.len(),
{
    if g == 0 {
        assert(b.take(5) =~= b.subrange(0, 5));
    } else {
        assert(b.skip(5).subrange(5 * (g - 1), 5 * (g - 1) + 5) =~= b.subrange(5 * g, 5 * g + 5));
        lemma_decode_fails_with_group(b.skip(5), g - 1);
    }
}

} // verus!
