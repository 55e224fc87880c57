//! The codec: lookup tables filled once, and the group and buffer routines
//! that read them.

use vstd::prelude::*;
use crate::tables::{code_of, nibble_of, is_code_word, lemma_code_word_bound, lemma_tables_inverse};
use crate::model::{
    decode_bytes,
    decode_value,
    encode_bytes,
    encode_group,
    encode_value,
    field,
    field_nibble,
    join,
    lemma_encode_length,
    value_of_bytes,
};

verus! {

/// Bytes in one recorded group, which holds four data bytes.
const QUINTUPLE_SIZE: usize = 5;

/// A Group Code Recording codec: the lookup tables between nibbles and their
/// 5-bit code words, filled once and only read afterwards.
pub struct GCR {
    /// Indexed by a 5-bit value: the nibble that it records, or `None`.
    decode_mappings: [Option<u8>; 32],
    /// Indexed by a nibble: its code word.
    encode_mappings: [u8; 16],
}

/// The first `i` bytes of the group `g` packed as `encode_value` packs them,
/// the rest of the fields zero.
spec fn packed_upto(g: Seq<u8>, i: int) -> u64
    decreases i,
{
    if i <= 0 {
        0
    } else {
        packed_upto(g, i - 1) | (code_of(g[i - 1] >> 4u8) as u64) << ((35 - 10 * (i - 1)) as u64)
            | (code_of(g[i - 1] & 0x0fu8) as u64) << ((30 - 10 * (i - 1)) as u64)
    }
}

impl GCR {
    /// Both tables agree with the pairing of nibbles and code words.
    #[verifier::type_invariant]
    spec fn tables_hold(&self) -> bool {
        &&& forall|c: int| 0 <= c < 32 ==> self.decode_mappings@[c] == nibble_of(c as u8)
        &&& forall|n: int| 0 <= n < 16 ==> self.encode_mappings@[n] == code_of(n as u8)
    }

    /// The decode table: for each 5-bit value, its nibble or `None`.
    pub closed spec fn decode_table(&self) -> Seq<Option<u8>> {
        self.decode_mappings@
    }

    /// The encode table: for each nibble, its code word.
    pub closed spec fn encode_table(&self) -> Seq<u8> {
        self.encode_mappings@
    }

    /// Builds the codec, filling both tables from the sixteen pairs of a code
    /// word and its nibble; every 5-bit value that is no code word is marked
    /// invalid.
    pub fn new() -> (r: Self)
        ensures
            r.decode_table().len() == 32,
            r.encode_table().len() == 16,
            forall|c: int| 0 <= c < 32 ==> #[trigger] r.decode_table()[c] == nibble_of(c as u8),
            forall|n: int| 0 <= n < 16 ==> #[trigger] r.encode_table()[n] == code_of(n as u8),
            forall|n: int|
                0 <= n < 16 ==> r.decode_table()[#[trigger] r.encode_table()[n] as int] == Some(
                    n as u8,
                ),
            forall|c: int|
                0 <= c < 32 && !is_code_word(c as u8) ==> #[trigger] r.decode_table()[c] is None,
    {
        let mut decode_mappings: [Option<u8>; 32] = [None; 32];
        let mut encode_mappings: [u8; 16] = [0u8; 16];
        let mapping_pairs: [(u8, u8); 16] = [
            (0b01010, 0),
            (0b01011, 1),
            (0b10010, 2),
            (0b10011, 3),
            (0b01110, 4),
            (0b01111, 5),
            (0b10110, 6),
            (0b10111, 7),
            (0b01001, 8),
            (0b11001, 9),
            (0b11010, 10),
            (0b11011, 11),
            (0b01101, 12),
            (0b11101, 13),
            (0b11110, 14),
            (0b10101, 15),
        ];
        proof {
            lemma_tables_inverse();
            assert forall|k: int| 0 <= k < 16 implies #[trigger] mapping_pairs@[k] == (
                code_of(k as u8),
                k as u8,
            ) by {}
        }
        for i in 0..16
            invariant
                forall|k: int|
                    0 <= k < 16 ==> #[trigger] mapping_pairs@[k] == (code_of(k as u8), k as u8),
                forall|c: int|
                    0 <= c < 32 ==> #[trigger] decode_mappings@[c] == if nibble_of(c as u8) is Some
                        && nibble_of(c as u8)->0 < i {
                        nibble_of(c as u8)
                    } else {
                        None
                    },
                forall|n: int| 0 <= n < i ==> #[trigger] encode_mappings@[n] == code_of(n as u8),
        {
            let (encoded, decoded) = mapping_pairs[i];
            proof {
                lemma_tables_inverse();
                lemma_code_word_bound(decoded);
            }
            decode_mappings[encoded as usize] = Some(decoded);
            encode_mappings[decoded as usize] = encoded;
        }
        proof {
            lemma_tables_inverse();
        }
        GCR { decode_mappings, encode_mappings }
    }

    /// Decodes one 40-bit group: the eight 5-bit fields of `encoded_value`,
    /// from bits 39 to 35 down, become four bytes, two nibbles each; `None`
    /// when one of the fields is no code word.
    fn decode_quintuple(&self, encoded_value: u64) -> (r: Option<Vec<u8>>)
        ensures
            r is Some <==> decode_value(encoded_value) is Some,
            r is Some ==> r->0@ == decode_value(encoded_value)->0,
    {
        let mut result: Vec<u8> = Vec::with_capacity(4);
        let mut j: u64 = 0;
        while j < 8
            invariant
                j % 2 == 0,
                j <= 8,
                forall|i: int| 0 <= i < j ==> #[trigger] nibble_of(field(encoded_value, i)) is Some,
                result@.len() == j / 2,
                forall|k: int|
                    0 <= k < j / 2 ==> #[trigger] result@[k] == join(
                        field_nibble(encoded_value, 2 * k),
                        field_nibble(encoded_value, 2 * k + 1),
                    ),
            decreases 8 - j,
        {
            proof {
                use_type_invariant(self);
            }
            let shift_high: u64 = 35 - j * 5;
            let shift_low: u64 = 35 - (j + 1) * 5;
            let high_field: u64 = (encoded_value >> shift_high) & 0x1f;
            let low_field: u64 = (encoded_value >> shift_low) & 0x1f;
            assert(high_field < 32) by (bit_vector)
                requires
                    high_field == (encoded_value >> shift_high) & 0x1f,
            ;
            assert(low_field < 32) by (bit_vector)
                requires
                    low_field == (encoded_value >> shift_low) & 0x1f,
            ;
            let decoded_nibble_high = self.decode_mappings[high_field as usize];
            let decoded_nibble_low = self.decode_mappings[low_field as usize];
            assert(field(encoded_value, j as int) == high_field as u8);
            assert(field(encoded_value, j + 1) == low_field as u8);
            match (decoded_nibble_high, decoded_nibble_low) {
                (Some(high), Some(low)) => {
                    result.push((high << 4u8) | low);
                },
                _ => {
                    assert(!(nibble_of(field(encoded_value, j as int)) is Some && nibble_of(
                        field(encoded_value, j + 1),
                    ) is Some));
                    return None;
                },
            }
            j = j + 2;
        }
        let ghost d = decode_value(encoded_value)->0;
        assert(result@ =~= d);
        Some(result)
    }

    /// Decodes a buffer: each complete group of five bytes in turn, the bytes
    /// after the last complete group left out. `None` when any group holds a
    /// 5-bit value that is no code word; no partial output is returned.
    pub fn decode(&self, value: &[u8]) -> (r: Option<Vec<u8>>)
        ensures
            r is Some <==> decode_bytes(value@) is Some,
            r is Some ==> r->0@ == decode_bytes(value@)->0,
    {
        let mut result: Vec<u8> = Vec::new();
        let mut i: usize = 0;
        proof {
            assert(value@.skip(0) =~= value@);
            if let Some(t) = decode_bytes(value@) {
                assert(result@ + t =~= t);
            }
        }
        while value.len() - i >= QUINTUPLE_SIZE
            invariant
                i <= value@.len(),
                decode_bytes(value@) == match decode_bytes(value@.skip(i as int)) {
                    Some(t) => Some(result@ + t),
                    None => None::<Seq<u8>>,
                },
            decreases value@.len() - i,
        {
            let final_value: u64 = (value[i] as u64) << 32u64 | (value[i + 1] as u64) << 24u64 | (
            value[i + 2] as u64) << 16u64 | (value[i + 3] as u64) << 8u64 | (value[i + 4] as u64);
            let ghost rest = value@.skip(i as int);
            proof {
                assert(rest.skip(5) =~= value@.skip(i + 5));
                assert(final_value == value_of_bytes(rest.take(5)));
            }
            match self.decode_quintuple(final_value) {
                Some(res) => {
                    let mut res = res;
                    let ghost old_result = result@;
                    result.append(&mut res);
                    proof {
                        match decode_bytes(value@.skip(i + 5)) {
                            Some(t) => {
                                assert(old_result + (decode_value(final_value)->0 + t) =~= result@
                                    + t);
                            },
                            None => {},
                        }
                    }
                },
                None => {
                    return None;
                },
            }
            i = i + QUINTUPLE_SIZE;
        }
        proof {
            assert(result@ + Seq::<u8>::empty() =~= result@);
        }
        Some(result)
    }

    /// Encodes one group of four bytes into a 40-bit value: each byte gives
    /// the code word of its high nibble, then that of its low nibble, the
    /// first byte's high nibble in bits 39 to 35.
    fn encode_quintuple(&self, decoded_value: &[u8]) -> (r: u64)
        requires
            decoded_value@.len() == 4,
        ensures
            r == encode_value(decoded_value@),
    {
        let ghost g = decoded_value@;
        let mut acc: u64 = 0;
        for i in 0..4
            invariant
                g == decoded_value@,
                g.len() == 4,
                acc == packed_upto(g, i as int),
        {
            proof {
                use_type_invariant(self);
            }
            let shift_amount_high: u64 = 35 - (i as u64) * 10;
            let shift_amount_low: u64 = shift_amount_high - 5;
            let byte = decoded_value[i];
            let high = byte >> 4u8;
            let low = byte & 0x0fu8;
            assert(high < 16 && low < 16) by (bit_vector)
                requires
                    high == byte >> 4u8,
                    low == byte & 0x0fu8,
            ;
            acc = acc | (self.encode_mappings[high as usize] as u64) << shift_amount_high | (
            self.encode_mappings[low as usize] as u64) << shift_amount_low;
        }
        proof {
            let a0 = (code_of(g[0] >> 4u8) as u64) << 35u64;
            let b0 = (code_of(g[0] & 0x0fu8) as u64) << 30u64;
            let a1 = (code_of(g[1] >> 4u8) as u64) << 25u64;
            let b1 = (code_of(g[1] & 0x0fu8) as u64) << 20u64;
            let a2 = (code_of(g[2] >> 4u8) as u64) << 15u64;
            let b2 = (code_of(g[2] & 0x0fu8) as u64) << 10u64;
            let a3 = (code_of(g[3] >> 4u8) as u64) << 5u64;
            let b3 = (code_of(g[3] & 0x0fu8) as u64) << 0u64;
            assert(0u64 | a0 == a0) by (bit_vector);
            let c3 = code_of(g[3] & 0x0fu8) as u64;
            assert(c3 << 0u64 == c3) by (bit_vector);
            assert(packed_upto(g, 0) == 0);
            assert(packed_upto(g, 1) == a0 | b0);
            assert(packed_upto(g, 2) == a0 | b0 | a1 | b1);
            assert(packed_upto(g, 3) == a0 | b0 | a1 | b1 | a2 | b2);
            assert(packed_upto(g, 4) == a0 | b0 | a1 | b1 | a2 | b2 | a3 | b3);
        }
        acc
    }

    /// Encodes a buffer: each complete group of four bytes in turn becomes
    /// five bytes; the one to three bytes after the last complete group are
    /// left out.
    pub fn encode(&self, value: &[u8]) -> (r: Vec<u8>)
        ensures
            r@ == encode_bytes(value@),
            r@.len() == (value@.len() / 4) * 5,
    {
        let num_chunks = value.len() / 4;
        let mut result: Vec<u8> = Vec::with_capacity(
            num_chunks.checked_mul(QUINTUPLE_SIZE).unwrap_or(0),
        );
        let mut i: usize = 0;
        proof {
            assert(value@.skip(0) =~= value@);
            assert(result@ + encode_bytes(value@) =~= encode_bytes(value@));
        }
        while value.len() - i >= 4
            invariant
                i <= value@.len(),
                encode_bytes(value@) == result@ + encode_bytes(value@.skip(i as int)),
            decreases value@.len() - i,
        {
            let chunk = &value[i..i + 4];
            let acc = self.encode_quintuple(chunk);
            let ghost old_result = result@;
            let ghost rest = value@.skip(i as int);
            result.push((acc >> 32u64) as u8);
            result.push((acc >> 24u64) as u8);
            result.push((acc >> 16u64) as u8);
            result.push((acc >> 8u64) as u8);
            result.push(acc as u8);
            proof {
                assert(chunk@ =~= rest.take(4));
                assert(rest.skip(4) =~= value@.skip(i + 4));
                assert(result@ =~= old_result + encode_group(rest.take(4)));
                assert(old_result + (encode_group(rest.take(4)) + encode_bytes(
                    rest.skip(4),
                )) =~= result@ + encode_bytes(value@.skip(i + 4)));
            }
            i = i + 4;
        }
        proof {
            assert(result@ + encode_bytes(value@.skip(i as int)) =~= result@);
            lemma_encode_length(value@);
        }
        result
    }
}

} // verus!
