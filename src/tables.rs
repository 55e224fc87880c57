//! The fixed pairing of the 16 nibbles with their 5-bit code words.

use vstd::prelude::*;

verus! {

/// The code word of each nibble, indexed by the nibble.
pub open spec fn code_words() -> Seq<u8> {
    seq![
        0b01010u8, 0b01011u8, 0b10010u8, 0b10011u8,
        0b01110u8, 0b01111u8, 0b10110u8, 0b10111u8,
        0b01001u8, 0b11001u8, 0b11010u8, 0b11011u8,
        0b01101u8, 0b11101u8, 0b11110u8, 0b10101u8,
    ]
}

/// The code word that records nibble `n` (`n < 16`).
pub open spec fn code_of(n: u8) -> u8 {
    code_words()[n as int]
}

/// The nibble whose code word is `c`, or `None` when `c` is no code word.
pub open spec fn nibble_of(c: u8) -> Option<u8> {
    if c == 0b01010 {
        Some(0u8)
    } else if c == 0b01011 {
        Some(1u8)
    } else if c == 0b10010 {
        Some(2u8)
    } else if c == 0b10011 {
        Some(3u8)
    } else if c == 0b01110 {
        Some(4u8)
    } else if c == 0b01111 {
        Some(5u8)
    } else if c == 0b10110 {
        Some(6u8)
    } else if c == 0b10111 {
        Some(7u8)
    } else if c == 0b01001 {
        Some(8u8)
    } else if c == 0b11001 {
        Some(9u8)
    } else if c == 0b11010 {
        Some(10u8)
    } else if c == 0b11011 {
        Some(11u8)
    } else if c == 0b01101 {
        Some(12u8)
    } else if c == 0b11101 {
        Some(13u8)
    } else if c == 0b11110 {
        Some(14u8)
    } else if c == 0b10101 {
        Some(15u8)
    } else {
        None
    }
}

/// Whether `c` is the code word of some nibble.
pub open spec fn is_code_word(c: u8) -> bool {
    exists|n: u8| n < 16 && code_of(n) == c
}

/// Every code word fits in 5 bits.
pub proof fn lemma_code_word_bound(n: u8)
    requires
        n < 16,
    ensures
        code_of(n) < 32,
{
    assert(code_words().len() == 16);
}

/// The two tables invert each other: decoding the code word of a nibble gives
/// that nibble back, a value that decodes gives a nibble whose code word it
/// is, and a value that is no code word does not decode.
pub proof fn lemma_tables_inverse()
    ensures
        forall|n: u8| n < 16 ==> #[trigger] nibble_of(code_of(n)) == Some(n),
        forall|c: u8|
            #[trigger] nibble_of(c) is Some ==> nibble_of(c)->0 < 16 && code_of(nibble_of(c)->0)
                == c,
        forall|c: u8| !is_code_word(c) ==> #[trigger] nibble_of(c) is None,
{
    assert(code_words().len() == 16);
    assert forall|n: u8| n < 16 implies #[trigger] nibble_of(code_of(n)) == Some(n) by {
        assert(code_words()[n as int] == code_of(n));
    }
    assert forall|c: u8| #[trigger] nibble_of(c) is Some implies nibble_of(c)->0 < 16 && code_of(
        nibble_of(c)->0,
    ) == c by {}
    assert forall|c: u8| !is_code_word(c) implies #[trigger] nibble_of(c) is None by {
        if nibble_of(c) is Some {
            assert(code_of(nibble_of(c)->0) == c);
        }
    }
}

} // verus!
