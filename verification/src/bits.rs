//! Bit-level facts about bytes and words, stated once in arithmetic terms.
use vstd::prelude::*;

verus! {

/// A byte's nibbles, taken with shifts and masks, are its quotient and
/// remainder by 16.
pub proof fn lemma_byte_nibbles(b: u8)
    ensures
        (b >> 4) & 0x0F == b / 16,
        b >> 4 == b / 16,
        b & 0x0F == b % 16,
        b & 0x0F <= 0x0F,
        b & 0xF0 == (b / 16) * 16,
{
    assert((b >> 4) & 0x0F == b / 16 && b >> 4 == b / 16 && b & 0x0F == b % 16 && b & 0x0F <= 0x0F && b
        & 0xF0 == (b / 16) * 16) by (bit_vector);
}

/// A word's low and high bytes, taken with masks and shifts, are its
/// remainder and quotient by 256.
pub proof fn lemma_word_bytes(w: u16)
    ensures
        (w & 0xFF) as u8 == (w % 256) as u8,
        (w >> 8) as u8 == (w / 256) as u8,
{
    assert((w & 0xFF) as u8 == (w % 256) as u8 && (w >> 8) as u8 == (w / 256) as u8) by (bit_vector);
}

/// Two nibbles joined with a shift and an or make `hi * 16 + lo`.
pub proof fn lemma_join_nibbles(hi: u8, lo: u8)
    requires
        hi < 16,
        lo < 16,
    ensures
        (hi << 4u8) | lo == hi * 16 + lo,
{
    assert(hi < 16 && lo < 16 ==> (hi << 4u8) | lo == hi * 16 + lo) by (bit_vector);
}

} // verus!
