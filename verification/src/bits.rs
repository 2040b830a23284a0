//! Bytes seen as eight bits, and bytes combined by exclusive or.

use vstd::prelude::*;

verus! {

/// Whether bit `t` of `x` is set; bit 0 is the least significant.
pub open spec fn bit_of(x: u8, t: u8) -> bool {
    (x >> t) & 1 == 1
}

/// The byte made of the eight given bits, least significant first.
pub open spec fn byte_of(
    b0: bool,
    b1: bool,
    b2: bool,
    b3: bool,
    b4: bool,
    b5: bool,
    b6: bool,
    b7: bool,
) -> u8 {
    (if b0 { 1u8 } else { 0u8 }) | (if b1 { 2u8 } else { 0u8 }) | (if b2 { 4u8 } else { 0u8 }) | (if b3 {
        8u8
    } else {
        0u8
    }) | (if b4 { 16u8 } else { 0u8 }) | (if b5 { 32u8 } else { 0u8 }) | (if b6 { 64u8 } else { 0u8 })
        | (if b7 { 128u8 } else { 0u8 })
}

/// Each bit of `byte_of` is the bit it was given.
pub proof fn lemma_byte_of_bits(
    b0: bool,
    b1: bool,
    b2: bool,
    b3: bool,
    b4: bool,
    b5: bool,
    b6: bool,
    b7: bool,
)
    ensures
        bit_of(byte_of(b0, b1, b2, b3, b4, b5, b6, b7), 0) == b0,
        bit_of(byte_of(b0, b1, b2, b3, b4, b5, b6, b7), 1) == b1,
        bit_of(byte_of(b0, b1, b2, b3, b4, b5, b6, b7), 2) == b2,
        bit_of(byte_of(b0, b1, b2, b3, b4, b5, b6, b7), 3) == b3,
        bit_of(byte_of(b0, b1, b2, b3, b4, b5, b6, b7), 4) == b4,
        bit_of(byte_of(b0, b1, b2, b3, b4, b5, b6, b7), 5) == b5,
        bit_of(byte_of(b0, b1, b2, b3, b4, b5, b6, b7), 6) == b6,
        bit_of(byte_of(b0, b1, b2, b3, b4, b5, b6, b7), 7) == b7,
{
    let a0 = if b0 { 1u8 } else { 0u8 };
    let a1 = if b1 { 2u8 } else { 0u8 };
    let a2 = if b2 { 4u8 } else { 0u8 };
    let a3 = if b3 { 8u8 } else { 0u8 };
    let a4 = if b4 { 16u8 } else { 0u8 };
    let a5 = if b5 { 32u8 } else { 0u8 };
    let a6 = if b6 { 64u8 } else { 0u8 };
    let a7 = if b7 { 128u8 } else { 0u8 };
    let v = a0 | a1 | a2 | a3 | a4 | a5 | a6 | a7;
    assert(((v >> 0u8) & 1 == 1) == (a0 == 1) && ((v >> 1u8) & 1 == 1) == (a1 == 2) && ((v >> 2u8) & 1
        == 1) == (a2 == 4) && ((v >> 3u8) & 1 == 1) == (a3 == 8) && ((v >> 4u8) & 1 == 1) == (a4 == 16)
        && ((v >> 5u8) & 1 == 1) == (a5 == 32) && ((v >> 6u8) & 1 == 1) == (a6 == 64) && ((v >> 7u8) & 1
        == 1) == (a7 == 128)) by (bit_vector)
        requires
            v == a0 | a1 | a2 | a3 | a4 | a5 | a6 | a7,
            a0 == 0 || a0 == 1,
            a1 == 0 || a1 == 2,
            a2 == 0 || a2 == 4,
            a3 == 0 || a3 == 8,
            a4 == 0 || a4 == 16,
            a5 == 0 || a5 == 32,
            a6 == 0 || a6 == 64,
            a7 == 0 || a7 == 128,
    ;
}

/// Two bytes with the same eight bits are the same byte.
pub proof fn lemma_bits_determine_byte(x: u8, y: u8)
    requires
        forall|t: u8| t < 8 ==> bit_of(x, t) == bit_of(y, t),
    ensures
        x == y,
{
    assert(bit_of(x, 0) == bit_of(y, 0));
    assert(bit_of(x, 1) == bit_of(y, 1));
    assert(bit_of(x, 2) == bit_of(y, 2));
    assert(bit_of(x, 3) == bit_of(y, 3));
    assert(bit_of(x, 4) == bit_of(y, 4));
    assert(bit_of(x, 5) == bit_of(y, 5));
    assert(bit_of(x, 6) == bit_of(y, 6));
    assert(bit_of(x, 7) == bit_of(y, 7));
    assert(x == y) by (bit_vector)
        requires
            ((x >> 0u8) & 1 == 1) == ((y >> 0u8) & 1 == 1),
            ((x >> 1u8) & 1 == 1) == ((y >> 1u8) & 1 == 1),
            ((x >> 2u8) & 1 == 1) == ((y >> 2u8) & 1 == 1),
            ((x >> 3u8) & 1 == 1) == ((y >> 3u8) & 1 == 1),
            ((x >> 4u8) & 1 == 1) == ((y >> 4u8) & 1 == 1),
            ((x >> 5u8) & 1 == 1) == ((y >> 5u8) & 1 == 1),
            ((x >> 6u8) & 1 == 1) == ((y >> 6u8) & 1 == 1),
            ((x >> 7u8) & 1 == 1) == ((y >> 7u8) & 1 == 1),
    ;
}

/// Setting bit `t` of a mask changes that bit and no other.
pub proof fn lemma_set_bit(m: u8, t: u8, s: u8)
    requires
        t < 8,
        s < 8,
    ensures
        bit_of(m | (1u8 << t), s) == (bit_of(m, s) || s == t),
{
    assert((((m | (1u8 << t)) >> s) & 1 == 1) == (((m >> s) & 1 == 1) || s == t)) by (bit_vector)
        requires
            t < 8,
            s < 8,
    ;
}

/// Testing a byte against the mask of bit `t` reads that bit.
pub proof fn lemma_test_bit(x: u8, t: u8)
    requires
        t < 8,
    ensures
        (x & (1u8 << t) != 0) == bit_of(x, t),
{
    assert((x & (1u8 << t) != 0) == ((x >> t) & 1 == 1)) by (bit_vector)
        requires
            t < 8,
    ;
}

/// A bit of `set | (own & keep)` is set where `set` has it, or where `own`
/// has it and `keep` lets it through.
pub proof fn lemma_merge_bit(set: u8, keep: u8, own: u8, s: u8)
    requires
        s < 8,
    ensures
        bit_of(set | (own & keep), s) == (bit_of(set, s) || (bit_of(own, s) && bit_of(keep, s))),
{
    assert((((set | (own & keep)) >> s) & 1 == 1) == (((set >> s) & 1 == 1) || (((own >> s) & 1 == 1)
        && ((keep >> s) & 1 == 1)))) by (bit_vector)
        requires
            s < 8,
    ;
}

/// No bit of the zero byte is set.
pub proof fn lemma_zero_bits(s: u8)
    requires
        s < 8,
    ensures
        !bit_of(0u8, s),
{
    assert(!((0u8 >> s) & 1 == 1)) by (bit_vector)
        requires
            s < 8,
    ;
}

/// Exclusive or with the same byte twice gives the first byte back.
pub proof fn lemma_xor_twice(x: u8, k: u8)
    ensures
        (x ^ k) ^ k == x,
{
    assert((x ^ k) ^ k == x) by (bit_vector);
}

} // verus!
