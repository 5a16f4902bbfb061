//! Bit-level facts about machine integers that the wire format relies on.
use vstd::prelude::*;
use crate::coordinates::bit32;

verus! {

/// Bit `i` (counted from the least significant bit) of the byte `b`.
pub open spec fn bit8(b: u8, i: int) -> bool {
    (b >> (i as u8)) & 1u8 == 1u8
}

pub proof fn lemma_or_bit(x: u32, y: u32, p: u32)
    requires
        p < 32,
    ensures
        ((x | y) >> p) & 1u32 == 1u32 <==> ((x >> p) & 1u32 == 1u32 || (y >> p) & 1u32 == 1u32),
{
    assert(((x | y) >> p) & 1u32 == 1u32 <==> ((x >> p) & 1u32 == 1u32 || (y >> p) & 1u32 == 1u32))
        by (bit_vector)
        requires
            p < 32,
    ;
}

pub proof fn lemma_shl_bit(x: u32, s: u32, p: u32)
    requires
        s < 32,
        p < 32,
    ensures
        ((x << s) >> p) & 1u32 == 1u32 <==> (p >= s && (x >> ((p - s) as u32)) & 1u32 == 1u32),
{
    assert(((x << s) >> p) & 1u32 == 1u32 <==> (p >= s && (x >> ((p - s) as u32)) & 1u32 == 1u32))
        by (bit_vector)
        requires
            s < 32,
            p < 32,
    ;
}

/// A byte widened to `u32` and shifted left by `s` holds the byte's bit `p - s` at position `p`.
pub proof fn lemma_shl_byte_bit(b: u8, s: u32, p: u32)
    requires
        s < 32,
        p < 32,
    ensures
        (((b as u32) << s) >> p) & 1u32 == 1u32 <==> (p >= s && p - s < 8 && (b >> ((p - s) as u8))
            & 1u8 == 1u8),
{
    let w = b as u32;
    assert(w < 256);
    if p >= s && p - s < 8 {
        let d = (p - s) as u32;
        let du = d as u8;
        assert(((w << s) >> p) & 1u32 == (w >> d) & 1u32) by (bit_vector)
            requires
                s < 32,
                p < 32,
                p >= s,
                d == p - s,
        ;
        assert(((w >> d) & 1u32 == 1u32) <==> ((b >> du) & 1u8 == 1u8)) by (bit_vector)
            requires
                w == b as u32,
                d < 8,
                du == d as u8,
        ;
    } else {
        assert(((w << s) >> p) & 1u32 != 1u32) by (bit_vector)
            requires
                s < 32,
                p < 32,
                w < 256,
                !(p >= s && p - s < 8),
        ;
    }
}

/// The top byte of a word: bit `7 - k` of `(w & 0xFF00_0000) >> 24` is bit `31 - k` of `w`.
pub proof fn lemma_top_byte_bit(w: u32, k: u32)
    requires
        k < 8,
    ensures
        (((((w & 0xFF00_0000u32) >> 24u32) as u8) >> ((7 - k) as u8)) & 1u8 == 1u8) <==> ((w >> ((31
            - k) as u32)) & 1u32 == 1u32),
{
    let t = (w & 0xFF00_0000u32) >> 24u32;
    let tb = t as u8;
    let i = (7 - k) as u32;
    let iu = i as u8;
    assert(t < 256) by (bit_vector)
        requires
            t == (w & 0xFF00_0000u32) >> 24u32,
    ;
    assert(((tb >> iu) & 1u8 == 1u8) <==> ((t >> i) & 1u32 == 1u32)) by (bit_vector)
        requires
            t < 256,
            tb == t as u8,
            i < 8,
            iu == i as u8,
    ;
    assert(((t >> i) & 1u32 == 1u32) <==> ((w >> ((31 - k) as u32)) & 1u32 == 1u32)) by (bit_vector)
        requires
            t == (w & 0xFF00_0000u32) >> 24u32,
            i == 7 - k,
            k < 8,
    ;
}

/// Two words that agree on every bit are equal.
pub proof fn lemma_bits_ext(a: u32, b: u32)
    requires
        forall|p: int| 0 <= p < 32 ==> #[trigger] bit32(a, p) == bit32(b, p),
    ensures
        a == b,
{
    assert(bit32(a, 0) == bit32(b, 0));
    assert(bit32(a, 1) == bit32(b, 1));
    assert(bit32(a, 2) == bit32(b, 2));
    assert(bit32(a, 3) == bit32(b, 3));
    assert(bit32(a, 4) == bit32(b, 4));
    assert(bit32(a, 5) == bit32(b, 5));
    assert(bit32(a, 6) == bit32(b, 6));
    assert(bit32(a, 7) == bit32(b, 7));
    assert(bit32(a, 8) == bit32(b, 8));
    assert(bit32(a, 9) == bit32(b, 9));
    assert(bit32(a, 10) == bit32(b, 10));
    assert(bit32(a, 11) == bit32(b, 11));
    assert(bit32(a, 12) == bit32(b, 12));
    assert(bit32(a, 13) == bit32(b, 13));
    assert(bit32(a, 14) == bit32(b, 14));
    assert(bit32(a, 15) == bit32(b, 15));
    assert(bit32(a, 16) == bit32(b, 16));
    assert(bit32(a, 17) == bit32(b, 17));
    assert(bit32(a, 18) == bit32(b, 18));
    assert(bit32(a, 19) == bit32(b, 19));
    assert(bit32(a, 20) == bit32(b, 20));
    assert(bit32(a, 21) == bit32(b, 21));
    assert(bit32(a, 22) == bit32(b, 22));
    assert(bit32(a, 23) == bit32(b, 23));
    assert(bit32(a, 24) == bit32(b, 24));
    assert(bit32(a, 25) == bit32(b, 25));
    assert(bit32(a, 26) == bit32(b, 26));
    assert(bit32(a, 27) == bit32(b, 27));
    assert(bit32(a, 28) == bit32(b, 28));
    assert(bit32(a, 29) == bit32(b, 29));
    assert(bit32(a, 30) == bit32(b, 30));
    assert(bit32(a, 31) == bit32(b, 31));
    assert(a == b) by (bit_vector)
        requires
            bit32(a, 0) == bit32(b, 0),
            bit32(a, 1) == bit32(b, 1),
            bit32(a, 2) == bit32(b, 2),
            bit32(a, 3) == bit32(b, 3),
            bit32(a, 4) == bit32(b, 4),
            bit32(a, 5) == bit32(b, 5),
            bit32(a, 6) == bit32(b, 6),
            bit32(a, 7) == bit32(b, 7),
            bit32(a, 8) == bit32(b, 8),
            bit32(a, 9) == bit32(b, 9),
            bit32(a, 10) == bit32(b, 10),
            bit32(a, 11) == bit32(b, 11),
            bit32(a, 12) == bit32(b, 12),
            bit32(a, 13) == bit32(b, 13),
            bit32(a, 14) == bit32(b, 14),
            bit32(a, 15) == bit32(b, 15),
            bit32(a, 16) == bit32(b, 16),
            bit32(a, 17) == bit32(b, 17),
            bit32(a, 18) == bit32(b, 18),
            bit32(a, 19) == bit32(b, 19),
            bit32(a, 20) == bit32(b, 20),
            bit32(a, 21) == bit32(b, 21),
            bit32(a, 22) == bit32(b, 22),
            bit32(a, 23) == bit32(b, 23),
            bit32(a, 24) == bit32(b, 24),
            bit32(a, 25) == bit32(b, 25),
            bit32(a, 26) == bit32(b, 26),
            bit32(a, 27) == bit32(b, 27),
            bit32(a, 28) == bit32(b, 28),
            bit32(a, 29) == bit32(b, 29),
            bit32(a, 30) == bit32(b, 30),
            bit32(a, 31) == bit32(b, 31),
    ;
}

} // verus!
