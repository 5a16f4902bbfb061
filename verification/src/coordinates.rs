//! Packing of an `(x, y)` cell position into a single `u32` coordinate, and the
//! sizes that the wire format derives from the image size.
use vstd::prelude::*;

verus! {

/// Bit `i` (counted from the least significant bit) of `v`.
pub open spec fn bit32(v: u32, i: int) -> bool {
    (v >> (i as u32)) & 1u32 == 1u32
}

/// `2^b`.
pub open spec fn two_to(b: nat) -> nat
    decreases b,
{
    if b == 0 {
        1
    } else {
        2 * two_to((b - 1) as nat)
    }
}

/// The number of bits that the numbers `0..=v` need: none for 0, else one more than
/// `v / 2` needs.
pub open spec fn bits_for(v: nat) -> nat
    decreases v,
{
    if v == 0 {
        0
    } else {
        1 + bits_for(v / 2)
    }
}

/// The bits that each of `x` and `y` takes in the combined coordinate of a square image of
/// side `image_size`: enough for every position `0..image_size`.
pub open spec fn coord_bits(image_size: u32) -> nat {
    if image_size <= 1 {
        0
    } else {
        bits_for((image_size - 1) as nat)
    }
}

/// Length in bits of a combined `xy` coordinate for a square image of side `image_size`:
/// `x` above `y`, each in `coord_bits(image_size)` bits.
pub open spec fn coordinate_length(image_size: u32) -> nat {
    2 * coord_bits(image_size)
}

/// The number of bits that the wire format reserves for one coordinate in a decoding
/// step: the smallest multiple of 8 that is at least `coordinate_length`, and at least 8.
pub open spec fn limit_of(coordinate_length: u32) -> usize {
    if coordinate_length > 24 {
        32
    } else if coordinate_length > 16 {
        24
    } else if coordinate_length > 8 {
        16
    } else {
        8
    }
}

/// `2^b` is `1 << b` for the bit positions of a `u32`.
pub proof fn lemma_two_to_shl(b: u32)
    requires
        b < 32,
    ensures
        two_to(b as nat) == (1u32 << b) as nat,
    decreases b,
{
    if b > 0 {
        lemma_two_to_shl((b - 1) as u32);
        let c = (b - 1) as u32;
        assert((1u32 << b) as nat == 2 * ((1u32 << c) as nat)) by (bit_vector)
            requires
                0 < b < 32,
                c == b - 1,
        ;
    } else {
        assert(1u32 << 0u32 == 1u32) by (bit_vector);
    }
}

/// Every number up to `v` fits in `bits_for(v)` bits.
pub proof fn lemma_bits_for_fits(v: nat)
    ensures
        v < two_to(bits_for(v)),
    decreases v,
{
    if v > 0 {
        lemma_bits_for_fits(v / 2);
    }
}

/// A number below `2^k` needs at most `k` bits.
pub proof fn lemma_bits_for_bound(v: nat, k: nat)
    requires
        v < two_to(k),
    ensures
        bits_for(v) <= k,
    decreases k,
{
    if v > 0 {
        assert(k > 0);
        lemma_bits_for_bound(v / 2, (k - 1) as nat);
    }
}

/// `2^b - 1` needs exactly `b` bits.
pub proof fn lemma_bits_for_all_ones(b: nat)
    ensures
        bits_for((two_to(b) - 1) as nat) == b,
    decreases b,
{
    if b > 0 {
        lemma_bits_for_all_ones((b - 1) as nat);
        lemma_two_to_pos((b - 1) as nat);
        assert(((two_to(b) - 1) as nat) / 2 == (two_to((b - 1) as nat) - 1) as nat);
    }
}

pub proof fn lemma_two_to_pos(b: nat)
    ensures
        two_to(b) >= 1,
    decreases b,
{
    if b > 0 {
        lemma_two_to_pos((b - 1) as nat);
    }
}

/// A square image of side at most `2^16` takes at most 16 bits per axis, and every
/// position of it fits in them.
pub proof fn lemma_coord_bits_bound(n: u32)
    requires
        n <= 0x10000,
    ensures
        coord_bits(n) <= 16,
        coordinate_length(n) <= 32,
        n <= two_to(coord_bits(n)),
{
    assert(two_to(16) == 0x10000) by {
        reveal_with_fuel(two_to, 17);
    }
    if n > 1 {
        lemma_bits_for_bound((n - 1) as nat, 16);
        lemma_bits_for_fits((n - 1) as nat);
    }
}

/// A side of `2^b` takes `b` bits per axis.
pub proof fn lemma_coord_bits_pow2(b: u32)
    requires
        b < 32,
    ensures
        coord_bits(1u32 << b) == b,
{
    lemma_two_to_shl(b);
    lemma_two_to_pos(b as nat);
    if b > 0 {
        assert(two_to(b as nat) >= 2) by {
            lemma_two_to_pos((b - 1) as nat);
        }
        lemma_bits_for_all_ones(b as nat);
    } else {
        assert(two_to(0) == 1);
    }
}

/// The bits per axis of a combined coordinate for a side of `image_size`.
pub fn coord_bits_of(image_size: u32) -> (r: u32)
    requires
        image_size <= 0x10000,
    ensures
        r == coord_bits(image_size),
        r <= 16,
{
    proof {
        lemma_coord_bits_bound(image_size);
    }
    if image_size <= 1 {
        return 0;
    }
    let mut v: u32 = image_size - 1;
    let mut bits: u32 = 0;
    while v > 0
        invariant
            image_size > 1,
            bits + bits_for(v as nat) == coord_bits(image_size),
            coord_bits(image_size) <= 16,
        decreases v,
    {
        v = v / 2;
        bits = bits + 1;
    }
    bits
}

/// The shared computation behind `Coordinates::calc_coord_len_and_offset`.
pub fn coord_len_and_offset(image_size: u32) -> (r: (u32, u32))
    requires
        image_size <= 0x10000,
    ensures
        r.0 == coordinate_length(image_size),
        r.1 == 32 - coordinate_length(image_size),
        r.0 <= 32,
        image_size <= two_to((r.0 / 2) as nat),
{
    proof {
        lemma_coord_bits_bound(image_size);
    }
    let coordinate_length = coord_bits_of(image_size) * 2;
    let offset = 32 - coordinate_length;
    (coordinate_length, offset)
}

/// The shared computation behind `Coordinates::generate_mask`.
pub fn mask_of(coordinate_length: u32) -> (r: u32)
    requires
        coordinate_length <= 32,
    ensures
        coordinate_length == 0 ==> r == 0,
        coordinate_length > 0 ==> r == 0xFFFF_FFFFu32 << ((32 - coordinate_length) as u32),
        forall|p: int| 0 <= p < 32 ==> (#[trigger] bit32(r, p) <==> p >= 32 - coordinate_length),
{
    if coordinate_length == 0 {
        assert forall|p: int| 0 <= p < 32 implies !#[trigger] bit32(0u32, p) by {
            let pu = p as u32;
            assert((0u32 >> pu) & 1u32 != 1u32) by (bit_vector);
        }
        return 0;
    }
    let mask = !0u32;
    assert(mask == 0xFFFF_FFFFu32) by (bit_vector)
        requires
            mask == !0u32,
    ;
    let s: u32 = 32 - coordinate_length;
    let r = mask << s;
    assert forall|p: int| 0 <= p < 32 implies (#[trigger] bit32(r, p) <==> p >= 32 - coordinate_length) by {
        let pu = p as u32;
        assert(((r >> pu) & 1u32 == 1u32) <==> pu >= s) by (bit_vector)
            requires
                r == 0xFFFF_FFFFu32 << s,
                s < 32,
                pu < 32,
        ;
    }
    r
}

/// The shared computation behind `Coordinates::limit`.
pub fn limit_for(coordinate_length: u32) -> (r: usize)
    ensures
        r == limit_of(coordinate_length),
{
    if coordinate_length > 24 {
        32
    } else if coordinate_length > 16 {
        24
    } else if coordinate_length > 8 {
        16
    } else {
        8
    }
}

/// How an image size translates into the sizes of the packed coordinates.
pub trait Coordinates {
    /// returns `(coordinate_length, offset)`
    ///
    /// `coordinate_length` is the length of the combined `xy` coordinate.
    /// - For 16x16 this will be 8 bits.
    /// - For 64x64 this will be 12 bits.
    /// - For 512x512 this will be 18 bits.
    ///
    /// `offset` is the remaining number of bits in the `u32` type that are unused by the coordinate
    /// - For 16x16 this will be 24 bits.
    /// - For 64x64 this will be 20 bits.
    /// - For 512x512 this will be 14 bits.
    ///
    /// Each of `x` and `y` takes half of `coordinate_length`, enough for every position of
    /// the image: the side is at most `2^(coordinate_length / 2)`. A side above `2^16` has
    /// no combined coordinate in 32 bits.
    fn calc_coord_len_and_offset(image_size: u32) -> (r: (u32, u32))
        requires
            image_size <= 0x10000,
        ensures
            r.0 == coordinate_length(image_size),
            r.1 == 32 - coordinate_length(image_size),
            r.0 <= 32,
            image_size <= two_to((r.0 / 2) as nat),
    ;

    /// generates mask of left aligned 1's where there are `coordinate_length` number of 1's
    fn generate_mask(coordinate_length: u32) -> (r: u32)
        requires
            coordinate_length <= 32,
        ensures
            coordinate_length == 0 ==> r == 0,
            coordinate_length > 0 ==> r == 0xFFFF_FFFFu32 << ((32 - coordinate_length) as u32),
            forall|p: int|
                0 <= p < 32 ==> (#[trigger] bit32(r, p) <==> p >= 32 - coordinate_length),
    ;

    /// returns the limit the decoder should wait for the bit count to reach before continuing to next chunk
    fn limit(coordinate_length: u32) -> (r: usize)
        ensures
            r == limit_of(coordinate_length),
    ;
}

} // verus!
