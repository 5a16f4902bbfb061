//! The payload of a message: the alive cells' coordinates, packed bit by bit.
//!
//! The encoder writes each coordinate as `coordinate_length` bits, most significant bit
//! first, through a 32-bit buffer; the decoder reads them back through a 32-bit buffer,
//! taking one coordinate whenever the buffer holds `limit - 7` unread bits or more.
use vstd::prelude::*;
use indexmap::IndexSet;
use std::hash::RandomState;
use crate::bits::{
    bit8, lemma_bits_ext, lemma_or_bit, lemma_shl_bit, lemma_shl_byte_bit, lemma_top_byte_bit,
};
use crate::coordinates::{bit32, limit_of, Coordinates};
use crate::index_set::{insert_all, insert_item, set_insert, set_items, set_to_vec};
use crate::packet::Packet;

verus! {

/// Bit `q` of the byte stream `data`, counting from the most significant bit of `data[0]`.
pub open spec fn data_bit(data: Seq<u8>, q: int) -> bool {
    0 <= q < 8 * data.len() && bit8(data[q / 8], 7 - q % 8)
}

/// The number of bytes that the encoder has emitted once `n` bits of coordinates are in:
/// the fewest whole bytes that leave room in its 32-bit buffer for one more coordinate.
pub open spec fn flushed_before(n: int, cl: int) -> int {
    if n + cl <= 32 {
        0
    } else {
        (n + cl - 25) / 8
    }
}

/// Bit `q` of the coordinate stream that the encoder writes for `cells`.
///
/// Cell `i` starts at bit `n = i * cl` and covers bits `n .. n + cl`, most significant
/// bit first. Bits that have already left the buffer (below `8 * flushed_before(n, cl)`)
/// are not written again, and the higher bits of a cell wider than `cl` bits are ORed
/// into the bits before it that are still in the buffer.
pub open spec fn stream_bit(cells: Seq<u32>, cl: int, q: int) -> bool
    decreases cells.len(),
{
    if cells.len() == 0 {
        false
    } else {
        let n = (cells.len() - 1) * cl;
        stream_bit(cells.drop_last(), cl, q) || (8 * flushed_before(n, cl) <= q < n + cl && bit32(
            cells.last(),
            n + cl - 1 - q,
        ))
    }
}

/// `out` is what the encoder emits for `cells`: the coordinate stream cut after its last
/// non-zero byte, but never before the bytes that left the buffer while cells went in.
pub open spec fn is_payload_encoding(cells: Seq<u32>, cl: int, out: Seq<u8>) -> bool {
    let n = cells.len() * cl;
    &&& flushed_before(n, cl) <= out.len()
    &&& forall|q: int|
        0 <= q < 8 * out.len() ==> #[trigger] data_bit(out, q) == stream_bit(cells, cl, q)
    &&& forall|q: int| 8 * out.len() <= q ==> !#[trigger] stream_bit(cells, cl, q)
    &&& out.len() > flushed_before(n, cl) ==> out.last() != 0
}

/// The encoder never emits more than the stream's bytes.
pub proof fn lemma_encoding_length(cells: Seq<u32>, cl: int, out: Seq<u8>)
    requires
        1 <= cl <= 32,
        is_payload_encoding(cells, cl, out),
    ensures
        8 * out.len() <= cells.len() * cl + 7,
{
    let len = out.len() as int;
    if len > flushed_before(cells.len() * cl, cl) {
        lemma_nonzero_byte_bit(out.last());
        let k = choose|k: int| 0 <= k < 8 && #[trigger] bit8(out.last(), k);
        let q = 8 * (len - 1) + 7 - k;
        assert(q / 8 == len - 1);
        assert(q % 8 == 7 - k);
        assert(data_bit(out, q));
        lemma_stream_bit_range(cells, cl, q);
    }
}

pub proof fn lemma_stream_bit_range(cells: Seq<u32>, cl: int, q: int)
    requires
        cl >= 0,
        stream_bit(cells, cl, q),
    ensures
        0 <= q < cells.len() * cl,
    decreases cells.len(),
{
    let n = (cells.len() - 1) * cl;
    assert(n + cl == cells.len() * cl) by (nonlinear_arith)
        requires
            n == (cells.len() - 1) * cl,
    ;
    if stream_bit(cells.drop_last(), cl, q) {
        lemma_stream_bit_range(cells.drop_last(), cl, q);
    }
}

pub proof fn lemma_stream_bit_push(cells: Seq<u32>, c: u32, cl: int, q: int)
    ensures
        stream_bit(cells.push(c), cl, q) == (stream_bit(cells, cl, q) || (8 * flushed_before(
            cells.len() * cl,
            cl,
        ) <= q < cells.len() * cl + cl && bit32(c, cells.len() * cl + cl - 1 - q))),
{
    assert(cells.push(c).drop_last() =~= cells);
}

proof fn lemma_zero_bit(p: u32)
    ensures
        (0u32 >> p) & 1u32 != 1u32,
{
    assert((0u32 >> p) & 1u32 != 1u32) by (bit_vector);
}

proof fn lemma_drain_nonzero(w: u32)
    requires
        w != 0,
        (((w & 0xFF00_0000u32) >> 24u32) as u8) == 0,
    ensures
        w << 8u32 != 0,
{
    assert(w << 8u32 != 0) by (bit_vector)
        requires
            w != 0,
            (((w & 0xFF00_0000u32) >> 24u32) as u8) == 0,
    ;
}


/// The number of coordinates that the decoder takes out of `len` bytes: one for every
/// `t >= 0` with `t * cl + limit - 7 <= 8 * len`.
pub open spec fn decode_count(len: int, cl: int) -> int {
    let x = 8 * len - limit_of(cl as u32) + 7;
    if x < 0 {
        0
    } else {
        x / cl + 1
    }
}

/// How many bits of the stream the decoder has read when it takes coordinate `t`.
pub open spec fn loaded_bits(t: int, cl: int) -> int {
    8 * ((t * cl + limit_of(cl as u32)) / 8)
}

/// Bit `k` (most significant first) of the `t`-th decoded coordinate: stream bit
/// `t * cl + k` when the decoder has read it by then, else 0.
pub open spec fn chunk_bit(data: Seq<u8>, cl: int, t: int, k: int) -> bool {
    t * cl + k < loaded_bits(t, cl) && data_bit(data, t * cl + k)
}

/// The number whose `n` low bits are `f(0), ..., f(n - 1)`, most significant first.
pub open spec fn bits_value(f: spec_fn(int) -> bool, n: nat) -> u32
    decreases n,
{
    if n == 0 {
        0
    } else {
        (bits_value(f, (n - 1) as nat) << 1u32) | (if f(n - 1) {
            1u32
        } else {
            0u32
        })
    }
}

/// The `t`-th coordinate that the decoder takes out of `data`.
pub open spec fn decoded_value(data: Seq<u8>, cl: int, t: int) -> u32 {
    bits_value(|k: int| chunk_bit(data, cl, t, k), cl as nat)
}

/// The coordinates that the decoder takes out of `data`, in order.
pub open spec fn decoded_values(data: Seq<u8>, cl: int) -> Seq<u32> {
    Seq::new(decode_count(data.len() as int, cl) as nat, |t: int| decoded_value(data, cl, t))
}

proof fn lemma_shl1_or_bit(x: u32, b: u32, p: u32)
    requires
        b <= 1,
        p < 32,
    ensures
        (((x << 1u32) | b) >> p) & 1u32 == 1u32 <==> (if p == 0 {
            b == 1
        } else {
            (x >> ((p - 1) as u32)) & 1u32 == 1u32
        }),
{
    assert((((x << 1u32) | b) >> p) & 1u32 == 1u32 <==> (if p == 0 {
        b == 1
    } else {
        (x >> ((p - 1) as u32)) & 1u32 == 1u32
    })) by (bit_vector)
        requires
            b <= 1,
            p < 32,
    ;
}

pub proof fn lemma_bits_value(f: spec_fn(int) -> bool, n: nat)
    requires
        n <= 32,
    ensures
        forall|p: int|
            0 <= p < 32 ==> #[trigger] bit32(bits_value(f, n), p) == (p < n && f(n - 1 - p)),
    decreases n,
{
    if n == 0 {
        assert forall|p: int| 0 <= p < 32 implies !#[trigger] bit32(bits_value(f, n), p) by {
            lemma_zero_bit(p as u32);
        }
    } else {
        lemma_bits_value(f, (n - 1) as nat);
        let x = bits_value(f, (n - 1) as nat);
        let b: u32 = if f(n - 1) {
            1
        } else {
            0
        };
        assert forall|p: int| 0 <= p < 32 implies #[trigger] bit32(bits_value(f, n), p) == (p < n
            && f(n - 1 - p)) by {
            lemma_shl1_or_bit(x, b, p as u32);
            if p > 0 {
                assert(bit32(x, p - 1) == (p - 1 < n - 1 && f(n - 1 - 1 - (p - 1))));
            }
        }
    }
}

proof fn lemma_extract_bit(w: u32, mask: u32, off: u32, p: u32)
    requires
        off < 32,
        mask == 0xFFFF_FFFFu32 << off,
        p < 32,
    ensures
        (((w & mask) >> off) >> p) & 1u32 == 1u32 <==> (p + off < 32 && (w >> ((p + off) as u32))
            & 1u32 == 1u32),
{
    assert((((w & mask) >> off) >> p) & 1u32 == 1u32 <==> (p + off < 32 && (w >> ((p + off) as u32))
        & 1u32 == 1u32)) by (bit_vector)
        requires
            off < 32,
            mask == 0xFFFF_FFFFu32 << off,
            p < 32,
    ;
}

proof fn lemma_decode_count(len: int, cl: int, t: int)
    requires
        cl >= 1,
        t >= 0,
        t * cl > 8 * len - limit_of(cl as u32) + 7,
        t == 0 || (t - 1) * cl <= 8 * len - limit_of(cl as u32) + 7,
    ensures
        t == decode_count(len, cl),
{
    let x = 8 * len - limit_of(cl as u32) + 7;
    if t > 0 {
        assert((t - 1) * cl >= 0) by (nonlinear_arith)
            requires
                t >= 1,
                cl >= 1,
        ;
        assert(t * cl == (t - 1) * cl + cl) by (nonlinear_arith);
        vstd::arithmetic::div_mod::lemma_fundamental_div_mod_converse_div(
            x,
            cl,
            t - 1,
            x - (t - 1) * cl,
        );
    }
}

pub proof fn lemma_insert_all_push(items: Seq<u32>, vs: Seq<u32>, v: u32)
    ensures
        insert_all(items, vs.push(v)) == insert_item(insert_all(items, vs), v),
{
    assert(vs.push(v).drop_last() =~= vs);
}

impl Packet {

    /// Unpacks the coordinates in `data` and inserts them into `cells`.
    pub(crate) fn decode_payload(
        &mut self,
        cells: &mut IndexSet<u32, RandomState>,
        data: &[u8],
        coordinate_length: u32,
        offset: u32,
    )
        requires
            1 <= coordinate_length <= 32,
            offset == 32 - coordinate_length,
        ensures
            set_items(*final(cells)) == insert_all(
                set_items(*old(cells)),
                decoded_values(data@, coordinate_length as int),
            ),
    {
        let mut buffer: u32 = 0;
        let mut bit_count: usize = 7;
        let mask: u32 = Packet::generate_mask(coordinate_length);
        let limit = Packet::limit(coordinate_length);
        let coordinate_length_usize: usize = coordinate_length as usize;
        let ghost cl = coordinate_length as int;
        let ghost lim = limit as int;
        let ghost mut t: int = 0;
        let ghost mut m: int = 0;
        let ghost old_items = set_items(*cells);
        let mut i: usize = 0;
        proof {
            assert forall|p: int| 0 <= p < 32 implies !#[trigger] bit32(buffer, p) by {
                lemma_zero_bit(p as u32);
            }
            assert(Seq::new(0, |u: int| decoded_value(data@, cl, u)) =~= Seq::<u32>::empty());
            lemma_decode_count(0, cl, 0);
        }
        while i < data.len()
            invariant
                i <= data.len(),
                cl == coordinate_length,
                1 <= cl <= 32,
                offset == 32 - cl,
                mask == 0xFFFF_FFFFu32 << (offset as u32),
                lim == limit,
                lim == limit_of(coordinate_length),
                coordinate_length_usize == cl,
                t >= 0,
                m == t * cl,
                bit_count == 8 * i - m + 7,
                bit_count < limit,
                t == decode_count(i as int, cl),
                set_items(*cells) == insert_all(
                    old_items,
                    Seq::new(t as nat, |u: int| decoded_value(data@, cl, u)),
                ),
                forall|p: int|
                    0 <= p < 32 ==> #[trigger] bit32(buffer, p) == (31 - p < 8 * i - m && data_bit(
                        data@,
                        m + 31 - p,
                    )),
            decreases data.len() - i,
        {
            let byte = data[i];
            let s: u32 = (31 - bit_count) as u32;
            let ghost old_buffer = buffer;
            buffer = buffer | ((byte as u32) << s);
            bit_count = bit_count + 8;
            proof {
                assert forall|p: int| 0 <= p < 32 implies #[trigger] bit32(buffer, p) == (31 - p < 8
                    * (i + 1) - m && data_bit(data@, m + 31 - p)) by {
                    lemma_or_bit(old_buffer, (byte as u32) << s, p as u32);
                    lemma_shl_byte_bit(byte, s, p as u32);
                    let q = m + 31 - p;
                    let j = 31 - p;
                    assert(s == 24 - 8 * i + m);
                    assert(bit32(old_buffer, p) == (j < 8 * i - m && data_bit(data@, q)));
                    if j < 8 * i - m {
                        assert(p - s >= 8);
                    } else if j < 8 * (i + 1) - m {
                        assert(q / 8 == i);
                        assert(q % 8 == q - 8 * i);
                        assert(p - s == 7 - q % 8);
                        assert(byte == data@[q / 8]);
                    } else {
                        assert(!(p >= s && p - s < 8));
                    }
                }
            }
            while bit_count >= limit
                invariant
                    i < data.len(),
                    cl == coordinate_length,
                    1 <= cl <= 32,
                    offset == 32 - cl,
                    mask == 0xFFFF_FFFFu32 << (offset as u32),
                    lim == limit,
                    lim == limit_of(coordinate_length),
                    coordinate_length_usize == cl,
                    t >= 0,
                    m == t * cl,
                    bit_count == 8 * (i + 1) - m + 7,
                    8 * i - m + 7 < lim,
                    t == 0 || m - cl <= 8 * (i + 1) - lim + 7,
                    set_items(*cells) == insert_all(
                        old_items,
                        Seq::new(t as nat, |u: int| decoded_value(data@, cl, u)),
                    ),
                    forall|p: int|
                        0 <= p < 32 ==> #[trigger] bit32(buffer, p) == (31 - p < 8 * (i + 1) - m
                            && data_bit(data@, m + 31 - p)),
                decreases bit_count,
            {
                let ghost old_buffer = buffer;
                let extracted_value = (buffer & mask) >> offset;
                proof {
                    let r = (i + 1) as int;
                    assert(m + lim >= 8 * r && m + lim <= 8 * r + 7);
                    assert((m + lim) / 8 == r);
                    assert(loaded_bits(t, cl) == 8 * r);
                    let f = |k: int| chunk_bit(data@, cl, t, k);
                    lemma_bits_value(f, cl as nat);
                    assert forall|p: int| 0 <= p < 32 implies #[trigger] bit32(extracted_value, p)
                        == bit32(decoded_value(data@, cl, t), p) by {
                        lemma_extract_bit(old_buffer, mask, offset, p as u32);
                        if p < cl {
                            assert(bit32(old_buffer, p + offset) == (31 - (p + offset) < 8 * r - m
                                && data_bit(data@, m + 31 - (p + offset))));
                        }
                    }
                    lemma_bits_ext(extracted_value, decoded_value(data@, cl, t));
                }
                set_insert(cells, extracted_value);
                // a 32-bit coordinate leaves nothing in the buffer
                buffer = if coordinate_length < 32 {
                    buffer << coordinate_length
                } else {
                    0
                };
                bit_count = bit_count - coordinate_length_usize;
                proof {
                    let vs = Seq::new(t as nat, |u: int| decoded_value(data@, cl, u));
                    let vs1 = Seq::new((t + 1) as nat, |u: int| decoded_value(data@, cl, u));
                    assert(vs1 =~= vs.push(extracted_value));
                    lemma_insert_all_push(old_items, vs, extracted_value);
                    assert forall|p: int| 0 <= p < 32 implies #[trigger] bit32(buffer, p) == (31 - p
                        < 8 * (i + 1) - (m + cl) && data_bit(data@, m + cl + 31 - p)) by {
                        if cl == 32 {
                            lemma_zero_bit(p as u32);
                        } else {
                            lemma_shl_bit(old_buffer, coordinate_length, p as u32);
                        }
                        if cl < 32 && p >= cl {
                            assert(bit32(old_buffer, p - cl) == (31 - (p - cl) < 8 * (i + 1) - m
                                && data_bit(data@, m + 31 - (p - cl))));
                        }
                    }
                    assert((t + 1) * cl == t * cl + cl) by (nonlinear_arith);
                    t = t + 1;
                    m = m + cl;
                }
            }
            proof {
                assert((t - 1) * cl == t * cl - cl) by (nonlinear_arith);
                lemma_decode_count((i + 1) as int, cl, t);
            }
            i = i + 1;
        }
    }
    /// Packs the coordinates of `cells`, in their order, into bytes.
    pub fn encode_payload_from_set(&self, cells: &IndexSet<u32, RandomState>, coordinate_length: usize) -> (data: Vec<u8>)
        requires
            1 <= coordinate_length <= 32,
        ensures
            is_payload_encoding(set_items(*cells), coordinate_length as int, data@),
    {
        let items = set_to_vec(cells);
        let ghost cl = coordinate_length as int;
        let mut buffer: u32 = 0;
        let mut bit_count: usize = coordinate_length - 1;
        let mask: u32 = 0xFF000000;
        let mut data: Vec<u8> = Vec::new();
        let ghost mut n: int = 0;
        let mut i: usize = 0;
        proof {
            assert forall|p: int| 0 <= p < 32 implies !#[trigger] bit32(buffer, p) by {
                lemma_zero_bit(p as u32);
            }
        }
        while i < items.len()
            invariant
                i <= items.len(),
                items@ == set_items(*cells),
                cl == coordinate_length,
                1 <= cl <= 32,
                mask == 0xFF00_0000u32,
                n == i * cl,
                data.len() == flushed_before(n, cl),
                bit_count == n - 8 * data.len() + cl - 1,
                n - 8 * data.len() + cl <= 32,
                forall|q: int|
                    0 <= q < 8 * data.len() ==> #[trigger] data_bit(data@, q) == stream_bit(
                        items@.take(i as int),
                        cl,
                        q,
                    ),
                forall|p: int|
                    0 <= p < 32 ==> #[trigger] bit32(buffer, p) == (31 - p < n - 8 * data.len()
                        && stream_bit(items@.take(i as int), cl, 8 * data.len() + 31 - p)),
            decreases items.len() - i,
        {
            let cell = items[i];
            let ghost prefix = items@.take(i as int);
            let ghost next = items@.take(i + 1);
            let ghost len0 = data.len() as int;
            let ghost used = n - 8 * len0;
            assert(next =~= prefix.push(cell));
            assert(prefix.len() * cl == n);
            let s: u32 = (31 - bit_count) as u32;
            let ghost old_buffer = buffer;
            buffer = buffer | (cell << s);
            proof {
                assert forall|p: int| 0 <= p < 32 implies #[trigger] bit32(buffer, p) == (31 - p
                    < used + cl && stream_bit(next, cl, 8 * len0 + 31 - p)) by {
                    let q = 8 * len0 + 31 - p;
                    lemma_or_bit(old_buffer, cell << s, p as u32);
                    lemma_shl_bit(cell, s, p as u32);
                    lemma_stream_bit_push(prefix, cell, cl, q);
                    if stream_bit(prefix, cl, q) {
                        lemma_stream_bit_range(prefix, cl, q);
                    }
                    assert(bit32(old_buffer, p) == (31 - p < used && stream_bit(prefix, cl, q)));
                }
                assert forall|q: int| 0 <= q < 8 * data.len() implies #[trigger] data_bit(data@, q)
                    == stream_bit(next, cl, q) by {
                    lemma_stream_bit_push(prefix, cell, cl, q);
                }
                assert((i + 1) * cl == i * cl + cl) by (nonlinear_arith);
                n = n + cl;
            }
            bit_count = bit_count + coordinate_length;
            while bit_count >= 32
                invariant
                    i < items.len(),
                    cl == coordinate_length,
                    1 <= cl <= 32,
                    mask == 0xFF00_0000u32,
                    n == (i + 1) * cl,
                    next == items@.take(i + 1),
                    data.len() <= flushed_before(n, cl),
                    bit_count == n - 8 * data.len() + cl - 1,
                    n - 8 * data.len() <= 32,
                    forall|q: int|
                        0 <= q < 8 * data.len() ==> #[trigger] data_bit(data@, q) == stream_bit(
                            next,
                            cl,
                            q,
                        ),
                    forall|p: int|
                        0 <= p < 32 ==> #[trigger] bit32(buffer, p) == (31 - p < n - 8 * data.len()
                            && stream_bit(next, cl, 8 * data.len() + 31 - p)),
                decreases bit_count,
            {
                let ghost len1 = data.len() as int;
                let ghost old_data = data@;
                let ghost old_buffer = buffer;
                let byte = buffer & mask;
                bit_count = bit_count - 8;
                buffer = buffer << 8u32;
                data.push((byte >> 24) as u8);
                proof {
                    assert(next.len() == i + 1);
                    assert(next.len() * cl == n);
                    assert forall|q: int| 0 <= q < 8 * data.len() implies #[trigger] data_bit(
                        data@,
                        q,
                    ) == stream_bit(next, cl, q) by {
                        if q < 8 * len1 {
                            assert(data@[q / 8] == old_data[q / 8]);
                            assert(data_bit(data@, q) == data_bit(old_data, q));
                        } else {
                            let k = q - 8 * len1;
                            assert(q / 8 == len1);
                            assert(q % 8 == k);
                            lemma_top_byte_bit(old_buffer, k as u32);
                            assert(bit32(old_buffer, 31 - k) == (k < n - 8 * len1 && stream_bit(
                                next,
                                cl,
                                q,
                            )));
                            if stream_bit(next, cl, q) {
                                lemma_stream_bit_range(next, cl, q);
                            }
                        }
                    }
                    assert forall|p: int| 0 <= p < 32 implies #[trigger] bit32(buffer, p) == (31
                        - p < n - 8 * data.len() && stream_bit(next, cl, 8 * data.len() + 31 - p))
                        by {
                        lemma_shl_bit(old_buffer, 8, p as u32);
                        if p >= 8 {
                            assert(bit32(old_buffer, p - 8) == (31 - (p - 8) < n - 8 * len1
                                && stream_bit(next, cl, 8 * len1 + 31 - (p - 8))));
                        }
                    }
                }
            }
            i = i + 1;
            assert(items@.take(i as int) == next);
        }
        assert(items@.take(i as int) =~= items@);
        let ghost k0 = data.len() as int;
        while buffer != 0
            invariant
                cl == coordinate_length,
                1 <= cl <= 32,
                n == items@.len() * cl,
                items@ == set_items(*cells),
                k0 == flushed_before(n, cl),
                data.len() >= k0,
                n - 8 * data.len() <= 32,
                forall|q: int|
                    0 <= q < 8 * data.len() ==> #[trigger] data_bit(data@, q) == stream_bit(
                        items@,
                        cl,
                        q,
                    ),
                forall|p: int|
                    0 <= p < 32 ==> #[trigger] bit32(buffer, p) == (31 - p < n - 8 * data.len()
                        && stream_bit(items@, cl, 8 * data.len() + 31 - p)),
                data.len() > k0 ==> (buffer != 0 || data@.last() != 0),
            decreases n - 8 * data.len() + 8,
        {
            let ghost len1 = data.len() as int;
            let ghost old_data = data@;
            let ghost old_buffer = buffer;
            proof {
                if n - 8 * len1 <= 0 {
                    assert forall|p: int| 0 <= p < 32 implies #[trigger] bit32(buffer, p) == bit32(
                        0u32,
                        p,
                    ) by {
                        lemma_zero_bit(p as u32);
                    }
                    lemma_bits_ext(buffer, 0u32);
                }
            }
            let byte = (buffer & 0xFF000000) >> 24;
            data.push(byte as u8);
            buffer = buffer << 8u32;
            proof {
                if byte as u8 == 0 {
                    lemma_drain_nonzero(old_buffer);
                }
                assert forall|q: int| 0 <= q < 8 * data.len() implies #[trigger] data_bit(data@, q)
                    == stream_bit(items@, cl, q) by {
                    if q < 8 * len1 {
                        assert(data@[q / 8] == old_data[q / 8]);
                        assert(data_bit(data@, q) == data_bit(old_data, q));
                    } else {
                        let k = q - 8 * len1;
                        assert(q / 8 == len1);
                        assert(q % 8 == k);
                        lemma_top_byte_bit(old_buffer, k as u32);
                        assert(bit32(old_buffer, 31 - k) == (k < n - 8 * len1 && stream_bit(
                            items@,
                            cl,
                            q,
                        )));
                        if stream_bit(items@, cl, q) {
                            lemma_stream_bit_range(items@, cl, q);
                        }
                    }
                }
                assert forall|p: int| 0 <= p < 32 implies #[trigger] bit32(buffer, p) == (31 - p
                    < n - 8 * data.len() && stream_bit(items@, cl, 8 * data.len() + 31 - p)) by {
                    lemma_shl_bit(old_buffer, 8, p as u32);
                    if p >= 8 {
                        assert(bit32(old_buffer, p - 8) == (31 - (p - 8) < n - 8 * len1
                            && stream_bit(items@, cl, 8 * len1 + 31 - (p - 8))));
                    }
                }
            }
        }
        proof {
            assert forall|q: int| 8 * data.len() <= q implies !#[trigger] stream_bit(items@, cl, q) by {
                if stream_bit(items@, cl, q) {
                    lemma_stream_bit_range(items@, cl, q);
                    let p = 31 - (q - 8 * data.len());
                    lemma_zero_bit(p as u32);
                    assert(bit32(buffer, p));
                }
            }
        }
        data
    }
}

} // verus!

verus! {

/// The coordinate lengths whose coordinates the decoder always reads whole: for these,
/// by the time it takes coordinate `t` it has read all of its bits, and the zero bits that
/// pad the last byte never add up to one more coordinate.
pub open spec fn roundtrip_length(cl: int) -> bool {
    cl == 8 || cl == 10 || cl == 12 || cl == 16 || cl == 18 || cl == 20 || cl == 24 || cl == 26
        || cl == 28
}

/// `c` has no set bit at or above bit `cl`.
pub open spec fn fits_in(c: u32, cl: int) -> bool {
    (c >> (cl as u32)) == 0
}

proof fn lemma_fits_bit(c: u32, cl: int, j: int)
    requires
        1 <= cl < 32,
        fits_in(c, cl),
        cl <= j < 32,
    ensures
        !bit32(c, j),
{
    let clu = cl as u32;
    let ju = j as u32;
    assert((c >> ju) & 1u32 != 1u32) by (bit_vector)
        requires
            (c >> clu) == 0,
            clu <= ju < 32,
    ;
}

proof fn lemma_nonzero_byte_bit(b: u8)
    requires
        b != 0,
    ensures
        exists|k: int| 0 <= k < 8 && #[trigger] bit8(b, k),
{
    assert(bit8(b, 0) || bit8(b, 1) || bit8(b, 2) || bit8(b, 3) || bit8(b, 4) || bit8(b, 5)
        || bit8(b, 6) || bit8(b, 7)) by (bit_vector)
        requires
            b != 0,
    ;
}

/// Where coordinate `t` starts, for the lengths of `roundtrip_length`: the decoder has read
/// it whole when it takes it, and the encoder has not yet emitted any of its bits.
proof fn lemma_roundtrip_length(cl: int, t: int)
    requires
        roundtrip_length(cl),
        t >= 0,
    ensures
        loaded_bits(t, cl) >= t * cl + cl,
        8 * flushed_before(t * cl, cl) <= t * cl,
        t * cl >= 0,
        limit_of(cl as u32) <= cl + 7,
        cl % 8 != 0 ==> limit_of(cl as u32) >= 16,
{
    let m = t * cl;
    assert(m >= 0) by (nonlinear_arith)
        requires
            t >= 0,
            cl >= 0,
            m == t * cl,
    ;
    if cl % 8 == 0 {
        vstd::arithmetic::div_mod::lemma_mod_multiples_basic(t * (cl / 8), 8);
        assert(m == t * (cl / 8) * 8) by (nonlinear_arith)
            requires
                m == t * cl,
                cl % 8 == 0,
        ;
        assert(m % 8 == 0);
    } else if cl % 4 == 0 {
        vstd::arithmetic::div_mod::lemma_mod_multiples_basic(t * (cl / 4), 4);
        assert(m == t * (cl / 4) * 4) by (nonlinear_arith)
            requires
                m == t * cl,
                cl % 4 == 0,
        ;
        assert(m % 4 == 0);
    } else {
        vstd::arithmetic::div_mod::lemma_mod_multiples_basic(t * (cl / 2), 2);
        assert(m == t * (cl / 2) * 2) by (nonlinear_arith)
            requires
                m == t * cl,
                cl % 2 == 0,
        ;
        assert(m % 2 == 0);
    }
}

/// For coordinates that fit in `cl` bits, the stream is the coordinates one after the other.
proof fn lemma_plain_stream(cells: Seq<u32>, cl: int, t: int, k: int)
    requires
        roundtrip_length(cl),
        forall|i: int| 0 <= i < cells.len() ==> #[trigger] fits_in(cells[i], cl),
        0 <= t < cells.len(),
        0 <= k < cl,
    ensures
        stream_bit(cells, cl, t * cl + k) == bit32(cells[t], cl - 1 - k),
    decreases cells.len(),
{
    let n = cells.len();
    let prefix = cells.drop_last();
    let n0 = (n - 1) * cl;
    let q = t * cl + k;
    lemma_roundtrip_length(cl, n - 1);
    assert(cells =~= prefix.push(cells.last()));
    lemma_stream_bit_push(prefix, cells.last(), cl, q);
    assert(prefix.len() * cl == n0);
    if t < n - 1 {
        assert(q < n0) by (nonlinear_arith)
            requires
                t < n - 1,
                k < cl,
                cl > 0,
                q == t * cl + k,
                n0 == (n - 1) * cl,
        ;
        if 8 * flushed_before(n0, cl) <= q {
            lemma_fits_bit(cells.last(), cl, n0 + cl - 1 - q);
        }
        lemma_plain_stream(prefix, cl, t, k);
    } else {
        if stream_bit(prefix, cl, q) {
            lemma_stream_bit_range(prefix, cl, q);
        }
    }
}

proof fn lemma_insert_all_distinct(vs: Seq<u32>)
    requires
        vs.no_duplicates(),
    ensures
        insert_all(Seq::empty(), vs) == vs,
    decreases vs.len(),
{
    if vs.len() > 0 {
        lemma_insert_all_distinct(vs.drop_last());
        assert(!vs.drop_last().contains(vs.last()));
        assert(vs.drop_last().push(vs.last()) =~= vs);
    }
}

/// Decoding what the encoder wrote gives back the coordinates, in their order, when each
/// coordinate fits in `cl` bits, no coordinate repeats, `cl` is one of the lengths of
/// `roundtrip_length`, and the encoder kept every byte of the stream. (It drops the zero
/// bytes at the end of the stream, and with them the coordinates that end there.)
pub proof fn lemma_payload_roundtrip(cells: Seq<u32>, cl: int, out: Seq<u8>)
    requires
        roundtrip_length(cl),
        cells.no_duplicates(),
        forall|i: int| 0 <= i < cells.len() ==> #[trigger] fits_in(cells[i], cl),
        is_payload_encoding(cells, cl, out),
        8 * out.len() >= cells.len() * cl,
    ensures
        decoded_values(out, cl) == cells,
        insert_all(Seq::empty(), decoded_values(out, cl)) == cells,
{
    let n = cells.len() as int;
    let big_n = n * cl;
    let len = out.len() as int;
    let lim = limit_of(cl as u32) as int;
    lemma_roundtrip_length(cl, n);
    // The encoder wrote no more than the stream's bytes.
    assert(8 * len <= big_n + 7) by {
        if len > flushed_before(big_n, cl) {
            lemma_nonzero_byte_bit(out.last());
            let k = choose|k: int| 0 <= k < 8 && #[trigger] bit8(out.last(), k);
            let q = 8 * (len - 1) + 7 - k;
            assert(q / 8 == len - 1);
            assert(q % 8 == 7 - k);
            assert(data_bit(out, q));
            lemma_stream_bit_range(cells, cl, q);
        }
    }
    if n > 0 {
        assert((n - 1) * cl == big_n - cl) by (nonlinear_arith)
            requires
                big_n == n * cl,
        ;
    }
    lemma_decode_count(len, cl, n);
    assert forall|t: int| 0 <= t < n implies #[trigger] decoded_value(out, cl, t) == cells[t] by {
        lemma_roundtrip_length(cl, t);
        let f = |k: int| chunk_bit(out, cl, t, k);
        lemma_bits_value(f, cl as nat);
        assert(t * cl + cl <= big_n) by (nonlinear_arith)
            requires
                t < n,
                big_n == n * cl,
                cl >= 0,
        ;
        assert forall|p: int| 0 <= p < 32 implies #[trigger] bit32(decoded_value(out, cl, t), p)
            == bit32(cells[t], p) by {
            if p < cl {
                let k = cl - 1 - p;
                lemma_plain_stream(cells, cl, t, k);
                assert(data_bit(out, t * cl + k) == stream_bit(cells, cl, t * cl + k));
            } else {
                lemma_fits_bit(cells[t], cl, p);
            }
        }
        lemma_bits_ext(decoded_value(out, cl, t), cells[t]);
    }
    assert(decoded_values(out, cl) =~= cells);
    lemma_insert_all_distinct(cells);
}

} // verus!
