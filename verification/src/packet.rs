//! The wire format shared by the controller, the broker and the workers.
//!
//! A message is a 40-byte header followed by the payload of packed coordinates.
use vstd::prelude::*;
use vstd::utf8::{decode_utf8, encode_utf8, valid_utf8};
use indexmap::IndexSet;
use std::hash::RandomState;
use crate::coordinates::{
    coord_len_and_offset, coordinate_length, lemma_coord_bits_bound, limit_for, mask_of, Coordinates,
};
use crate::function_call::{call_type_of, CallType};
use crate::errors::DecodeError;
use crate::index_set::{insert_all, set_items, set_len};
use crate::payload::{
    decoded_values, fits_in, is_payload_encoding, lemma_encoding_length, lemma_payload_roundtrip,
    roundtrip_length,
};
use crate::stubs::{GOLRequest, GOLResponse, PacketParams, Params, ProcessSliceArgs};
use crate::wire::{
    be16, be24, be32, be_value, ip_field, lemma_ones_fold_append, lemma_ones_fold_bound,
    lemma_ones_fold_bound_any, lemma_ones_fold_value, lemma_word_total_append, word_total,
    lemma_ones_fold_push, ones_add, ones_fold, NumbersAsBytes,
};

verus! {

pub const BYTE: usize = 8;

pub const CURRENT_VERSION: u8 = 1;

const HEADER_SIZE_BYTES: usize = 40;

const VERSION: usize = 0;

const CALL_TYPE: usize = 0;

const FUNCTION_CALL: usize = 1;

const MESSAGE_ID: usize = 2;

const IMAGE_SIZE: usize = 4;

const THREADS: usize = 6;

const Y1: usize = 7;

const Y2: usize = 9;

const TURNS: usize = 11;

const IP_ADDRESS: usize = 15;

const LENGTH: usize = 35;

const CHECKSUM: usize = 38;

/// The decoded header of a message.
#[derive(Debug, Clone)]
pub struct Header {
    pub version: u8,
    pub call_type: CallType,
    pub fn_call_id: u8,
    pub msg_id: u16,
    pub image_size: u16,
    pub threads: u8,
    pub y1: u16,
    pub y2: u16,
    pub turns: u32,
    pub ip_address: String,
    pub length: u32,
    pub checksum: u16,
}

impl Header {
    pub fn new() -> (r: Self)
        ensures
            r.version == 1,
            r.call_type == CallType::Default,
            r.fn_call_id == 0,
            r.msg_id == 0,
            r.image_size == 0,
            r.threads == 0,
            r.y1 == 0,
            r.y2 == 0,
            r.turns == 0,
            r.ip_address@ == Seq::<char>::empty(),
            r.length == 0,
            r.checksum == 0,
    {
        Self {
            version: 1,
            call_type: CallType::Default,
            fn_call_id: 0,
            msg_id: 0,
            image_size: 0,
            threads: 0,
            y1: 0,
            y2: 0,
            turns: 0,
            ip_address: String::new(),
            length: 0,
            checksum: 0,
        }
    }
}

/// Marks the unsigned integer types that a header field can be read into.
pub trait IsUINT {}

impl IsUINT for u16 {}

impl IsUINT for u32 {}

impl IsUINT for u64 {}

/// Encoder and decoder of the wire format; it holds no state of its own.
#[derive(Debug, Clone)]
pub struct Packet {}

/// The first 38 bytes of a header: every field but the checksum.
pub open spec fn header_prefix(p: PacketParams, message_length: u32) -> Seq<u8> {
    seq![(CURRENT_VERSION << 4u8) | p.call_type, p.fn_call_id] + be16(p.msg_id) + be16(p.image_size)
        + seq![p.threads] + be16(p.y1) + be16(p.y2) + be32(p.turns) + ip_field(p.sender_ip@) + be24(
        message_length,
    )
}

/// The 16-bit words that the checksum covers for a header.
pub open spec fn header_words(p: PacketParams, message_length: u32) -> Seq<u16> {
    seq![
        CURRENT_VERSION as u16,
        p.fn_call_id as u16,
        p.msg_id,
        p.image_size,
        p.threads as u16,
        p.y1,
        p.y2,
        (p.turns >> 24u32) as u16,
        ((p.turns >> 16u32) & 0xFFu32) as u16,
        ((p.turns >> 8u32) & 0xFFu32) as u16,
        (p.turns & 0xFFu32) as u16,
    ] + encode_utf8(p.sender_ip@).map_values(|b: u8| b as u16) + seq![
        (message_length >> 16u32) as u16,
        message_length as u16,
    ]
}

/// The 16-bit words that the checksum covers for a payload: its bytes in pairs, most
/// significant first, the last byte of an odd length padded with a zero byte.
pub open spec fn payload_words(p: Seq<u8>) -> Seq<u16> {
    Seq::new(
        ((p.len() + 1) / 2) as nat,
        |i: int|
            if 2 * i + 1 < p.len() {
                (p[2 * i] as int * 256 + p[2 * i + 1] as int) as u16
            } else {
                (p[2 * i] as int * 256) as u16
            },
    )
}

/// The checksum of a message: the one's complement of the one's complement sum of the
/// header's words and the payload's words.
pub open spec fn checksum_of(p: PacketParams, message_length: u32, payload: Seq<u8>) -> u16 {
    (0xFFFF - ones_fold(0, header_words(p, message_length) + payload_words(payload))) as u16
}

/// `s` without the NUL characters at its start and at its end.
pub open spec fn trim_nul(s: Seq<char>) -> Seq<char>
    decreases s.len(),
{
    if s.len() > 0 && s[0] == '\0' {
        trim_nul(s.drop_first())
    } else if s.len() > 0 && s.last() == '\0' {
        trim_nul(s.drop_last())
    } else {
        s
    }
}

/// `h` holds the fields that the 40 header bytes `d` encode.
pub open spec fn header_from_bytes(h: Header, d: Seq<u8>) -> bool {
    &&& h.version == (d[0] & 0xF0u8) >> 4u8
    &&& h.call_type == call_type_of(d[0] & 0xFu8)
    &&& h.fn_call_id == d[1]
    &&& h.msg_id == be_value(d.subrange(2, 4))
    &&& h.image_size == be_value(d.subrange(4, 6))
    &&& h.threads == d[6]
    &&& h.y1 == be_value(d.subrange(7, 9))
    &&& h.y2 == be_value(d.subrange(9, 11))
    &&& h.turns == be_value(d.subrange(11, 15))
    &&& h.ip_address@ == trim_nul(decode_utf8(d.subrange(15, 34)))
    &&& h.length == be_value(d.subrange(35, 38))
    &&& h.checksum == be_value(d.subrange(38, 40))
}

/// `std::string::FromUtf8Error`, the error of `String::from_utf8`.
#[verifier::external_type_specification]
#[verifier::external_body]
pub struct ExFromUtf8Error(std::string::FromUtf8Error);

/// `String::from_utf8`: takes the bytes as a string when they are valid UTF-8, and then
/// the string's characters are the ones that the bytes encode.
#[verifier::external_body]
fn string_from_utf8(bytes: Vec<u8>) -> (r: Result<String, std::string::FromUtf8Error>)
    ensures
        r is Ok <==> valid_utf8(bytes@),
        r matches Ok(s) ==> s@ == decode_utf8(bytes@),
{
    String::from_utf8(bytes)
}

proof fn lemma_low16(x: u32)
    ensures
        x & 0xFFFFu32 == x % 0x10000,
{
    assert(x & 0xFFFFu32 == x % 0x10000) by (bit_vector);
}

proof fn lemma_shift_in_byte_u64(x: u64, b: u8)
    ensures
        ((x << 8u64) | (b as u64)) as int == (x as int * 256 + b as int) % 0x1_0000_0000_0000_0000,
{
    assert(((x << 8u64) | (b as u64)) as int == (x as int * 256 + b as int) % 0x1_0000_0000_0000_0000)
        by (bit_vector);
}

proof fn lemma_shift_in_byte(x: u32, b: u8)
    requires
        x < 0x100_0000,
    ensures
        (x << 8u32) | (b as u32) == x * 256 + b,
{
    assert((x << 8u32) | (b as u32) == x * 256 + b) by (bit_vector)
        requires
            x < 0x100_0000,
    ;
}

pub open spec fn pow256(k: nat) -> nat
    decreases k,
{
    if k == 0 {
        1
    } else {
        256 * pow256((k - 1) as nat)
    }
}

fn copy_range(data: &[u8], start: usize, end: usize) -> (r: Vec<u8>)
    requires
        start <= end <= data.len(),
    ensures
        r@ == data@.subrange(start as int, end as int),
{
    let mut r: Vec<u8> = Vec::new();
    let mut i = start;
    while i < end
        invariant
            start <= i <= end <= data.len(),
            r@ == data@.subrange(start as int, i as int),
        decreases end - i,
    {
        r.push(data[i]);
        i += 1;
        assert(r@ =~= data@.subrange(start as int, i as int));
    }
    r
}

/// The characters of `s` without the NUL characters at its start and at its end.
fn trim_matches_nul(s: &str) -> (r: String)
    ensures
        r@ == trim_nul(s@),
{
    let len = s.unicode_len();
    let mut a: usize = 0;
    assert(s@.subrange(0, len as int) =~= s@);
    while a < len && s.get_char(a) == '\0'
        invariant
            len == s@.len(),
            a <= len,
            trim_nul(s@) == trim_nul(s@.subrange(a as int, len as int)),
        decreases len - a,
    {
        let ghost t = s@.subrange(a as int, len as int);
        assert(t.drop_first() =~= s@.subrange(a + 1, len as int));
        a += 1;
    }
    let mut b: usize = len;
    while b > a && s.get_char(b - 1) == '\0'
        invariant
            len == s@.len(),
            a <= b <= len,
            a == len || s@[a as int] != '\0',
            trim_nul(s@) == trim_nul(s@.subrange(a as int, b as int)),
        decreases b - a,
    {
        let ghost t = s@.subrange(a as int, b as int);
        assert(t.drop_last() =~= s@.subrange(a as int, b - 1));
        b -= 1;
    }
    let t = s.substring_char(a, b);
    String::from_str(t)
}


proof fn lemma_fold_step(s0: int, words: Seq<u16>, k: int)
    requires
        0 <= s0,
        0 <= k < words.len(),
    ensures
        ones_add(ones_fold(s0, words.subrange(0, k)), words[k] as int) == ones_fold(
            s0,
            words.subrange(0, k + 1),
        ),
        ones_fold(s0, words.subrange(0, k + 1)) <= 0x10000,
        k == 0 ==> ones_fold(s0, words.subrange(0, k)) == s0,
        k > 0 ==> ones_fold(s0, words.subrange(0, k)) <= 0x10000,
        s0 <= 0xFFFF ==> ones_fold(s0, words.subrange(0, k + 1)) <= 0xFFFF,
        s0 <= 0xFFFF ==> ones_fold(s0, words.subrange(0, k)) <= 0xFFFF,
{
    lemma_ones_fold_push(s0, words.subrange(0, k), words[k]);
    assert(words.subrange(0, k).push(words[k]) =~= words.subrange(0, k + 1));
    lemma_ones_fold_bound_any(s0, words.subrange(0, k + 1));
    lemma_ones_fold_bound_any(s0, words.subrange(0, k));
    if k == 0 {
        assert(words.subrange(0, 0) =~= Seq::<u16>::empty());
    }
    if s0 <= 0xFFFF {
        lemma_ones_fold_bound(s0, words.subrange(0, k + 1));
        lemma_ones_fold_bound(s0, words.subrange(0, k));
    }
}

proof fn lemma_word_of_bytes(a: u8, b: u8)
    ensures
        ((a as u16) << 8u16) | (b as u16) == (a as int * 256 + b as int) as u16,
        (a as u16) << 8u16 == (a as int * 256) as u16,
{
    assert(((a as u16) << 8u16) | (b as u16) == (a as int * 256 + b as int) as u16) by (bit_vector);
    assert((a as u16) << 8u16 == (a as int * 256) as u16) by (bit_vector);
}

proof fn lemma_complement(x: u32)
    requires
        x <= 0xFFFF,
    ensures
        !(x as u16) == (0xFFFF - x) as u16,
{
    assert(!(x as u16) == (0xFFFF - x) as u16) by (bit_vector)
        requires
            x <= 0xFFFF,
    ;
}

impl Packet {
    pub fn new() -> (r: Self)
        ensures
            r == (Packet {}),
    {
        Self {}
    }



    fn header_prefix_bytes(params: &PacketParams, message_length: u32) -> (r: Vec<u8>)
        requires
            encode_utf8(params.sender_ip@).len() <= 19,
        ensures
            r@ == header_prefix(*params, message_length),
    {
        let mut data: Vec<u8> = Vec::with_capacity(HEADER_SIZE_BYTES);
        let first = CURRENT_VERSION << 4 | params.call_type;
        data.push(first);
        data.push(params.fn_call_id);
        data.push_u16_to_u8s(params.msg_id);
        data.push_u16_to_u8s(params.image_size);
        data.push(params.threads);
        data.push_u16_to_u8s(params.y1);
        data.push_u16_to_u8s(params.y2);
        data.push_u32_to_u8s(params.turns);
        data.push_string_to_u8s(params.sender_ip.clone());
        data.push_u24_to_u8s(message_length);
        assert(data@ =~= header_prefix(*params, message_length));
        data
    }

    /// Adds `word` to the running one's complement sum, folding a carry back in.
    fn ones_complement_sum(&self, sum: &mut u32, word: u16)
        requires
            *old(sum) + word <= u32::MAX,
        ensures
            *final(sum) == ones_add(*old(sum) as int, word as int),
    {
        *sum = *sum + word as u32;
        if *sum > 0xFFFF {
            proof {
                lemma_low16(*sum);
            }
            *sum = (*sum & 0xFFFF) + 1;
        }
    }

    /// ### General Info
    /// Encodes header while calculating checksum.
    /// Computed checksum here to avoid having to pass around and get out all this data in a separate function.
    ///
    /// Note that `message length` = `payload length` + `header length`
    ///
    /// ## Header Layout
    ///
    /// ```text
    /// | Version (4 bits) | Type (4 bits) | Fn Call (8) | Message ID (16) | Image Size (16) |
    /// | threads (8) | y1 (16) | y2 (16) | turns (32) | ip address (20 bytes) |
    /// | Length (24) | 16-bit Checksum (16) | Alive Cells = Length - 40 bytes long |
    /// ```
    ///
    /// The header returned here stops before the checksum.
    pub fn encode_header(&self, params: PacketParams, message_length: u32, sum: &mut u32) -> (r: Vec<u8>)
        requires
            *old(sum) < u32::MAX,
            encode_utf8(params.sender_ip@).len() <= 19,
        ensures
            r@ == header_prefix(params, message_length),
            *final(sum) == ones_fold(*old(sum) as int, header_words(params, message_length)),
            *final(sum) <= 0x10000,
            *old(sum) <= 0xFFFF ==> *final(sum) <= 0xFFFF,
    {
        let data = Self::header_prefix_bytes(&params, message_length);
        let ghost s0 = *old(sum) as int;
        let ghost words = header_words(params, message_length);
        let ghost n = encode_utf8(params.sender_ip@).len() as int;
        assert(words.subrange(0, 0) =~= Seq::<u16>::empty());
        self.ones_complement_sum(sum, CURRENT_VERSION as u16);
        proof { lemma_fold_step(s0, words, 0); }
        self.ones_complement_sum(sum, params.fn_call_id as u16);
        proof { lemma_fold_step(s0, words, 1); }
        self.ones_complement_sum(sum, params.msg_id);
        proof { lemma_fold_step(s0, words, 2); }
        self.ones_complement_sum(sum, params.image_size);
        proof { lemma_fold_step(s0, words, 3); }
        self.ones_complement_sum(sum, params.threads as u16);
        proof { lemma_fold_step(s0, words, 4); }
        self.ones_complement_sum(sum, params.y1);
        proof { lemma_fold_step(s0, words, 5); }
        self.ones_complement_sum(sum, params.y2);
        proof { lemma_fold_step(s0, words, 6); }
        self.ones_complement_sum(sum, (params.turns >> 24) as u16);
        proof { lemma_fold_step(s0, words, 7); }
        self.ones_complement_sum(sum, ((params.turns >> 16) & 0xFF) as u16);
        proof { lemma_fold_step(s0, words, 8); }
        self.ones_complement_sum(sum, ((params.turns >> 8) & 0xFF) as u16);
        proof { lemma_fold_step(s0, words, 9); }
        self.ones_complement_sum(sum, (params.turns & 0xFF) as u16);
        proof { lemma_fold_step(s0, words, 10); }
        let bytes = params.sender_ip.as_str().as_bytes();
        let mut i: usize = 0;
        while i < bytes.len()
            invariant
                bytes@ == encode_utf8(params.sender_ip@),
                n == bytes.len(),
                n <= 19,
                words == header_words(params, message_length),
                words.len() == 13 + n,
                0 <= s0 < u32::MAX,
                i <= n,
                *sum == ones_fold(s0, words.subrange(0, 11 + i)),
                *sum <= 0x10000,
                s0 <= 0xFFFF ==> *sum <= 0xFFFF,
            decreases n - i,
        {
            assert(words[11 + i] == bytes[i as int] as u16);
            self.ones_complement_sum(sum, bytes[i] as u16);
            proof {
                lemma_fold_step(s0, words, 11 + i);
            }
            i += 1;
        }
        self.ones_complement_sum(sum, (message_length >> 16) as u16);
        proof { lemma_fold_step(s0, words, 11 + n); }
        self.ones_complement_sum(sum, message_length as u16);
        proof { lemma_fold_step(s0, words, 12 + n); assert(words.subrange(0, 13 + n) =~= words); }
        data
    }


    /// Encodes a message for `cells` into its header, checksum included, and its payload;
    /// `write_data` writes the two in that order.
    pub fn encode_data(&self, params: PacketParams, cells: &IndexSet<u32, RandomState>) -> (r: (
        Vec<u8>,
        Vec<u8>,
    ))
        requires
            coordinate_length(params.image_size as u32) >= 1,
            encode_utf8(params.sender_ip@).len() <= 19,
            set_items(*cells).len() * coordinate_length(params.image_size as u32) + 7 <= 8 * (
            u32::MAX - 40),
        ensures
            is_payload_encoding(
                set_items(*cells),
                coordinate_length(params.image_size as u32) as int,
                r.1@,
            ),
            r.0.len() == 40,
            r.0@ == header_prefix(params, (r.1.len() + 40) as u32) + be16(
                checksum_of(params, (r.1.len() + 40) as u32, r.1@),
            ),
    {
        let (coordinate_length, _) = Packet::calc_coord_len_and_offset(params.image_size as u32);
        // payload_length is length of alivecells in bytes + header size in bytes
        let payload = self.encode_payload_from_set(cells, coordinate_length as usize);
        proof {
            lemma_encoding_length(set_items(*cells), coordinate_length as int, payload@);
        }
        let message_length = payload.len() as u32 + HEADER_SIZE_BYTES as u32;
        let mut sum: u32 = 0;
        let ghost p = params;
        let mut header = self.encode_header(params, message_length, &mut sum);
        let ghost hs = sum as int;
        let ghost words = payload_words(payload@);
        // sum up contents of payload
        let mut i: usize = 0;
        assert(words.subrange(0, 0) =~= Seq::<u16>::empty());
        while i < payload.len() / 2
            invariant
                words == payload_words(payload@),
                0 <= hs <= 0xFFFF,
                i <= payload.len() / 2,
                sum == ones_fold(hs, words.subrange(0, i as int)),
                sum <= 0xFFFF,
            decreases payload.len() / 2 - i,
        {
            let word = ((payload[i * 2] as u16) << 8) | (payload[i * 2 + 1] as u16);
            proof {
                lemma_word_of_bytes(payload@[i * 2], payload@[i * 2 + 1]);
                assert(words[i as int] == word);
            }
            self.ones_complement_sum(&mut sum, word);
            proof {
                lemma_fold_step(hs, words, i as int);
            }
            i += 1;
        }
        // handle odd-length payload
        if payload.len() % 2 == 1 {
            let last = (payload[payload.len() - 1] as u16) << 8;
            proof {
                lemma_word_of_bytes(payload@[payload.len() - 1], 0);
                assert(words[i as int] == last);
            }
            self.ones_complement_sum(&mut sum, last);
            proof {
                lemma_fold_step(hs, words, i as int);
            }
        }
        proof {
            assert(words.subrange(0, words.len() as int) =~= words);
            lemma_ones_fold_append(0, header_words(p, message_length), words);
            lemma_complement(sum);
        }
        // bitwise ones compliment
        let checksum = !(sum as u16);
        // append checksum to last 2 bytes of header
        header.push_u16_to_u8s(checksum);
        (header, payload)
    }

    /// The request that a message for `process_gol` carries, from its header and payload.
    pub fn request_from_payload(&mut self, header: Header, payload_buf: &[u8]) -> (r: GOLRequest)
        requires
            coordinate_length(header.image_size as u32) >= 1,
        ensures
            r.params.incoming_ip_address == header.ip_address,
            r.params.turns == header.turns,
            r.params.threads == header.threads as u32,
            r.params.image_size == header.image_size as u32,
            set_items(r.alive_cells) == insert_all(
                Seq::empty(),
                decoded_values(payload_buf@, coordinate_length(header.image_size as u32) as int),
            ),
    {
        proof {
            lemma_coord_bits_bound(header.image_size as u32);
        }
        let (coordinate_length, offset) = Packet::calc_coord_len_and_offset(header.image_size as u32);
        let params = Params {
            incoming_ip_address: header.ip_address,
            turns: header.turns,
            threads: header.threads as u32,
            image_size: header.image_size as u32,
        };
        let mut request = GOLRequest::new(params, header.length as usize);
        self.decode_payload(&mut request.alive_cells, payload_buf, coordinate_length, offset);
        request
    }

    /// The world that a worker's or the broker's answer carries, from its header and payload.
    pub fn response_from_payload(&mut self, header: Header, payload_buf: &[u8]) -> (r: GOLResponse)
        requires
            coordinate_length(header.image_size as u32) >= 1,
        ensures
            r.current_turn == header.turns,
            r.paused == false,
            set_items(r.world) == insert_all(
                Seq::empty(),
                decoded_values(payload_buf@, coordinate_length(header.image_size as u32) as int),
            ),
            r.alive_count == #[verifier::truncate] (set_items(r.world).len() as u32),
    {
        proof {
            lemma_coord_bits_bound(header.image_size as u32);
        }
        let (coordinate_length, offset) = Packet::calc_coord_len_and_offset(header.image_size as u32);
        let length = header.length / coordinate_length;
        let mut response = GOLResponse::new(length as usize, header.turns, 0, false);
        // decode the payload
        self.decode_payload(&mut response.world, payload_buf, coordinate_length, offset);
        response.alive_count = #[verifier::truncate] (set_len(&response.world) as u32);
        response
    }

    /// The slice request that a message for `process_slice` carries, from its header and payload.
    pub fn slice_args_from_payload(&mut self, header: Header, payload_buf: &[u8]) -> (r: ProcessSliceArgs)
        requires
            coordinate_length(header.image_size as u32) >= 8,
            header.length >= 40,
        ensures
            r.image_size == header.image_size as u32,
            r.y1 == header.y1,
            r.y2 == header.y2,
            r.threads == header.threads,
            set_items(r.alive_cells) == insert_all(
                Seq::empty(),
                decoded_values(payload_buf@, coordinate_length(header.image_size as u32) as int),
            ),
    {
        proof {
            lemma_coord_bits_bound(header.image_size as u32);
        }
        let (coordinate_length, offset) = Packet::calc_coord_len_and_offset(header.image_size as u32);
        let capacity = (header.length - HEADER_SIZE_BYTES as u32) / (coordinate_length / 8);
        let mut request = ProcessSliceArgs::new(
            header.image_size as u32,
            header.threads,
            header.y1,
            header.y2,
            capacity as usize,
        );
        // decode the payload
        self.decode_payload(&mut request.alive_cells, payload_buf, coordinate_length, offset);
        request
    }

    /// Reads the big-endian number in `data[entry..=entry + end]`, keeping its low 64 bits:
    /// only the last 8 bytes count, as they would in the widest of the `IsUINT` types, and
    /// a cast to a narrower one keeps fewer of them.
    fn decode_header_entry(data: &[u8], entry: usize, end: usize) -> (r: Option<u64>)
        requires
            entry + end < data.len(),
        ensures
            r is Some,
            r.unwrap() as int == be_value(data@.subrange(entry as int, entry + end + 1))
                % 0x1_0000_0000_0000_0000,
            be_value(data@.subrange(entry as int, entry + end + 1)) < pow256((end + 1) as nat),
    {
        let mut buf: u64 = 0;
        let mut i = entry;
        while i <= entry + end
            invariant
                entry <= i <= entry + end + 1,
                entry + end < data.len(),
                buf as int == be_value(data@.subrange(entry as int, i as int))
                    % 0x1_0000_0000_0000_0000,
                be_value(data@.subrange(entry as int, i as int)) < pow256((i - entry) as nat),
            decreases entry + end + 1 - i,
        {
            let ghost s = data@.subrange(entry as int, i as int);
            let ghost s1 = data@.subrange(entry as int, i + 1);
            assert(s1.drop_last() =~= s);
            proof {
                let v = be_value(s) as int;
                let b = data[i as int] as int;
                let m = 0x1_0000_0000_0000_0000int;
                lemma_shift_in_byte_u64(buf, data[i as int]);
                vstd::arithmetic::div_mod::lemma_mul_mod_noop_left(v, 256, m);
                vstd::arithmetic::div_mod::lemma_add_mod_noop(v * 256, b, m);
                vstd::arithmetic::div_mod::lemma_add_mod_noop((v % m) * 256, b, m);
                let p = pow256((i - entry) as nat);
                assert(v * 256 + b < p * 256) by (nonlinear_arith)
                    requires
                        v < p,
                        0 <= b < 256,
                ;
            }
            buf = buf << 8u64;
            buf = buf | (data[i] as u64);
            i += 1;
        }
        Some(buf)
    }

    /// Reads the fields of a header out of its 40 bytes.
    pub fn decode_header(&mut self, data: &[u8]) -> (r: Result<Header, DecodeError>)
        requires
            data.len() >= 40,
        ensures
            r is Ok <==> valid_utf8(data@.subrange(15, 34)),
            r matches Ok(h) ==> header_from_bytes(h, data@),
            r matches Err(e) ==> (e matches DecodeError::Other(m) && m@.len() >= 47 && m@.take(47)
                == "Error decoding ip address in header to string: "@),
    {
        let version = (data[VERSION] & 0xF0) >> 4;
        let call_type = CallType::from(data[CALL_TYPE] & 0xF);
        let fn_call_id = data[FUNCTION_CALL];
        let msg_id = Self::decode_header_entry(data, MESSAGE_ID, 1).unwrap();
        let image_size = Self::decode_header_entry(data, IMAGE_SIZE, 1).unwrap();
        let threads = data[THREADS];
        let y1 = Self::decode_header_entry(data, Y1, 1).unwrap();
        let y2 = Self::decode_header_entry(data, Y2, 1).unwrap();
        let turns = Self::decode_header_entry(data, TURNS, 3).unwrap();
        let ip_bytes = copy_range(data, IP_ADDRESS, IP_ADDRESS + 19);
        let ip_address = match string_from_utf8(ip_bytes) {
            Ok(ip) => trim_matches_nul(ip.as_str()),
            Err(e) => {
                let prefix = "Error decoding ip address in header to string: ";
                proof {
                    reveal_strlit("Error decoding ip address in header to string: ");
                }
                let mut msg = String::from_str(prefix);
                let text = e.to_string();
                msg.append(text.as_str());
                assert(msg@.take(47) =~= prefix@);
                return Err(DecodeError::Other(msg));
            },
        };
        let length = Self::decode_header_entry(data, LENGTH, 2).unwrap();
        let checksum = Self::decode_header_entry(data, CHECKSUM, 1).unwrap();
        proof {
            reveal_with_fuel(pow256, 3);
        }
        let header = Header {
            version,
            call_type,
            fn_call_id,
            msg_id: msg_id as u16,
            image_size: image_size as u16,
            threads,
            y1: y1 as u16,
            y2: y2 as u16,
            turns: turns as u32,
            ip_address,
            length: length as u32,
            checksum: checksum as u16,
        };
        Ok(header)
    }
}

impl Coordinates for Packet {
    fn calc_coord_len_and_offset(image_size: u32) -> (r: (u32, u32)) {
        coord_len_and_offset(image_size)
    }

    fn generate_mask(coordinate_length: u32) -> (r: u32) {
        mask_of(coordinate_length)
    }

    fn limit(coordinate_length: u32) -> (r: usize) {
        limit_for(coordinate_length)
    }
}

} // verus!

verus! {

/// `k` NUL characters.
pub open spec fn nuls(k: nat) -> Seq<char> {
    Seq::new(k, |i: int| '\0')
}

proof fn lemma_encode_nuls(k: nat, s: Seq<char>)
    ensures
        encode_utf8(nuls(k) + s) == Seq::new(k, |i: int| 0u8) + encode_utf8(s),
    decreases k,
{
    if k == 0 {
        assert(nuls(0) + s =~= s);
        assert(Seq::new(0, |i: int| 0u8) + encode_utf8(s) =~= encode_utf8(s));
    } else {
        let t = nuls(k) + s;
        assert(t.drop_first() =~= nuls((k - 1) as nat) + s);
        lemma_encode_nuls((k - 1) as nat, s);
        assert(t[0] == '\0');
        assert(('\0' as u32) == 0u32);
        assert((0u32 & 0x7Fu32) as u8 == 0u8) by (bit_vector);
        assert(vstd::utf8::encode_scalar(0u32) =~= seq![0u8]);
        assert(Seq::new(k, |i: int| 0u8) =~= seq![0u8] + Seq::new((k - 1) as nat, |i: int| 0u8));
        assert(encode_utf8(t) =~= seq![0u8] + encode_utf8(nuls((k - 1) as nat) + s));
    }
}

proof fn lemma_trim_nuls(k: nat, s: Seq<char>)
    requires
        s.len() == 0 || (s[0] != '\0' && s.last() != '\0'),
    ensures
        trim_nul(nuls(k) + s) == s,
    decreases k,
{
    if k == 0 {
        assert(nuls(0) + s =~= s);
    } else {
        let t = nuls(k) + s;
        assert(t.drop_first() =~= nuls((k - 1) as nat) + s);
        lemma_trim_nuls((k - 1) as nat, s);
    }
}

proof fn lemma_be16(v: u16)
    ensures
        be_value(be16(v)) == v,
{
    reveal_with_fuel(be_value, 5);
    let s = be16(v);
    assert(s.drop_last().drop_last() =~= Seq::<u8>::empty());
    let hi = (v >> 8u16) as u8;
    let lo = v as u8;
    assert(hi as int * 256 + lo as int == v) by (bit_vector)
        requires
            hi == (v >> 8u16) as u8,
            lo == v as u8,
    ;
}

proof fn lemma_be24(v: u32)
    ensures
        be_value(be24(v)) == v % 0x100_0000,
{
    reveal_with_fuel(be_value, 5);
    let s = be24(v);
    assert(s.drop_last().drop_last().drop_last() =~= Seq::<u8>::empty());
    let a = (v >> 16u32) as u8;
    let b = (v >> 8u32) as u8;
    let c = v as u8;
    assert((a as int * 256 + b as int) * 256 + c as int == v % 0x100_0000) by (bit_vector)
        requires
            a == (v >> 16u32) as u8,
            b == (v >> 8u32) as u8,
            c == v as u8,
    ;
}

proof fn lemma_be32(v: u32)
    ensures
        be_value(be32(v)) == v,
{
    reveal_with_fuel(be_value, 5);
    let s = be32(v);
    assert(s.drop_last().drop_last().drop_last().drop_last() =~= Seq::<u8>::empty());
    let a = (v >> 24u32) as u8;
    let b = (v >> 16u32) as u8;
    let c = (v >> 8u32) as u8;
    let d = v as u8;
    assert(((a as int * 256 + b as int) * 256 + c as int) * 256 + d as int == v) by (bit_vector)
        requires
            a == (v >> 24u32) as u8,
            b == (v >> 16u32) as u8,
            c == (v >> 8u32) as u8,
            d == v as u8,
    ;
}

/// The checksum that `encode_data` writes makes a message check: the one's complement sum
/// of the header's words, the payload's words and the checksum itself is `0xFFFF`.
pub proof fn lemma_checksum_verifies(p: PacketParams, message_length: u32, payload: Seq<u8>)
    ensures
        ones_fold(
            0,
            header_words(p, message_length) + payload_words(payload) + seq![
                checksum_of(p, message_length, payload),
            ],
        ) == 0xFFFF,
{
    let words = header_words(p, message_length) + payload_words(payload);
    let c = checksum_of(p, message_length, payload);
    lemma_ones_fold_bound(0, words);
    lemma_ones_fold_push(0, words, c);
    assert(words.push(c) =~= words + seq![c]);
}

/// The big-endian 16-bit word in bytes `i` and `i + 1` of `d`.
pub open spec fn word_at(d: Seq<u8>, i: int) -> u16 {
    (d[i] as int * 256 + d[i + 1] as int) as u16
}

/// The words that a receiver sums out of the 40 bytes `d` of a header: the version nibble,
/// the function call, the message id, the image size, the threads, `y1`, `y2`, the four
/// bytes of the turns one by one, the 19 bytes of the address, the top byte of the length
/// and its low 16 bits, and the checksum.
pub open spec fn received_header_words(d: Seq<u8>) -> Seq<u16> {
    seq![
        (d[0] >> 4u8) as u16,
        d[1] as u16,
        word_at(d, 2),
        word_at(d, 4),
        d[6] as u16,
        word_at(d, 7),
        word_at(d, 9),
        d[11] as u16,
        d[12] as u16,
        d[13] as u16,
        d[14] as u16,
    ] + d.subrange(15, 34).map_values(|b: u8| b as u16) + seq![
        d[35] as u16,
        word_at(d, 36),
        word_at(d, 38),
    ]
}

proof fn lemma_word_of_be16(v: u16)
    ensures
        (((v >> 8u16) as u8) as int * 256 + (v as u8) as int) as u16 == v,
{
    let hi = (v >> 8u16) as u8;
    let lo = v as u8;
    assert(hi as int * 256 + lo as int == v) by (bit_vector)
        requires
            hi == (v >> 8u16) as u8,
            lo == v as u8,
    ;
}

proof fn lemma_word_total_zeros(k: nat)
    ensures
        word_total(Seq::new(k, |i: int| 0u16)) == 0,
    decreases k,
{
    if k > 0 {
        lemma_word_total_zeros((k - 1) as nat);
        assert(Seq::new(k, |i: int| 0u16).drop_last() =~= Seq::new((k - 1) as nat, |i: int| 0u16));
    }
}

/// A receiver that sums the words of the header that `encode_data` wrote, read back from its
/// 40 bytes, and the words of the payload gets `0xFFFF`: the checksum covers every field of
/// the header but the call type, and the payload, so a change of any one of them alone
/// (`y2`, for one) changes the checksum.
pub proof fn lemma_checksum_covers_header(p: PacketParams, message_length: u32, payload: Seq<u8>)
    requires
        p.call_type < 16,
        encode_utf8(p.sender_ip@).len() <= 19,
        message_length < 0x100_0000,
    ensures
        ones_fold(
            0,
            received_header_words(
                header_prefix(p, message_length) + be16(checksum_of(p, message_length, payload)),
            ) + payload_words(payload),
        ) == 0xFFFF,
{
    let ml = message_length;
    let ck = checksum_of(p, ml, payload);
    let d = header_prefix(p, ml) + be16(ck);
    let hw = header_words(p, ml);
    let pw = payload_words(payload);
    let enc = encode_utf8(p.sender_ip@);
    let e16 = enc.map_values(|b: u8| b as u16);
    let k = (19 - enc.len()) as nat;
    assert(d.len() == 40);
    // the fixed fields read back
    let ct = p.call_type;
    let first = (CURRENT_VERSION << 4u8) | ct;
    assert(d[0] == first && d[1] == p.fn_call_id && d[6] == p.threads);
    assert(((first >> 4u8) as u16) == 1u16) by (bit_vector)
        requires
            first == (1u8 << 4u8) | ct,
            ct < 16,
    ;
    assert(d.subrange(2, 4) =~= be16(p.msg_id));
    assert(d.subrange(4, 6) =~= be16(p.image_size));
    assert(d.subrange(7, 9) =~= be16(p.y1));
    assert(d.subrange(9, 11) =~= be16(p.y2));
    assert(d.subrange(11, 15) =~= be32(p.turns));
    assert(d.subrange(35, 38) =~= be24(ml));
    assert(d.subrange(38, 40) =~= be16(ck));
    lemma_word_of_be16(p.msg_id);
    lemma_word_of_be16(p.image_size);
    lemma_word_of_be16(p.y1);
    lemma_word_of_be16(p.y2);
    lemma_word_of_be16(ck);
    let t = p.turns;
    assert(((t >> 24u32) as u8) as u16 == (t >> 24u32) as u16
        && ((t >> 16u32) as u8) as u16 == ((t >> 16u32) & 0xFFu32) as u16
        && ((t >> 8u32) as u8) as u16 == ((t >> 8u32) & 0xFFu32) as u16
        && (t as u8) as u16 == (t & 0xFFu32) as u16) by (bit_vector);
    assert(((ml >> 16u32) as u8) as u16 == (ml >> 16u32) as u16
        && ((((ml >> 8u32) as u8) as int * 256 + (ml as u8) as int) as u16) == ml as u16)
        by (bit_vector)
        requires
            ml < 0x100_0000,
    ;
    let f = received_header_words(d).subrange(0, 11);
    let f2 = hw.subrange(0, 11);
    assert(f =~= f2);
    // the address field: zeros, then the address's bytes
    assert(d.subrange(15, 34) =~= Seq::new(k, |i: int| 0u8) + enc);
    let ip = d.subrange(15, 34).map_values(|b: u8| b as u16);
    let zeros = Seq::new(k, |i: int| 0u16);
    assert(ip =~= zeros + e16);
    let tl = seq![d[35] as u16, word_at(d, 36)];
    let tl2 = seq![(ml >> 16u32) as u16, ml as u16];
    assert(tl =~= tl2);
    let rw = received_header_words(d);
    assert(rw =~= f + ip + tl + seq![ck]);
    assert(hw =~= f2 + e16 + tl2);
    // the totals agree, so the sums do
    lemma_word_total_append(f + ip + tl, seq![ck]);
    lemma_word_total_append(f + ip, tl);
    lemma_word_total_append(f, ip);
    lemma_word_total_append(zeros, e16);
    lemma_word_total_zeros(k);
    lemma_word_total_append(f2 + e16, tl2);
    lemma_word_total_append(f2, e16);
    let one = seq![ck];
    assert(one.drop_last() =~= Seq::<u16>::empty());
    assert(word_total(one) == word_total(one.drop_last()) + one.last() as int);
    lemma_word_total_append(rw, pw);
    lemma_word_total_append(hw + pw, one);
    lemma_word_total_append(hw, pw);
    lemma_ones_fold_value(0, rw + pw);
    lemma_ones_fold_value(0, hw + pw + one);
    lemma_checksum_verifies(p, ml, payload);
}

/// Reading back a header that `encode_header` wrote, followed by a checksum, gives the
/// fields that were written: version 1, the call type that the type field names, the
/// identifiers, sizes, rows and turns, the sender's address (when it has no NUL character
/// at either end), the low 24 bits of the message length, and the checksum. The 19 bytes
/// of the address field are valid UTF-8, so `decode_header` succeeds on them.
pub proof fn lemma_header_roundtrip(p: PacketParams, message_length: u32, checksum: u16, h: Header)
    requires
        p.call_type < 16,
        encode_utf8(p.sender_ip@).len() <= 19,
        p.sender_ip@.len() == 0 || (p.sender_ip@[0] != '\0' && p.sender_ip@.last() != '\0'),
        header_from_bytes(h, header_prefix(p, message_length) + be16(checksum)),
    ensures
        (header_prefix(p, message_length) + be16(checksum)).len() == 40,
        valid_utf8((header_prefix(p, message_length) + be16(checksum)).subrange(15, 34)),
        h.version == CURRENT_VERSION,
        h.call_type == call_type_of(p.call_type),
        h.fn_call_id == p.fn_call_id,
        h.msg_id == p.msg_id,
        h.image_size == p.image_size,
        h.threads == p.threads,
        h.y1 == p.y1,
        h.y2 == p.y2,
        h.turns == p.turns,
        h.ip_address@ == p.sender_ip@,
        h.length == message_length % 0x100_0000,
        h.checksum == checksum,
{
    let d = header_prefix(p, message_length) + be16(checksum);
    assert(d.len() == 40);
    let ct = p.call_type;
    let first = (CURRENT_VERSION << 4u8) | ct;
    assert(d[0] == first);
    assert((first & 0xF0u8) >> 4u8 == 1u8 && first & 0xFu8 == ct) by (bit_vector)
        requires
            first == (1u8 << 4u8) | ct,
            ct < 16,
    ;
    assert(d.subrange(2, 4) =~= be16(p.msg_id));
    assert(d.subrange(4, 6) =~= be16(p.image_size));
    assert(d.subrange(7, 9) =~= be16(p.y1));
    assert(d.subrange(9, 11) =~= be16(p.y2));
    assert(d.subrange(11, 15) =~= be32(p.turns));
    assert(d.subrange(35, 38) =~= be24(message_length));
    assert(d.subrange(38, 40) =~= be16(checksum));
    lemma_be16(p.msg_id);
    lemma_be16(p.image_size);
    lemma_be16(p.y1);
    lemma_be16(p.y2);
    lemma_be32(p.turns);
    lemma_be24(message_length);
    lemma_be16(checksum);
    let enc = encode_utf8(p.sender_ip@);
    let k = (19 - enc.len()) as nat;
    assert(d.subrange(15, 34) =~= Seq::new(k, |i: int| 0u8) + enc);
    lemma_encode_nuls(k, p.sender_ip@);
    vstd::utf8::encode_utf8_valid_utf8(nuls(k) + p.sender_ip@);
    vstd::utf8::encode_utf8_decode_utf8(nuls(k) + p.sender_ip@);
    lemma_trim_nuls(k, p.sender_ip@);
}

/// A message that `encode_data` wrote reads back as it was written: its header gives back
/// the fields (as in `lemma_header_roundtrip`), its length field gives the message's length
/// when that is below 2^24 bytes, and its payload, decoded with the coordinate length of the
/// image size read back, gives back the cells in order (as in `lemma_payload_roundtrip`).
pub proof fn lemma_message_roundtrip(
    p: PacketParams,
    cells: Seq<u32>,
    header: Seq<u8>,
    payload: Seq<u8>,
    h: Header,
)
    requires
        header == header_prefix(p, (payload.len() + 40) as u32) + be16(
            checksum_of(p, (payload.len() + 40) as u32, payload),
        ),
        is_payload_encoding(cells, coordinate_length(p.image_size as u32) as int, payload),
        p.call_type < 16,
        encode_utf8(p.sender_ip@).len() <= 19,
        p.sender_ip@.len() == 0 || (p.sender_ip@[0] != '\0' && p.sender_ip@.last() != '\0'),
        payload.len() + 40 < 0x100_0000,
        roundtrip_length(coordinate_length(p.image_size as u32) as int),
        cells.no_duplicates(),
        forall|i: int|
            0 <= i < cells.len() ==> #[trigger] fits_in(
                cells[i],
                coordinate_length(p.image_size as u32) as int,
            ),
        8 * payload.len() >= cells.len() * coordinate_length(p.image_size as u32),
        header_from_bytes(h, header),
    ensures
        h.version == CURRENT_VERSION,
        h.call_type == call_type_of(p.call_type),
        h.fn_call_id == p.fn_call_id,
        h.msg_id == p.msg_id,
        h.image_size == p.image_size,
        h.threads == p.threads,
        h.y1 == p.y1,
        h.y2 == p.y2,
        h.turns == p.turns,
        h.ip_address@ == p.sender_ip@,
        h.length == payload.len() + 40,
        decoded_values(payload, coordinate_length(h.image_size as u32) as int) == cells,
{
    let len = (payload.len() + 40) as u32;
    lemma_header_roundtrip(p, len, checksum_of(p, len, payload), h);
    lemma_payload_roundtrip(cells, coordinate_length(p.image_size as u32) as int, payload);
}

} // verus!
