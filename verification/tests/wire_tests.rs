use distributed_gol::coordinates::Coordinates;
use distributed_gol::errors::DecodeError;
use distributed_gol::function_call::CallType;
use distributed_gol::packet::{Header, Packet};
use distributed_gol::stubs::PacketParams;
use distributed_gol::wire::NumbersAsBytes;
use indexmap::IndexSet;

fn set_of(items: &[u32]) -> IndexSet<u32> {
    let mut s = IndexSet::new();
    for i in items {
        s.insert(*i);
    }
    s
}

fn items(s: &IndexSet<u32>) -> Vec<u32> {
    s.iter().copied().collect()
}

fn process_gol_params() -> PacketParams {
    PacketParams {
        call_type: 1,
        turns: 100,
        threads: 4,
        sender_ip: "127.0.0.1:8030".to_string(),
        y1: 0,
        y2: 0,
        fn_call_id: 8,
        msg_id: 0,
        image_size: 16,
    }
}

fn header_for(image_size: u16, length: u32) -> Header {
    Header {
        version: 1,
        call_type: CallType::Rpc,
        fn_call_id: 8,
        msg_id: 0,
        image_size,
        threads: 2,
        y1: 3,
        y2: 9,
        turns: 7,
        ip_address: "10.0.0.1:80".to_string(),
        length,
        checksum: 0,
    }
}

#[test]
fn coordinate_lengths_for_common_image_sizes() {
    assert_eq!(Packet::calc_coord_len_and_offset(16), (8, 24));
    assert_eq!(Packet::calc_coord_len_and_offset(64), (12, 20));
    assert_eq!(Packet::calc_coord_len_and_offset(512), (18, 14));
}

#[test]
fn coordinate_length_of_sizes_that_are_not_powers_of_two() {
    // each of x and y gets the bits that every position 0..size needs
    assert_eq!(Packet::calc_coord_len_and_offset(100), (14, 18));
    assert_eq!(Packet::calc_coord_len_and_offset(3), (4, 28));
    assert_eq!(Packet::calc_coord_len_and_offset(0), (0, 32));
    assert_eq!(Packet::calc_coord_len_and_offset(1), (0, 32));
    assert_eq!(Packet::calc_coord_len_and_offset(2), (2, 30));
    assert_eq!(Packet::calc_coord_len_and_offset(0xFFFF), (32, 0));
    assert_eq!(Packet::calc_coord_len_and_offset(0x10000), (32, 0));
}

#[test]
fn every_position_fits_in_half_the_coordinate_length() {
    for size in 1u32..=1025 {
        let (cl, offset) = Packet::calc_coord_len_and_offset(size);
        assert_eq!(offset, 32 - cl);
        assert!(size <= 1u32 << (cl / 2));
        assert!(cl == 0 || size > 1u32 << (cl / 2 - 1));
    }
}

#[test]
fn masks_and_limits() {
    assert_eq!(Packet::generate_mask(0), 0);
    assert_eq!(Packet::generate_mask(8), 0xFF00_0000);
    assert_eq!(Packet::generate_mask(12), 0xFFF0_0000);
    assert_eq!(Packet::generate_mask(32), 0xFFFF_FFFF);
    assert_eq!(Packet::limit(6), 8);
    assert_eq!(Packet::limit(8), 8);
    assert_eq!(Packet::limit(12), 16);
    assert_eq!(Packet::limit(18), 24);
    assert_eq!(Packet::limit(30), 32);
}

#[test]
fn numbers_are_pushed_big_endian() {
    let mut v: Vec<u8> = Vec::new();
    v.push_u16_to_u8s(0x1234);
    v.push_u24_to_u8s(0xABCDEF);
    v.push_u32_to_u8s(0x0102_0304);
    assert_eq!(v, vec![0x12, 0x34, 0xAB, 0xCD, 0xEF, 1, 2, 3, 4]);
}

#[test]
fn address_fills_twenty_bytes_ending_in_nul() {
    let mut v: Vec<u8> = vec![9];
    v.push_string_to_u8s("abc".to_string());
    let mut expected = vec![9u8];
    expected.extend_from_slice(&[0; 16]);
    expected.extend_from_slice(b"abc");
    expected.push(0);
    assert_eq!(v, expected);
}

#[test]
fn header_new_is_version_one_and_empty() {
    let h = Header::new();
    assert_eq!(h.version, 1);
    assert_eq!(h.call_type, CallType::Default);
    assert_eq!(h.fn_call_id, 0);
    assert_eq!(h.msg_id, 0);
    assert_eq!(h.image_size, 0);
    assert_eq!(h.threads, 0);
    assert_eq!(h.y1, 0);
    assert_eq!(h.y2, 0);
    assert_eq!(h.turns, 0);
    assert_eq!(h.ip_address, "");
    assert_eq!(h.length, 0);
    assert_eq!(h.checksum, 0);
}

#[test]
fn header_bytes_and_running_sum() {
    let packet = Packet::new();
    let mut sum: u32 = 0;
    let header = packet.encode_header(process_gol_params(), 42, &mut sum);
    let mut expected: Vec<u8> = vec![0x11, 8, 0, 0, 0, 16, 4, 0, 0, 0, 0, 0, 0, 0, 100];
    expected.extend_from_slice(&[0; 5]);
    expected.extend_from_slice(b"127.0.0.1:8030");
    expected.push(0);
    expected.extend_from_slice(&[0, 0, 42]);
    assert_eq!(header, expected);
    assert_eq!(header.len(), 38);
    assert_eq!(sum, 869);
}

#[test]
fn message_header_carries_length_and_checksum() {
    let packet = Packet::new();
    let cells = set_of(&[0x12, 0x34, 0x56]);
    let (header, payload) = packet.encode_data(process_gol_params(), &cells);
    assert_eq!(payload, vec![0x12, 0x34, 0x56]);
    assert_eq!(header.len(), 40);
    assert_eq!(&header[35..38], &[0, 0, 43]);
    assert_eq!(&header[38..40], &[148, 101]);
}

#[test]
fn checksum_makes_the_words_sum_to_all_ones() {
    let packet = Packet::new();
    let cells = set_of(&[0x12, 0x34, 0x56]);
    let params = process_gol_params();
    let (header, payload) = packet.encode_data(params, &cells);
    let mut sum: u32 = 0;
    let p = process_gol_params();
    let mut words: Vec<u32> = vec![1, p.fn_call_id as u32, p.msg_id as u32, p.image_size as u32];
    words.push(p.threads as u32);
    words.push(p.y1 as u32);
    words.push(p.y2 as u32);
    words.extend([p.turns >> 24, (p.turns >> 16) & 0xFF, (p.turns >> 8) & 0xFF, p.turns & 0xFF]);
    for b in p.sender_ip.bytes() {
        words.push(b as u32);
    }
    words.extend([0, 43]);
    words.push(0x1234);
    words.push(0x5600);
    words.push(((header[38] as u32) << 8) | header[39] as u32);
    for w in words {
        sum += w;
        if sum > 0xFFFF {
            sum = (sum & 0xFFFF) + 1;
        }
    }
    assert_eq!(sum, 0xFFFF);
    assert_eq!(payload.len(), 3);
}

#[test]
fn encoded_header_decodes_to_its_fields() {
    let mut packet = Packet::new();
    let cells = set_of(&[0x12, 0x34, 0x56]);
    let (header, _payload) = packet.encode_data(process_gol_params(), &cells);
    let h = packet.decode_header(&header).unwrap();
    assert_eq!(h.version, 1);
    assert_eq!(h.call_type, CallType::Rpc);
    assert_eq!(h.fn_call_id, 8);
    assert_eq!(h.msg_id, 0);
    assert_eq!(h.image_size, 16);
    assert_eq!(h.threads, 4);
    assert_eq!(h.y1, 0);
    assert_eq!(h.y2, 0);
    assert_eq!(h.turns, 100);
    assert_eq!(h.ip_address, "127.0.0.1:8030");
    assert_eq!(h.length, 43);
    assert_eq!(h.checksum, 148 * 256 + 101);
}

#[test]
fn header_with_invalid_address_bytes_is_refused() {
    let mut packet = Packet::new();
    let mut data = vec![0u8; 40];
    data[15] = 0xFF;
    match packet.decode_header(&data) {
        Err(DecodeError::Other(msg)) => {
            assert!(msg.starts_with("Error decoding ip address in header to string: "));
            assert!(msg.contains("invalid utf-8"));
        }
        _ => panic!("expected an error"),
    }
}

#[test]
fn message_round_trip_gives_back_request() {
    let mut packet = Packet::new();
    let cells = set_of(&[0x12, 0x34, 0x56]);
    let (header, payload) = packet.encode_data(process_gol_params(), &cells);
    let h = packet.decode_header(&header).unwrap();
    let request = packet.request_from_payload(h, &payload);
    assert_eq!(items(&request.alive_cells), vec![0x12, 0x34, 0x56]);
    assert_eq!(request.params.incoming_ip_address, "127.0.0.1:8030");
    assert_eq!(request.params.turns, 100);
    assert_eq!(request.params.threads, 4);
    assert_eq!(request.params.image_size, 16);
}

#[test]
fn payload_of_eight_bit_coordinates_is_their_bytes() {
    let packet = Packet::new();
    let data = packet.encode_payload_from_set(&set_of(&[0x12, 0x34, 0x56]), 8);
    assert_eq!(data, vec![0x12, 0x34, 0x56]);
}

#[test]
fn payload_of_twelve_bit_coordinates_round_trips() {
    let mut packet = Packet::new();
    let data = packet.encode_payload_from_set(&set_of(&[0x123, 0x456, 0x789]), 12);
    assert_eq!(data, vec![0x12, 0x34, 0x56, 0x78, 0x90]);
    let request = packet.request_from_payload(header_for(64, 45), &data);
    assert_eq!(items(&request.alive_cells), vec![0x123, 0x456, 0x789]);
}

#[test]
fn payload_of_eighteen_bit_coordinates_round_trips() {
    let mut packet = Packet::new();
    let cells = [0x2ABCD, 1, 0x3FFFF];
    let data = packet.encode_payload_from_set(&set_of(&cells), 18);
    assert_eq!(data, vec![170, 243, 64, 0, 31, 255, 252]);
    let request = packet.request_from_payload(header_for(512, 47), &data);
    assert_eq!(items(&request.alive_cells), cells.to_vec());
}

#[test]
fn trailing_zero_coordinate_is_not_sent() {
    let mut packet = Packet::new();
    let data = packet.encode_payload_from_set(&set_of(&[5, 0]), 8);
    assert_eq!(data, vec![5]);
    let request = packet.request_from_payload(header_for(16, 41), &data);
    assert_eq!(items(&request.alive_cells), vec![5]);
}

#[test]
fn six_bit_coordinates_decode_with_a_spurious_zero() {
    let mut packet = Packet::new();
    let data = packet.encode_payload_from_set(&set_of(&[1]), 6);
    assert_eq!(data, vec![4]);
    let request = packet.request_from_payload(header_for(8, 41), &data);
    assert_eq!(items(&request.alive_cells), vec![1, 0]);
}

#[test]
fn empty_world_has_empty_payload() {
    let packet = Packet::new();
    let data = packet.encode_payload_from_set(&IndexSet::new(), 8);
    assert!(data.is_empty());
}

#[test]
fn response_counts_the_decoded_cells() {
    let mut packet = Packet::new();
    let response = packet.response_from_payload(header_for(16, 43), &[0x12, 0x34, 0x12]);
    assert_eq!(items(&response.world), vec![0x12, 0x34]);
    assert_eq!(response.alive_count, 2);
    assert_eq!(response.current_turn, 7);
    assert!(!response.paused);
}

#[test]
fn slice_request_carries_rows_and_cells() {
    let mut packet = Packet::new();
    let args = packet.slice_args_from_payload(header_for(16, 42), &[0x21, 0x43]);
    assert_eq!(args.image_size, 16);
    assert_eq!(args.y1, 3);
    assert_eq!(args.y2, 9);
    assert_eq!(args.threads, 2);
    assert_eq!(items(&args.alive_cells), vec![0x21, 0x43]);
}

#[test]
fn header_with_empty_address_round_trips() {
    let mut packet = Packet::new();
    let mut params = process_gol_params();
    params.sender_ip = String::new();
    params.image_size = 0xFFFF;
    params.turns = 0xDEAD_BEEF;
    params.msg_id = 0x0102;
    let (header, payload) = packet.encode_data(params, &IndexSet::new());
    assert!(payload.is_empty());
    let h = packet.decode_header(&header).unwrap();
    assert_eq!(h.ip_address, "");
    assert_eq!(h.image_size, 0xFFFF);
    assert_eq!(h.turns, 0xDEAD_BEEF);
    assert_eq!(h.msg_id, 0x0102);
    assert_eq!(h.length, 40);
}

#[test]
fn ten_and_sixteen_bit_coordinates_round_trip() {
    let mut packet = Packet::new();
    let data = packet.encode_payload_from_set(&set_of(&[0x3FF, 1, 2]), 10);
    assert_eq!(data, vec![255, 192, 16, 8]);
    let request = packet.request_from_payload(header_for(32, 44), &data);
    assert_eq!(items(&request.alive_cells), vec![0x3FF, 1, 2]);
    let data = packet.encode_payload_from_set(&set_of(&[0xABCD, 0x1234]), 16);
    assert_eq!(data, vec![0xAB, 0xCD, 0x12, 0x34]);
    let request = packet.request_from_payload(header_for(256, 44), &data);
    assert_eq!(items(&request.alive_cells), vec![0xABCD, 0x1234]);
}

#[test]
fn thirty_and_fourteen_bit_coordinates_are_misread() {
    let mut packet = Packet::new();
    let data = packet.encode_payload_from_set(&set_of(&[0x3FFF_FFFF, 5]), 30);
    assert_eq!(data, vec![255, 255, 255, 252, 0, 0, 0, 80]);
    let request = packet.request_from_payload(header_for(0x8000, 48), &data);
    assert_eq!(items(&request.alive_cells), vec![0x3FFF_FFFF, 0]);
    let data = packet.encode_payload_from_set(&set_of(&[0x2000, 3]), 14);
    assert_eq!(data, vec![128, 0, 0, 48]);
    let request = packet.request_from_payload(header_for(128, 44), &data);
    assert_eq!(items(&request.alive_cells), vec![0x2000, 0]);
}

#[test]
fn two_bit_coordinates_decode_with_a_spurious_zero() {
    let mut packet = Packet::new();
    let data = packet.encode_payload_from_set(&set_of(&[1, 2, 3]), 2);
    assert_eq!(data, vec![108]);
    let request = packet.request_from_payload(header_for(2, 41), &data);
    assert_eq!(items(&request.alive_cells), vec![1, 2, 3, 0]);
}

#[test]
fn thirty_two_bit_coordinates_round_trip() {
    let mut packet = Packet::new();
    let data = packet.encode_payload_from_set(&set_of(&[0x1234_5678, 0xFFFF_0001]), 32);
    assert_eq!(data, vec![0x12, 0x34, 0x56, 0x78, 0xFF, 0xFF, 0x00, 0x01]);
    let request = packet.request_from_payload(header_for(0xFFFF, 48), &data);
    assert_eq!(items(&request.alive_cells), vec![0x1234_5678, 0xFFFF_0001]);
}

#[test]
fn header_bytes_do_not_depend_on_the_running_sum() {
    let packet = Packet::new();
    let mut zero: u32 = 0;
    let from_zero = packet.encode_header(process_gol_params(), 42, &mut zero);
    let mut big: u32 = u32::MAX - 1;
    let from_big = packet.encode_header(process_gol_params(), 42, &mut big);
    assert_eq!(from_zero, from_big);
    assert_eq!(zero, 869);
    let mut expected: u32 = u32::MAX - 1;
    let p = process_gol_params();
    let mut words: Vec<u32> = vec![1, p.fn_call_id as u32, 0, 16, 4, 0, 0, 0, 0, 0, 100];
    for b in p.sender_ip.bytes() {
        words.push(b as u32);
    }
    words.extend([0, 42]);
    for w in words {
        expected += w;
        if expected > 0xFFFF {
            expected = (expected & 0xFFFF) + 1;
        }
    }
    assert_eq!(big, expected);
    assert!(big <= 0x10000);
}
