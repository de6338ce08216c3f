use deflate::bit_reader::BitReader;
use deflate::deflate::blocks::fixed_huffman::fixed_huffman_tree;
use deflate::deflate::blocks::{read_block, try_read_block};
use deflate::deflate::blocks::uncompressed::{read_uncompressed, try_read_uncompressed};
use deflate::deflate::huffman_dict::HuffmanDict;
use deflate::deflate::huffman_tree::{HuffmanCode, HuffmanTree};
use deflate::deflate::length_distance::{
    decode_distance, decode_length, distance_extra_bits, length_extra_bits,
};
use deflate::deflate::{read_deflate, try_read_deflate, InflateError};

fn dynamic_text() -> Vec<u8> {
    let mut text = Vec::new();
    for i in 0..40u32 {
        text.extend_from_slice(
            format!("line {}: the rain in spain stays mainly in the plain; ", (i * i) % 97).as_bytes(),
        );
    }
    text
}

#[test]
fn read_n_bits_is_least_significant_bit_first() {
    let data = [0b1011_0100u8, 0b0000_0001];
    let mut reader = BitReader::new(&data);
    assert_eq!(reader.read_n_bits(3), 0b100);
    assert_eq!(reader.read_n_bits(5), 0b10110);
    assert_eq!(reader.pos(), 8);
    assert_eq!(reader.read_n_bits(1), 1);
    assert_eq!(reader.read_n_bits(0), 0);
    assert_eq!(reader.pos(), 9);
}

#[test]
fn read_n_bits_across_bytes() {
    let data = [0xF0u8, 0x0F];
    let mut reader = BitReader::new(&data);
    reader.read_n_bits(4);
    assert_eq!(reader.read_n_bits(8), 0xFF);
    assert_eq!(reader.read_n_bits(4), 0);
}

#[test]
fn read_bool_and_byte_boundary() {
    let data = [0b0000_0010u8, 0xAB, 0xCD, 0x12];
    let mut reader = BitReader::new(&data);
    assert!(!reader.read_bool());
    assert!(reader.read_bool());
    assert_eq!(reader.bytes_read(), 1);
    reader.read_until_byte_boundry();
    assert_eq!(reader.pos(), 8);
    reader.read_until_byte_boundry();
    assert_eq!(reader.pos(), 8);
    assert_eq!(reader.read_bytes(2), &[0xAB, 0xCD]);
    assert_eq!(reader.pos(), 24);
    assert!(reader.has_bits(8));
    assert!(!reader.has_bits(9));
}

#[test]
fn read_u16_is_little_endian() {
    let data = [0x34u8, 0x12];
    let mut reader = BitReader::new(&data);
    assert_eq!(reader.read_u16(), 0x1234);
    let mut other = BitReader::new(&data);
    assert_eq!(other.read_n_bits(8) + (other.read_n_bits(8) << 8), 0x1234);
}

#[test]
fn canonical_codes_of_rfc_example() {
    // RFC 1951, 3.2.2: lengths (3, 3, 3, 3, 3, 2, 4, 4) give
    // A=010 B=011 C=100 D=101 E=110 F=00 G=1110 H=1111.
    let tree = HuffmanTree::new(&[3, 3, 3, 3, 3, 2, 4, 4]);
    // Codes are read most significant bit first; bits are packed from the
    // least significant bit of each byte. G = 1110, then F = 00.
    let data = [0b0000_0111u8];
    let mut reader = BitReader::new(&data);
    assert_eq!(tree.decode_symbol(&mut reader), 6);
    assert_eq!(reader.pos(), 4);
    assert_eq!(tree.decode_symbol(&mut reader), 5);
    assert_eq!(reader.pos(), 6);
    // A = 010.
    let data = [0b0000_0010u8];
    let mut reader = BitReader::new(&data);
    assert_eq!(tree.decode_symbol(&mut reader), 0);
}

#[test]
fn decode_symbol_without_enough_bits() {
    let tree = HuffmanTree::new(&[3, 3, 3, 3, 3, 2, 4, 4]);
    let data: [u8; 0] = [];
    let mut reader = BitReader::new(&data);
    assert_eq!(tree.try_decode_symbol(&mut reader), Err(InflateError::UnexpectedEnd));
    assert_eq!(reader.pos(), 0);
    // Three bits "111" of a four-bit code, then the input ends.
    let data = [0b1110_0000u8];
    let mut reader = BitReader::new(&data);
    reader.read_n_bits(5);
    assert_eq!(tree.try_decode_symbol(&mut reader), Err(InflateError::UnexpectedEnd));
    assert_eq!(reader.pos(), 8);
}

#[test]
fn decode_symbol_without_matching_code() {
    // A single code of length one, "0": the bits 1111... match nothing.
    let tree = HuffmanTree::new(&[1]);
    let data = [0xFFu8, 0xFF, 0xFF];
    let mut reader = BitReader::new(&data);
    assert_eq!(tree.try_decode_symbol(&mut reader), Err(InflateError::InvalidSymbol));
    assert_eq!(reader.pos(), 16);
}

#[test]
fn fixed_literal_code_of_a() {
    // Literal 65 has the 8-bit code 0x30 + 65 = 0b0111_0001.
    let (literals, distances) = fixed_huffman_tree();
    let data = [0b1000_1110u8];
    let mut reader = BitReader::new(&data);
    assert_eq!(literals.decode_symbol(&mut reader), 65);
    // Distance code 3 is 00011 in five bits.
    let data = [0b0001_1000u8];
    let mut reader = BitReader::new(&data);
    assert_eq!(distances.decode_symbol(&mut reader), 3);
}

#[test]
fn huffman_code_is_plain_data() {
    let code = HuffmanCode { code: 5, length: 3 };
    let copy = code;
    assert_eq!(code, copy);
    assert_eq!(copy.code, 5);
    assert_eq!(copy.length, 3);
}

#[test]
fn length_and_distance_tables() {
    assert_eq!(decode_length(257, 0), 3);
    assert_eq!(decode_length(264, 0), 10);
    assert_eq!(decode_length(265, 1), 12);
    assert_eq!(decode_length(284, 31), 258);
    assert_eq!(decode_length(285, 0), 258);
    assert_eq!(decode_distance(0, 0), 1);
    assert_eq!(decode_distance(3, 0), 4);
    assert_eq!(decode_distance(4, 1), 6);
    assert_eq!(decode_distance(29, 8191), 32768);
    assert_eq!(length_extra_bits(257), 0);
    assert_eq!(length_extra_bits(265), 1);
    assert_eq!(length_extra_bits(284), 5);
    assert_eq!(length_extra_bits(285), 0);
    assert_eq!(distance_extra_bits(1), 0);
    assert_eq!(distance_extra_bits(4), 1);
    assert_eq!(distance_extra_bits(29), 13);
}

#[test]
fn huffman_dict_reads_what_was_written() {
    let mut dict = HuffmanDict::new();
    assert_eq!(dict.get(0, 0), None);
    dict.insert(0x1234, 15, 77);
    assert_eq!(dict.get(0x1234, 15), Some(77));
    assert_eq!(dict.get(0x1234, 14), None);
    dict.insert(0x1234, 15, 78);
    assert_eq!(dict.get(0x1234, 15), Some(78));
}

#[test]
fn inflate_fixed_huffman_block() {
    let compressed = [203u8, 72, 205, 201, 201, 87, 200, 64, 34, 203, 243, 139, 114, 82, 0];
    let (rest, out) = read_deflate(&compressed, None);
    assert_eq!(out, b"hello hello hello world".to_vec());
    assert!(rest.is_empty());
}

#[test]
fn inflate_dynamic_huffman_block() {
    let compressed: Vec<u8> = vec![157, 148, 75, 14, 128, 32, 12, 68, 175, 210, 35, 40, 223, 162, 167, 113, 97, 34, 9, 26, 35, 108, 188, 189, 112, 4, 95, 194, 162, 16, 38, 157, 78, 167, 45, 249, 218, 101, 90, 164, 29, 187, 60, 91, 190, 164, 159, 122, 143, 160, 182, 237, 173, 114, 246, 176, 188, 227, 117, 252, 184, 75, 191, 174, 82, 6, 104, 38, 32, 71, 64, 9, 209, 11, 4, 101, 60, 65, 89, 148, 203, 161, 186, 2, 146, 80, 81, 183, 44, 146, 16, 17, 116, 145, 160, 162, 65, 12, 145, 22, 72, 193, 128, 114, 37, 230, 66, 212, 174, 200, 134, 31, 213, 229, 17, 195, 196, 166, 139, 173, 26, 182, 213, 88, 93, 136, 161, 71, 253, 82, 100, 94, 100, 67, 131, 38, 89, 17, 67, 143, 36, 52, 200, 188, 202, 214, 53, 91, 188, 72, 249, 25, 229, 82, 52, 94, 225, 47, 234, 3];
    assert_eq!((compressed[0] >> 1) & 3, 2);
    let (rest, out) = read_deflate(&compressed, Some(100));
    assert_eq!(out, dynamic_text());
    assert!(rest.is_empty());
}

#[test]
fn inflate_stored_block_and_rest() {
    let compressed = [1u8, 3, 0, 252, 255, 97, 98, 99, 42, 43];
    let (rest, out) = read_deflate(&compressed, None);
    assert_eq!(out, b"abc".to_vec());
    assert_eq!(rest, &[42, 43]);
}

#[test]
fn inflate_several_blocks() {
    let compressed = [
        0u8, 6, 0, 249, 255, 102, 105, 114, 115, 116, 32, 0, 0, 0, 255, 255, 1, 20, 0, 235, 255, 115, 101, 99,
        111, 110, 100, 32, 115, 101, 99, 111, 110, 100, 32, 115, 101, 99, 111, 110, 100,
    ];
    let (_, out) = read_deflate(&compressed, None);
    assert_eq!(out, b"first second second second".to_vec());
}

#[test]
fn inflate_rejects_reserved_block_type() {
    assert_eq!(try_read_deflate(&[0b0000_0111], None).err(), Some(InflateError::ReservedBlockType));
}

#[test]
fn inflate_rejects_bad_stored_length() {
    assert_eq!(try_read_deflate(&[1, 3, 0, 0, 0, 97, 98, 99], None).err(), Some(InflateError::LengthMismatch));
}

#[test]
fn inflate_rejects_truncated_input() {
    assert_eq!(try_read_deflate(&[], None).err(), Some(InflateError::UnexpectedEnd));
    assert_eq!(try_read_deflate(&[1, 3, 0, 252, 255, 97], None).err(), Some(InflateError::UnexpectedEnd));
    assert_eq!(try_read_deflate(&[203, 72, 205], None).err(), Some(InflateError::UnexpectedEnd));
}

#[test]
fn inflate_rejects_distance_before_start() {
    // Fixed block; length symbol 257 (0000001), distance symbol 0 (00000).
    assert_eq!(try_read_deflate(&[3, 2], None).err(), Some(InflateError::DistanceTooFar));
}

#[test]
fn inflate_rejects_length_symbol_286() {
    // Fixed block; literal/length symbol 286 (11000110).
    assert_eq!(try_read_deflate(&[27, 3], None).err(), Some(InflateError::InvalidLengthSymbol));
}

#[test]
fn inflate_rejects_distance_symbol_30() {
    // Fixed block; length symbol 257, then distance symbol 30 (11110).
    assert_eq!(try_read_deflate(&[3, 62], None).err(), Some(InflateError::InvalidDistanceSymbol));
}

#[test]
fn inflate_overlapping_copy() {
    // Fixed block: literal 'a' (10010001), then length 3 (257: 0000001)
    // at distance 1 (00000), then end of block (0000000).
    let mut bits: Vec<u8> = vec![1, 1, 0];
    for b in [1, 0, 0, 1, 0, 0, 0, 1] {
        bits.push(b);
    }
    for b in [0, 0, 0, 0, 0, 0, 1] {
        bits.push(b);
    }
    for b in [0, 0, 0, 0, 0] {
        bits.push(b);
    }
    for b in [0, 0, 0, 0, 0, 0, 0] {
        bits.push(b);
    }
    let mut bytes = vec![0u8; (bits.len() + 7) / 8];
    for (i, b) in bits.iter().enumerate() {
        bytes[i / 8] |= b << (i % 8);
    }
    let (_, out) = read_deflate(&bytes, None);
    assert_eq!(out, b"aaaa".to_vec());
}

#[test]
fn read_block_reports_final_flag() {
    let data = [0u8, 1, 0, 254, 255, 120, 1, 1, 0, 254, 255, 121];
    let mut reader = BitReader::new(&data);
    let mut buf = Vec::new();
    assert!(!read_block(&mut reader, &mut buf));
    assert_eq!(buf, b"x".to_vec());
    assert!(read_block(&mut reader, &mut buf));
    assert_eq!(buf, b"xy".to_vec());
}

#[test]
fn read_uncompressed_borrows_the_input() {
    let data = [1u8, 2, 0, 253, 255, 7, 8, 9];
    let mut reader = BitReader::new(&data);
    reader.read_n_bits(3);
    assert_eq!(read_uncompressed(&mut reader), &data[5..7]);
    assert_eq!(reader.pos(), 56);
}

#[test]
fn checked_readers_report_the_faults() {
    let data = [0b0000_0111u8];
    let mut reader = BitReader::new(&data);
    let mut buf = Vec::new();
    assert_eq!(try_read_block(&mut reader, &mut buf), Err(InflateError::ReservedBlockType));
    let data = [0u8, 1, 0, 1, 0];
    let mut reader = BitReader::new(&data);
    reader.read_n_bits(3);
    assert_eq!(try_read_uncompressed(&mut reader), Err(InflateError::LengthMismatch));
    let data = [1u8, 1, 0, 254, 255, 0x61];
    let mut reader = BitReader::new(&data);
    reader.read_n_bits(3);
    assert_eq!(try_read_uncompressed(&mut reader), Ok(&data[5..6]));
    assert_eq!(reader.pos(), 48);
    assert_eq!(try_read_deflate(&[1, 3, 0, 252, 255, 97, 98, 99], None), Ok((&[][..], b"abc".to_vec())));
}

#[test]
fn split_read_is_or_of_shifted_parts() {
    let data = [0b1011_0100u8, 0b1100_0011, 0x5a];
    let mut r1 = BitReader::new(&data);
    let mut r2 = BitReader::new(&data);
    r1.read_n_bits(2);
    r2.read_n_bits(2);
    let x = r1.read_n_bits(5);
    let y = r1.read_n_bits(11);
    let z = r2.read_n_bits(16);
    assert_eq!(z, x | (y << 5));
    assert_eq!(r1.pos(), r2.pos());
}

#[test]
fn long_code_lengths_are_accepted() {
    // Lengths above 15 give codes that sixteen bits cannot all reach; the
    // short codes still decode.
    let tree = HuffmanTree::new(&[1, 2, 20, 200]);
    let data = [0b0000_0010u8];
    let mut reader = BitReader::new(&data);
    assert_eq!(tree.decode_symbol(&mut reader), 0);
    assert_eq!(tree.decode_symbol(&mut reader), 1);
    assert_eq!(reader.pos(), 3);
}

#[test]
fn huffman_dict_keeps_the_last_insert() {
    let mut dict = HuffmanDict::new();
    let ops = [(1u16, 2u16, 10u16), (3, 4, 20), (1, 2, 30), (5, 6, 40), (3, 4, 50)];
    for (code, length, value) in ops {
        dict.insert(code, length, value);
    }
    assert_eq!(dict.get(1, 2), Some(30));
    assert_eq!(dict.get(3, 4), Some(50));
    assert_eq!(dict.get(5, 6), Some(40));
    assert_eq!(dict.get(1, 4), None);
}
