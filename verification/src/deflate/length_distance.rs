use vstd::arithmetic::power2::pow2;
use vstd::prelude::*;

use super::huffman_tree::{decode_symbol_spec, HuffmanTree};
use super::InflateError;
use crate::bit_reader::{bit_len, lsb_value, BitReader};

verus! {

/// A back-reference: copy `length` bytes from `distance` bytes back.
pub struct LengthDistance {
    pub length: usize,
    pub distance: usize,
}

/// The number of extra bits after length symbol `symbol` (RFC 1951, section 3.2.5).
pub open spec fn length_extra_bits_spec(symbol: int) -> nat {
    let s = symbol - 257;
    if s == 28 || s < 4 {
        0
    } else {
        ((s - 4) / 4) as nat
    }
}

/// The number of extra bits after distance symbol `symbol` (RFC 1951, section 3.2.5).
pub open spec fn distance_extra_bits_spec(symbol: int) -> nat {
    if symbol < 2 {
        0
    } else {
        ((symbol - 2) / 2) as nat
    }
}

/// The match length of length symbol `symbol` with extra bits `extra`.
pub open spec fn length_value(symbol: int, extra: int) -> int {
    if 257 <= symbol <= 264 {
        (symbol - 257) + 3 + extra
    } else if 265 <= symbol <= 268 {
        (symbol - 265) * 2 + 11 + extra
    } else if 269 <= symbol <= 272 {
        (symbol - 269) * 4 + 19 + extra
    } else if 273 <= symbol <= 276 {
        (symbol - 273) * 8 + 35 + extra
    } else if 277 <= symbol <= 280 {
        (symbol - 277) * 16 + 67 + extra
    } else if 281 <= symbol <= 284 {
        (symbol - 281) * 32 + 131 + extra
    } else {
        258
    }
}

/// The distance of distance symbol `symbol` with extra bits `extra`.
pub open spec fn distance_value(symbol: int, extra: int) -> int {
    if symbol <= 3 {
        symbol + 1
    } else if symbol <= 5 {
        (symbol - 4) * 2 + 5 + extra
    } else if symbol <= 7 {
        (symbol - 6) * 4 + 9 + extra
    } else if symbol <= 9 {
        (symbol - 8) * 8 + 17 + extra
    } else if symbol <= 11 {
        (symbol - 10) * 16 + 33 + extra
    } else if symbol <= 13 {
        (symbol - 12) * 32 + 65 + extra
    } else if symbol <= 15 {
        (symbol - 14) * 64 + 129 + extra
    } else if symbol <= 17 {
        (symbol - 16) * 128 + 257 + extra
    } else if symbol <= 19 {
        (symbol - 18) * 256 + 513 + extra
    } else if symbol <= 21 {
        (symbol - 20) * 512 + 1025 + extra
    } else if symbol <= 23 {
        (symbol - 22) * 1024 + 2049 + extra
    } else if symbol <= 25 {
        (symbol - 24) * 2048 + 4097 + extra
    } else if symbol <= 27 {
        (symbol - 26) * 4096 + 8193 + extra
    } else {
        (symbol - 28) * 8192 + 16385 + extra
    }
}

/// The back-reference that starts with length symbol `symbol`, its extra
/// bits at bit `pos`, then a distance code of `distance_table` and its
/// extra bits; with the position after it.
pub open spec fn length_distance_spec(
    distance_table: Map<(u16, u16), u16>,
    data: Seq<u8>,
    pos: int,
    symbol: u16,
) -> Result<(int, int, int), InflateError> {
    if symbol < 257 || symbol > 285 {
        Err(InflateError::InvalidLengthSymbol)
    } else if pos + length_extra_bits_spec(symbol as int) > bit_len(data) {
        Err(InflateError::UnexpectedEnd)
    } else {
        let p1 = pos + length_extra_bits_spec(symbol as int);
        let length = length_value(symbol as int, lsb_value(data, pos, length_extra_bits_spec(symbol as int)) as int);
        match decode_symbol_spec(distance_table, data, p1) {
            Err(e) => Err(e),
            Ok((dsym, p2)) => if dsym > 29 {
                Err(InflateError::InvalidDistanceSymbol)
            } else if p2 + distance_extra_bits_spec(dsym as int) > bit_len(data) {
                Err(InflateError::UnexpectedEnd)
            } else {
                let extra = lsb_value(data, p2, distance_extra_bits_spec(dsym as int));
                Ok((length, distance_value(dsym as int, extra as int), p2 + distance_extra_bits_spec(dsym as int)))
            },
        }
    }
}

/// The table of RFC 1951, section 3.2.5, for length symbols 257 to 285: the
/// base length of each symbol and the number of extra bits that follow it.
pub open spec fn rfc_length_code(symbol: int) -> (int, nat) {
    if symbol == 257 {
        (3, 0)
    } else if symbol == 258 {
        (4, 0)
    } else if symbol == 259 {
        (5, 0)
    } else if symbol == 260 {
        (6, 0)
    } else if symbol == 261 {
        (7, 0)
    } else if symbol == 262 {
        (8, 0)
    } else if symbol == 263 {
        (9, 0)
    } else if symbol == 264 {
        (10, 0)
    } else if symbol == 265 {
        (11, 1)
    } else if symbol == 266 {
        (13, 1)
    } else if symbol == 267 {
        (15, 1)
    } else if symbol == 268 {
        (17, 1)
    } else if symbol == 269 {
        (19, 2)
    } else if symbol == 270 {
        (23, 2)
    } else if symbol == 271 {
        (27, 2)
    } else if symbol == 272 {
        (31, 2)
    } else if symbol == 273 {
        (35, 3)
    } else if symbol == 274 {
        (43, 3)
    } else if symbol == 275 {
        (51, 3)
    } else if symbol == 276 {
        (59, 3)
    } else if symbol == 277 {
        (67, 4)
    } else if symbol == 278 {
        (83, 4)
    } else if symbol == 279 {
        (99, 4)
    } else if symbol == 280 {
        (115, 4)
    } else if symbol == 281 {
        (131, 5)
    } else if symbol == 282 {
        (163, 5)
    } else if symbol == 283 {
        (195, 5)
    } else if symbol == 284 {
        (227, 5)
    } else if symbol == 285 {
        (258, 0)
    } else {
        (0, 0)
    }
}

/// The table of RFC 1951, section 3.2.5, for distance symbols 0 to 29: the
/// base distance of each symbol and the number of extra bits that follow it.
pub open spec fn rfc_distance_code(symbol: int) -> (int, nat) {
    if symbol == 0 {
        (1, 0)
    } else if symbol == 1 {
        (2, 0)
    } else if symbol == 2 {
        (3, 0)
    } else if symbol == 3 {
        (4, 0)
    } else if symbol == 4 {
        (5, 1)
    } else if symbol == 5 {
        (7, 1)
    } else if symbol == 6 {
        (9, 2)
    } else if symbol == 7 {
        (13, 2)
    } else if symbol == 8 {
        (17, 3)
    } else if symbol == 9 {
        (25, 3)
    } else if symbol == 10 {
        (33, 4)
    } else if symbol == 11 {
        (49, 4)
    } else if symbol == 12 {
        (65, 5)
    } else if symbol == 13 {
        (97, 5)
    } else if symbol == 14 {
        (129, 6)
    } else if symbol == 15 {
        (193, 6)
    } else if symbol == 16 {
        (257, 7)
    } else if symbol == 17 {
        (385, 7)
    } else if symbol == 18 {
        (513, 8)
    } else if symbol == 19 {
        (769, 8)
    } else if symbol == 20 {
        (1025, 9)
    } else if symbol == 21 {
        (1537, 9)
    } else if symbol == 22 {
        (2049, 10)
    } else if symbol == 23 {
        (3073, 10)
    } else if symbol == 24 {
        (4097, 11)
    } else if symbol == 25 {
        (6145, 11)
    } else if symbol == 26 {
        (8193, 12)
    } else if symbol == 27 {
        (12289, 12)
    } else if symbol == 28 {
        (16385, 13)
    } else if symbol == 29 {
        (24577, 13)
    } else {
        (0, 0)
    }
}

/// A length symbol and the value `extra` of its extra bits give the length
/// base + `extra`, with the base and the number of extra bits of the table in
/// RFC 1951, section 3.2.5; so within one symbol the length grows with
/// `extra`, and the symbols 257 to 284 with all their extra values give each
/// length of 3..=258 once.
pub proof fn lemma_length_code_table(symbol: int, extra: int)
    requires
        257 <= symbol <= 285,
        0 <= extra < pow2(length_extra_bits_spec(symbol)),
    ensures
        length_extra_bits_spec(symbol) == rfc_length_code(symbol).1,
        length_value(symbol, extra) == rfc_length_code(symbol).0 + extra,
{
    vstd::arithmetic::power2::lemma2_to64();
}

/// A distance symbol and the value `extra` of its extra bits give the
/// distance base + `extra`, with the base and the number of extra bits of the
/// table in RFC 1951, section 3.2.5.
pub proof fn lemma_distance_code_table(symbol: int, extra: int)
    requires
        0 <= symbol <= 29,
        0 <= extra < pow2(distance_extra_bits_spec(symbol)),
    ensures
        distance_extra_bits_spec(symbol) == rfc_distance_code(symbol).1,
        distance_value(symbol, extra) == rfc_distance_code(symbol).0 + extra,
{
    vstd::arithmetic::power2::lemma2_to64();
}

/// Each length symbol below 285 starts where the one before it ends: its
/// base is one more than the largest length of the previous symbol, the
/// first is 3 and the last of symbol 284 is 258.
pub proof fn lemma_length_codes_consecutive(symbol: int)
    requires
        257 <= symbol <= 284,
    ensures
        symbol == 257 ==> rfc_length_code(symbol).0 == 3,
        symbol < 284 ==> rfc_length_code(symbol + 1).0 == rfc_length_code(symbol).0 + pow2(
            rfc_length_code(symbol).1,
        ),
        symbol == 284 ==> rfc_length_code(symbol).0 + pow2(rfc_length_code(symbol).1) - 1 == 258,
{
    vstd::arithmetic::power2::lemma2_to64();
}

/// Every length that a length symbol and its extra bits give lies in 3..=258.
pub proof fn lemma_length_range(symbol: int, extra: int)
    requires
        257 <= symbol <= 285,
        0 <= extra < pow2(length_extra_bits_spec(symbol)),
    ensures
        3 <= length_value(symbol, extra) <= 258,
{
    vstd::arithmetic::power2::lemma2_to64();
}

/// Every distance that a distance symbol and its extra bits give lies in 1..=32768.
pub proof fn lemma_distance_range(symbol: int, extra: int)
    requires
        0 <= symbol <= 29,
        0 <= extra < pow2(distance_extra_bits_spec(symbol)),
    ensures
        1 <= distance_value(symbol, extra) <= 32768,
{
    vstd::arithmetic::power2::lemma2_to64();
}

/// Decodes the back-reference that follows length symbol `length_byte`, or
/// gives the first fault of it.
pub fn try_decode_length_distance(
    reader: &mut BitReader,
    distance_tree: &HuffmanTree,
    length_byte: u16,
) -> (result: Result<LengthDistance, InflateError>)
    requires
        old(reader).wf(),
    ensures
        final(reader).wf(),
        final(reader).bits() == old(reader).bits(),
        match length_distance_spec(distance_tree.table(), old(reader).bits(), old(reader).position(), length_byte) {
            Ok((length, distance, p)) => result matches Ok(ld) && ld.length == length && ld.distance == distance
                && final(reader).position() == p,
            Err(e) => result == Err::<LengthDistance, InflateError>(e),
        },
{
    if length_byte < 257 || length_byte > 285 {
        return Err(InflateError::InvalidLengthSymbol);
    }
    let length_extra_bits = length_extra_bits(length_byte);
    if !reader.has_bits(length_extra_bits) {
        return Err(InflateError::UnexpectedEnd);
    }
    let ghost p0 = reader.position();
    let length_extra = reader.read_n_bits(length_extra_bits);
    proof {
        crate::bit_reader::lemma_lsb_value_bound(reader.bits(), p0, length_extra_bits as nat);
        vstd::arithmetic::power2::lemma2_to64();
    }
    let length = decode_length(length_byte as usize, length_extra);
    let distance_byte = match distance_tree.try_decode_symbol(reader) {
        Ok(symbol) => symbol,
        Err(e) => {
            return Err(e);
        },
    };
    if distance_byte > 29 {
        return Err(InflateError::InvalidDistanceSymbol);
    }
    let distance_extra_bits = distance_extra_bits(distance_byte);
    if !reader.has_bits(distance_extra_bits) {
        return Err(InflateError::UnexpectedEnd);
    }
    let ghost p2 = reader.position();
    let distance_extra = reader.read_n_bits(distance_extra_bits);
    proof {
        crate::bit_reader::lemma_lsb_value_bound(reader.bits(), p2, distance_extra_bits as nat);
    }
    let distance = decode_distance(distance_byte as usize, distance_extra);
    Ok(LengthDistance { length, distance })
}

/// Decodes the sound back-reference that follows length symbol `length_byte`.
pub fn decode_length_distance(reader: &mut BitReader, distance_tree: &HuffmanTree, length_byte: u16) -> (result:
    LengthDistance)
    requires
        old(reader).wf(),
        length_distance_spec(distance_tree.table(), old(reader).bits(), old(reader).position(), length_byte) is Ok,
    ensures
        final(reader).wf(),
        final(reader).bits() == old(reader).bits(),
        length_distance_spec(distance_tree.table(), old(reader).bits(), old(reader).position(), length_byte) matches Ok(
            (length, distance, p),
        ) && result.length == length && result.distance == distance && final(reader).position() == p,
{
    match try_decode_length_distance(reader, distance_tree, length_byte) {
        Ok(ld) => ld,
        Err(_) => {
            proof {
                assert(false);
            }
            LengthDistance { length: 0, distance: 0 }
        },
    }
}

/// The match length of length symbol `length_byte` with extra bits `extra`.
pub fn decode_length(length_byte: usize, extra: usize) -> (length: usize)
    requires
        257 <= length_byte <= 285,
        length_value(length_byte as int, extra as int) <= usize::MAX,
    ensures
        length == length_value(length_byte as int, extra as int),
{
    if length_byte <= 264 {
        (length_byte - 257) + 3 + extra
    } else if length_byte <= 268 {
        (length_byte - 265) * 2 + 11 + extra
    } else if length_byte <= 272 {
        (length_byte - 269) * 4 + 19 + extra
    } else if length_byte <= 276 {
        (length_byte - 273) * 8 + 35 + extra
    } else if length_byte <= 280 {
        (length_byte - 277) * 16 + 67 + extra
    } else if length_byte <= 284 {
        (length_byte - 281) * 32 + 131 + extra
    } else {
        258
    }
}

/// The distance of distance symbol `distance_byte` with extra bits `extra`.
pub fn decode_distance(distance_byte: usize, extra: usize) -> (distance: usize)
    requires
        distance_byte <= 29,
        distance_value(distance_byte as int, extra as int) <= usize::MAX,
    ensures
        distance == distance_value(distance_byte as int, extra as int),
{
    if distance_byte <= 3 {
        distance_byte + 1
    } else if distance_byte <= 5 {
        (distance_byte - 4) * 2 + 5 + extra
    } else if distance_byte <= 7 {
        (distance_byte - 6) * 4 + 9 + extra
    } else if distance_byte <= 9 {
        (distance_byte - 8) * 8 + 17 + extra
    } else if distance_byte <= 11 {
        (distance_byte - 10) * 16 + 33 + extra
    } else if distance_byte <= 13 {
        (distance_byte - 12) * 32 + 65 + extra
    } else if distance_byte <= 15 {
        (distance_byte - 14) * 64 + 129 + extra
    } else if distance_byte <= 17 {
        (distance_byte - 16) * 128 + 257 + extra
    } else if distance_byte <= 19 {
        (distance_byte - 18) * 256 + 513 + extra
    } else if distance_byte <= 21 {
        (distance_byte - 20) * 512 + 1025 + extra
    } else if distance_byte <= 23 {
        (distance_byte - 22) * 1024 + 2049 + extra
    } else if distance_byte <= 25 {
        (distance_byte - 24) * 2048 + 4097 + extra
    } else if distance_byte <= 27 {
        (distance_byte - 26) * 4096 + 8193 + extra
    } else {
        (distance_byte - 28) * 8192 + 16385 + extra
    }
}

/// The number of extra bits after length symbol `length_byte`.
pub fn length_extra_bits(length_byte: u16) -> (n: usize)
    requires
        257 <= length_byte <= 285,
    ensures
        n == length_extra_bits_spec(length_byte as int),
        n <= 5,
{
    let length_byte = length_byte - 257;
    if length_byte == 28 || length_byte < 4 {
        0
    } else {
        ((length_byte - 4) / 4) as usize
    }
}

/// The number of extra bits after distance symbol `distance_byte`.
pub fn distance_extra_bits(distance_byte: u16) -> (n: usize)
    requires
        distance_byte <= 29,
    ensures
        n == distance_extra_bits_spec(distance_byte as int),
        n <= 13,
{
    if distance_byte < 2 {
        0
    } else {
        ((distance_byte - 2) / 2) as usize
    }
}

} // verus!
