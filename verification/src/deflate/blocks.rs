use vstd::prelude::*;

use crate::bit_reader::{bit_len, lsb_value, BitReader};
use crate::deflate::huffman_tree::{
    code_table, decode_symbol_spec, lemma_decode_symbol_advances, HuffmanTree, LiteralDistanceTrees,
};
use crate::deflate::length_distance::{length_distance_spec, try_decode_length_distance, LengthDistance};
use crate::deflate::InflateError;
use dynamic_huffman::{
    dynamic_tables_spec, lemma_dynamic_tables_advances, read_dynamic_huffman, try_read_dynamic_huffman,
};
use fixed_huffman::{fixed_distance_lengths, fixed_huffman_tree, fixed_literal_lengths};
use uncompressed::{lemma_stored_block_advances, read_uncompressed, stored_block_spec, try_read_uncompressed};

pub mod dynamic_huffman;
pub mod fixed_huffman;
pub mod uncompressed;

verus! {

/// `out` followed by `length` bytes copied from `distance` bytes before its
/// end; the copy may overlap the bytes it appends (RFC 1951, section 3.2.3).
pub open spec fn copy_match(out: Seq<u8>, length: int, distance: int) -> Seq<u8> {
    out + Seq::new(length as nat, |i: int| out[out.len() - distance + i % distance])
}

/// A back-reference appends bytes one at a time, each a copy of the byte
/// `distance` places before it (RFC 1951, section 3.2.3): the copy may read
/// bytes it has itself just written.
pub proof fn lemma_copy_match_repeats(out: Seq<u8>, length: int, distance: int)
    requires
        0 <= length,
        1 <= distance <= out.len(),
    ensures
        copy_match(out, length, distance).len() == out.len() + length,
        copy_match(out, length, distance).subrange(0, out.len() as int) == out,
        forall|k: int|
            out.len() <= k < out.len() + length ==> #[trigger] copy_match(out, length, distance)[k] == copy_match(
                out,
                length,
                distance,
            )[k - distance],
{
    let r = copy_match(out, length, distance);
    assert(r.subrange(0, out.len() as int) =~= out);
    assert forall|k: int| out.len() <= k < out.len() + length implies #[trigger] r[k] == r[k - distance] by {
        let i = k - out.len();
        if i >= distance {
            assert((i - distance) % distance == i % distance) by {
                vstd::arithmetic::div_mod::lemma_mod_sub_multiples_vanish(i, distance);
            }
        } else {
            assert(i % distance == i) by {
                vstd::arithmetic::div_mod::lemma_small_mod(i as nat, distance as nat);
            }
        }
    }
}

pub proof fn lemma_length_distance_advances(table: Map<(u16, u16), u16>, data: Seq<u8>, pos: int, symbol: u16)
    requires
        0 <= pos <= bit_len(data),
    ensures
        length_distance_spec(table, data, pos, symbol) matches Ok((_, _, p)) ==> pos < p <= bit_len(data),
{
    if 257 <= symbol <= 285 {
        let p1 = pos + crate::deflate::length_distance::length_extra_bits_spec(symbol as int);
        lemma_decode_symbol_advances(table, data, p1);
    }
}

/// The output of the compressed data that starts at bit `pos`, decoded
/// with the literal/length table `literals` and the distance table
/// `distances` and appended to `out`, up to the end-of-block symbol 256;
/// with the position after it.
pub open spec fn inflate_symbols(
    literals: Map<(u16, u16), u16>,
    distances: Map<(u16, u16), u16>,
    data: Seq<u8>,
    pos: int,
    out: Seq<u8>,
) -> Result<(int, Seq<u8>), InflateError>
    decreases bit_len(data) - pos,
{
    if pos < 0 || pos > bit_len(data) {
        Err(InflateError::UnexpectedEnd)
    } else {
        match decode_symbol_spec(literals, data, pos) {
            Err(e) => Err(e),
            Ok((symbol, p)) => {
                proof {
                    lemma_decode_symbol_advances(literals, data, pos);
                }
                if symbol < 256 {
                    inflate_symbols(literals, distances, data, p, out.push(symbol as u8))
                } else if symbol == 256 {
                    Ok((p, out))
                } else {
                    match length_distance_spec(distances, data, p, symbol) {
                        Err(e) => Err(e),
                        Ok((length, distance, p2)) => if distance > out.len() {
                            Err(InflateError::DistanceTooFar)
                        } else {
                            proof {
                                lemma_length_distance_advances(distances, data, p, symbol);
                            }
                            inflate_symbols(literals, distances, data, p2, copy_match(out, length, distance))
                        },
                    }
                }
            },
        }
    }
}

pub proof fn lemma_inflate_symbols_advances(
    literals: Map<(u16, u16), u16>,
    distances: Map<(u16, u16), u16>,
    data: Seq<u8>,
    pos: int,
    out: Seq<u8>,
)
    ensures
        inflate_symbols(literals, distances, data, pos, out) matches Ok((p, _)) ==> pos < p <= bit_len(data),
    decreases bit_len(data) - pos,
{
    if 0 <= pos <= bit_len(data) {
        lemma_decode_symbol_advances(literals, data, pos);
        match decode_symbol_spec(literals, data, pos) {
            Err(e) => {},
            Ok((symbol, p)) => {
                if symbol < 256 {
                    lemma_inflate_symbols_advances(literals, distances, data, p, out.push(symbol as u8));
                } else if symbol > 256 {
                    lemma_length_distance_advances(distances, data, p, symbol);
                    match length_distance_spec(distances, data, p, symbol) {
                        Err(e) => {},
                        Ok((length, distance, p2)) => {
                            if distance <= out.len() {
                                lemma_inflate_symbols_advances(
                                    literals,
                                    distances,
                                    data,
                                    p2,
                                    copy_match(out, length, distance),
                                );
                            }
                        },
                    }
                }
            },
        }
    }
}

/// Decoding symbols only appends to the output: what was there stays.
pub proof fn lemma_inflate_symbols_extends(
    literals: Map<(u16, u16), u16>,
    distances: Map<(u16, u16), u16>,
    data: Seq<u8>,
    pos: int,
    out: Seq<u8>,
)
    ensures
        inflate_symbols(literals, distances, data, pos, out) matches Ok((_, out2)) ==> out.len() <= out2.len()
            && out2.subrange(0, out.len() as int) == out,
    decreases bit_len(data) - pos,
{
    if 0 <= pos <= bit_len(data) {
        lemma_decode_symbol_advances(literals, data, pos);
        match decode_symbol_spec(literals, data, pos) {
            Err(e) => {},
            Ok((symbol, p)) => {
                if symbol < 256 {
                    let next = out.push(symbol as u8);
                    lemma_inflate_symbols_extends(literals, distances, data, p, next);
                    if let Ok((_, out2)) = inflate_symbols(literals, distances, data, p, next) {
                        assert(out2.subrange(0, out.len() as int) =~= next.subrange(0, out.len() as int));
                        assert(next.subrange(0, out.len() as int) =~= out);
                    }
                } else if symbol == 256 {
                    assert(out.subrange(0, out.len() as int) =~= out);
                } else {
                    lemma_length_distance_advances(distances, data, p, symbol);
                    match length_distance_spec(distances, data, p, symbol) {
                        Err(e) => {},
                        Ok((length, distance, p2)) => {
                            if distance <= out.len() {
                                let next = copy_match(out, length, distance);
                                lemma_inflate_symbols_extends(literals, distances, data, p2, next);
                                if let Ok((_, out2)) = inflate_symbols(literals, distances, data, p2, next) {
                                    assert(out2.subrange(0, out.len() as int) =~= next.subrange(0, out.len() as int));
                                    assert(next.subrange(0, out.len() as int) =~= out);
                                }
                            }
                        },
                    }
                }
            },
        }
    }
}

/// The block that starts at bit `pos`, appended to `out`: whether it is the
/// final block, the position after it, and the output (RFC 1951, section
/// 3.2.3): one bit BFINAL, two bits BTYPE, then a stored block (0), a block
/// with fixed codes (1) or one with dynamic codes (2).
#[verifier::opaque]
pub open spec fn read_block_spec(data: Seq<u8>, pos: int, out: Seq<u8>) -> Result<(bool, int, Seq<u8>), InflateError> {
    if pos + 3 > bit_len(data) {
        Err(InflateError::UnexpectedEnd)
    } else {
        let bfinal = lsb_value(data, pos, 1) == 1;
        let btype = lsb_value(data, pos + 1, 2);
        let p = pos + 3;
        if btype == 0 {
            match stored_block_spec(data, p) {
                Err(e) => Err(e),
                Ok((bytes, p2)) => Ok((bfinal, p2, out + bytes)),
            }
        } else if btype == 1 {
            match inflate_symbols(
                code_table(fixed_literal_lengths()),
                code_table(fixed_distance_lengths()),
                data,
                p,
                out,
            ) {
                Err(e) => Err(e),
                Ok((p2, out2)) => Ok((bfinal, p2, out2)),
            }
        } else if btype == 2 {
            match dynamic_tables_spec(data, p) {
                Err(e) => Err(e),
                Ok((literals, distances, p2)) => match inflate_symbols(literals, distances, data, p2, out) {
                    Err(e) => Err(e),
                    Ok((p3, out2)) => Ok((bfinal, p3, out2)),
                },
            }
        } else {
            Err(InflateError::ReservedBlockType)
        }
    }
}

/// A block takes at least its three header bits.
pub proof fn lemma_read_block_advances(data: Seq<u8>, pos: int, out: Seq<u8>)
    requires
        0 <= pos <= bit_len(data),
    ensures
        read_block_spec(data, pos, out) matches Ok((_, p, _)) ==> pos + 3 <= p <= bit_len(data),
{
    reveal(read_block_spec);
    if pos + 3 <= bit_len(data) {
        let p = pos + 3;
        lemma_stored_block_advances(data, p);
        lemma_inflate_symbols_advances(
            code_table(fixed_literal_lengths()),
            code_table(fixed_distance_lengths()),
            data,
            p,
            out,
        );
        lemma_dynamic_tables_advances(data, p);
        match dynamic_tables_spec(data, p) {
            Err(e) => {},
            Ok((literals, distances, p2)) => {
                lemma_inflate_symbols_advances(literals, distances, data, p2, out);
            },
        }
    }
}

/// A block only appends to the output: what was decoded before stays.
pub proof fn lemma_read_block_extends(data: Seq<u8>, pos: int, out: Seq<u8>)
    ensures
        read_block_spec(data, pos, out) matches Ok((_, _, out2)) ==> out.len() <= out2.len() && out2.subrange(
            0,
            out.len() as int,
        ) == out,
{
    reveal(read_block_spec);
    if pos + 3 <= bit_len(data) {
        let p = pos + 3;
        match stored_block_spec(data, p) {
            Err(e) => {},
            Ok((bytes, p2)) => {
                assert((out + bytes).subrange(0, out.len() as int) =~= out);
            },
        }
        lemma_inflate_symbols_extends(
            code_table(fixed_literal_lengths()),
            code_table(fixed_distance_lengths()),
            data,
            p,
            out,
        );
        match dynamic_tables_spec(data, p) {
            Err(e) => {},
            Ok((literals, distances, p2)) => {
                lemma_inflate_symbols_extends(literals, distances, data, p2, out);
            },
        }
    }
}

/// Reads one block and appends its output to `buf`; says whether it was the
/// final block, or gives the first fault of the block.
pub fn try_read_block(reader: &mut BitReader, buf: &mut Vec<u8>) -> (bfinal: Result<bool, InflateError>)
    requires
        old(reader).wf(),
    ensures
        final(reader).wf(),
        final(reader).bits() == old(reader).bits(),
        match read_block_spec(old(reader).bits(), old(reader).position(), old(buf)@) {
            Ok((last, p, out)) => bfinal == Ok::<bool, InflateError>(last) && final(reader).position() == p
                && final(buf)@ == out,
            Err(e) => bfinal == Err::<bool, InflateError>(e),
        },
{
    proof {
        reveal(read_block_spec);
    }
    if !reader.has_bits(3) {
        return Err(InflateError::UnexpectedEnd);
    }
    let ghost p0 = reader.position();
    let bfinal = reader.read_bool();
    let block_type = reader.read_n_bits(2);
    proof {
        reveal_with_fuel(lsb_value, 2);
    }
    if block_type == 0 {
        let data = match try_read_uncompressed(reader) {
            Ok(d) => d,
            Err(e) => {
                return Err(e);
            },
        };
        buf.extend_from_slice(data);
        proof {
            assert(buf@ =~= old(buf)@ + data@);
        }
    } else if block_type == 1 {
        let (literal_length, distance) = fixed_huffman_tree();
        let trees = LiteralDistanceTrees { literal_length, distance };
        match try_read_compressed_block(reader, buf, trees) {
            Ok(()) => {},
            Err(e) => {
                return Err(e);
            },
        }
    } else if block_type == 2 {
        let (literal_length, distance) = match try_read_dynamic_huffman(reader) {
            Ok(t) => t,
            Err(e) => {
                return Err(e);
            },
        };
        let trees = LiteralDistanceTrees { literal_length, distance };
        match try_read_compressed_block(reader, buf, trees) {
            Ok(()) => {},
            Err(e) => {
                return Err(e);
            },
        }
    } else {
        return Err(InflateError::ReservedBlockType);
    }
    Ok(bfinal)
}

/// Decodes the symbols of a compressed block up to its end-of-block symbol,
/// appending the output to `buf`; or gives the first fault of the data.
fn try_read_compressed_block(reader: &mut BitReader, buf: &mut Vec<u8>, trees: LiteralDistanceTrees) -> (r: Result<(), InflateError>)
    requires
        old(reader).wf(),
    ensures
        final(reader).wf(),
        final(reader).bits() == old(reader).bits(),
        match inflate_symbols(
            trees.literal_length.table(),
            trees.distance.table(),
            old(reader).bits(),
            old(reader).position(),
            old(buf)@,
        ) {
            Ok((p, out)) => r == Ok::<(), InflateError>(()) && final(reader).position() == p && final(buf)@ == out,
            Err(e) => r == Err::<(), InflateError>(e),
        },
{
    let LiteralDistanceTrees { literal_length, distance } = trees;
    let ghost literals = literal_length.table();
    let ghost distances = distance.table();
    let ghost data = reader.bits();
    let ghost start = reader.position();
    let ghost out0 = buf@;
    loop
        invariant
            reader.wf(),
            reader.bits() == data,
            data == old(reader).bits(),
            start == old(reader).position(),
            out0 == old(buf)@,
            literals == literal_length.table(),
            distances == distance.table(),
            literals == trees.literal_length.table(),
            distances == trees.distance.table(),
            inflate_symbols(literals, distances, data, start, out0) == inflate_symbols(
                literals,
                distances,
                data,
                reader.position(),
                buf@,
            ),
        decreases bit_len(data) - reader.position(),
    {
        let ghost pos = reader.position();
        proof {
            lemma_decode_symbol_advances(literals, data, pos);
        }
        let value = match literal_length.try_decode_symbol(reader) {
            Ok(v) => v,
            Err(e) => {
                return Err(e);
            },
        };
        if value < 256 {
            buf.push(value as u8);
        } else if value == 256 {
            return Ok(());
        } else {
            let ghost p = reader.position();
            proof {
                lemma_length_distance_advances(distances, data, p, value);
            }
            let LengthDistance { length, distance: dist } = match try_decode_length_distance(reader, &distance, value) {
                Ok(ld) => ld,
                Err(e) => {
                    return Err(e);
                },
            };
            if dist > buf.len() {
                return Err(InflateError::DistanceTooFar);
            }
            let ghost before = buf@;
            let source = buf.len() - dist;
            let mut i: usize = 0;
            while i < length
                invariant
                    i <= length,
                    dist >= 1,
                    source + dist == before.len(),
                    before.len() <= usize::MAX,
                    buf@.len() == before.len() + i,
                    buf@ =~= copy_match(before, i as int, dist as int),
                decreases length - i,
            {
                assert(i % dist < dist);
                let byte = buf[source + i % dist];
                buf.push(byte);
                i += 1;
            }
        }
    }
}

/// Reads one block that is not broken (not cut short, not of the reserved
/// type, with valid codes, lengths and back-references) and appends its
/// output to `buf`; says whether it was the final block.
pub fn read_block(reader: &mut BitReader, buf: &mut Vec<u8>) -> (bfinal: bool)
    requires
        old(reader).wf(),
        read_block_spec(old(reader).bits(), old(reader).position(), old(buf)@) is Ok,
    ensures
        final(reader).wf(),
        final(reader).bits() == old(reader).bits(),
        read_block_spec(old(reader).bits(), old(reader).position(), old(buf)@) matches Ok((last, p, out))
            && bfinal == last && final(reader).position() == p && final(buf)@ == out,
{
    proof {
        reveal(read_block_spec);
    }
    let bfinal = reader.read_bool();
    let block_type = reader.read_n_bits(2);
    proof {
        reveal_with_fuel(lsb_value, 2);
    }
    if block_type == 0 {
        let data = read_uncompressed(reader);
        buf.extend_from_slice(data);
        proof {
            assert(buf@ =~= old(buf)@ + data@);
        }
    } else if block_type == 1 {
        let (literal_length, distance) = fixed_huffman_tree();
        let trees = LiteralDistanceTrees { literal_length, distance };
        read_compressed_block(reader, buf, trees);
    } else {
        let (literal_length, distance) = read_dynamic_huffman(reader);
        let trees = LiteralDistanceTrees { literal_length, distance };
        read_compressed_block(reader, buf, trees);
    }
    bfinal
}

/// Decodes the symbols of a sound compressed block up to its end-of-block
/// symbol, appending the output to `buf`.
fn read_compressed_block(reader: &mut BitReader, buf: &mut Vec<u8>, trees: LiteralDistanceTrees)
    requires
        old(reader).wf(),
        inflate_symbols(
            trees.literal_length.table(),
            trees.distance.table(),
            old(reader).bits(),
            old(reader).position(),
            old(buf)@,
        ) is Ok,
    ensures
        final(reader).wf(),
        final(reader).bits() == old(reader).bits(),
        inflate_symbols(
            trees.literal_length.table(),
            trees.distance.table(),
            old(reader).bits(),
            old(reader).position(),
            old(buf)@,
        ) matches Ok((p, out)) && final(reader).position() == p && final(buf)@ == out,
{
    let _ = try_read_compressed_block(reader, buf, trees);
}

} // verus!
