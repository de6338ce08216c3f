use vstd::prelude::*;

use crate::bit_reader::{bit_len, lemma_lsb_value_byte, lsb_value, round_up_to_byte, BitReader};
use blocks::uncompressed::stored_block_spec;
use blocks::{lemma_read_block_advances, lemma_read_block_extends, read_block, read_block_spec, try_read_block};

pub mod blocks;
pub mod huffman_dict;
pub mod huffman_tree;
pub mod length_distance;

verus! {

/// Why a DEFLATE stream could not be decoded.
#[derive(Debug, Clone, Copy, PartialEq, Eq, Structural)]
pub enum InflateError {
    /// The stream ends before the data it announces.
    UnexpectedEnd,
    /// A block header names the reserved block type 3.
    ReservedBlockType,
    /// A stored block's length and its one's complement disagree.
    LengthMismatch,
    /// No Huffman code of up to sixteen bits matches the input.
    InvalidSymbol,
    /// A literal/length symbol above 285.
    InvalidLengthSymbol,
    /// A distance symbol above 29.
    InvalidDistanceSymbol,
    /// A back-reference reaches before the start of the output.
    DistanceTooFar,
    /// A code length repeat (symbol 16) with no code length before it.
    RepeatWithoutPrevious,
    /// The code lengths overflow the table they are written to.
    TooManyCodeLengths,
}

/// The output of the blocks from bit `pos` on up to and including the final
/// one, appended to `out`; with the position after the final block.
pub open spec fn inflate_blocks(data: Seq<u8>, pos: int, out: Seq<u8>) -> Result<(int, Seq<u8>), InflateError>
    decreases bit_len(data) - pos,
{
    if pos < 0 || pos > bit_len(data) {
        Err(InflateError::UnexpectedEnd)
    } else {
        match read_block_spec(data, pos, out) {
            Err(e) => Err(e),
            Ok((last, p, out2)) => if last {
                Ok((p, out2))
            } else {
                proof {
                    lemma_read_block_advances(data, pos, out);
                }
                inflate_blocks(data, p, out2)
            },
        }
    }
}

/// The DEFLATE stream at the start of `data` (RFC 1951): the position after
/// its final block, and its output.
pub open spec fn inflate_spec(data: Seq<u8>) -> Result<(int, Seq<u8>), InflateError> {
    inflate_blocks(data, 0, Seq::empty())
}

/// Decompression only appends to the output it starts from: the blocks
/// after the first add to what the first one gave.
pub proof fn lemma_inflate_blocks_extends(data: Seq<u8>, pos: int, out: Seq<u8>)
    ensures
        inflate_blocks(data, pos, out) matches Ok((_, out2)) ==> out.len() <= out2.len() && out2.subrange(
            0,
            out.len() as int,
        ) == out,
    decreases bit_len(data) - pos,
{
    if 0 <= pos <= bit_len(data) {
        lemma_read_block_extends(data, pos, out);
        lemma_read_block_advances(data, pos, out);
        match read_block_spec(data, pos, out) {
            Err(e) => {},
            Ok((last, p, out2)) => {
                if !last {
                    lemma_inflate_blocks_extends(data, p, out2);
                    if let Ok((_, out3)) = inflate_blocks(data, p, out2) {
                        assert(out3.subrange(0, out.len() as int) =~= out2.subrange(0, out.len() as int));
                    }
                }
            },
        }
    }
}

/// A DEFLATE stream made of one final stored block that holds `bytes`:
/// the header byte 1 (BFINAL set, BTYPE 0), LEN and NLEN little-endian,
/// then the bytes.
pub open spec fn stored_stream(bytes: Seq<u8>) -> Seq<u8> {
    let len = bytes.len() as int;
    let nlen = 0xffff - len;
    seq![1u8, (len % 256) as u8, (len / 256) as u8, (nlen % 256) as u8, (nlen / 256) as u8] + bytes
}

/// A final stored block gives back exactly the bytes it holds, and the
/// stream ends after them.
pub proof fn lemma_stored_stream_roundtrip(bytes: Seq<u8>)
    requires
        bytes.len() <= 0xffff,
    ensures
        inflate_spec(stored_stream(bytes)) == Ok::<(int, Seq<u8>), InflateError>(
            (8 * (5 + bytes.len() as int), bytes),
        ),
{
    let data = stored_stream(bytes);
    let len = bytes.len() as int;
    reveal(read_block_spec);
    reveal_with_fuel(lsb_value, 3);
    assert(data[0] == 1u8);
    assert((1u8 >> 0u8) & 1u8 == 1u8 && (1u8 >> 1u8) & 1u8 == 0u8 && (1u8 >> 2u8) & 1u8 == 0u8) by (bit_vector);
    assert(crate::bit_reader::bit_at(data, 0) == 1u8);
    assert(crate::bit_reader::bit_at(data, 1) == 0u8);
    assert(crate::bit_reader::bit_at(data, 2) == 0u8);
    assert(lsb_value(data, 0, 1) == 1);
    assert(lsb_value(data, 1, 2) == 0);
    assert(round_up_to_byte(3) == 8);
    lemma_lsb_value_byte(data, 1);
    lemma_lsb_value_byte(data, 2);
    lemma_lsb_value_byte(data, 3);
    lemma_lsb_value_byte(data, 4);
    assert(data[1] + 256 * data[2] == len);
    assert(data[3] + 256 * data[4] == 0xffff - len);
    assert(data.subrange(5, 5 + len) =~= bytes);
    assert(stored_block_spec(data, 3) == Ok::<(Seq<u8>, int), InflateError>((bytes, 40 + 8 * len)));
    assert(Seq::<u8>::empty() + bytes =~= bytes);
    assert(read_block_spec(data, 0, Seq::empty()) == Ok::<(bool, int, Seq<u8>), InflateError>(
        (true, 40 + 8 * len, bytes),
    ));
}

/// Decompresses the DEFLATE stream at the start of `compressed`; gives the
/// bytes after it (the stream ends at a byte boundary) and its output, or the
/// first fault of the stream. `original_file_size`, where known, is the room
/// to reserve for the output.
pub fn try_read_deflate(compressed: &[u8], original_file_size: Option<usize>) -> (result: Result<
    (&[u8], Vec<u8>),
    InflateError,
>)
    requires
        compressed@.len() * 8 <= usize::MAX,
    ensures
        match inflate_spec(compressed@) {
            Ok((p, out)) => result matches Ok((rest, buf)) && buf@ == out && 0 <= round_up_to_byte(p) / 8
                <= compressed@.len() && rest@ == compressed@.subrange(
                round_up_to_byte(p) / 8,
                compressed@.len() as int,
            ),
            Err(e) => result matches Err(e2) && e2 == e,
        },
{
    let mut reader = BitReader::new(compressed);
    let capacity = match original_file_size {
        Some(n) => n,
        None => 0,
    };
    let mut buf: Vec<u8> = Vec::with_capacity(capacity);
    let ghost data = compressed@;
    assert(buf@ =~= Seq::<u8>::empty());
    loop
        invariant_except_break
            inflate_spec(data) == inflate_blocks(data, reader.position(), buf@),
        invariant
            reader.wf(),
            reader.bits() == data,
            data == compressed@,
        ensures
            reader.wf(),
            reader.bits() == data,
            inflate_spec(data) == Ok::<(int, Seq<u8>), InflateError>((reader.position(), buf@)),
        decreases bit_len(data) - reader.position(),
    {
        let ghost pos = reader.position();
        let ghost before = buf@;
        proof {
            lemma_read_block_advances(data, pos, before);
        }
        let final_block = match try_read_block(&mut reader, &mut buf) {
            Ok(b) => b,
            Err(e) => {
                return Err(e);
            },
        };
        if final_block {
            break;
        }
    }
    let compressed_length = reader.bytes_read();
    assert(compressed_length * 8 <= compressed@.len() * 8);
    Ok((&compressed[compressed_length..compressed.len()], buf))
}

/// Decompresses the DEFLATE stream at the start of `compressed`, which must
/// not be broken (every block is read without fault); gives
/// the bytes after it (the stream ends at a byte boundary) and its output.
/// `original_file_size`, where known, is the room to reserve for the output.
pub fn read_deflate(compressed: &[u8], original_file_size: Option<usize>) -> (result: (&[u8], Vec<u8>))
    requires
        compressed@.len() * 8 <= usize::MAX,
        inflate_spec(compressed@) is Ok,
    ensures
        inflate_spec(compressed@) matches Ok((p, out)) && result.1@ == out && 0 <= round_up_to_byte(p) / 8
            <= compressed@.len() && result.0@ == compressed@.subrange(
            round_up_to_byte(p) / 8,
            compressed@.len() as int,
        ),
{
    let mut reader = BitReader::new(compressed);
    let capacity = match original_file_size {
        Some(n) => n,
        None => 0,
    };
    let mut buf: Vec<u8> = Vec::with_capacity(capacity);
    let ghost data = compressed@;
    assert(buf@ =~= Seq::<u8>::empty());
    loop
        invariant_except_break
            inflate_spec(data) == inflate_blocks(data, reader.position(), buf@),
        invariant
            reader.wf(),
            reader.bits() == data,
            data == compressed@,
            inflate_spec(data) is Ok,
        ensures
            reader.wf(),
            reader.bits() == data,
            inflate_spec(data) == Ok::<(int, Seq<u8>), InflateError>((reader.position(), buf@)),
        decreases bit_len(data) - reader.position(),
    {
        let ghost pos = reader.position();
        let ghost before = buf@;
        proof {
            lemma_read_block_advances(data, pos, before);
        }
        let final_block = read_block(&mut reader, &mut buf);
        if final_block {
            break;
        }
    }
    let compressed_length = reader.bytes_read();
    assert(compressed_length * 8 <= compressed@.len() * 8);
    (&compressed[compressed_length..compressed.len()], buf)
}

} // verus!
