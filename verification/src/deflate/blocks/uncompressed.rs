use vstd::prelude::*;

use crate::bit_reader::{bit_len, lsb_value, round_up_to_byte, BitReader};
use crate::deflate::InflateError;

verus! {

/// The contents of the stored block (RFC 1951, section 3.2.4) whose header
/// bits end at bit `pos`, and the position after it: skip to the byte
/// boundary, read LEN and NLEN (little-endian, sixteen bits each), check that
/// NLEN is the one's complement of LEN, then take LEN bytes.
pub open spec fn stored_block_spec(data: Seq<u8>, pos: int) -> Result<(Seq<u8>, int), InflateError> {
    let p0 = round_up_to_byte(pos);
    if p0 + 32 > bit_len(data) {
        Err(InflateError::UnexpectedEnd)
    } else {
        let len = lsb_value(data, p0, 8) + 256 * lsb_value(data, p0 + 8, 8);
        let nlen = lsb_value(data, p0 + 16, 8) + 256 * lsb_value(data, p0 + 24, 8);
        let start = (p0 + 32) / 8;
        if len + nlen != 0xffff {
            Err(InflateError::LengthMismatch)
        } else if start + len > data.len() {
            Err(InflateError::UnexpectedEnd)
        } else {
            Ok((data.subrange(start, start + len), p0 + 32 + 8 * len))
        }
    }
}

pub proof fn lemma_stored_block_advances(data: Seq<u8>, pos: int)
    requires
        0 <= pos <= bit_len(data),
    ensures
        stored_block_spec(data, pos) matches Ok((_, p)) ==> pos < p <= bit_len(data),
{
    let p0 = round_up_to_byte(pos);
    assert(p0 % 8 == 0 && pos <= p0);
    if p0 + 32 <= bit_len(data) {
        let len = lsb_value(data, p0, 8) + 256 * lsb_value(data, p0 + 8, 8);
        let start = (p0 + 32) / 8;
        assert(start * 8 == p0 + 32);
        if start + len <= data.len() {
            assert(p0 + 32 + 8 * len == 8 * (start + len));
            assert(8 * (start + len) <= 8 * data.len());
        }
    }
}

/// Reads a stored block: the bytes it holds, borrowed from the input; or the
/// first fault of the block.
pub fn try_read_uncompressed<'a, 'b>(reader: &'b mut BitReader<'a>) -> (data: Result<&'a [u8], InflateError>)
    requires
        old(reader).wf(),
    ensures
        final(reader).wf(),
        final(reader).bits() == old(reader).bits(),
        match stored_block_spec(old(reader).bits(), old(reader).position()) {
            Ok((bytes, p)) => data matches Ok(d) && d@ == bytes && final(reader).position() == p,
            Err(e) => data == Err::<&'a [u8], InflateError>(e),
        },
{
    reader.read_until_byte_boundry();
    if !reader.has_bits(32) {
        return Err(InflateError::UnexpectedEnd);
    }
    let len = reader.read_u16();
    let nlen = reader.read_u16();
    proof {
        vstd::arithmetic::power2::lemma2_to64();
        crate::bit_reader::lemma_lsb_value_bound(reader.bits(), reader.position() - 32, 8);
        crate::bit_reader::lemma_lsb_value_bound(reader.bits(), reader.position() - 24, 8);
        crate::bit_reader::lemma_lsb_value_bound(reader.bits(), reader.position() - 16, 8);
        crate::bit_reader::lemma_lsb_value_bound(reader.bits(), reader.position() - 8, 8);
    }
    if len + nlen != 0xffff {
        return Err(InflateError::LengthMismatch);
    }
    let start = reader.pos() / 8;
    if len > reader.byte_len() - start {
        return Err(InflateError::UnexpectedEnd);
    }
    let data = reader.read_bytes(len);
    Ok(data)
}

/// Reads a sound stored block: the bytes it holds, borrowed from the input.
pub fn read_uncompressed<'a, 'b>(reader: &'b mut BitReader<'a>) -> (data: &'a [u8])
    requires
        old(reader).wf(),
        stored_block_spec(old(reader).bits(), old(reader).position()) is Ok,
    ensures
        final(reader).wf(),
        final(reader).bits() == old(reader).bits(),
        stored_block_spec(old(reader).bits(), old(reader).position()) matches Ok((bytes, p)) && data@ == bytes
            && final(reader).position() == p,
{
    match try_read_uncompressed(reader) {
        Ok(d) => d,
        Err(_) => {
            proof {
                assert(false);
            }
            &[]
        },
    }
}

} // verus!
