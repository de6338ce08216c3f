use vstd::prelude::*;
use vstd::utf8::{decode_utf8, valid_utf8};

use crate::bit_reader::round_up_to_byte;
use crate::deflate::{inflate_spec, try_read_deflate, InflateError};
use crate::text::string_from_utf8;

verus! {

/// The four bytes of `s` from `i` on, read as a little-endian number.
pub open spec fn le_u32_at(s: Seq<u8>, i: int) -> u32 {
    (s[i] as int + 256 * s[i + 1] as int + 65536 * s[i + 2] as int + 16777216 * s[i + 3] as int) as u32
}

/// The CRC register after one more byte: the byte is xored in, then the
/// register is shifted right eight times, xoring the reflected polynomial
/// 0xEDB88320 in after each bit that falls out set.
pub open spec fn crc32_shift(c: u32, k: nat) -> u32
    decreases k,
{
    if k == 0 {
        c
    } else {
        crc32_shift(
            if c & 1u32 == 1u32 {
                (c >> 1u32) ^ 0xEDB88320u32
            } else {
                c >> 1u32
            },
            (k - 1) as nat,
        )
    }
}

/// The CRC register after the bytes of `bytes`, starting from `crc`.
pub open spec fn crc32_update(crc: u32, bytes: Seq<u8>) -> u32
    decreases bytes.len(),
{
    if bytes.len() == 0 {
        crc
    } else {
        crc32_shift(crc32_update(crc, bytes.drop_last()) ^ (bytes.last() as u32), 8)
    }
}

/// The CRC-32 of `bytes` (ISO 3309, as gzip uses it): register preset to
/// all ones, complemented at the end.
pub open spec fn crc32_spec(bytes: Seq<u8>) -> u32 {
    !crc32_update(0xFFFF_FFFFu32, bytes)
}

/// `crc32fast::hash`: the CRC-32 of `bytes`.
#[verifier::external_body]
fn crc32_hash(bytes: &[u8]) -> (crc: u32)
    ensures
        crc == crc32_spec(bytes@),
{
    crc32fast::hash(bytes)
}

/// The position of the first zero byte of `s` at or after `from`.
pub open spec fn first_zero_from(s: Seq<u8>, from: int) -> Option<int>
    decreases s.len() - from,
{
    if from < 0 || from >= s.len() {
        None
    } else if s[from] == 0 {
        Some(from)
    } else {
        first_zero_from(s, from + 1)
    }
}

/// Why a gzip member could not be read.
#[derive(Debug, Clone, Copy, PartialEq, Eq, Structural)]
pub enum GzipError {
    /// The input does not start with the bytes 31, 139.
    BadMagic,
    /// The input ends inside the header.
    UnexpectedEnd,
    /// The compression method is not 8 (deflate).
    UnsupportedMethod,
    /// The header has extra fields, a comment or a header CRC, which are not read.
    UnsupportedFlags,
    /// Fewer than the eight bytes of the trailer follow the header.
    MissingTrailer,
    /// The compressed data could not be decompressed.
    Inflate(InflateError),
    /// The compressed data ends before the trailer.
    TrailingData,
    /// The CRC-32 of the output differs from the one in the trailer.
    ChecksumMismatch,
    /// The size of the output differs from the one in the trailer.
    SizeMismatch,
    /// The file name is not valid UTF-8.
    InvalidFilename,
}

/// A decompressed gzip member.
pub struct Gzip {
    /// The original file name, empty where the header holds none.
    pub filename: String,
    /// The decompressed data.
    pub data: Vec<u8>,
    /// The modification time, in seconds since the Unix epoch.
    pub mtime: u32,
}

/// The gzip member that `input` holds (RFC 1952): its file name bytes, its
/// modification time and its decompressed data. The size in the trailer is
/// compared with the length of the output modulo 2^33, where RFC 1952 takes
/// it modulo 2^32; the two differ only for outputs of 4 GiB or more.
pub open spec fn gzip_spec(input: Seq<u8>) -> Result<(Seq<u8>, u32, Seq<u8>), GzipError> {
    if input.len() < 2 || input[0] != 31 || input[1] != 139 {
        Err(GzipError::BadMagic)
    } else if input.len() < 3 {
        Err(GzipError::UnexpectedEnd)
    } else if input[2] != 8 {
        Err(GzipError::UnsupportedMethod)
    } else if input.len() < 10 {
        Err(GzipError::UnexpectedEnd)
    } else {
        let flg = input[3];
        let mtime = le_u32_at(input, 4);
        let fextra = (flg >> 2u8) & 1u8 == 1u8;
        let fname = (flg >> 3u8) & 1u8 == 1u8;
        let fcomment = (flg >> 4u8) & 1u8 == 1u8;
        let fhcrc = (flg >> 1u8) & 1u8 == 1u8;
        if fextra {
            Err(GzipError::UnsupportedFlags)
        } else if fname && first_zero_from(input, 10) is None {
            Err(GzipError::UnexpectedEnd)
        } else {
            let name = if fname {
                input.subrange(10, first_zero_from(input, 10)->0)
            } else {
                Seq::empty()
            };
            let pos = if fname {
                first_zero_from(input, 10)->0 + 1
            } else {
                10
            };
            if fcomment || fhcrc {
                Err(GzipError::UnsupportedFlags)
            } else if input.len() - pos < 8 {
                Err(GzipError::MissingTrailer)
            } else {
                let body = input.subrange(pos, input.len() - 8);
                let crc = le_u32_at(input, input.len() - 8);
                let isize = le_u32_at(input, input.len() - 4);
                match inflate_spec(body) {
                    Err(e) => Err(GzipError::Inflate(e)),
                    Ok((p, out)) => if round_up_to_byte(p) / 8 != body.len() {
                        Err(GzipError::TrailingData)
                    } else if crc32_spec(out) != crc {
                        Err(GzipError::ChecksumMismatch)
                    } else if isize as int != out.len() as int % 0x2_0000_0000 {
                        Err(GzipError::SizeMismatch)
                    } else if !valid_utf8(name) {
                        Err(GzipError::InvalidFilename)
                    } else {
                        Ok((name, mtime, out))
                    },
                }
            }
        }
    }
}

/// The four bytes of `x`, least significant first.
pub open spec fn le_bytes(x: u32) -> Seq<u8> {
    seq![(x % 256) as u8, ((x / 256) % 256) as u8, ((x / 65536) % 256) as u8, (x / 16777216) as u8]
}

/// A gzip member without optional header fields (RFC 1952, section 2.3):
/// ID1 ID2 = 31 139, CM = 8, FLG = 0, MTIME, XFL = 0, OS = 255, the
/// compressed data, then CRC32 and ISIZE, little-endian.
pub open spec fn plain_member(mtime: u32, body: Seq<u8>, crc: u32, isize: u32) -> Seq<u8> {
    seq![31u8, 139, 8, 0] + le_bytes(mtime) + seq![0u8, 255] + body + le_bytes(crc) + le_bytes(isize)
}

proof fn lemma_le_bytes(x: u32)
    ensures
        (x % 256) as u8 as int + 256 * ((x / 256) % 256) as u8 as int + 65536 * ((x / 65536) % 256) as u8 as int
            + 16777216 * (x / 16777216) as u8 as int == x as int,
{
    assert((x % 256) as u8 as int + 256 * ((x / 256) % 256) as u8 as int + 65536 * ((x / 65536) % 256) as u8 as int
        + 16777216 * (x / 16777216) as u8 as int == x as int) by (bit_vector);
}

/// A member whose compressed data is a DEFLATE stream that ends with the
/// data, and whose trailer holds the CRC-32 of the output and its length,
/// is read back as that output with its modification time, for every output
/// shorter than 4 GiB: a trailer with the CRC-32 and the length of the
/// output is accepted, whatever that length is.
pub proof fn lemma_plain_member_read(mtime: u32, body: Seq<u8>, p: int, out: Seq<u8>)
    requires
        inflate_spec(body) == Ok::<(int, Seq<u8>), InflateError>((p, out)),
        round_up_to_byte(p) / 8 == body.len(),
        out.len() < 0x1_0000_0000,
    ensures
        gzip_spec(plain_member(mtime, body, crc32_spec(out), out.len() as u32)) == Ok::<
            (Seq<u8>, u32, Seq<u8>),
            GzipError,
        >((Seq::empty(), mtime, out)),
{
    let crc = crc32_spec(out);
    let size = out.len() as u32;
    let input = plain_member(mtime, body, crc, size);
    let n = input.len();
    assert(n == 18 + body.len());
    assert(input[0] == 31u8 && input[1] == 139u8 && input[2] == 8u8 && input[3] == 0u8);
    let flg = input[3];
    assert((flg >> 1u8) & 1u8 != 1u8 && (flg >> 2u8) & 1u8 != 1u8 && (flg >> 3u8) & 1u8 != 1u8 && (flg >> 4u8)
        & 1u8 != 1u8) by (bit_vector)
        requires
            flg == 0u8,
    ;
    lemma_le_bytes(mtime);
    lemma_le_bytes(crc);
    lemma_le_bytes(size);
    assert(le_u32_at(input, 4) == mtime);
    assert(input.subrange(10, n - 8) =~= body);
    assert(le_u32_at(input, n - 8) == crc);
    assert(le_u32_at(input, n - 4) == size);
    assert(valid_utf8(Seq::<u8>::empty()));
}

/// A gzip member with a file name and no other optional field: as
/// `plain_member`, with FLG = FNAME and the zero-terminated name after the
/// header.
pub open spec fn named_member(mtime: u32, name: Seq<u8>, body: Seq<u8>, crc: u32, isize: u32) -> Seq<u8> {
    seq![31u8, 139, 8, 8] + le_bytes(mtime) + seq![0u8, 255] + name + seq![0u8] + body + le_bytes(crc) + le_bytes(
        isize,
    )
}

proof fn lemma_first_zero_after(s: Seq<u8>, from: int, end: int)
    requires
        0 <= from <= end < s.len(),
        s[end] == 0,
        forall|k: int| from <= k < end ==> s[k] != 0,
    ensures
        first_zero_from(s, from) == Some(end),
    decreases end - from,
{
    if from < end {
        lemma_first_zero_after(s, from + 1, end);
    }
}

/// A member whose header names a file, with a name of UTF-8 bytes without a
/// zero byte, and whose trailer holds the CRC-32 and the length of the
/// output, is read back with that name, its modification time and the
/// output, for every output shorter than 4 GiB.
pub proof fn lemma_named_member_read(mtime: u32, name: Seq<u8>, body: Seq<u8>, p: int, out: Seq<u8>)
    requires
        forall|k: int| 0 <= k < name.len() ==> name[k] != 0,
        valid_utf8(name),
        inflate_spec(body) == Ok::<(int, Seq<u8>), InflateError>((p, out)),
        round_up_to_byte(p) / 8 == body.len(),
        out.len() < 0x1_0000_0000,
    ensures
        gzip_spec(named_member(mtime, name, body, crc32_spec(out), out.len() as u32)) == Ok::<
            (Seq<u8>, u32, Seq<u8>),
            GzipError,
        >((name, mtime, out)),
{
    let crc = crc32_spec(out);
    let size = out.len() as u32;
    let input = named_member(mtime, name, body, crc, size);
    let n = input.len();
    let e: int = name.len() + 10int;
    assert(n == 19 + name.len() + body.len());
    assert(input[0] == 31u8 && input[1] == 139u8 && input[2] == 8u8 && input[3] == 8u8);
    let flg = input[3];
    assert((flg >> 1u8) & 1u8 != 1u8 && (flg >> 2u8) & 1u8 != 1u8 && (flg >> 3u8) & 1u8 == 1u8 && (flg >> 4u8)
        & 1u8 != 1u8) by (bit_vector)
        requires
            flg == 8u8,
    ;
    assert forall|k: int| 10 <= k < e implies input[k] != 0 by {
        assert(input[k] == name[k - 10]);
    }
    assert(input[e] == 0);
    lemma_first_zero_after(input, 10, e);
    assert(input.subrange(10, e) =~= name);
    lemma_le_bytes(mtime);
    lemma_le_bytes(crc);
    lemma_le_bytes(size);
    assert(le_u32_at(input, 4) == mtime);
    assert(input.subrange(e + 1, n - 8) =~= body);
    assert(le_u32_at(input, n - 8) == crc);
    assert(le_u32_at(input, n - 4) == size);
}

/// The four bytes of `s` from `i` on, read as a little-endian number.
fn le_u32(s: &[u8], i: usize) -> (v: u32)
    requires
        i + 4 <= s@.len(),
    ensures
        v == le_u32_at(s@, i as int),
{
    s[i] as u32 + 256 * (s[i + 1] as u32) + 65536 * (s[i + 2] as u32) + 16777216 * (s[i + 3] as u32)
}

/// Reads a gzip member: checks the header, decompresses the data, and checks
/// the CRC-32 and the size in the trailer. Gives the input after the
/// compressed data (which is empty) and the member, or the first fault of
/// the member.
pub fn try_read_gzip(input: &[u8]) -> (result: Result<(&[u8], Gzip), GzipError>)
    requires
        input@.len() * 8 <= usize::MAX,
    ensures
        match gzip_spec(input@) {
            Ok((name, mtime, data)) => result matches Ok((rest, gzip)) && rest@.len() == 0
                && gzip.filename@ == decode_utf8(name) && gzip.mtime == mtime && gzip.data@ == data,
            Err(e) => result matches Err(e2) && e2 == e,
        },
{
    let len = input.len();
    if len < 2 || input[0] != 31 || input[1] != 139 {
        return Err(GzipError::BadMagic);
    }
    if len < 3 {
        return Err(GzipError::UnexpectedEnd);
    }
    let cm = input[2];
    if cm != 8 {
        return Err(GzipError::UnsupportedMethod);
    }
    if len < 10 {
        return Err(GzipError::UnexpectedEnd);
    }
    let flg = input[3];
    let fhcrc = (flg >> 1u8) & 1u8 == 1u8;
    let fextra = (flg >> 2u8) & 1u8 == 1u8;
    let fname = (flg >> 3u8) & 1u8 == 1u8;
    let fcomment = (flg >> 4u8) & 1u8 == 1u8;
    let mtime = le_u32(input, 4);
    if fextra {
        return Err(GzipError::UnsupportedFlags);
    }
    let mut name_end: usize = 10;
    let mut pos: usize = 10;
    if fname {
        let mut i: usize = 10;
        while i < len && input[i] != 0
            invariant
                10 <= i <= len,
                len == input@.len(),
                first_zero_from(input@, 10) == first_zero_from(input@, i as int),
            decreases len - i,
        {
            i += 1;
        }
        if i == len {
            return Err(GzipError::UnexpectedEnd);
        }
        name_end = i;
        pos = i + 1;
    }
    let name = &input[10..name_end];
    if fcomment || fhcrc {
        return Err(GzipError::UnsupportedFlags);
    }
    if len - pos < 8 {
        return Err(GzipError::MissingTrailer);
    }
    let body = &input[pos..len - 8];
    let crc32 = le_u32(input, len - 8);
    let isize = le_u32(input, len - 4);
    let (rest, decompressed) = match try_read_deflate(body, Some(isize as usize)) {
        Ok(r) => r,
        Err(e) => {
            return Err(GzipError::Inflate(e));
        },
    };
    if rest.len() != 0 {
        return Err(GzipError::TrailingData);
    }
    let calculated_crc = crc32_hash(decompressed.as_slice());
    if calculated_crc != crc32 {
        return Err(GzipError::ChecksumMismatch);
    }
    if (decompressed.len() as u64) % 0x2_0000_0000u64 != isize as u64 {
        return Err(GzipError::SizeMismatch);
    }
    let filename = match string_from_utf8(name) {
        Some(s) => s,
        None => {
            return Err(GzipError::InvalidFilename);
        },
    };
    Ok((rest, Gzip { filename, data: decompressed, mtime }))
}

/// Whether a gzip member is read without fault, or fails only where the
/// input does not start with the gzip magic bytes or ends inside the header:
/// every other fault (another compression method, optional fields that are
/// not read, no room for the trailer, broken compressed data, data after it,
/// a wrong CRC-32 or size, a file name that is not UTF-8) is a broken member.
pub open spec fn gzip_readable(input: Seq<u8>) -> bool {
    match gzip_spec(input) {
        Ok(_) => true,
        Err(e) => e == GzipError::BadMagic || e == GzipError::UnexpectedEnd,
    }
}

/// Reads a gzip member that is not broken: checks the header, decompresses
/// the data, and checks the CRC-32 and the size in the trailer. Gives the
/// input after the compressed data (which is empty) and the member; the only
/// failures left are missing magic bytes and a header cut short.
pub fn read_gzip(input: &[u8]) -> (result: Result<(&[u8], Gzip), GzipError>)
    requires
        input@.len() * 8 <= usize::MAX,
        gzip_readable(input@),
    ensures
        match gzip_spec(input@) {
            Ok((name, mtime, data)) => result matches Ok((rest, gzip)) && rest@.len() == 0
                && gzip.filename@ == decode_utf8(name) && gzip.mtime == mtime && gzip.data@ == data,
            Err(e) => result matches Err(e2) && e2 == e,
        },
{
    try_read_gzip(input)
}

} // verus!
