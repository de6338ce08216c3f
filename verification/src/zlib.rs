use vstd::prelude::*;
use vstd::string::StringSliceAdditionalSpecFns;

use crate::bit_reader::round_up_to_byte;
use crate::deflate::{inflate_spec, read_deflate, try_read_deflate, InflateError};

verus! {

/// The two Adler-32 sums of `bytes`: `a` is one plus the sum of the bytes,
/// `b` the sum of the successive values of `a`, both modulo 65521.
pub open spec fn adler_sums(bytes: Seq<u8>) -> (int, int)
    decreases bytes.len(),
{
    if bytes.len() == 0 {
        (1, 0)
    } else {
        let (a, b) = adler_sums(bytes.drop_last());
        let a2 = (a + bytes.last()) % 65521;
        (a2, (b + a2) % 65521)
    }
}

/// The Adler-32 checksum of `bytes` (RFC 1950, section 8.2): `b` in the high
/// sixteen bits, `a` in the low ones.
pub open spec fn adler32_spec(bytes: Seq<u8>) -> u32 {
    (adler_sums(bytes).1 * 65536 + adler_sums(bytes).0) as u32
}

/// `adler::adler32_slice`: the Adler-32 checksum of `bytes`.
#[verifier::external_body]
fn adler32(bytes: &[u8]) -> (checksum: u32)
    ensures
        checksum == adler32_spec(bytes@),
{
    adler::adler32_slice(bytes)
}

/// The four bytes of `s` from `i` on, read as a big-endian number.
pub open spec fn be_u32_at(s: Seq<u8>, i: int) -> u32 {
    (16777216 * s[i] as int + 65536 * s[i + 1] as int + 256 * s[i + 2] as int + s[i + 3] as int) as u32
}

/// Why a zlib stream could not be read.
#[derive(Debug, Clone, Copy, PartialEq, Eq, Structural)]
pub enum ZlibError {
    /// The input ends inside the header or the trailer.
    UnexpectedEnd,
    /// The compression method is not 8 (deflate).
    UnsupportedMethod,
    /// The window size is not 32768 bytes.
    UnsupportedWindow,
    /// The preset dictionary given differs from the one the header names.
    DictionaryMismatch,
    /// CMF and FLG, read as a big-endian number, are not a multiple of 31.
    HeaderCheckFailed,
    /// The compressed data could not be decompressed.
    Inflate(InflateError),
    /// The compressed data is not followed by exactly the four trailer bytes.
    TrailingData,
    /// The Adler-32 of the output differs from the one in the trailer.
    ChecksumMismatch,
}

/// The length of the zlib header at the start of `input` (RFC 1950, section
/// 2.2). Where the header names a preset dictionary and `dict` is given, its
/// Adler-32 must match.
pub open spec fn zlib_header_spec(input: Seq<u8>, dict: Option<Seq<u8>>) -> Result<int, ZlibError> {
    if input.len() < 1 {
        Err(ZlibError::UnexpectedEnd)
    } else if input[0] & 0x0fu8 != 8 {
        Err(ZlibError::UnsupportedMethod)
    } else if (input[0] & 0xf0u8) >> 4u8 != 7 {
        Err(ZlibError::UnsupportedWindow)
    } else if input.len() < 2 {
        Err(ZlibError::UnexpectedEnd)
    } else {
        let fdict = (input[1] >> 5u8) & 1u8 == 1u8;
        let check = input[0] as int * 256 + input[1] as int;
        if fdict && input.len() < 6 {
            Err(ZlibError::UnexpectedEnd)
        } else if fdict && dict is Some && adler32_spec(dict->0) != be_u32_at(input, 2) {
            Err(ZlibError::DictionaryMismatch)
        } else if check % 31 != 0 {
            Err(ZlibError::HeaderCheckFailed)
        } else if fdict {
            Ok(6)
        } else {
            Ok(2)
        }
    }
}

/// The zlib stream in `input`: the length of its header and its output.
pub open spec fn zlib_spec(input: Seq<u8>, dict: Option<Seq<u8>>) -> Result<(int, Seq<u8>), ZlibError> {
    match zlib_header_spec(input, dict) {
        Err(e) => Err(e),
        Ok(h) => {
            let rest = input.subrange(h, input.len() as int);
            match inflate_spec(rest) {
                Err(e) => Err(ZlibError::Inflate(e)),
                Ok((p, out)) => {
                    let footer = rest.subrange(round_up_to_byte(p) / 8, rest.len() as int);
                    if footer.len() != 4 {
                        Err(ZlibError::TrailingData)
                    } else if adler32_spec(out) != be_u32_at(footer, 0) {
                        Err(ZlibError::ChecksumMismatch)
                    } else {
                        Ok((h, out))
                    }
                },
            }
        },
    }
}

/// The bytes of the preset dictionary, where one is given.
pub open spec fn dict_bytes(dict: Option<&str>) -> Option<Seq<u8>> {
    match dict {
        Some(d) => Some(d.spec_bytes()),
        None => None,
    }
}

/// Whether `checksum`, read as a big-endian number, is the Adler-32 of `bytes`.
fn adler_matches(checksum: [u8; 4], bytes: &[u8]) -> (ok: bool)
    ensures
        ok == (adler32_spec(bytes@) == be_u32_at(checksum@, 0)),
{
    let calculated = adler32(bytes);
    let expected = 16777216 * (checksum[0] as u32) + 65536 * (checksum[1] as u32) + 256 * (checksum[2] as u32)
        + checksum[3] as u32;
    calculated == expected
}

/// Checks that `checksum`, read as a big-endian number, is the Adler-32 of
/// `bytes`; a mismatch is a broken stream, which callers rule out first.
fn check_adler(checksum: [u8; 4], bytes: &[u8])
    requires
        adler32_spec(bytes@) == be_u32_at(checksum@, 0),
{
    let ok = adler_matches(checksum, bytes);
    assert(ok);
}

/// Reads the zlib header at the start of `header`; gives the input after it,
/// or the first thing wrong with it.
fn try_read_header<'a, 'b>(header: &'a [u8], dict: Option<&'b str>) -> (result: Result<&'a [u8], ZlibError>)
    ensures
        match zlib_header_spec(
            header@,
            dict_bytes(dict),
        ) {
            Ok(h) => result matches Ok(rest) && rest@ == header@.subrange(h, header@.len() as int),
            Err(e) => result matches Err(e2) && e2 == e,
        },
{
    if header.len() < 1 {
        return Err(ZlibError::UnexpectedEnd);
    }
    let cmf = header[0];
    let compression_method = cmf & 0x0f;
    if compression_method != 8 {
        return Err(ZlibError::UnsupportedMethod);
    }
    let compression_info = (cmf & 0xf0) >> 4;
    if compression_info != 7 {
        return Err(ZlibError::UnsupportedWindow);
    }
    if header.len() < 2 {
        return Err(ZlibError::UnexpectedEnd);
    }
    let flg = header[1];
    let check = (cmf as u16) * 256 + flg as u16;
    let fdict = (flg >> 5u8) & 1u8 == 1u8;
    let start: usize = if fdict {
        if header.len() < 6 {
            return Err(ZlibError::UnexpectedEnd);
        }
        match dict {
            Some(d) => {
                let dict_id = [header[2], header[3], header[4], header[5]];
                if !adler_matches(dict_id, d.as_bytes()) {
                    return Err(ZlibError::DictionaryMismatch);
                }
            },
            None => {},
        }
        6
    } else {
        2
    };
    if check % 31 != 0 {
        return Err(ZlibError::HeaderCheckFailed);
    }
    Ok(&header[start..header.len()])
}

/// Reads a zlib stream: checks the header, decompresses the data and checks
/// the Adler-32 trailer. Gives the input after the header and the output, or
/// the first thing wrong with the stream.
pub fn try_read_zlib<'a, 'b>(rest: &'a [u8], dict: Option<&'b str>) -> (result: Result<(&'a [u8], Vec<u8>), ZlibError>)
    requires
        rest@.len() * 8 <= usize::MAX,
    ensures
        match zlib_spec(
            rest@,
            dict_bytes(dict),
        ) {
            Ok((h, out)) => result matches Ok((after_header, buf)) && after_header@ == rest@.subrange(
                h,
                rest@.len() as int,
            ) && buf@ == out,
            Err(e) => result matches Err(e2) && e2 == e,
        },
{
    let rest = match try_read_header(rest, dict) {
        Ok(r) => r,
        Err(e) => {
            return Err(e);
        },
    };
    let (footer, buf) = match try_read_deflate(rest, None) {
        Ok(r) => r,
        Err(e) => {
            return Err(ZlibError::Inflate(e));
        },
    };
    if footer.len() != 4 {
        return Err(ZlibError::TrailingData);
    }
    let checksum = [footer[0], footer[1], footer[2], footer[3]];
    if !adler_matches(checksum, buf.as_slice()) {
        return Err(ZlibError::ChecksumMismatch);
    }
    Ok((rest, buf))
}

/// A zlib header is six bytes long exactly when FDICT (bit 5 of FLG) is set,
/// and two bytes long otherwise (RFC 1950, section 2.2).
pub proof fn lemma_header_length(input: Seq<u8>, dict: Option<Seq<u8>>)
    ensures
        zlib_header_spec(input, dict) matches Ok(h) ==> input.len() >= 2 && h == (if input[1] & 0x20u8 != 0 {
            6int
        } else {
            2int
        }) && h <= input.len(),
{
    if input.len() >= 2 {
        let f = input[1];
        assert(((f >> 5u8) & 1u8 == 1u8) == (f & 0x20u8 != 0)) by (bit_vector);
    }
}

/// FLEVEL (bits 6 and 7 of FLG) only describes how the stream was
/// compressed: two streams that differ only there, each with a header that
/// passes the FCHECK, are read alike.
pub proof fn lemma_flevel_ignored(a: Seq<u8>, b: Seq<u8>, dict: Option<Seq<u8>>)
    requires
        a.len() == b.len(),
        a.len() >= 2,
        forall|k: int| 0 <= k < a.len() && k != 1 ==> a[k] == b[k],
        a[1] & 0x3fu8 == b[1] & 0x3fu8,
        (a[0] as int * 256 + a[1] as int) % 31 == 0,
        (b[0] as int * 256 + b[1] as int) % 31 == 0,
    ensures
        zlib_header_spec(a, dict) == zlib_header_spec(b, dict),
        zlib_spec(a, dict) == zlib_spec(b, dict),
{
    let fa = a[1];
    let fb = b[1];
    assert(fa & 0x3fu8 == fb & 0x3fu8 ==> (fa >> 5u8) & 1u8 == (fb >> 5u8) & 1u8) by (bit_vector);
    if a.len() >= 6 {
        assert(be_u32_at(a, 2) == be_u32_at(b, 2));
    }
    lemma_header_length(a, dict);
    if let Ok(h) = zlib_header_spec(a, dict) {
        assert(a.subrange(h, a.len() as int) =~= b.subrange(h, b.len() as int));
    }
}

/// The four bytes of `x`, most significant first.
pub open spec fn be_bytes(x: u32) -> Seq<u8> {
    seq![(x / 16777216) as u8, ((x / 65536) % 256) as u8, ((x / 256) % 256) as u8, (x % 256) as u8]
}

/// A zlib stream with the header 0x78 0x9C (deflate, 32 KiB window, no preset
/// dictionary), compressed data `body` whose DEFLATE stream ends with it, and
/// the Adler-32 of the output in big-endian order is read back as that
/// output, with a two-byte header, whatever dictionary is offered.
pub proof fn lemma_stream_read(body: Seq<u8>, p: int, out: Seq<u8>, dict: Option<Seq<u8>>)
    requires
        inflate_spec(body + be_bytes(adler32_spec(out))) == Ok::<(int, Seq<u8>), InflateError>((p, out)),
        round_up_to_byte(p) / 8 == body.len(),
    ensures
        zlib_spec(seq![0x78u8, 0x9c] + body + be_bytes(adler32_spec(out)), dict) == Ok::<
            (int, Seq<u8>),
            ZlibError,
        >((2, out)),
{
    let a = adler32_spec(out);
    let input = seq![0x78u8, 0x9c] + body + be_bytes(a);
    assert(input[0] == 0x78u8 && input[1] == 0x9cu8);
    assert(0x78u8 & 0x0fu8 == 8u8 && (0x78u8 & 0xf0u8) >> 4u8 == 7u8 && (0x9cu8 >> 5u8) & 1u8 != 1u8) by (bit_vector);
    assert(input.subrange(2, input.len() as int) =~= body + be_bytes(a));
    let rest = body + be_bytes(a);
    assert(rest.subrange(body.len() as int, rest.len() as int) =~= be_bytes(a));
    assert(be_u32_at(be_bytes(a), 0) == a) by {
        assert((a / 16777216) as u8 as int * 16777216 + ((a / 65536) % 256) as u8 as int * 65536 + ((a / 256) % 256)
            as u8 as int * 256 + (a % 256) as u8 as int == a as int) by (bit_vector);
    }
}

/// Whether a zlib header fails only by being cut short: every other fault
/// of a header is a broken stream.
pub open spec fn zlib_header_readable(input: Seq<u8>, dict: Option<Seq<u8>>) -> bool {
    match zlib_header_spec(input, dict) {
        Ok(_) => true,
        Err(e) => e == ZlibError::UnexpectedEnd,
    }
}

/// Whether a zlib stream is read without fault, or fails only by a header
/// cut short: a broken header, broken compressed data, a trailer of another
/// length or a wrong Adler-32 are faults of the stream.
pub open spec fn zlib_readable(input: Seq<u8>, dict: Option<Seq<u8>>) -> bool {
    match zlib_spec(input, dict) {
        Ok(_) => true,
        Err(e) => e == ZlibError::UnexpectedEnd,
    }
}

/// Reads the zlib header at the start of `header`; gives the input after it.
/// The only failure left is a header cut short.
fn read_header<'a, 'b>(header: &'a [u8], dict: Option<&'b str>) -> (result: Result<&'a [u8], ZlibError>)
    requires
        zlib_header_readable(header@, dict_bytes(dict)),
    ensures
        match zlib_header_spec(
            header@,
            dict_bytes(dict),
        ) {
            Ok(h) => result matches Ok(rest) && rest@ == header@.subrange(h, header@.len() as int),
            Err(e) => result matches Err(e2) && e2 == e,
        },
{
    try_read_header(header, dict)
}

/// Reads a zlib stream whose header, compressed data and trailer are sound:
/// checks the header, decompresses the data and checks the Adler-32 trailer.
/// Gives the input after the header and the output; the only failure left is
/// a header cut short.
pub fn read_zlib<'a, 'b>(rest: &'a [u8], dict: Option<&'b str>) -> (result: Result<(&'a [u8], Vec<u8>), ZlibError>)
    requires
        rest@.len() * 8 <= usize::MAX,
        zlib_readable(rest@, dict_bytes(dict)),
    ensures
        match zlib_spec(
            rest@,
            dict_bytes(dict),
        ) {
            Ok((h, out)) => result matches Ok((after_header, buf)) && after_header@ == rest@.subrange(
                h,
                rest@.len() as int,
            ) && buf@ == out,
            Err(e) => result matches Err(e2) && e2 == e,
        },
{
    let body = match read_header(rest, dict) {
        Ok(r) => r,
        Err(e) => {
            return Err(e);
        },
    };
    let (footer, buf) = read_deflate(body, None);
    let checksum = [footer[0], footer[1], footer[2], footer[3]];
    check_adler(checksum, buf.as_slice());
    Ok((body, buf))
}

} // verus!
