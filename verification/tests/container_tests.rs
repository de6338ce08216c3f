use deflate::deflate::InflateError;
use deflate::gzip::{read_gzip, try_read_gzip, GzipError};
use deflate::zlib::{read_zlib, try_read_zlib, ZlibError};

const GZIP_MEMBER: [u8; 37] = [
    31, 139, 8, 8, 0, 241, 83, 101, 2, 255, 97, 46, 116, 120, 116, 0, 75, 175, 202, 44, 80, 72, 73, 44, 73, 84,
    228, 2, 0, 101, 193, 27, 150, 11, 0, 0, 0,
];

const ZLIB_STREAM: [u8; 18] = [120, 156, 203, 72, 205, 201, 201, 87, 168, 202, 201, 76, 2, 0, 21, 149, 3, 230];

#[test]
fn gzip_member_is_read() {
    let (rest, gzip) = read_gzip(&GZIP_MEMBER).unwrap();
    assert!(rest.is_empty());
    assert_eq!(gzip.filename, "a.txt");
    assert_eq!(gzip.data, b"gzip data!\n".to_vec());
    assert_eq!(gzip.mtime, 1_700_000_000);
}

#[test]
fn gzip_without_name() {
    // The same member without FNAME: header, deflate data, trailer.
    let mut member = vec![31u8, 139, 8, 0, 0, 0, 0, 0, 2, 255];
    member.extend_from_slice(&GZIP_MEMBER[16..]);
    let (_, gzip) = read_gzip(&member).unwrap();
    assert_eq!(gzip.filename, "");
    assert_eq!(gzip.mtime, 0);
    assert_eq!(gzip.data, b"gzip data!\n".to_vec());
}

#[test]
fn gzip_rejects_bad_magic() {
    assert_eq!(read_gzip(&[31, 140, 8]).err(), Some(GzipError::BadMagic));
    assert_eq!(read_gzip(&[31]).err(), Some(GzipError::BadMagic));
}

#[test]
fn gzip_rejects_other_methods() {
    let mut member = GZIP_MEMBER.to_vec();
    member[2] = 7;
    assert_eq!(try_read_gzip(&member).err(), Some(GzipError::UnsupportedMethod));
}

#[test]
fn gzip_rejects_short_header() {
    assert_eq!(read_gzip(&GZIP_MEMBER[..9]).err(), Some(GzipError::UnexpectedEnd));
    assert_eq!(read_gzip(&GZIP_MEMBER[..14]).err(), Some(GzipError::UnexpectedEnd));
}

#[test]
fn gzip_rejects_extra_fields() {
    let mut member = GZIP_MEMBER.to_vec();
    member[3] |= 4;
    assert_eq!(try_read_gzip(&member).err(), Some(GzipError::UnsupportedFlags));
    let mut member = GZIP_MEMBER.to_vec();
    member[3] |= 16;
    assert_eq!(try_read_gzip(&member).err(), Some(GzipError::UnsupportedFlags));
}

#[test]
fn gzip_checks_crc() {
    let mut member = GZIP_MEMBER.to_vec();
    let n = member.len();
    member[n - 8] ^= 1;
    assert_eq!(try_read_gzip(&member).err(), Some(GzipError::ChecksumMismatch));
}

#[test]
fn gzip_checks_size() {
    let mut member = GZIP_MEMBER.to_vec();
    let n = member.len();
    member[n - 4] += 1;
    assert_eq!(try_read_gzip(&member).err(), Some(GzipError::SizeMismatch));
}

#[test]
fn gzip_reports_inflate_errors() {
    let mut member = vec![31u8, 139, 8, 0, 0, 0, 0, 0, 2, 255, 7];
    member.extend_from_slice(&[0, 0, 0, 0, 0, 0, 0, 0]);
    assert_eq!(try_read_gzip(&member).err(), Some(GzipError::Inflate(InflateError::ReservedBlockType)));
}

#[test]
fn gzip_rejects_data_after_the_stream() {
    // A stored block holding "x", one byte too many, then the trailer.
    let crc = crc32fast::hash(b"x").to_le_bytes();
    let mut member = vec![31u8, 139, 8, 0, 0, 0, 0, 0, 2, 255, 1, 1, 0, 254, 255, 120, 0];
    member.extend_from_slice(&crc);
    member.extend_from_slice(&[1, 0, 0, 0]);
    assert_eq!(try_read_gzip(&member).err(), Some(GzipError::TrailingData));
}

#[test]
fn gzip_rejects_invalid_file_name() {
    let mut member = vec![31u8, 139, 8, 8, 0, 0, 0, 0, 2, 255, 0xff, 0];
    member.extend_from_slice(&GZIP_MEMBER[16..]);
    assert_eq!(try_read_gzip(&member).err(), Some(GzipError::InvalidFilename));
}

#[test]
fn zlib_stream_is_read() {
    let (after_header, out) = read_zlib(&ZLIB_STREAM, None).unwrap();
    assert_eq!(out, b"hello zlib".to_vec());
    assert_eq!(after_header, &ZLIB_STREAM[2..]);
}

#[test]
fn zlib_checks_adler32() {
    let mut stream = ZLIB_STREAM.to_vec();
    let n = stream.len();
    stream[n - 1] ^= 1;
    assert_eq!(try_read_zlib(&stream, None).err(), Some(ZlibError::ChecksumMismatch));
}

#[test]
fn zlib_checks_header() {
    assert_eq!(try_read_zlib(&[0x78, 0x9d, 3, 0, 0, 0, 0, 1], None).err(), Some(ZlibError::HeaderCheckFailed));
    assert_eq!(try_read_zlib(&[0x77, 0x9c], None).err(), Some(ZlibError::UnsupportedMethod));
    assert_eq!(try_read_zlib(&[0x68, 0x9c], None).err(), Some(ZlibError::UnsupportedWindow));
    assert_eq!(read_zlib(&[0x78], None).err(), Some(ZlibError::UnexpectedEnd));
    assert_eq!(read_zlib(&[], None).err(), Some(ZlibError::UnexpectedEnd));
}

#[test]
fn zlib_empty_output() {
    // An empty stored block; the Adler-32 of nothing is 1.
    let stream = [0x78u8, 0x01, 1, 0, 0, 255, 255, 0, 0, 0, 1];
    let (_, out) = read_zlib(&stream, None).unwrap();
    assert!(out.is_empty());
}

#[test]
fn zlib_checks_preset_dictionary() {
    // FDICT set; the dictionary id is the Adler-32 of "Wikipedia", 0x11E60398.
    // 0x78 0xBB: 0x78BB = 30907 = 31 * 997.
    let mut stream = vec![0x78u8, 0xBB, 0x11, 0xE6, 0x03, 0x98, 1, 0, 0, 255, 255, 0, 0, 0, 1];
    let (after_header, out) = read_zlib(&stream, Some("Wikipedia")).unwrap();
    assert!(out.is_empty());
    assert_eq!(after_header.len(), stream.len() - 6);
    assert_eq!(try_read_zlib(&stream, Some("Wiki")).err(), Some(ZlibError::DictionaryMismatch));
    let (_, out) = read_zlib(&stream, None).unwrap();
    assert!(out.is_empty());
    stream.truncate(4);
    assert_eq!(read_zlib(&stream, None).err(), Some(ZlibError::UnexpectedEnd));
}

#[test]
fn gzip_needs_room_for_the_trailer() {
    let member = [31u8, 139, 8, 0, 0, 0, 0, 0, 2, 255, 3, 0, 0, 0, 0, 0, 0];
    assert_eq!(try_read_gzip(&member).err(), Some(GzipError::MissingTrailer));
}

#[test]
fn checked_readers_agree_on_sound_input() {
    let (_, gzip) = try_read_gzip(&GZIP_MEMBER).unwrap();
    assert_eq!(gzip.data, b"gzip data!\n".to_vec());
    let (after_header, out) = try_read_zlib(&ZLIB_STREAM, None).unwrap();
    assert_eq!(out, b"hello zlib".to_vec());
    assert_eq!(after_header, &ZLIB_STREAM[2..]);
    // An empty fixed block after the header; the Adler-32 of nothing is 1.
    let (_, out) = read_zlib(&[0x78, 0x9c, 0x03, 0x00, 0x00, 0x00, 0x00, 0x01], None).unwrap();
    assert!(out.is_empty());
    assert_eq!(
        try_read_zlib(&[0x78, 0x9c, 0x03, 0x00, 0x00, 0x00, 0x00, 0x02], None).err(),
        Some(ZlibError::ChecksumMismatch)
    );
}

#[test]
fn zlib_requires_exact_trailer() {
    let mut stream = ZLIB_STREAM.to_vec();
    stream.push(0);
    assert_eq!(try_read_zlib(&stream, None).err(), Some(ZlibError::TrailingData));
}
