use vstd::prelude::*;

use super::{
    octal_field_spec, parse_octal_spec, str_field_spec, trim, try_read_base_8_str_until_nul, try_read_str_until_nul,
    until_nul, TarError,
};
use vstd::utf8::decode_utf8;

verus! {

/// The type of a tar entry, from its type flag.
#[derive(Debug, Clone, Copy, PartialEq, Eq, Structural)]
pub enum FileType {
    NormalFile,
    HardLink,
    SymbolicLink,
    CharacterSpecial,
    BlockSpecial,
    Directory,
    FIFO,
    ContiguousFile,
    GlobalExtendedHeader,
    ExtendedHeader,
    VendorSpecific(char),
    Reserved,
}

/// The type that type flag `c` names: '0' or NUL a normal file, '1' to '7'
/// the other standard types, 'g' and 'x' extended headers, an upper-case
/// ASCII letter a vendor-specific type, and anything else a reserved type.
pub open spec fn file_type_spec(c: char) -> FileType {
    if c == '0' || c == '\0' {
        FileType::NormalFile
    } else if c == '1' {
        FileType::HardLink
    } else if c == '2' {
        FileType::SymbolicLink
    } else if c == '3' {
        FileType::CharacterSpecial
    } else if c == '4' {
        FileType::BlockSpecial
    } else if c == '5' {
        FileType::Directory
    } else if c == '6' {
        FileType::FIFO
    } else if c == '7' {
        FileType::ContiguousFile
    } else if c == 'g' {
        FileType::GlobalExtendedHeader
    } else if c == 'x' {
        FileType::ExtendedHeader
    } else if 'A' <= c <= 'Z' {
        FileType::VendorSpecific(c)
    } else {
        FileType::Reserved
    }
}

impl FileType {
    /// The type that type flag `byte` names.
    pub fn parse(byte: char) -> (file_type: Self)
        ensures
            file_type == file_type_spec(byte),
    {
        match byte {
            '0' | '\0' => FileType::NormalFile,
            '1' => FileType::HardLink,
            '2' => FileType::SymbolicLink,
            '3' => FileType::CharacterSpecial,
            '4' => FileType::BlockSpecial,
            '5' => FileType::Directory,
            '6' => FileType::FIFO,
            '7' => FileType::ContiguousFile,
            'g' => FileType::GlobalExtendedHeader,
            'x' => FileType::ExtendedHeader,
            c => {
                if 'A' <= c && c <= 'Z' {
                    FileType::VendorSpecific(c)
                } else {
                    FileType::Reserved
                }
            },
        }
    }
}

/// A ustar header block.
#[derive(Debug)]
pub struct TarHeader {
    pub filename: String,
    pub file_mode: u64,
    pub owner_id: u64,
    pub group_id: u64,
    pub file_size: u64,
    pub last_modification: u64,
    pub header_checksum: u64,
    pub file_type: FileType,
    pub name_of_linked: String,
    pub owner: String,
    pub owner_group: String,
    pub device_major: String,
    pub device_minor: String,
    pub filename_prefix: String,
}

/// A ustar header with its text fields as characters.
pub struct TarHeaderView {
    pub filename: Seq<char>,
    pub file_mode: u64,
    pub owner_id: u64,
    pub group_id: u64,
    pub file_size: u64,
    pub last_modification: u64,
    pub header_checksum: u64,
    pub file_type: FileType,
    pub name_of_linked: Seq<char>,
    pub owner: Seq<char>,
    pub owner_group: Seq<char>,
    pub device_major: Seq<char>,
    pub device_minor: Seq<char>,
    pub filename_prefix: Seq<char>,
}

impl View for TarHeader {
    type V = TarHeaderView;

    open spec fn view(&self) -> TarHeaderView {
        TarHeaderView {
            filename: self.filename@,
            file_mode: self.file_mode,
            owner_id: self.owner_id,
            group_id: self.group_id,
            file_size: self.file_size,
            last_modification: self.last_modification,
            header_checksum: self.header_checksum,
            file_type: self.file_type,
            name_of_linked: self.name_of_linked@,
            owner: self.owner@,
            owner_group: self.owner_group@,
            device_major: self.device_major@,
            device_minor: self.device_minor@,
            filename_prefix: self.filename_prefix@,
        }
    }
}

/// Where field `k` of a ustar header starts: name, mode, uid, gid, size,
/// mtime, checksum, type flag, link name, magic, version, user name, group
/// name, device major, device minor, prefix, and the unused rest.
pub open spec fn field_offset(k: int) -> int {
    if k == 0 { 0 } else if k == 1 { 100 } else if k == 2 { 108 } else if k == 3 { 116 }
    else if k == 4 { 124 } else if k == 5 { 136 } else if k == 6 { 148 } else if k == 7 { 156 }
    else if k == 8 { 157 } else if k == 9 { 257 } else if k == 10 { 263 } else if k == 11 { 265 }
    else if k == 12 { 297 } else if k == 13 { 329 } else if k == 14 { 337 } else if k == 15 { 345 }
    else { 500 }
}

/// The width of field `k` of a ustar header, in bytes.
pub open spec fn field_width(k: int) -> int {
    if k == 16 {
        12
    } else {
        field_offset(k + 1) - field_offset(k)
    }
}

/// The bytes of field `k` of the header at the start of `input`.
pub open spec fn field_bytes(input: Seq<u8>, k: int) -> Seq<u8> {
    input.subrange(field_offset(k), field_offset(k) + field_width(k))
}

/// Whether field `k` is a text field.
pub open spec fn is_text_field(k: int) -> bool {
    k == 0 || k == 8 || (11 <= k <= 15)
}

/// Whether field `k` is a numeric field.
pub open spec fn is_number_field(k: int) -> bool {
    1 <= k <= 6
}

/// What is wrong with field `k` of the header at the start of `input`, if anything.
#[verifier::opaque]
pub open spec fn field_error(input: Seq<u8>, k: int) -> Option<TarError> {
    if k == 9 {
        if input.len() < field_offset(k) + field_width(k) || field_bytes(input, k) != seq![117u8, 115, 116, 97, 114, 32] {
            Some(TarError::NotUstar)
        } else {
            None
        }
    } else if input.len() < field_offset(k) + field_width(k) {
        Some(TarError::UnexpectedEnd)
    } else if is_text_field(k) {
        match str_field_spec(field_bytes(input, k)) {
            Err(e) => Some(e),
            Ok(_) => None,
        }
    } else if is_number_field(k) {
        match octal_field_spec(field_bytes(input, k)) {
            Err(e) => Some(e),
            Ok(_) => None,
        }
    } else {
        None
    }
}

/// The first thing wrong with the fields from `k` on, in the order in which
/// they are read.
pub open spec fn first_field_error(input: Seq<u8>, k: int) -> Option<TarError>
    decreases 17 - k,
{
    if k < 0 || k >= 17 {
        None
    } else {
        match field_error(input, k) {
            Some(e) => Some(e),
            None => first_field_error(input, k + 1),
        }
    }
}

/// Text field `k` of the header at the start of `input`.
pub open spec fn text_field(input: Seq<u8>, k: int) -> Seq<char> {
    str_field_spec(field_bytes(input, k))->Ok_0
}

/// Numeric field `k` of the header at the start of `input`.
pub open spec fn number_field(input: Seq<u8>, k: int) -> u64 {
    octal_field_spec(field_bytes(input, k))->Ok_0
}

/// The ustar header in the first 512 bytes of `input`.
pub open spec fn tar_header_spec(input: Seq<u8>) -> Result<TarHeaderView, TarError> {
    match first_field_error(input, 0) {
        Some(e) => Err(e),
        None => Ok(
            TarHeaderView {
                filename: text_field(input, 0),
                file_mode: number_field(input, 1),
                owner_id: number_field(input, 2),
                group_id: number_field(input, 3),
                file_size: number_field(input, 4),
                last_modification: number_field(input, 5),
                header_checksum: number_field(input, 6),
                file_type: file_type_spec(input[156] as char),
                name_of_linked: text_field(input, 8),
                owner: text_field(input, 11),
                owner_group: text_field(input, 12),
                device_major: text_field(input, 13),
                device_minor: text_field(input, 14),
                filename_prefix: text_field(input, 15),
            },
        ),
    }
}

proof fn lemma_no_field_error(input: Seq<u8>, k: int, j: int)
    requires
        0 <= k <= j < 17,
        first_field_error(input, k) is None,
    ensures
        field_error(input, j) is None,
    decreases j - k,
{
    if k < j {
        lemma_no_field_error(input, k + 1, j);
    }
}

/// The text of the bytes `input[start..end]` as a text field holds it: the
/// UTF-8 characters before its first zero byte.
pub open spec fn text_of(input: Seq<u8>, start: int, end: int) -> Seq<char> {
    decode_utf8(until_nul(input.subrange(start, end)))
}

/// Whether `value` is the number that the bytes `input[start..end]` write
/// as a numeric field: the text before the first zero byte, without white
/// space around it, is empty and `value` is zero, or it is an octal number
/// whose value is `value`.
pub open spec fn octal_text_is(input: Seq<u8>, start: int, end: int, value: u64) -> bool {
    let t = trim(text_of(input, start, end));
    (t.len() == 0 && value == 0) || parse_octal_spec(t) == Some(value)
}

/// A header is read from fixed byte ranges of its 512-byte block (POSIX
/// ustar, with the GNU magic): every text field is the UTF-8 text before the
/// first zero byte of its range, every numeric field is the octal number
/// its range writes, the type flag is byte 156, and bytes 257..263 are the
/// magic "ustar ".
pub proof fn lemma_header_fields(input: Seq<u8>)
    ensures
        tar_header_spec(input) matches Ok(h) ==> {
            &&& input.len() >= 512
            &&& h.filename == text_of(input, 0, 100)
            &&& octal_text_is(input, 100, 108, h.file_mode)
            &&& octal_text_is(input, 108, 116, h.owner_id)
            &&& octal_text_is(input, 116, 124, h.group_id)
            &&& octal_text_is(input, 124, 136, h.file_size)
            &&& octal_text_is(input, 136, 148, h.last_modification)
            &&& octal_text_is(input, 148, 156, h.header_checksum)
            &&& h.file_type == file_type_spec(input[156] as char)
            &&& h.name_of_linked == text_of(input, 157, 257)
            &&& input.subrange(257, 263) == seq![117u8, 115, 116, 97, 114, 32]
            &&& h.owner == text_of(input, 265, 297)
            &&& h.owner_group == text_of(input, 297, 329)
            &&& h.device_major == text_of(input, 329, 337)
            &&& h.device_minor == text_of(input, 337, 345)
            &&& h.filename_prefix == text_of(input, 345, 500)
        },
{
    if first_field_error(input, 0) is None {
        reveal(field_error);
        reveal(str_field_spec);
        reveal(octal_field_spec);
        lemma_no_field_error(input, 0, 0);
        lemma_no_field_error(input, 0, 1);
        lemma_no_field_error(input, 0, 2);
        lemma_no_field_error(input, 0, 3);
        lemma_no_field_error(input, 0, 4);
        lemma_no_field_error(input, 0, 5);
        lemma_no_field_error(input, 0, 6);
        lemma_no_field_error(input, 0, 8);
        lemma_no_field_error(input, 0, 9);
        lemma_no_field_error(input, 0, 11);
        lemma_no_field_error(input, 0, 12);
        lemma_no_field_error(input, 0, 13);
        lemma_no_field_error(input, 0, 14);
        lemma_no_field_error(input, 0, 15);
        lemma_no_field_error(input, 0, 16);
    }
}

/// Whether a ustar header is read without fault, or fails only by being cut
/// short or by a missing "ustar " magic: a text field that is not UTF-8 or a
/// numeric field that is not an octal number is a broken header.
pub open spec fn tar_header_readable(input: Seq<u8>) -> bool {
    match tar_header_spec(input) {
        Ok(_) => true,
        Err(e) => e == TarError::UnexpectedEnd || e == TarError::NotUstar,
    }
}

impl TarHeader {
    /// Reads the ustar header block at the start of `input`; gives the input
    /// after its 512 bytes, or the first thing wrong with the header.
    #[verifier::spinoff_prover]
    #[verifier::rlimit(40)]
    pub fn try_parse(input: &[u8]) -> (result: Result<(&[u8], TarHeader), TarError>)
        ensures
            match tar_header_spec(input@) {
                Ok(h) => result matches Ok((rest, header)) && header@ == h && rest@ == input@.subrange(
                    512,
                    input@.len() as int,
                ),
                Err(e) => result matches Err(e2) && e2 == e,
            },
    {
        let ghost all = input@;
        let rest = input;
        assert(rest@ =~= all.subrange(0, all.len() as int));
        proof {
            if all.len() >= 100 {
                assert(field_bytes(all, 0) =~= all.subrange(0, all.len() as int).subrange(0, 100));
            }
        }
        let (rest, filename) = match try_read_str_until_nul(rest, 100) {
            Ok(r) => r,
            Err(e) => {
                proof {
                    reveal(field_error);
                }
                return Err(e);
            },
        };
        assert(first_field_error(all, 0) == first_field_error(all, 1)) by {
            reveal(field_error);
        }
        assert(rest@ =~= all.subrange(100, all.len() as int));
        proof {
            if all.len() >= 108 {
                assert(field_bytes(all, 1) =~= all.subrange(100, all.len() as int).subrange(0, 8));
            }
        }
        let (rest, file_mode) = match try_read_base_8_str_until_nul(rest, 8) {
            Ok(r) => r,
            Err(e) => {
                proof {
                    reveal(field_error);
                }
                return Err(e);
            },
        };
        assert(first_field_error(all, 0) == first_field_error(all, 2)) by {
            reveal(field_error);
        }
        assert(rest@ =~= all.subrange(108, all.len() as int));
        proof {
            if all.len() >= 116 {
                assert(field_bytes(all, 2) =~= all.subrange(108, all.len() as int).subrange(0, 8));
            }
        }
        let (rest, owner_id) = match try_read_base_8_str_until_nul(rest, 8) {
            Ok(r) => r,
            Err(e) => {
                proof {
                    reveal(field_error);
                }
                return Err(e);
            },
        };
        assert(first_field_error(all, 0) == first_field_error(all, 3)) by {
            reveal(field_error);
        }
        assert(rest@ =~= all.subrange(116, all.len() as int));
        proof {
            if all.len() >= 124 {
                assert(field_bytes(all, 3) =~= all.subrange(116, all.len() as int).subrange(0, 8));
            }
        }
        let (rest, group_id) = match try_read_base_8_str_until_nul(rest, 8) {
            Ok(r) => r,
            Err(e) => {
                proof {
                    reveal(field_error);
                }
                return Err(e);
            },
        };
        assert(first_field_error(all, 0) == first_field_error(all, 4)) by {
            reveal(field_error);
        }
        assert(rest@ =~= all.subrange(124, all.len() as int));
        proof {
            if all.len() >= 136 {
                assert(field_bytes(all, 4) =~= all.subrange(124, all.len() as int).subrange(0, 12));
            }
        }
        let (rest, file_size) = match try_read_base_8_str_until_nul(rest, 12) {
            Ok(r) => r,
            Err(e) => {
                proof {
                    reveal(field_error);
                }
                return Err(e);
            },
        };
        assert(first_field_error(all, 0) == first_field_error(all, 5)) by {
            reveal(field_error);
        }
        assert(rest@ =~= all.subrange(136, all.len() as int));
        proof {
            if all.len() >= 148 {
                assert(field_bytes(all, 5) =~= all.subrange(136, all.len() as int).subrange(0, 12));
            }
        }
        let (rest, last_modification) = match try_read_base_8_str_until_nul(rest, 12) {
            Ok(r) => r,
            Err(e) => {
                proof {
                    reveal(field_error);
                }
                return Err(e);
            },
        };
        assert(first_field_error(all, 0) == first_field_error(all, 6)) by {
            reveal(field_error);
        }
        assert(rest@ =~= all.subrange(148, all.len() as int));
        proof {
            if all.len() >= 156 {
                assert(field_bytes(all, 6) =~= all.subrange(148, all.len() as int).subrange(0, 8));
            }
        }
        let (rest, header_checksum) = match try_read_base_8_str_until_nul(rest, 8) {
            Ok(r) => r,
            Err(e) => {
                proof {
                    reveal(field_error);
                }
                return Err(e);
            },
        };
        assert(first_field_error(all, 0) == first_field_error(all, 7)) by {
            reveal(field_error);
        }
        assert(rest@ =~= all.subrange(156, all.len() as int));
        proof {
            if all.len() >= 157 {
                assert(field_bytes(all, 7) =~= all.subrange(156, all.len() as int).subrange(0, 1));
            }
        }
        if rest.len() < 1 {
            proof {
                reveal(field_error);
            }
            return Err(TarError::UnexpectedEnd);
        }
        let file_type = FileType::parse(rest[0] as char);
        let rest = &rest[1..rest.len()];
        assert(first_field_error(all, 0) == first_field_error(all, 8)) by {
            reveal(field_error);
        }
        assert(rest@ =~= all.subrange(157, all.len() as int));
        proof {
            if all.len() >= 257 {
                assert(field_bytes(all, 8) =~= all.subrange(157, all.len() as int).subrange(0, 100));
            }
        }
        let (rest, name_of_linked) = match try_read_str_until_nul(rest, 100) {
            Ok(r) => r,
            Err(e) => {
                proof {
                    reveal(field_error);
                }
                return Err(e);
            },
        };
        assert(first_field_error(all, 0) == first_field_error(all, 9)) by {
            reveal(field_error);
        }
        assert(rest@ =~= all.subrange(257, all.len() as int));
        proof {
            if all.len() >= 263 {
                assert(field_bytes(all, 9) =~= all.subrange(257, all.len() as int).subrange(0, 6));
            }
        }
        if rest.len() < 6 || rest[0] != 117 || rest[1] != 115 || rest[2] != 116 || rest[3] != 97 || rest[4] != 114
            || rest[5] != 32 {
            proof {
                if all.len() >= 263 {
                    assert(field_bytes(all, 9)[0] == rest@[0] && field_bytes(all, 9)[1] == rest@[1]
                        && field_bytes(all, 9)[2] == rest@[2] && field_bytes(all, 9)[3] == rest@[3]
                        && field_bytes(all, 9)[4] == rest@[4] && field_bytes(all, 9)[5] == rest@[5]);
                }
            }
            proof {
                reveal(field_error);
            }
            return Err(TarError::NotUstar);
        }
        assert(field_bytes(all, 9) =~= seq![117u8, 115, 116, 97, 114, 32]);
        let rest = &rest[6..rest.len()];
        assert(first_field_error(all, 0) == first_field_error(all, 10)) by {
            reveal(field_error);
        }
        assert(rest@ =~= all.subrange(263, all.len() as int));
        proof {
            if all.len() >= 265 {
                assert(field_bytes(all, 10) =~= all.subrange(263, all.len() as int).subrange(0, 2));
            }
        }
        if rest.len() < 2 {
            proof {
                reveal(field_error);
            }
            return Err(TarError::UnexpectedEnd);
        }
        let rest = &rest[2..rest.len()];
        assert(first_field_error(all, 0) == first_field_error(all, 11)) by {
            reveal(field_error);
        }
        assert(rest@ =~= all.subrange(265, all.len() as int));
        proof {
            if all.len() >= 297 {
                assert(field_bytes(all, 11) =~= all.subrange(265, all.len() as int).subrange(0, 32));
            }
        }
        let (rest, owner) = match try_read_str_until_nul(rest, 32) {
            Ok(r) => r,
            Err(e) => {
                proof {
                    reveal(field_error);
                }
                return Err(e);
            },
        };
        assert(first_field_error(all, 0) == first_field_error(all, 12)) by {
            reveal(field_error);
        }
        assert(rest@ =~= all.subrange(297, all.len() as int));
        proof {
            if all.len() >= 329 {
                assert(field_bytes(all, 12) =~= all.subrange(297, all.len() as int).subrange(0, 32));
            }
        }
        let (rest, owner_group) = match try_read_str_until_nul(rest, 32) {
            Ok(r) => r,
            Err(e) => {
                proof {
                    reveal(field_error);
                }
                return Err(e);
            },
        };
        assert(first_field_error(all, 0) == first_field_error(all, 13)) by {
            reveal(field_error);
        }
        assert(rest@ =~= all.subrange(329, all.len() as int));
        proof {
            if all.len() >= 337 {
                assert(field_bytes(all, 13) =~= all.subrange(329, all.len() as int).subrange(0, 8));
            }
        }
        let (rest, device_major) = match try_read_str_until_nul(rest, 8) {
            Ok(r) => r,
            Err(e) => {
                proof {
                    reveal(field_error);
                }
                return Err(e);
            },
        };
        assert(first_field_error(all, 0) == first_field_error(all, 14)) by {
            reveal(field_error);
        }
        assert(rest@ =~= all.subrange(337, all.len() as int));
        proof {
            if all.len() >= 345 {
                assert(field_bytes(all, 14) =~= all.subrange(337, all.len() as int).subrange(0, 8));
            }
        }
        let (rest, device_minor) = match try_read_str_until_nul(rest, 8) {
            Ok(r) => r,
            Err(e) => {
                proof {
                    reveal(field_error);
                }
                return Err(e);
            },
        };
        assert(first_field_error(all, 0) == first_field_error(all, 15)) by {
            reveal(field_error);
        }
        assert(rest@ =~= all.subrange(345, all.len() as int));
        proof {
            if all.len() >= 500 {
                assert(field_bytes(all, 15) =~= all.subrange(345, all.len() as int).subrange(0, 155));
            }
        }
        let (rest, filename_prefix) = match try_read_str_until_nul(rest, 155) {
            Ok(r) => r,
            Err(e) => {
                proof {
                    reveal(field_error);
                }
                return Err(e);
            },
        };
        assert(first_field_error(all, 0) == first_field_error(all, 16)) by {
            reveal(field_error);
        }
        assert(rest@ =~= all.subrange(500, all.len() as int));
        proof {
            if all.len() >= 512 {
                assert(field_bytes(all, 16) =~= all.subrange(500, all.len() as int).subrange(0, 12));
            }
        }
        if rest.len() < 12 {
            proof {
                reveal(field_error);
            }
            return Err(TarError::UnexpectedEnd);
        }
        let rest = &rest[12..rest.len()];
        assert(first_field_error(all, 0) == first_field_error(all, 17)) by {
            reveal(field_error);
        }
        assert(rest@ =~= all.subrange(512, all.len() as int));
        let header = TarHeader {
            filename,
            file_mode,
            owner_id,
            group_id,
            file_size,
            last_modification,
            header_checksum,
            file_type,
            name_of_linked,
            owner,
            owner_group,
            device_major,
            device_minor,
            filename_prefix,
        };
        Ok((rest, header))
    }

    /// Reads a ustar header block whose text fields are UTF-8 and whose
    /// numeric fields are octal; gives the input after its 512 bytes. The only
    /// failures left are a header cut short and a missing "ustar " magic.
    pub fn parse(input: &[u8]) -> (result: Result<(&[u8], TarHeader), TarError>)
        requires
            tar_header_readable(input@),
        ensures
            match tar_header_spec(input@) {
                Ok(h) => result matches Ok((rest, header)) && header@ == h && rest@ == input@.subrange(
                    512,
                    input@.len() as int,
                ),
                Err(e) => result matches Err(e2) && e2 == e,
            },
    {
        TarHeader::try_parse(input)
    }
}

} // verus!
