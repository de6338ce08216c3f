use deflate::tar::header::{FileType, TarHeader};
use deflate::tar::{
    entry_action, read_base_8_str_until_nul, read_str_until_nul, tar_advance, tar_entry, try_read_base_8_str_until_nul,
    try_read_str_until_nul, try_tar_entry, TarAction, TarError,
};

fn put(block: &mut [u8], offset: usize, text: &[u8]) {
    block[offset..offset + text.len()].copy_from_slice(text);
}

/// A GNU tar header block.
fn header_block(name: &str, size: usize, type_flag: u8, prefix: &str) -> Vec<u8> {
    let mut block = vec![0u8; 512];
    put(&mut block, 0, name.as_bytes());
    put(&mut block, 100, b"0000644\0");
    put(&mut block, 108, b"0001750\0");
    put(&mut block, 116, b"0001750\0");
    put(&mut block, 124, format!("{:011o}\0", size).as_bytes());
    put(&mut block, 136, b"14523515360\0");
    put(&mut block, 148, b"        ");
    block[156] = type_flag;
    put(&mut block, 257, b"ustar  \0");
    put(&mut block, 265, b"alice");
    put(&mut block, 297, b"staff");
    put(&mut block, 345, prefix.as_bytes());
    block
}

fn entry_bytes(name: &str, content: &[u8], type_flag: u8, prefix: &str) -> Vec<u8> {
    let mut bytes = header_block(name, content.len(), type_flag, prefix);
    bytes.extend_from_slice(content);
    while bytes.len() % 512 != 0 {
        bytes.push(0);
    }
    bytes
}

#[test]
fn file_type_parse() {
    assert_eq!(FileType::parse('0'), FileType::NormalFile);
    assert_eq!(FileType::parse('\0'), FileType::NormalFile);
    assert_eq!(FileType::parse('1'), FileType::HardLink);
    assert_eq!(FileType::parse('2'), FileType::SymbolicLink);
    assert_eq!(FileType::parse('3'), FileType::CharacterSpecial);
    assert_eq!(FileType::parse('4'), FileType::BlockSpecial);
    assert_eq!(FileType::parse('5'), FileType::Directory);
    assert_eq!(FileType::parse('6'), FileType::FIFO);
    assert_eq!(FileType::parse('7'), FileType::ContiguousFile);
    assert_eq!(FileType::parse('g'), FileType::GlobalExtendedHeader);
    assert_eq!(FileType::parse('x'), FileType::ExtendedHeader);
    assert_eq!(FileType::parse('L'), FileType::VendorSpecific('L'));
    assert_eq!(FileType::parse('Z'), FileType::VendorSpecific('Z'));
    assert_eq!(FileType::parse('a'), FileType::Reserved);
    assert_eq!(FileType::parse('8'), FileType::Reserved);
    assert_eq!(FileType::parse('\u{c0}'), FileType::Reserved);
}

#[test]
fn str_field_stops_at_nul() {
    let input = b"abc\0def\0xyz";
    let (rest, text) = read_str_until_nul(input, 8).unwrap();
    assert_eq!(text, "abc");
    assert_eq!(rest, b"xyz");
    let (rest, text) = read_str_until_nul(b"abcd", 4).unwrap();
    assert_eq!(text, "abcd");
    assert!(rest.is_empty());
    assert_eq!(read_str_until_nul(b"ab", 3).err(), Some(TarError::UnexpectedEnd));
    assert_eq!(try_read_str_until_nul(&[0xff, 0x41], 2).err(), Some(TarError::InvalidUtf8));
}

#[test]
fn octal_fields() {
    assert_eq!(read_base_8_str_until_nul(b"0000644\0", 8).unwrap().1, 0o644);
    assert_eq!(read_base_8_str_until_nul(b" 755 \0\0\0", 8).unwrap().1, 0o755);
    assert_eq!(read_base_8_str_until_nul(b"+17\0", 4).unwrap().1, 0o17);
    assert_eq!(read_base_8_str_until_nul(b"\0\0\0\0", 4).unwrap().1, 0);
    assert_eq!(read_base_8_str_until_nul(b"    ", 4).unwrap().1, 0);
    assert_eq!(read_base_8_str_until_nul("\u{a0}12".as_bytes(), 4).unwrap().1, 0o12);
    assert_eq!(try_read_base_8_str_until_nul(b"9\0", 2).err(), Some(TarError::InvalidNumber));
    assert_eq!(try_read_base_8_str_until_nul(b"+\0", 2).err(), Some(TarError::InvalidNumber));
    assert_eq!(try_read_base_8_str_until_nul(b"-1\0", 3).err(), Some(TarError::InvalidNumber));
    assert_eq!(try_read_base_8_str_until_nul(b"1 2\0", 4).err(), Some(TarError::InvalidNumber));
    assert_eq!(
        read_base_8_str_until_nul(b"1777777777777777777777", 22).unwrap().1,
        u64::MAX
    );
    assert_eq!(
        try_read_base_8_str_until_nul(b"2000000000000000000000", 22).err(),
        Some(TarError::InvalidNumber)
    );
    assert_eq!(read_base_8_str_until_nul(b"1", 2).err(), Some(TarError::UnexpectedEnd));
}

#[test]
fn header_is_parsed() {
    let mut bytes = header_block("hello.txt", 12, b'0', "");
    bytes.extend_from_slice(b"rest");
    let (rest, header) = TarHeader::parse(&bytes).unwrap();
    assert_eq!(rest, b"rest");
    assert_eq!(header.filename, "hello.txt");
    assert_eq!(header.file_mode, 0o644);
    assert_eq!(header.owner_id, 0o1750);
    assert_eq!(header.group_id, 0o1750);
    assert_eq!(header.file_size, 12);
    assert_eq!(header.last_modification, 0o14523515360);
    assert_eq!(header.header_checksum, 0);
    assert_eq!(header.file_type, FileType::NormalFile);
    assert_eq!(header.name_of_linked, "");
    assert_eq!(header.owner, "alice");
    assert_eq!(header.owner_group, "staff");
    assert_eq!(header.device_major, "");
    assert_eq!(header.device_minor, "");
    assert_eq!(header.filename_prefix, "");
}

#[test]
fn header_needs_gnu_magic() {
    let mut bytes = header_block("a", 0, b'0', "");
    put(&mut bytes, 257, b"ustar\000");
    assert_eq!(TarHeader::parse(&bytes).err(), Some(TarError::NotUstar));
    let bytes = header_block("a", 0, b'0', "");
    assert_eq!(TarHeader::parse(&bytes[..260]).err(), Some(TarError::NotUstar));
    assert_eq!(TarHeader::parse(&bytes[..511]).err(), Some(TarError::UnexpectedEnd));
    assert_eq!(TarHeader::parse(&bytes[..50]).err(), Some(TarError::UnexpectedEnd));
}

#[test]
fn header_rejects_bad_numbers() {
    let mut bytes = header_block("a", 0, b'0', "");
    put(&mut bytes, 124, b"99999999999\0");
    assert_eq!(TarHeader::try_parse(&bytes).err(), Some(TarError::InvalidNumber));
    assert_eq!(TarHeader::try_parse(&header_block("a", 0, b'0', "")[..100]).err(), Some(TarError::UnexpectedEnd));
}

#[test]
fn entry_writes_normal_file() {
    let mut archive = entry_bytes("dir/hello.txt", b"hello world\n", b'0', "");
    archive.extend_from_slice(&[0u8; 1024]);
    let mut next = None;
    let entry = tar_entry(&archive, &mut next).unwrap().unwrap();
    assert_eq!(entry.content, b"hello world\n");
    match &entry.action {
        TarAction::WriteFile(path) => assert_eq!(path, "dir/hello.txt"),
        _ => panic!("expected a file"),
    }
    assert!(next.is_none());
    let (end, rest) = tar_advance(entry.rest, entry.content.len()).unwrap();
    assert!(end);
    assert_eq!(rest.len(), 1024);
}

#[test]
fn entry_joins_prefix() {
    let archive = entry_bytes("b.txt", b"", b'0', "some/dir");
    let mut next = None;
    let entry = tar_entry(&archive, &mut next).unwrap().unwrap();
    match &entry.action {
        TarAction::WriteFile(path) => assert_eq!(path, "some/dir/b.txt"),
        _ => panic!("expected a file"),
    }
    let archive = entry_bytes("b.txt", b"", b'0', "some/dir/");
    let entry = tar_entry(&archive, &mut next).unwrap().unwrap();
    match &entry.action {
        TarAction::WriteFile(path) => assert_eq!(path, "some/dir/b.txt"),
        _ => panic!("expected a file"),
    }
    let archive = entry_bytes("/abs/b.txt", b"", b'0', "some/dir");
    let entry = tar_entry(&archive, &mut next).unwrap().unwrap();
    match &entry.action {
        TarAction::WriteFile(path) => assert_eq!(path, "/abs/b.txt"),
        _ => panic!("expected a file"),
    }
}

#[test]
fn long_name_names_the_next_entry() {
    let long = "a/very/long/name/".repeat(8) + "file.txt";
    let mut content = long.clone().into_bytes();
    content.push(0);
    let mut archive = entry_bytes("././@LongLink", &content, b'L', "");
    archive.extend_from_slice(&entry_bytes("a/very/long/name/a/very/lo", b"data", b'0', ""));
    archive.extend_from_slice(&[0u8; 1024]);
    let mut next = None;
    let entry = tar_entry(&archive, &mut next).unwrap().unwrap();
    assert!(matches!(entry.action, TarAction::LongName));
    assert_eq!(next.as_deref(), Some(long.as_str()));
    let (end, rest) = tar_advance(entry.rest, entry.content.len()).unwrap();
    assert!(!end);
    let entry = tar_entry(rest, &mut next).unwrap().unwrap();
    match &entry.action {
        TarAction::WriteFile(path) => assert_eq!(path, &long),
        _ => panic!("expected a file"),
    }
    assert!(next.is_none());
}

#[test]
fn directories_and_other_types() {
    let archive = entry_bytes("d/", b"", b'5', "");
    let mut next = Some("renamed".to_string());
    let entry = tar_entry(&archive, &mut next).unwrap().unwrap();
    match &entry.action {
        TarAction::CreateDirectory(path) => assert_eq!(path, "renamed"),
        _ => panic!("expected a directory"),
    }
    assert!(next.is_none());
    let archive = entry_bytes("link", b"", b'2', "");
    let entry = tar_entry(&archive, &mut next).unwrap().unwrap();
    match &entry.action {
        TarAction::Unsupported(path) => assert_eq!(path, "link"),
        _ => panic!("expected an unsupported entry"),
    }
    let (rest, header) = TarHeader::parse(&archive).unwrap();
    assert!(rest.is_empty());
    let mut none = None;
    match entry_action(&header, &mut none) {
        TarAction::Unsupported(path) => assert_eq!(path, "link"),
        _ => panic!("expected an unsupported entry"),
    }
}

#[test]
fn empty_input_ends_the_archive() {
    let mut next = Some(String::from("kept"));
    assert!(tar_entry(&[], &mut next).unwrap().is_none());
    assert!(try_tar_entry(&[], &mut next).unwrap().is_none());
    assert_eq!(next, Some(String::from("kept")));
}

#[test]
fn entry_errors() {
    let archive = header_block("big", 100, b'0', "");
    let mut next = None;
    assert_eq!(tar_entry(&archive, &mut next).err(), Some(TarError::UnexpectedEnd));
    let archive = entry_bytes("././@LongLink", b"", b'L', "");
    assert_eq!(try_tar_entry(&archive, &mut next).err(), Some(TarError::EmptyLongName));
    let archive = entry_bytes("././@LongLink", &[0xff, 0], b'L', "");
    assert_eq!(try_tar_entry(&archive, &mut next).err(), Some(TarError::InvalidUtf8));
    let mut kept = Some(String::from("kept/name"));
    let archive = header_block("big", 100, b'0', "");
    assert_eq!(tar_entry(&archive, &mut kept).err(), Some(TarError::UnexpectedEnd));
    assert_eq!(kept, Some(String::from("kept/name")));
}

#[test]
fn advance_needs_padding_and_two_blocks() {
    let data = vec![0u8; 1024 + 500];
    let (end, rest) = tar_advance(&data, 12).unwrap();
    assert!(end);
    assert_eq!(rest.len(), 1024);
    assert_eq!(tar_advance(&data[..1000], 12).err(), Some(TarError::UnexpectedEnd));
    assert_eq!(tar_advance(&data[..10], 12).err(), Some(TarError::UnexpectedEnd));
    let mut data = vec![0u8; 1024];
    data[1023] = 1;
    let (end, _) = tar_advance(&data, 512).unwrap();
    assert!(!end);
}
