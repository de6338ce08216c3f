use vstd::prelude::*;
use vstd::utf8::{decode_utf8, valid_utf8};

use crate::text::{chars_of, string_from_utf8};
use header::{tar_header_spec, FileType, TarHeader, TarHeaderView};
use vstd::string::StringExecFns;

pub mod header;

verus! {

/// Why a tar archive could not be read.
#[derive(Debug, Clone, Copy, PartialEq, Eq, Structural)]
pub enum TarError {
    /// The input ends inside a header, a file's content or its padding, or
    /// before the two blocks that would end the archive.
    UnexpectedEnd,
    /// A text field is not valid UTF-8.
    InvalidUtf8,
    /// A numeric field is not an octal number that fits in 64 bits.
    InvalidNumber,
    /// The header does not hold the magic "ustar ".
    NotUstar,
    /// A long name entry has no content.
    EmptyLongName,
}

/// The bytes of `field` before its first zero byte (all of them if it has none).
pub open spec fn until_nul(field: Seq<u8>) -> Seq<u8>
    decreases field.len(),
{
    if field.len() == 0 {
        field
    } else if until_nul(field.drop_last()).len() < field.len() - 1 {
        until_nul(field.drop_last())
    } else if field.last() == 0 {
        field.drop_last()
    } else {
        field
    }
}

/// A text field: the characters before its first zero byte.
#[verifier::opaque]
pub open spec fn str_field_spec(field: Seq<u8>) -> Result<Seq<char>, TarError> {
    if valid_utf8(until_nul(field)) {
        Ok(decode_utf8(until_nul(field)))
    } else {
        Err(TarError::InvalidUtf8)
    }
}

/// Whether `c` is white space (the Unicode property White_Space).
pub open spec fn is_whitespace(c: char) -> bool {
    let u = c as u32;
    ||| 0x9 <= u <= 0xd
    ||| u == 0x20
    ||| u == 0x85
    ||| u == 0xa0
    ||| u == 0x1680
    ||| 0x2000 <= u <= 0x200a
    ||| u == 0x2028
    ||| u == 0x2029
    ||| u == 0x202f
    ||| u == 0x205f
    ||| u == 0x3000
}

/// `s` without its leading white space.
pub open spec fn trim_start(s: Seq<char>) -> Seq<char>
    decreases s.len(),
{
    if s.len() > 0 && is_whitespace(s[0]) {
        trim_start(s.drop_first())
    } else {
        s
    }
}

/// `s` without its trailing white space.
pub open spec fn trim_end(s: Seq<char>) -> Seq<char>
    decreases s.len(),
{
    if s.len() > 0 && is_whitespace(s.last()) {
        trim_end(s.drop_last())
    } else {
        s
    }
}

/// `s` without leading and trailing white space.
pub open spec fn trim(s: Seq<char>) -> Seq<char> {
    trim_end(trim_start(s))
}

/// Whether every character of `s` is an octal digit.
pub open spec fn all_octal(s: Seq<char>) -> bool {
    forall|i: int| 0 <= i < s.len() ==> '0' <= #[trigger] s[i] <= '7'
}

/// The number that the octal digits `s` write.
pub open spec fn octal_value(s: Seq<char>) -> int
    decreases s.len(),
{
    if s.len() == 0 {
        0
    } else {
        octal_value(s.drop_last()) * 8 + (s.last() as int - '0' as int)
    }
}

/// An unsigned number in base 8, as `u64::from_str_radix` reads it: an
/// optional `+`, then at least one octal digit, and no more than 64 bits.
pub open spec fn parse_octal_spec(s: Seq<char>) -> Option<u64> {
    let digits = if s.len() > 0 && s[0] == '+' {
        s.drop_first()
    } else {
        s
    };
    if digits.len() == 0 || !all_octal(digits) || octal_value(digits) > u64::MAX {
        None
    } else {
        Some(octal_value(digits) as u64)
    }
}

/// A numeric field: the text before its first zero byte, without white
/// space around it, read in base 8; zero where that is empty.
#[verifier::opaque]
pub open spec fn octal_field_spec(field: Seq<u8>) -> Result<u64, TarError> {
    match str_field_spec(field) {
        Err(e) => Err(e),
        Ok(text) => if trim(text).len() == 0 {
            Ok(0)
        } else {
            match parse_octal_spec(trim(text)) {
                Some(v) => Ok(v),
                None => Err(TarError::InvalidNumber),
            }
        },
    }
}

proof fn lemma_until_nul_step(field: Seq<u8>, i: int)
    requires
        0 <= i < field.len(),
        forall|k: int| 0 <= k < i ==> field[k] != 0,
    ensures
        until_nul(field.take(i + 1)) == if field[i] == 0 {
            field.take(i)
        } else {
            field.take(i + 1)
        },
    decreases i,
{
    if i > 0 {
        lemma_until_nul_step(field, i - 1);
    }
    assert(field.take(i + 1).drop_last() =~= field.take(i));
}

proof fn lemma_until_nul_prefix(field: Seq<u8>, i: int)
    requires
        0 <= i < field.len(),
        field[i] == 0,
        forall|k: int| 0 <= k < i ==> field[k] != 0,
    ensures
        until_nul(field) == field.take(i),
    decreases field.len(),
{
    if field.len() == i + 1 {
        lemma_until_nul_step(field, i);
        assert(field.take(i + 1) =~= field);
    } else {
        lemma_until_nul_prefix(field.drop_last(), i);
        assert(field.drop_last().take(i) =~= field.take(i));
    }
}

proof fn lemma_until_nul_none(field: Seq<u8>)
    requires
        forall|k: int| 0 <= k < field.len() ==> field[k] != 0,
    ensures
        until_nul(field) == field,
    decreases field.len(),
{
    if field.len() > 0 {
        lemma_until_nul_none(field.drop_last());
    }
}

/// Reads a text field of `len` bytes: the characters before its first zero
/// byte. Gives the input after the field, or what is wrong with the field.
pub fn try_read_str_until_nul(input: &[u8], len: usize) -> (result: Result<(&[u8], String), TarError>)
    ensures
        input@.len() < len ==> result == Err::<(&[u8], String), TarError>(TarError::UnexpectedEnd),
        input@.len() >= len ==> match str_field_spec(input@.subrange(0, len as int)) {
            Ok(text) => result matches Ok((rest, s)) && s@ == text && rest@ == input@.subrange(
                len as int,
                input@.len() as int,
            ),
            Err(e) => result == Err::<(&[u8], String), TarError>(e),
        },
{
    proof {
        reveal(str_field_spec);
    }
    if input.len() < len {
        return Err(TarError::UnexpectedEnd);
    }
    let field = &input[0..len];
    let mut first_zero: usize = 0;
    while first_zero < len && field[first_zero] != 0
        invariant
            first_zero <= len,
            field@.len() == len,
            forall|k: int| 0 <= k < first_zero ==> field@[k] != 0,
        decreases len - first_zero,
    {
        first_zero += 1;
    }
    proof {
        if first_zero < len {
            lemma_until_nul_prefix(field@, first_zero as int);
        } else {
            lemma_until_nul_none(field@);
            assert(field@.take(first_zero as int) =~= field@);
        }
    }
    let text = &field[0..first_zero];
    match string_from_utf8(text) {
        Some(s) => Ok((&input[len..input.len()], s)),
        None => Err(TarError::InvalidUtf8),
    }
}

proof fn lemma_trim_start_skip(s: Seq<char>, i: int)
    requires
        0 <= i <= s.len(),
        forall|k: int| 0 <= k < i ==> is_whitespace(#[trigger] s[k]),
    ensures
        trim_start(s) == trim_start(s.subrange(i, s.len() as int)),
    decreases i,
{
    if i == 0 {
        assert(s.subrange(0, s.len() as int) =~= s);
    } else {
        assert(is_whitespace(s[0]));
        assert(s.drop_first().subrange(i - 1, s.drop_first().len() as int) =~= s.subrange(i, s.len() as int));
        assert forall|k: int| 0 <= k < i - 1 implies is_whitespace(#[trigger] s.drop_first()[k]) by {
            assert(s.drop_first()[k] == s[k + 1]);
        }
        lemma_trim_start_skip(s.drop_first(), i - 1);
    }
}

proof fn lemma_trim_end_skip(s: Seq<char>, j: int)
    requires
        0 <= j <= s.len(),
        forall|k: int| j <= k < s.len() ==> is_whitespace(#[trigger] s[k]),
    ensures
        trim_end(s) == trim_end(s.subrange(0, j)),
    decreases s.len() - j,
{
    if j == s.len() {
        assert(s.subrange(0, j) =~= s);
    } else {
        assert(is_whitespace(s[s.len() - 1]));
        assert(s.drop_last().subrange(0, j) =~= s.subrange(0, j));
        assert forall|k: int| j <= k < s.drop_last().len() implies is_whitespace(#[trigger] s.drop_last()[k]) by {
            assert(s.drop_last()[k] == s[k]);
        }
        lemma_trim_end_skip(s.drop_last(), j);
    }
}

/// Whether `c` is white space.
fn char_is_whitespace(c: char) -> (b: bool)
    ensures
        b == is_whitespace(c),
{
    let u = c as u32;
    (0x9 <= u && u <= 0xd) || u == 0x20 || u == 0x85 || u == 0xa0 || u == 0x1680 || (0x2000 <= u && u
        <= 0x200a) || u == 0x2028 || u == 0x2029 || u == 0x202f || u == 0x205f || u == 0x3000
}

/// `s` without leading and trailing white space.
fn trim_chars(s: &Vec<char>) -> (t: Vec<char>)
    ensures
        t@ == trim(s@),
{
    let n = s.len();
    let mut i: usize = 0;
    while i < n && char_is_whitespace(s[i])
        invariant
            i <= n,
            n == s@.len(),
            forall|k: int| 0 <= k < i ==> is_whitespace(#[trigger] s@[k]),
        decreases n - i,
    {
        i += 1;
    }
    proof {
        lemma_trim_start_skip(s@, i as int);
    }
    let mut j: usize = n;
    while j > i && char_is_whitespace(s[j - 1])
        invariant
            i <= j <= n,
            n == s@.len(),
            forall|k: int| j <= k < n ==> is_whitespace(#[trigger] s@[k]),
        decreases j,
    {
        j -= 1;
    }
    let ghost rest = s@.subrange(i as int, n as int);
    proof {
        if i < n {
            assert(!is_whitespace(rest[0]));
        }
        assert(trim_start(rest) == rest);
        assert forall|k: int| j - i <= k < rest.len() implies is_whitespace(#[trigger] rest[k]) by {
            assert(rest[k] == s@[k + i]);
        }
        lemma_trim_end_skip(rest, j - i);
        assert(rest.subrange(0, j - i) =~= s@.subrange(i as int, j as int));
        let inner = s@.subrange(i as int, j as int);
        if j > i {
            assert(!is_whitespace(inner.last()));
        }
        assert(trim_end(inner) == inner);
    }
    let mut t: Vec<char> = Vec::new();
    let mut k: usize = i;
    while k < j
        invariant
            i <= k <= j,
            j <= n,
            n == s@.len(),
            t@ =~= s@.subrange(i as int, k as int),
        decreases j - k,
    {
        t.push(s[k]);
        k += 1;
    }
    t
}

proof fn lemma_octal_value_prefix(s: Seq<char>, k: int)
    requires
        0 <= k <= s.len(),
        all_octal(s),
    ensures
        octal_value(s) >= octal_value(s.take(k)),
        octal_value(s.take(k)) >= 0,
    decreases s.len(),
{
    if s.len() > 0 {
        if k == s.len() {
            assert(s.take(k) =~= s);
            lemma_octal_value_prefix(s.drop_last(), k - 1);
            assert(s.drop_last().take(k - 1) =~= s.drop_last());
        } else {
            lemma_octal_value_prefix(s.drop_last(), k);
            assert(s.drop_last().take(k) =~= s.take(k));
            assert(s.drop_last() =~= s.drop_last().take(s.len() - 1));
            lemma_octal_value_prefix(s.drop_last(), s.len() - 1);
        }
    }
}

/// Reads an unsigned number in base 8, as `u64::from_str_radix` does.
fn parse_octal(s: &Vec<char>) -> (v: Option<u64>)
    ensures
        v == parse_octal_spec(s@),
{
    let n = s.len();
    let start: usize = if n > 0 && s[0] == '+' {
        1
    } else {
        0
    };
    let ghost digits = if s@.len() > 0 && s@[0] == '+' {
        s@.drop_first()
    } else {
        s@
    };
    assert(digits =~= s@.subrange(start as int, n as int));
    if start == n {
        return None;
    }
    let mut value: u64 = 0;
    let mut i: usize = start;
    while i < n
        invariant
            start <= i <= n,
            n == s@.len(),
            digits == s@.subrange(start as int, n as int),
            digits == (if s@.len() > 0 && s@[0] == '+' {
                s@.drop_first()
            } else {
                s@
            }),
            all_octal(digits.take(i - start)),
            value == octal_value(digits.take(i - start)),
        decreases n - i,
    {
        let c = s[i];
        let ghost prefix = digits.take(i - start);
        assert(digits.take(i - start + 1).drop_last() =~= prefix);
        if c < '0' || c > '7' {
            assert(!all_octal(digits)) by {
                assert(digits[i - start] == c);
            }
            return None;
        }
        let d = (c as u32 - '0' as u32) as u64;
        assert(all_octal(digits.take(i - start + 1)));
        if value > 0x1fff_ffff_ffff_ffff {
            proof {
                lemma_octal_value_prefix(digits.take(i - start + 1), i - start);
                if all_octal(digits) {
                    lemma_octal_value_prefix(digits, i - start + 1);
                }
            }
            return None;
        }
        value = value * 8 + d;
        i += 1;
    }
    assert(digits.take(n - start) =~= digits);
    Some(value)
}

/// Reads a numeric field of `len` bytes: its text read in base 8, zero where
/// that text is empty or white space. Gives the input after the field, or
/// what is wrong with the field.
pub fn try_read_base_8_str_until_nul(input: &[u8], len: usize) -> (result: Result<(&[u8], u64), TarError>)
    ensures
        input@.len() < len ==> result == Err::<(&[u8], u64), TarError>(TarError::UnexpectedEnd),
        input@.len() >= len ==> match octal_field_spec(input@.subrange(0, len as int)) {
            Ok(v) => result matches Ok((rest, value)) && value == v && rest@ == input@.subrange(
                len as int,
                input@.len() as int,
            ),
            Err(e) => result == Err::<(&[u8], u64), TarError>(e),
        },
{
    proof {
        reveal(octal_field_spec);
    }
    let (rest, text) = match try_read_str_until_nul(input, len) {
        Ok(r) => r,
        Err(e) => {
            return Err(e);
        },
    };
    let chars = chars_of(text.as_str());
    let value = trim_chars(&chars);
    if value.len() == 0 {
        return Ok((rest, 0));
    }
    match parse_octal(&value) {
        Some(v) => Ok((rest, v)),
        None => Err(TarError::InvalidNumber),
    }
}

/// Reads a text field of `len` bytes whose text is UTF-8: the characters
/// before its first zero byte. Gives the input after the field; the only
/// failure left is an input shorter than the field.
pub fn read_str_until_nul(input: &[u8], len: usize) -> (result: Result<(&[u8], String), TarError>)
    requires
        input@.len() >= len ==> str_field_spec(input@.subrange(0, len as int)) is Ok,
    ensures
        input@.len() < len ==> result == Err::<(&[u8], String), TarError>(TarError::UnexpectedEnd),
        input@.len() >= len ==> (str_field_spec(input@.subrange(0, len as int)) matches Ok(text) && result matches Ok(
            (rest, s),
        ) && s@ == text && rest@ == input@.subrange(len as int, input@.len() as int)),
{
    try_read_str_until_nul(input, len)
}

/// Reads a numeric field of `len` bytes whose text is an octal number or
/// white space: that number, zero where the text is empty or white space.
/// Gives the input after the field; the only failure left is an input shorter
/// than the field.
pub fn read_base_8_str_until_nul(input: &[u8], len: usize) -> (result: Result<(&[u8], u64), TarError>)
    requires
        input@.len() >= len ==> octal_field_spec(input@.subrange(0, len as int)) is Ok,
    ensures
        input@.len() < len ==> result == Err::<(&[u8], u64), TarError>(TarError::UnexpectedEnd),
        input@.len() >= len ==> (octal_field_spec(input@.subrange(0, len as int)) matches Ok(v) && result matches Ok(
            (rest, value),
        ) && value == v && rest@ == input@.subrange(len as int, input@.len() as int)),
{
    try_read_base_8_str_until_nul(input, len)
}

/// `name` under the directory `prefix`, as `Path::join` puts it together on
/// Unix: an absolute `name` stands alone; otherwise a `/` separates the two
/// unless `prefix` ends with one.
pub open spec fn join_path_spec(prefix: Seq<char>, name: Seq<char>) -> Seq<char> {
    if name.len() > 0 && name[0] == '/' {
        name
    } else if prefix.len() > 0 && prefix.last() == '/' {
        prefix + name
    } else {
        prefix + seq!['/'] + name
    }
}

/// The path of an entry: the long name that a preceding entry gave, if any;
/// else its file name, under its prefix where it has one.
pub open spec fn entry_path_spec(header: TarHeaderView, long_name: Option<Seq<char>>) -> Seq<char> {
    match long_name {
        Some(name) => name,
        None => if header.filename_prefix.len() == 0 {
            header.filename
        } else {
            join_path_spec(header.filename_prefix, header.filename)
        },
    }
}

/// What extracting an entry takes.
pub enum TarAction {
    /// The entry gives the name of the next entry; nothing is written.
    LongName,
    /// Create the directory at this path, with its parents.
    CreateDirectory(String),
    /// Create the parent directories of this path, then write the content to it.
    WriteFile(String),
    /// Create the parent directories of this path; the entry's type is not extracted.
    Unsupported(String),
}

/// A `TarAction` with its path as characters.
pub enum TarActionView {
    LongName,
    CreateDirectory(Seq<char>),
    WriteFile(Seq<char>),
    Unsupported(Seq<char>),
}

impl View for TarAction {
    type V = TarActionView;

    open spec fn view(&self) -> TarActionView {
        match self {
            TarAction::LongName => TarActionView::LongName,
            TarAction::CreateDirectory(p) => TarActionView::CreateDirectory(p@),
            TarAction::WriteFile(p) => TarActionView::WriteFile(p@),
            TarAction::Unsupported(p) => TarActionView::Unsupported(p@),
        }
    }
}

/// What to do with an entry that is not a long name: directories are
/// created, normal and contiguous files written, other types left out.
pub open spec fn entry_action_spec(header: TarHeaderView, long_name: Option<Seq<char>>) -> TarActionView {
    let path = entry_path_spec(header, long_name);
    if header.file_type == FileType::Directory {
        TarActionView::CreateDirectory(path)
    } else if header.file_type == FileType::NormalFile || header.file_type == FileType::ContiguousFile {
        TarActionView::WriteFile(path)
    } else {
        TarActionView::Unsupported(path)
    }
}

/// The characters of an optional string.
pub open spec fn opt_chars(s: Option<String>) -> Option<Seq<char>> {
    match s {
        Some(t) => Some(t@),
        None => None,
    }
}

/// `name` under the directory `prefix`.
fn join_path(prefix: &String, name: &String) -> (path: String)
    ensures
        path@ == join_path_spec(prefix@, name@),
{
    let prefix_chars = chars_of(prefix.as_str());
    let name_chars = chars_of(name.as_str());
    if name_chars.len() > 0 && name_chars[0] == '/' {
        return name.clone();
    }
    let mut path = prefix.clone();
    if !(prefix_chars.len() > 0 && prefix_chars[prefix_chars.len() - 1] == '/') {
        let separator = "/";
        proof {
            reveal_strlit("/");
        }
        path.append(separator);
    }
    path.append(name.as_str());
    path
}

/// Decides what to do with an entry that is not a long name; uses up the
/// long name that a preceding entry gave.
pub fn entry_action(header: &TarHeader, next_filename: &mut Option<String>) -> (action: TarAction)
    ensures
        *final(next_filename) is None,
        action@ == entry_action_spec(header@, opt_chars(*old(next_filename))),
{
    let path = match next_filename.take() {
        Some(name) => name,
        None => if chars_of(header.filename_prefix.as_str()).len() == 0 {
            header.filename.clone()
        } else {
            join_path(&header.filename_prefix, &header.filename)
        },
    };
    proof {
        if *old(next_filename) is None && header.filename_prefix@.len() == 0 {
            assert(header.filename_prefix@ == Seq::<char>::empty());
        }
    }
    match header.file_type {
        FileType::Directory => TarAction::CreateDirectory(path),
        FileType::NormalFile | FileType::ContiguousFile => TarAction::WriteFile(path),
        _ => TarAction::Unsupported(path),
    }
}

/// An entry of an archive.
pub struct TarEntry<'a> {
    pub header: TarHeader,
    /// The entry's content.
    pub content: &'a [u8],
    /// What extracting it takes.
    pub action: TarAction,
    /// The input after the content.
    pub rest: &'a [u8],
}

/// The entry at the start of `input`, read after entries that left the long
/// name `long_name`: its header, its content, what to do with it, the long
/// name for the next entry, and the input after the content. An entry of
/// type 'L' holds a long name, ended by one byte that is left out.
pub open spec fn tar_entry_spec(input: Seq<u8>, long_name: Option<Seq<char>>) -> Result<
    (TarHeaderView, Seq<u8>, TarActionView, Option<Seq<char>>, Seq<u8>),
    TarError,
> {
    match tar_header_spec(input) {
        Err(e) => Err(e),
        Ok(h) => {
            let after = input.subrange(512, input.len() as int);
            if after.len() < h.file_size {
                Err(TarError::UnexpectedEnd)
            } else {
                let content = after.subrange(0, h.file_size as int);
                let rest = after.subrange(h.file_size as int, after.len() as int);
                if h.file_type == FileType::VendorSpecific('L') {
                    if content.len() == 0 {
                        Err(TarError::EmptyLongName)
                    } else if !valid_utf8(content.drop_last()) {
                        Err(TarError::InvalidUtf8)
                    } else {
                        Ok((h, content, TarActionView::LongName, Some(decode_utf8(content.drop_last())), rest))
                    }
                } else {
                    Ok((h, content, entry_action_spec(h, long_name), None, rest))
                }
            }
        },
    }
}

/// Reads the entry at the start of `input` and decides what to do with it;
/// `next_filename` carries a long name from one entry to the next. Gives
/// `None` where the input is empty, which ends the archive, and the first
/// fault of the entry where it has one.
pub fn try_tar_entry<'a>(input: &'a [u8], next_filename: &mut Option<String>) -> (result: Result<
    Option<TarEntry<'a>>,
    TarError,
>)
    ensures
        input@.len() == 0 ==> (result matches Ok(None) && *final(next_filename) == *old(next_filename)),
        input@.len() > 0 ==> match tar_entry_spec(input@, opt_chars(*old(next_filename))) {
            Ok((h, content, action, next, rest)) => result matches Ok(Some(entry)) && entry.header@ == h
                && entry.content@ == content && entry.action@ == action && opt_chars(*final(next_filename)) == next
                && entry.rest@ == rest,
            Err(e) => result matches Err(e2) && e2 == e,
        },
        result is Err ==> *final(next_filename) == *old(next_filename),
{
    if input.len() == 0 {
        return Ok(None);
    }
    let (after, header) = match TarHeader::try_parse(input) {
        Ok(r) => r,
        Err(e) => {
            return Err(e);
        },
    };
    if (after.len() as u64) < header.file_size {
        return Err(TarError::UnexpectedEnd);
    }
    let size = header.file_size as usize;
    let content = &after[0..size];
    let rest = &after[size..after.len()];
    let action = match header.file_type {
        FileType::VendorSpecific('L') => {
            if content.len() == 0 {
                return Err(TarError::EmptyLongName);
            }
            let name = match string_from_utf8(&content[0..content.len() - 1]) {
                Some(s) => s,
                None => {
                    assert(content@.subrange(0, content@.len() - 1) =~= content@.drop_last());
                    return Err(TarError::InvalidUtf8);
                },
            };
            assert(content@.subrange(0, content@.len() - 1) =~= content@.drop_last());
            *next_filename = Some(name);
            TarAction::LongName
        },
        _ => entry_action(&header, next_filename),
    };
    Ok(Some(TarEntry { header, content, action, rest }))
}

/// The padding after a content of `content_len` bytes, up to the next 512-byte boundary.
pub open spec fn padding_len(content_len: int) -> int {
    (512 - content_len % 512) % 512
}

/// The content and its padding fill whole 512-byte blocks, with less than
/// one block of padding.
pub proof fn lemma_padding_aligns(content_len: int)
    requires
        content_len >= 0,
    ensures
        0 <= padding_len(content_len) < 512,
        (content_len + padding_len(content_len)) % 512 == 0,
{
}

/// Whether the entry at the start of `input` is read without fault, or fails
/// only by being cut short or by a header without the "ustar " magic: a text
/// field that is not UTF-8, a numeric field that is not octal, and a long
/// name that is empty or not UTF-8 are faults of a broken archive.
pub open spec fn tar_entry_readable(input: Seq<u8>, long_name: Option<Seq<char>>) -> bool {
    match tar_entry_spec(input, long_name) {
        Ok(_) => true,
        Err(e) => e == TarError::UnexpectedEnd || e == TarError::NotUstar,
    }
}

/// Reads the entry, which is not broken, at the start of `input` and decides
/// what to do with it; `next_filename` carries a long name from one entry to
/// the next. Gives `None` where the input is empty, which ends the archive.
/// The only failures left are an entry cut short and a header without the
/// "ustar " magic.
pub fn tar_entry<'a>(input: &'a [u8], next_filename: &mut Option<String>) -> (result: Result<
    Option<TarEntry<'a>>,
    TarError,
>)
    requires
        tar_entry_readable(input@, opt_chars(*old(next_filename))),
    ensures
        input@.len() == 0 ==> (result matches Ok(None) && *final(next_filename) == *old(next_filename)),
        input@.len() > 0 ==> match tar_entry_spec(input@, opt_chars(*old(next_filename))) {
            Ok((h, content, action, next, rest)) => result matches Ok(Some(entry)) && entry.header@ == h
                && entry.content@ == content && entry.action@ == action && opt_chars(*final(next_filename)) == next
                && entry.rest@ == rest,
            Err(e) => result matches Err(e2) && e2 == e,
        },
        result is Err ==> *final(next_filename) == *old(next_filename),
{
    try_tar_entry(input, next_filename)
}

/// Skips the padding after a content of `content_len` bytes. Gives whether
/// the next 1024 bytes are all zero, which ends the archive, and the input
/// after the padding.
pub fn tar_advance(input: &[u8], content_len: usize) -> (result: Result<(bool, &[u8]), TarError>)
    ensures
        ({
            let pad = padding_len(content_len as int);
            if input@.len() < pad || input@.len() - pad < 1024 {
                result matches Err(e) && e == TarError::UnexpectedEnd
            } else {
                result matches Ok((end, rest)) && rest@ == input@.subrange(pad, input@.len() as int) && end == (
                forall|i: int| 0 <= i < 1024 ==> #[trigger] rest@[i] == 0)
            }
        }),
{
    let pad = (512 - content_len % 512) % 512;
    if input.len() < pad {
        return Err(TarError::UnexpectedEnd);
    }
    let rest = &input[pad..input.len()];
    if rest.len() < 1024 {
        return Err(TarError::UnexpectedEnd);
    }
    let mut i: usize = 0;
    while i < 1024
        invariant
            i <= 1024,
            rest@.len() >= 1024,
            pad == padding_len(content_len as int),
            pad <= input@.len(),
            rest@ == input@.subrange(pad as int, input@.len() as int),
            forall|k: int| 0 <= k < i ==> rest@[k] == 0,
        decreases 1024 - i,
    {
        if rest[i] != 0 {
            assert(rest@[i as int] != 0);
            return Ok((false, rest));
        }
        i += 1;
    }
    Ok((true, rest))
}

} // verus!
