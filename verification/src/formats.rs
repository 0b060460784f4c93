//! Archive formats: how a file is told to be one of them, and what it holds.

use vstd::prelude::*;

use crate::error::CoZipError;
use crate::names::chars_of;
use crate::paths::{
    is_plain, lemma_joined_names_split, names_drive, normalize_zip_entry_name, normalized_name,
    PathStyle,
};
use crate::trusted::{ascii_lower, lowercase};
use crate::zip_read::{read_records, ReadRecord, ZipCentralReadEntry};
use crate::zip_write::STORED_METHOD;

verus! {

/// The name of an entry that has no other.
pub const DEFAULT_ENTRY_NAME: &'static str = "payload.bin";

/// An archive format.
#[derive(Debug, Clone, Copy, PartialEq, Eq, Structural)]
pub enum CoZipArchiveFormat {
    Zip,
    PDeflate,
    Tar,
    TarGz,
    TarBz2,
    TarXz,
    Rar,
    SevenZip,
}

impl CoZipArchiveFormat {
    /// The name of the format.
    pub open spec fn text(self) -> &'static str {
        match self {
            CoZipArchiveFormat::Zip => "zip",
            CoZipArchiveFormat::PDeflate => "cozip",
            CoZipArchiveFormat::Tar => "tar",
            CoZipArchiveFormat::TarGz => "tar.gz",
            CoZipArchiveFormat::TarBz2 => "tar.bz2",
            CoZipArchiveFormat::TarXz => "tar.xz",
            CoZipArchiveFormat::Rar => "rar",
            CoZipArchiveFormat::SevenZip => "7z",
        }
    }

    /// Returns the name of the format.
    pub fn as_str(&self) -> (name: &'static str)
        ensures
            name == self.text(),
    {
        match self {
            CoZipArchiveFormat::Zip => "zip",
            CoZipArchiveFormat::PDeflate => "cozip",
            CoZipArchiveFormat::Tar => "tar",
            CoZipArchiveFormat::TarGz => "tar.gz",
            CoZipArchiveFormat::TarBz2 => "tar.bz2",
            CoZipArchiveFormat::TarXz => "tar.xz",
            CoZipArchiveFormat::Rar => "rar",
            CoZipArchiveFormat::SevenZip => "7z",
        }
    }
}

/// What an archive holds.
#[derive(Debug, Clone, PartialEq, Eq)]
pub enum CoZipArchiveKind {
    SingleFile { suggested_name: String },
    Directory,
}

/// What was found out about an archive.
#[derive(Debug, Clone, PartialEq, Eq)]
pub struct CoZipArchiveInfo {
    pub format: CoZipArchiveFormat,
    pub kind: CoZipArchiveKind,
}

/// Whether an archive can be decoded by several threads.
#[derive(Debug, Clone, Copy, PartialEq, Eq, Structural)]
pub enum CoZipArchiveDecodeHint {
    SingleThread,
    Parallel,
}

/// The bytes stand at `at`.
pub open spec fn stands_at(bytes: Seq<u8>, at: int, expected: Seq<u8>) -> bool {
    at + expected.len() <= bytes.len() && bytes.subrange(at, at + expected.len()) == expected
}

/// Whether the bytes stand at `at`.
fn bytes_stand_at(bytes: &[u8], at: usize, expected: &[u8]) -> (found: bool)
    ensures
        found == stands_at(bytes@, at as int, expected@),
{
    if bytes.len() < at || bytes.len() - at < expected.len() {
        return false;
    }
    let mut i: usize = 0;
    while i < expected.len()
        invariant
            i <= expected@.len(),
            at + expected@.len() <= bytes.len(),
            forall|j: int| 0 <= j < i ==> bytes@[at + j] == expected@[j],
        decreases expected@.len() - i,
    {
        if bytes[at + i] != expected[i] {
            assert(bytes@.subrange(at as int, at + expected@.len())[i as int] != expected@[i as int]);
            return false;
        }
        i = i + 1;
    }
    assert(bytes@.subrange(at as int, at + expected@.len()) =~= expected@);
    true
}

/// The mark of a tar header, which stands at offset 257.
pub open spec fn tar_mark() -> Seq<u8> {
    seq![0x75u8, 0x73, 0x74, 0x61, 0x72]
}

/// The bytes start with a tar header.
pub open spec fn has_tar_header(bytes: Seq<u8>) -> bool {
    stands_at(bytes, 257, tar_mark())
}

/// Whether the bytes start with a tar header.
fn starts_with_tar_header(bytes: &[u8]) -> (found: bool)
    ensures
        found == has_tar_header(bytes@),
{
    let ustar: [u8; 5] = [0x75, 0x73, 0x74, 0x61, 0x72];
    assert(ustar@ =~= tar_mark());
    bytes_stand_at(bytes, 257, ustar.as_slice())
}

/// The format whose signature stands in the first bytes of a file. A signature
/// of a compressed stream stands for the tar archive that may be in it.
pub open spec fn format_by_content(header: Seq<u8>) -> Option<CoZipArchiveFormat> {
    if stands_at(header, 0, seq![0x50u8, 0x4B, 0x03, 0x04]) || stands_at(
        header,
        0,
        seq![0x50u8, 0x4B, 0x05, 0x06],
    ) {
        Some(CoZipArchiveFormat::Zip)
    } else if stands_at(header, 0, seq![0x50u8, 0x44, 0x53, 0x30]) || stands_at(
        header,
        0,
        seq![0x43u8, 0x5A, 0x50, 0x44],
    ) || stands_at(header, 0, seq![0x43u8, 0x5A, 0x41, 0x52]) {
        Some(CoZipArchiveFormat::PDeflate)
    } else if stands_at(header, 0, seq![0x37u8, 0x7A, 0xBC, 0xAF, 0x27, 0x1C]) {
        Some(CoZipArchiveFormat::SevenZip)
    } else if stands_at(header, 0, seq![0x52u8, 0x61, 0x72, 0x21, 0x1A, 0x07]) {
        Some(CoZipArchiveFormat::Rar)
    } else if stands_at(header, 0, seq![0xFDu8, 0x37, 0x7A, 0x58, 0x5A, 0x00]) {
        Some(CoZipArchiveFormat::TarXz)
    } else if stands_at(header, 0, seq![0x42u8, 0x5A, 0x68]) {
        Some(CoZipArchiveFormat::TarBz2)
    } else if stands_at(header, 0, seq![0x1Fu8, 0x8B]) {
        Some(CoZipArchiveFormat::TarGz)
    } else if has_tar_header(header) {
        Some(CoZipArchiveFormat::Tar)
    } else {
        None
    }
}

/// Tells the format whose signature stands in the first bytes of a file.
pub fn detect_by_content(header: &[u8]) -> (format: Option<CoZipArchiveFormat>)
    ensures
        format == format_by_content(header@),
{
    let zip: [u8; 4] = [0x50, 0x4B, 0x03, 0x04];
    let empty_zip: [u8; 4] = [0x50, 0x4B, 0x05, 0x06];
    let stream: [u8; 4] = [0x50, 0x44, 0x53, 0x30];
    let directory: [u8; 4] = [0x43, 0x5A, 0x50, 0x44];
    let archive: [u8; 4] = [0x43, 0x5A, 0x41, 0x52];
    let sevenz: [u8; 6] = [0x37, 0x7A, 0xBC, 0xAF, 0x27, 0x1C];
    let rar: [u8; 6] = [0x52, 0x61, 0x72, 0x21, 0x1A, 0x07];
    let xz: [u8; 6] = [0xFD, 0x37, 0x7A, 0x58, 0x5A, 0x00];
    let bz2: [u8; 3] = [0x42, 0x5A, 0x68];
    let gz: [u8; 2] = [0x1F, 0x8B];
    proof {
        assert(zip@ =~= seq![0x50u8, 0x4B, 0x03, 0x04]);
        assert(empty_zip@ =~= seq![0x50u8, 0x4B, 0x05, 0x06]);
        assert(stream@ =~= seq![0x50u8, 0x44, 0x53, 0x30]);
        assert(directory@ =~= seq![0x43u8, 0x5A, 0x50, 0x44]);
        assert(archive@ =~= seq![0x43u8, 0x5A, 0x41, 0x52]);
        assert(sevenz@ =~= seq![0x37u8, 0x7A, 0xBC, 0xAF, 0x27, 0x1C]);
        assert(rar@ =~= seq![0x52u8, 0x61, 0x72, 0x21, 0x1A, 0x07]);
        assert(xz@ =~= seq![0xFDu8, 0x37, 0x7A, 0x58, 0x5A, 0x00]);
        assert(bz2@ =~= seq![0x42u8, 0x5A, 0x68]);
        assert(gz@ =~= seq![0x1Fu8, 0x8B]);
    }
    if bytes_stand_at(header, 0, zip.as_slice()) || bytes_stand_at(
        header,
        0,
        empty_zip.as_slice(),
    ) {
        return Some(CoZipArchiveFormat::Zip);
    }
    if bytes_stand_at(header, 0, stream.as_slice()) || bytes_stand_at(
        header,
        0,
        directory.as_slice(),
    ) || bytes_stand_at(header, 0, archive.as_slice()) {
        return Some(CoZipArchiveFormat::PDeflate);
    }
    if bytes_stand_at(header, 0, sevenz.as_slice()) {
        return Some(CoZipArchiveFormat::SevenZip);
    }
    if bytes_stand_at(header, 0, rar.as_slice()) {
        return Some(CoZipArchiveFormat::Rar);
    }
    if bytes_stand_at(header, 0, xz.as_slice()) {
        return Some(CoZipArchiveFormat::TarXz);
    }
    if bytes_stand_at(header, 0, bz2.as_slice()) {
        return Some(CoZipArchiveFormat::TarBz2);
    }
    if bytes_stand_at(header, 0, gz.as_slice()) {
        return Some(CoZipArchiveFormat::TarGz);
    }
    if starts_with_tar_header(header) {
        return Some(CoZipArchiveFormat::Tar);
    }
    None
}

/// The text ends with `suffix`.
pub open spec fn ends(text: Seq<char>, suffix: Seq<char>) -> bool {
    suffix.len() <= text.len() && text.subrange(text.len() - suffix.len(), text.len() as int)
        == suffix
}

/// Whether a text ends with `suffix`.
fn ends_with(text: &Vec<char>, suffix: &str) -> (found: bool)
    ensures
        found == ends(text@, suffix@),
{
    let tail = chars_of(suffix);
    if tail.len() > text.len() {
        return false;
    }
    let start: usize = text.len() - tail.len();
    let mut i: usize = 0;
    while i < tail.len()
        invariant
            i <= tail@.len(),
            tail@ == suffix@,
            start + tail@.len() == text.len(),
            forall|j: int| 0 <= j < i ==> text@[start + j] == tail@[j],
        decreases tail@.len() - i,
    {
        if text[start + i] != tail[i] {
            assert(text@.subrange(start as int, text@.len() as int)[i as int] != tail@[i as int]);
            return false;
        }
        i = i + 1;
    }
    assert(text@.subrange(start as int, text@.len() as int) =~= tail@);
    true
}

/// The format that a file name in lower case tells.
pub open spec fn format_by_name(name: Seq<char>) -> Option<CoZipArchiveFormat> {
    if ends(name, ".tar.gz"@) || ends(name, ".tgz"@) {
        Some(CoZipArchiveFormat::TarGz)
    } else if ends(name, ".tar.bz2"@) || ends(name, ".tbz2"@) {
        Some(CoZipArchiveFormat::TarBz2)
    } else if ends(name, ".tar.xz"@) || ends(name, ".txz"@) {
        Some(CoZipArchiveFormat::TarXz)
    } else if ends(name, ".tar"@) {
        Some(CoZipArchiveFormat::Tar)
    } else if ends(name, ".7z"@) {
        Some(CoZipArchiveFormat::SevenZip)
    } else if ends(name, ".rar"@) {
        Some(CoZipArchiveFormat::Rar)
    } else {
        None
    }
}

/// Tells the format by a file name in lower case.
pub fn detect_by_name(name: &str) -> (format: Option<CoZipArchiveFormat>)
    ensures
        format == format_by_name(name@),
{
    let chars = chars_of(name);
    if ends_with(&chars, ".tar.gz") || ends_with(&chars, ".tgz") {
        return Some(CoZipArchiveFormat::TarGz);
    }
    if ends_with(&chars, ".tar.bz2") || ends_with(&chars, ".tbz2") {
        return Some(CoZipArchiveFormat::TarBz2);
    }
    if ends_with(&chars, ".tar.xz") || ends_with(&chars, ".txz") {
        return Some(CoZipArchiveFormat::TarXz);
    }
    if ends_with(&chars, ".tar") {
        return Some(CoZipArchiveFormat::Tar);
    }
    if ends_with(&chars, ".7z") {
        return Some(CoZipArchiveFormat::SevenZip);
    }
    if ends_with(&chars, ".rar") {
        return Some(CoZipArchiveFormat::Rar);
    }
    None
}

/// The format is that of a tar archive in a compressed stream.
pub open spec fn is_compressed_tar(format: CoZipArchiveFormat) -> bool {
    ||| format == CoZipArchiveFormat::TarGz
    ||| format == CoZipArchiveFormat::TarBz2
    ||| format == CoZipArchiveFormat::TarXz
}

/// Whether the format is that of a tar archive in a compressed stream.
fn compressed_tar(format: CoZipArchiveFormat) -> (compressed: bool)
    ensures
        compressed == is_compressed_tar(format),
{
    match format {
        CoZipArchiveFormat::TarGz => true,
        CoZipArchiveFormat::TarBz2 => true,
        CoZipArchiveFormat::TarXz => true,
        _ => false,
    }
}

/// What a compressed stream is: the tar archive of its kind where its name says
/// so or a tar header comes first in it, a bare tar archive where its bytes or its
/// name say that, and nothing else.
pub open spec fn compressed_format(
    signature: CoZipArchiveFormat,
    header: Seq<u8>,
    inner: Option<Seq<u8>>,
    name: Seq<char>,
) -> Option<CoZipArchiveFormat> {
    if format_by_name(name) == Some(signature) || (inner matches Some(bytes) && has_tar_header(
        bytes,
    )) {
        Some(signature)
    } else if has_tar_header(header) || ends(name, ".tar"@) {
        Some(CoZipArchiveFormat::Tar)
    } else {
        None
    }
}

/// The format of a file with a name in lower case: by its first bytes, and where
/// no signature stands there by the name. `inner` are the first bytes that a
/// compressed stream decodes to, where it decodes.
pub open spec fn format_of(header: Seq<u8>, inner: Option<Seq<u8>>, name: Seq<char>) -> Option<
    CoZipArchiveFormat,
> {
    match format_by_content(header) {
        Some(format) => if is_compressed_tar(format) {
            compressed_format(format, header, inner, name)
        } else {
            Some(format)
        },
        None => format_by_name(name),
    }
}

/// The name of a file in lower case. A file without one goes by the empty name.
pub open spec fn lowered(file_name: Option<Seq<char>>) -> Seq<char> {
    match file_name {
        Some(name) => lowercase(name),
        None => Seq::empty(),
    }
}

/// Tells the format of a file whose name is in lower case.
pub fn format_with_name(header: &[u8], inner: Option<&[u8]>, name: &str) -> (format: Option<
    CoZipArchiveFormat,
>)
    ensures
        format == format_of(
            header@,
            match inner {
                Some(bytes) => Some(bytes@),
                None => None,
            },
            name@,
        ),
{
    let by_name = detect_by_name(name);
    match detect_by_content(header) {
        None => by_name,
        Some(format) => {
            if !compressed_tar(format) {
                return Some(format);
            }
            if let Some(named) = by_name {
                if named == format {
                    return Some(format);
                }
            }
            if let Some(bytes) = inner {
                if starts_with_tar_header(bytes) {
                    return Some(format);
                }
            }
            if starts_with_tar_header(header) || ends_with(&chars_of(name), ".tar") {
                return Some(CoZipArchiveFormat::Tar);
            }
            None
        },
    }
}

/// All characters are ASCII.
pub open spec fn is_ascii_text(text: Seq<char>) -> bool {
    forall|i: int| 0 <= i < text.len() ==> (#[trigger] text[i] as u32) < 128
}

/// Tells the format of a file, by its first 512 bytes, by the first bytes that
/// they decode to where they are compressed, and by its name, whatever its case.
pub fn detect_archive_format(
    header: &[u8],
    inner: Option<&[u8]>,
    file_name: Option<&str>,
) -> (format: Option<CoZipArchiveFormat>)
    ensures
        format == format_of(
            header@,
            match inner {
                Some(bytes) => Some(bytes@),
                None => None,
            },
            lowered(
                match file_name {
                    Some(name) => Some(name@),
                    None => None,
                },
            ),
        ),
        file_name matches Some(name) ==> is_ascii_text(name@) ==> format == format_of(
            header@,
            match inner {
                Some(bytes) => Some(bytes@),
                None => None,
            },
            name@.map_values(|ch: char| ascii_lower(ch)),
        ),
{
    let name = match file_name {
        Some(name) => name.to_lowercase(),
        None => String::new(),
    };
    format_with_name(header, inner, name.as_str())
}

/// What a ZIP archive holds.
#[derive(Debug, Clone)]
pub enum ZipArchiveKind {
    SingleFile { entry_name: String },
    Directory,
}

/// The name stands for a directory.
pub open spec fn is_dir_name(name: Seq<char>) -> bool {
    name.len() > 0 && name.last() == '/'
}

/// The archive holds one file at its top, and nothing else.
pub open spec fn holds_single_file(records: Seq<ReadRecord>) -> bool {
    records.len() == 1 && !records[0].name.contains('/')
}

/// Whether the name stands for a directory.
pub fn is_directory_name(name: &str) -> (directory: bool)
    ensures
        directory == is_dir_name(name@),
{
    let chars = chars_of(name);
    chars.len() > 0 && chars[chars.len() - 1] == '/'
}

/// Whether the name holds a slash.
fn contains_slash(name: &str) -> (found: bool)
    ensures
        found == name@.contains('/'),
{
    let chars = chars_of(name);
    let mut i: usize = 0;
    while i < chars.len()
        invariant
            i <= chars@.len(),
            chars@ == name@,
            forall|j: int| 0 <= j < i ==> name@[j] != '/',
        decreases chars@.len() - i,
    {
        if chars[i] == '/' {
            assert(name@[i as int] == '/');
            return true;
        }
        i = i + 1;
    }
    false
}

/// Tells whether an archive holds a single file or a directory. The name of a
/// single file must be one that can be cleaned.
pub fn classify_zip_archive_kind(entries: &[ZipCentralReadEntry], style: PathStyle) -> (r: Result<
    ZipArchiveKind,
    CoZipError,
>)
    ensures
        if holds_single_file(read_records(entries@)) {
            match normalized_name(entries@[0].name@, style) {
                Ok(name) => r matches Ok(ZipArchiveKind::SingleFile { entry_name })
                    && entry_name@ == name,
                Err(error) => r == Err::<ZipArchiveKind, CoZipError>(error),
            }
        } else {
            r == Ok::<ZipArchiveKind, CoZipError>(ZipArchiveKind::Directory)
        },
{
    if entries.len() == 1 && !contains_slash(entries[0].name.as_str()) {
        return match normalize_zip_entry_name(entries[0].name.as_str(), style) {
            Ok(entry_name) => Ok(ZipArchiveKind::SingleFile { entry_name }),
            Err(error) => Err(error),
        };
    }
    Ok(ZipArchiveKind::Directory)
}

/// Tells what is known of a ZIP archive from its directory.
pub fn zip_archive_info(entries: &[ZipCentralReadEntry], style: PathStyle) -> (r: Result<
    CoZipArchiveInfo,
    CoZipError,
>)
    ensures
        if holds_single_file(read_records(entries@)) {
            match normalized_name(entries@[0].name@, style) {
                Ok(name) => {
                    &&& r matches Ok(info)
                    &&& info.format == CoZipArchiveFormat::Zip
                    &&& info.kind matches CoZipArchiveKind::SingleFile { suggested_name }
                        && suggested_name@ == name
                },
                Err(error) => r == Err::<CoZipArchiveInfo, CoZipError>(error),
            }
        } else {
            r == Ok::<CoZipArchiveInfo, CoZipError>(
                CoZipArchiveInfo {
                    format: CoZipArchiveFormat::Zip,
                    kind: CoZipArchiveKind::Directory,
                },
            )
        },
{
    match classify_zip_archive_kind(entries, style) {
        Ok(ZipArchiveKind::SingleFile { entry_name }) => Ok(
            CoZipArchiveInfo {
                format: CoZipArchiveFormat::Zip,
                kind: CoZipArchiveKind::SingleFile { suggested_name: entry_name },
            },
        ),
        Ok(ZipArchiveKind::Directory) => Ok(
            CoZipArchiveInfo {
                format: CoZipArchiveFormat::Zip,
                kind: CoZipArchiveKind::Directory,
            },
        ),
        Err(error) => Err(error),
    }
}

/// The name that is suggested for the file in a stream: the one in the stream,
/// else the stem of the archive's own name, else the default.
pub open spec fn suggested_name(stream_name: Option<Seq<char>>, file_stem: Option<Seq<char>>) -> Seq<
    char,
> {
    match stream_name {
        Some(name) => name,
        None => match file_stem {
            Some(stem) => if stem.len() > 0 {
                stem
            } else {
                DEFAULT_ENTRY_NAME@
            },
            None => DEFAULT_ENTRY_NAME@,
        },
    }
}

/// Chooses the name that is suggested for the file in a stream.
pub fn suggest_stream_name(stream_name: Option<String>, file_stem: Option<&str>) -> (name: String)
    ensures
        name@ == suggested_name(
            match stream_name {
                Some(name) => Some(name@),
                None => None,
            },
            match file_stem {
                Some(stem) => Some(stem@),
                None => None,
            },
        ),
{
    if let Some(name) = stream_name {
        return name;
    }
    if let Some(stem) = file_stem {
        if !stem.is_empty() {
            return stem.to_string();
        }
    }
    DEFAULT_ENTRY_NAME.to_string()
}

/// Tells what is known of a PDeflate archive. `is_directory` says that it starts
/// with a directory header.
pub fn pdeflate_archive_info(
    is_directory: bool,
    stream_name: Option<String>,
    file_stem: Option<&str>,
) -> (info: CoZipArchiveInfo)
    ensures
        info.format == CoZipArchiveFormat::PDeflate,
        if is_directory {
            info.kind == CoZipArchiveKind::Directory
        } else {
            info.kind matches CoZipArchiveKind::SingleFile { suggested_name: name } && name@
                == suggested_name(
                match stream_name {
                    Some(name) => Some(name@),
                    None => None,
                },
                match file_stem {
                    Some(stem) => Some(stem@),
                    None => None,
                },
            )
        },
{
    if is_directory {
        return CoZipArchiveInfo {
            format: CoZipArchiveFormat::PDeflate,
            kind: CoZipArchiveKind::Directory,
        };
    }
    let name = suggest_stream_name(stream_name, file_stem);
    CoZipArchiveInfo {
        format: CoZipArchiveFormat::PDeflate,
        kind: CoZipArchiveKind::SingleFile { suggested_name: name },
    }
}

/// The number of records that stand for files.
pub open spec fn file_count(records: Seq<ReadRecord>) -> nat
    decreases records.len(),
{
    if records.len() == 0 {
        0
    } else {
        file_count(records.drop_last()) + if is_dir_name(records.last().name) {
            0nat
        } else {
            1nat
        }
    }
}

/// The first record that stands for a file.
pub open spec fn is_first_file(records: Seq<ReadRecord>, i: int) -> bool {
    &&& 0 <= i < records.len()
    &&& !is_dir_name(records[i].name)
    &&& forall|j: int| 0 <= j < i ==> is_dir_name((#[trigger] records[j]).name)
}

/// Tells whether a ZIP archive can be decoded by several threads: it holds more
/// than one file, or its one file is stored or has an index that
/// `index_is_readable` accepts.
pub fn zip_decode_hint<F: Fn(&[u8]) -> bool>(
    entries: &[ZipCentralReadEntry],
    index_is_readable: F,
) -> (hint: CoZipArchiveDecodeHint)
    requires
        forall|blob: &[u8]| call_requires(index_is_readable, (blob,)),
    ensures
        ({
            let records = read_records(entries@);
            let parallel = hint == CoZipArchiveDecodeHint::Parallel;
            if file_count(records) > 1 {
                parallel
            } else if file_count(records) == 0 {
                !parallel
            } else {
                exists|i: int| #[trigger]
                    is_first_file(records, i) && (if records[i].method == STORED_METHOD {
                        parallel
                    } else {
                        match records[i].blob {
                            None => !parallel,
                            Some(bytes) => exists|blob: &[u8]|
                                blob@ == bytes && #[trigger] call_ensures(
                                    index_is_readable,
                                    (blob,),
                                    parallel,
                                ),
                        }
                    })
            }
        }),
{
    let ghost records = read_records(entries@);
    let mut files: usize = 0;
    let mut first: usize = 0;
    let mut i: usize = 0;
    assert(records.take(0) =~= Seq::<ReadRecord>::empty());
    while i < entries.len()
        invariant
            i <= entries@.len(),
            records == read_records(entries@),
            files == file_count(records.take(i as int)),
            files <= i,
            files == 0 ==> forall|j: int| 0 <= j < i ==> is_dir_name((#[trigger] records[j]).name),
            files > 0 ==> is_first_file(records, first as int),
        decreases entries@.len() - i,
    {
        proof {
            let prefix = records.take(i + 1);
            assert(prefix.drop_last() =~= records.take(i as int));
            assert(prefix.last() == entries@[i as int]@);
        }
        if !is_directory_name(entries[i].name.as_str()) {
            if files == 0 {
                first = i;
            }
            files = files + 1;
        }
        i = i + 1;
    }
    assert(records.take(i as int) =~= records);
    if files > 1 {
        return CoZipArchiveDecodeHint::Parallel;
    }
    if files == 0 {
        return CoZipArchiveDecodeHint::SingleThread;
    }
    assert(is_first_file(records, first as int));
    let entry = &entries[first];
    assert(records[first as int] == entry@);
    let parallel = if entry.method == STORED_METHOD {
        true
    } else {
        match &entry.czdi_blob {
            None => false,
            Some(blob) => index_is_readable(blob.as_slice()),
        }
    };
    if parallel {
        CoZipArchiveDecodeHint::Parallel
    } else {
        CoZipArchiveDecodeHint::SingleThread
    }
}

/// What the first four bytes of a file say of how it can be decoded: `None`
/// where the directory of a ZIP archive has to be read.
pub open spec fn hint_by_magic(magic: Seq<u8>) -> Result<
    Option<CoZipArchiveDecodeHint>,
    CoZipError,
> {
    if stands_at(magic, 0, seq![0x50u8, 0x4B]) {
        Ok(None)
    } else if stands_at(magic, 0, seq![0x50u8, 0x44, 0x53, 0x30]) || stands_at(
        magic,
        0,
        seq![0x43u8, 0x5A, 0x50, 0x44],
    ) {
        Ok(Some(CoZipArchiveDecodeHint::Parallel))
    } else {
        Err(CoZipError::InvalidZip("unsupported archive signature"))
    }
}

/// Tells from the first four bytes of a file how it can be decoded.
pub fn decode_hint_by_magic(magic: &[u8]) -> (r: Result<
    Option<CoZipArchiveDecodeHint>,
    CoZipError,
>)
    ensures
        r == hint_by_magic(magic@),
{
    let zip: [u8; 2] = [0x50, 0x4B];
    let stream: [u8; 4] = [0x50, 0x44, 0x53, 0x30];
    let directory: [u8; 4] = [0x43, 0x5A, 0x50, 0x44];
    proof {
        assert(zip@ =~= seq![0x50u8, 0x4B]);
        assert(stream@ =~= seq![0x50u8, 0x44, 0x53, 0x30]);
        assert(directory@ =~= seq![0x43u8, 0x5A, 0x50, 0x44]);
    }
    if bytes_stand_at(magic, 0, zip.as_slice()) {
        return Ok(None);
    }
    if bytes_stand_at(magic, 0, stream.as_slice()) || bytes_stand_at(
        magic,
        0,
        directory.as_slice(),
    ) {
        return Ok(Some(CoZipArchiveDecodeHint::Parallel));
    }
    Err(CoZipError::InvalidZip("unsupported archive signature"))
}

/// The first bytes of a file carry the signature of a ZIP archive: that of an entry,
/// or that of the end record of an archive without entries.
pub open spec fn carries_zip(bytes: Seq<u8>) -> bool {
    ||| seq![0x50u8, 0x4B, 0x03, 0x04].is_prefix_of(bytes)
    ||| seq![0x50u8, 0x4B, 0x05, 0x06].is_prefix_of(bytes)
}

/// The first bytes of a file carry the signature of a PDeflate stream, of a directory
/// in one, or of the stream in that.
pub open spec fn carries_pdeflate(bytes: Seq<u8>) -> bool {
    ||| seq![0x50u8, 0x44, 0x53, 0x30].is_prefix_of(bytes)
    ||| seq![0x43u8, 0x5A, 0x50, 0x44].is_prefix_of(bytes)
    ||| seq![0x43u8, 0x5A, 0x41, 0x52].is_prefix_of(bytes)
}

/// The first bytes of a file carry the signature of a 7z archive.
pub open spec fn carries_7z(bytes: Seq<u8>) -> bool {
    seq![0x37u8, 0x7A, 0xBC, 0xAF, 0x27, 0x1C].is_prefix_of(bytes)
}

/// The first bytes of a file carry the signature of a RAR archive.
pub open spec fn carries_rar(bytes: Seq<u8>) -> bool {
    seq![0x52u8, 0x61, 0x72, 0x21, 0x1A, 0x07].is_prefix_of(bytes)
}

/// The word that marks a tar header stands in the first block of a file.
pub open spec fn carries_tar(bytes: Seq<u8>) -> bool {
    &&& bytes.len() >= 262
    &&& bytes[257] as char == 'u'
    &&& bytes[258] as char == 's'
    &&& bytes[259] as char == 't'
    &&& bytes[260] as char == 'a'
    &&& bytes[261] as char == 'r'
}

/// The first bytes of a file carry the signature of the compressed stream in which a
/// tar archive of that format stands.
pub open spec fn carries_stream_of(bytes: Seq<u8>, format: CoZipArchiveFormat) -> bool {
    match format {
        CoZipArchiveFormat::TarGz => seq![0x1Fu8, 0x8B].is_prefix_of(bytes),
        CoZipArchiveFormat::TarBz2 => seq![0x42u8, 0x5A, 0x68].is_prefix_of(bytes),
        CoZipArchiveFormat::TarXz => seq![0xFDu8, 0x37, 0x7A, 0x58, 0x5A, 0x00].is_prefix_of(bytes),
        _ => false,
    }
}

/// The first bytes of a file carry the signature of a compressed stream.
pub open spec fn carries_stream(bytes: Seq<u8>) -> bool {
    ||| carries_stream_of(bytes, CoZipArchiveFormat::TarGz)
    ||| carries_stream_of(bytes, CoZipArchiveFormat::TarBz2)
    ||| carries_stream_of(bytes, CoZipArchiveFormat::TarXz)
}

/// A file name in lower case is that of a tar archive in such a compressed stream.
pub open spec fn names_stream_of(name: Seq<char>, format: CoZipArchiveFormat) -> bool {
    match format {
        CoZipArchiveFormat::TarGz => ".tar.gz"@.is_suffix_of(name) || ".tgz"@.is_suffix_of(name),
        CoZipArchiveFormat::TarBz2 => ".tar.bz2"@.is_suffix_of(name) || ".tbz2"@.is_suffix_of(name),
        CoZipArchiveFormat::TarXz => ".tar.xz"@.is_suffix_of(name) || ".txz"@.is_suffix_of(name),
        _ => false,
    }
}

proof fn lemma_prefix(bytes: Seq<u8>, lead: Seq<u8>)
    ensures
        stands_at(bytes, 0, lead) == lead.is_prefix_of(bytes),
        lead.is_prefix_of(bytes) ==> forall|i: int| 0 <= i < lead.len() ==> bytes[i] == lead[i],
{
    if lead.is_prefix_of(bytes) {
        assert forall|i: int| 0 <= i < lead.len() implies bytes[i] == lead[i] by {
            assert(bytes.subrange(0, lead.len() as int)[i] == lead[i]);
        }
    }
}

pub proof fn lemma_tar_mark(bytes: Seq<u8>)
    ensures
        has_tar_header(bytes) == carries_tar(bytes),
{
    if bytes.len() >= 262 {
        let mark = bytes.subrange(257, 262);
        assert(mark[0] == bytes[257] && mark[1] == bytes[258] && mark[2] == bytes[259] && mark[3]
            == bytes[260] && mark[4] == bytes[261]);
        if carries_tar(bytes) {
            assert(mark =~= tar_mark());
        }
    }
}

/// What the signatures say of the first bytes of a file.
pub proof fn lemma_signatures(bytes: Seq<u8>)
    ensures
        format_by_content(bytes) == if carries_zip(bytes) {
            Some(CoZipArchiveFormat::Zip)
        } else if carries_pdeflate(bytes) {
            Some(CoZipArchiveFormat::PDeflate)
        } else if carries_7z(bytes) {
            Some(CoZipArchiveFormat::SevenZip)
        } else if carries_rar(bytes) {
            Some(CoZipArchiveFormat::Rar)
        } else if carries_stream_of(bytes, CoZipArchiveFormat::TarXz) {
            Some(CoZipArchiveFormat::TarXz)
        } else if carries_stream_of(bytes, CoZipArchiveFormat::TarBz2) {
            Some(CoZipArchiveFormat::TarBz2)
        } else if carries_stream_of(bytes, CoZipArchiveFormat::TarGz) {
            Some(CoZipArchiveFormat::TarGz)
        } else if carries_tar(bytes) {
            Some(CoZipArchiveFormat::Tar)
        } else {
            None
        },
        carries_stream(bytes) ==> !carries_zip(bytes) && !carries_pdeflate(bytes) && !carries_7z(
            bytes,
        ) && !carries_rar(bytes),
        carries_stream_of(bytes, CoZipArchiveFormat::TarGz) ==> !carries_stream_of(
            bytes,
            CoZipArchiveFormat::TarBz2,
        ) && !carries_stream_of(bytes, CoZipArchiveFormat::TarXz),
        carries_stream_of(bytes, CoZipArchiveFormat::TarBz2) ==> !carries_stream_of(
            bytes,
            CoZipArchiveFormat::TarXz,
        ),
        carries_zip(bytes) ==> !carries_pdeflate(bytes) && !carries_7z(bytes) && !carries_rar(bytes),
        carries_pdeflate(bytes) ==> !carries_7z(bytes) && !carries_rar(bytes),
        carries_7z(bytes) ==> !carries_rar(bytes),
{
    lemma_prefix(bytes, seq![0x50u8, 0x4B, 0x03, 0x04]);
    lemma_prefix(bytes, seq![0x50u8, 0x4B, 0x05, 0x06]);
    lemma_prefix(bytes, seq![0x50u8, 0x44, 0x53, 0x30]);
    lemma_prefix(bytes, seq![0x43u8, 0x5A, 0x50, 0x44]);
    lemma_prefix(bytes, seq![0x43u8, 0x5A, 0x41, 0x52]);
    lemma_prefix(bytes, seq![0x37u8, 0x7A, 0xBC, 0xAF, 0x27, 0x1C]);
    lemma_prefix(bytes, seq![0x52u8, 0x61, 0x72, 0x21, 0x1A, 0x07]);
    lemma_prefix(bytes, seq![0xFDu8, 0x37, 0x7A, 0x58, 0x5A, 0x00]);
    lemma_prefix(bytes, seq![0x42u8, 0x5A, 0x68]);
    lemma_prefix(bytes, seq![0x1Fu8, 0x8B]);
    lemma_tar_mark(bytes);
}

/// Where the first bytes of a file hold the signature of a ZIP, PDeflate, 7z or RAR
/// archive, or a bare tar header, that is its format, whatever its name and whatever
/// it may decode to; and no file is told to be ZIP or PDeflate without the signature.
pub proof fn law_signature_settles_the_format(
    header: &[u8],
    inner: Option<&[u8]>,
    file_name: Option<&str>,
    format: Option<CoZipArchiveFormat>,
)
    requires
        call_ensures(detect_archive_format, (header, inner, file_name), format),
    ensures
        carries_zip(header@) <==> format == Some(CoZipArchiveFormat::Zip),
        carries_pdeflate(header@) <==> format == Some(CoZipArchiveFormat::PDeflate),
        carries_7z(header@) ==> format == Some(CoZipArchiveFormat::SevenZip),
        carries_rar(header@) ==> format == Some(CoZipArchiveFormat::Rar),
        carries_tar(header@) && !carries_zip(header@) && !carries_pdeflate(header@) && !carries_7z(
            header@,
        ) && !carries_rar(header@) && !carries_stream(header@) ==> format == Some(
            CoZipArchiveFormat::Tar,
        ),
{
    lemma_signatures(header@);
}

/// A compressed stream is the tar archive of its kind where its name says so, whatever
/// the case of its letters, or where a tar header comes first in what it decodes to,
/// and never that of another kind. One that neither its name nor a tar header tells to
/// be a tar archive is no archive.
pub proof fn law_compressed_streams_are_told(
    header: &[u8],
    inner: Option<&[u8]>,
    name: &str,
    kind: CoZipArchiveFormat,
    format: Option<CoZipArchiveFormat>,
)
    requires
        call_ensures(detect_archive_format, (header, inner, Some(name)), format),
        carries_stream_of(header@, kind),
        is_ascii_text(name@),
    ensures
        ({
            let small = name@.map_values(|ch: char| ascii_lower(ch));
            let holds_tar = inner matches Some(bytes) && carries_tar(bytes@);
            &&& holds_tar || names_stream_of(small, kind) ==> format == Some(kind)
            &&& !holds_tar && !names_stream_of(small, kind) ==> format == if carries_tar(header@)
                || ".tar"@.is_suffix_of(small) {
                Some(CoZipArchiveFormat::Tar)
            } else {
                None
            }
        }),
{
    lemma_signatures(header@);
    lemma_tar_mark(header@);
    if let Some(bytes) = inner {
        lemma_tar_mark(bytes@);
    }
    lemma_names(name@.map_values(|ch: char| ascii_lower(ch)));
}

proof fn lemma_tail(text: Seq<char>, suffix: Seq<char>)
    ensures
        ends(text, suffix) == suffix.is_suffix_of(text),
        ends(text, suffix) ==> forall|k: int|
            1 <= k <= suffix.len() ==> #[trigger] suffix[suffix.len() - k] == text[text.len() - k],
{
    if ends(text, suffix) {
        let tail = text.subrange(text.len() - suffix.len(), text.len() as int);
        assert forall|k: int| 1 <= k <= suffix.len() implies #[trigger] suffix[suffix.len() - k]
            == text[text.len() - k] by {
            assert(tail[suffix.len() - k] == text[text.len() - k]);
        }
    }
}

/// What the ends of file names say.
proof fn lemma_names(name: Seq<char>)
    ensures
        format_by_name(name) == Some(CoZipArchiveFormat::TarGz) <==> names_stream_of(
            name,
            CoZipArchiveFormat::TarGz,
        ),
        format_by_name(name) == Some(CoZipArchiveFormat::TarBz2) <==> names_stream_of(
            name,
            CoZipArchiveFormat::TarBz2,
        ),
        format_by_name(name) == Some(CoZipArchiveFormat::TarXz) <==> names_stream_of(
            name,
            CoZipArchiveFormat::TarXz,
        ),
        format_by_name(name) == Some(CoZipArchiveFormat::Tar) <==> ".tar"@.is_suffix_of(name),
        format_by_name(name) == Some(CoZipArchiveFormat::SevenZip) <==> ".7z"@.is_suffix_of(name),
        format_by_name(name) == Some(CoZipArchiveFormat::Rar) <==> ".rar"@.is_suffix_of(name),
        format_by_name(name) != Some(CoZipArchiveFormat::Zip),
        format_by_name(name) != Some(CoZipArchiveFormat::PDeflate),
{
    reveal_strlit(".tar.gz");
    reveal_strlit(".tgz");
    reveal_strlit(".tar.bz2");
    reveal_strlit(".tbz2");
    reveal_strlit(".tar.xz");
    reveal_strlit(".txz");
    reveal_strlit(".tar");
    reveal_strlit(".7z");
    reveal_strlit(".rar");
    lemma_tail(name, ".tar.gz"@);
    lemma_tail(name, ".tgz"@);
    lemma_tail(name, ".tar.bz2"@);
    lemma_tail(name, ".tbz2"@);
    lemma_tail(name, ".tar.xz"@);
    lemma_tail(name, ".txz"@);
    lemma_tail(name, ".tar"@);
    lemma_tail(name, ".7z"@);
    lemma_tail(name, ".rar"@);
    let n = name.len() as int;
    if n > 3 {
        assert(ends(name, ".tar.gz"@) ==> name[n - 1] == 'z' && name[n - 2] == 'g') by {
            assert(".tar.gz"@[7 - 1] == 'z' && ".tar.gz"@[7 - 2] == 'g');
        }
        assert(ends(name, ".tgz"@) ==> name[n - 1] == 'z' && name[n - 2] == 'g') by {
            assert(".tgz"@[4 - 1] == 'z' && ".tgz"@[4 - 2] == 'g');
        }
        assert(ends(name, ".tar.bz2"@) ==> name[n - 1] == '2') by {
            assert(".tar.bz2"@[8 - 1] == '2');
        }
        assert(ends(name, ".tbz2"@) ==> name[n - 1] == '2') by {
            assert(".tbz2"@[5 - 1] == '2');
        }
        assert(ends(name, ".tar.xz"@) ==> name[n - 1] == 'z' && name[n - 2] == 'x') by {
            assert(".tar.xz"@[7 - 1] == 'z' && ".tar.xz"@[7 - 2] == 'x');
        }
        assert(ends(name, ".txz"@) ==> name[n - 1] == 'z' && name[n - 2] == 'x') by {
            assert(".txz"@[4 - 1] == 'z' && ".txz"@[4 - 2] == 'x');
        }
        assert(ends(name, ".tar"@) ==> name[n - 1] == 'r' && name[n - 3] == 't') by {
            assert(".tar"@[4 - 1] == 'r' && ".tar"@[4 - 3] == 't');
        }
        assert(ends(name, ".7z"@) ==> name[n - 1] == 'z' && name[n - 2] == '7') by {
            assert(".7z"@[3 - 1] == 'z' && ".7z"@[3 - 2] == '7');
        }
        assert(ends(name, ".rar"@) ==> name[n - 1] == 'r' && name[n - 3] == 'r') by {
            assert(".rar"@[4 - 1] == 'r' && ".rar"@[4 - 3] == 'r');
        }
    }
}

/// A file without any signature goes by the end of its name, whatever the case of its
/// letters, and is no archive where the name tells none.
pub proof fn law_names_settle_what_bytes_leave_open(
    header: &[u8],
    inner: Option<&[u8]>,
    name: &str,
    format: Option<CoZipArchiveFormat>,
)
    requires
        call_ensures(detect_archive_format, (header, inner, Some(name)), format),
        is_ascii_text(name@),
        !carries_zip(header@),
        !carries_pdeflate(header@),
        !carries_7z(header@),
        !carries_rar(header@),
        !carries_stream(header@),
        !carries_tar(header@),
    ensures
        ({
            let small = name@.map_values(|ch: char| ascii_lower(ch));
            &&& format == Some(CoZipArchiveFormat::TarGz) <==> names_stream_of(
                small,
                CoZipArchiveFormat::TarGz,
            )
            &&& format == Some(CoZipArchiveFormat::TarBz2) <==> names_stream_of(
                small,
                CoZipArchiveFormat::TarBz2,
            )
            &&& format == Some(CoZipArchiveFormat::TarXz) <==> names_stream_of(
                small,
                CoZipArchiveFormat::TarXz,
            )
            &&& format == Some(CoZipArchiveFormat::Tar) <==> ".tar"@.is_suffix_of(small)
            &&& format == Some(CoZipArchiveFormat::SevenZip) <==> ".7z"@.is_suffix_of(small)
            &&& format == Some(CoZipArchiveFormat::Rar) <==> ".rar"@.is_suffix_of(small)
        }),
{
    lemma_signatures(header@);
    lemma_names(name@.map_values(|ch: char| ascii_lower(ch)));
}

/// A ZIP archive is told to hold a single file exactly where it has one entry whose name
/// has no slash, and the name that is suggested for it is its own, where that is one
/// that a file can have.
pub proof fn law_single_files_are_told_by_their_directory(
    entries: &[ZipCentralReadEntry],
    style: PathStyle,
    r: Result<CoZipArchiveInfo, CoZipError>,
)
    requires
        call_ensures(zip_archive_info, (entries, style), r),
    ensures
        r matches Ok(info) ==> info.format == CoZipArchiveFormat::Zip,
        r matches Ok(info) ==> (info.kind is Directory <==> entries@.len() != 1
            || entries@[0].name@.contains('/')),
        entries@.len() == 1 && is_plain(entries@[0].name@) && !names_drive(
            entries@[0].name@,
            style,
        ) ==> (r matches Ok(info) && info.kind matches CoZipArchiveKind::SingleFile {
            suggested_name,
        } && suggested_name@ == entries@[0].name@),
        entries@.len() != 1 ==> r is Ok,
{
    if entries@.len() == 1 {
        let name = entries@[0].name@;
        assert(read_records(entries@)[0].name == name);
        if is_plain(name) && !names_drive(name, style) {
            lemma_joined_names_split(seq![name], style);
        }
    }
}

/// The entry stands for a file: its name does not end with a slash.
pub open spec fn stands_for_file(entry: ZipCentralReadEntry) -> bool {
    !"/"@.is_suffix_of(entry.name@)
}

pub proof fn lemma_stands_for_file(entry: ZipCentralReadEntry)
    ensures
        stands_for_file(entry) == !is_dir_name(entry@.name),
{
    let name = entry.name@;
    reveal_strlit("/");
    if name.len() > 0 {
        let tail = name.subrange(name.len() - 1, name.len() as int);
        assert(tail[0] == name.last());
        if name.last() == '/' {
            assert("/"@ =~= tail);
        }
    }
}

proof fn lemma_file_count(records: Seq<ReadRecord>, i: int)
    requires
        0 <= i < records.len(),
        !is_dir_name(records[i].name),
    ensures
        file_count(records) >= 1,
    decreases records.len(),
{
    if i < records.len() - 1 {
        lemma_file_count(records.drop_last(), i);
    }
}

proof fn lemma_two_files(records: Seq<ReadRecord>, i: int, j: int)
    requires
        0 <= i < j < records.len(),
        !is_dir_name(records[i].name),
        !is_dir_name(records[j].name),
    ensures
        file_count(records) >= 2,
    decreases records.len(),
{
    if j < records.len() - 1 {
        lemma_two_files(records.drop_last(), i, j);
    } else {
        lemma_file_count(records.drop_last(), i);
    }
}

proof fn lemma_no_files(records: Seq<ReadRecord>)
    requires
        forall|i: int| 0 <= i < records.len() ==> is_dir_name((#[trigger] records[i]).name),
    ensures
        file_count(records) == 0,
    decreases records.len(),
{
    if records.len() > 0 {
        let front = records.drop_last();
        assert forall|i: int| 0 <= i < front.len() implies is_dir_name(
            (#[trigger] front[i]).name,
        ) by {
            assert(front[i] == records[i]);
        }
        lemma_no_files(front);
        assert(records.last() == records[records.len() - 1]);
    }
}

/// A ZIP archive of two files or more is decoded by several threads, and one without
/// files by one. Where there is one file, the threads can share it where it is stored,
/// and cannot where it is not and has no index.
pub proof fn law_threads_share_what_they_can<F: Fn(&[u8]) -> bool>(
    entries: &[ZipCentralReadEntry],
    index_is_readable: F,
    hint: CoZipArchiveDecodeHint,
    i: int,
    j: int,
)
    requires
        call_ensures(zip_decode_hint::<F>, (entries, index_is_readable), hint),
    ensures
        0 <= i < j < entries@.len() && stands_for_file(entries@[i]) && stands_for_file(entries@[j])
            ==> hint == CoZipArchiveDecodeHint::Parallel,
        (forall|k: int| 0 <= k < entries@.len() ==> !stands_for_file(#[trigger] entries@[k]))
            ==> hint == CoZipArchiveDecodeHint::SingleThread,
        0 <= i < entries@.len() && stands_for_file(entries@[i]) && (forall|k: int|
            0 <= k < entries@.len() && k != i ==> !stands_for_file(#[trigger] entries@[k])) ==> {
            &&& entries@[i].method == 0 ==> hint == CoZipArchiveDecodeHint::Parallel
            &&& entries@[i].method != 0 && entries@[i].czdi_blob is None ==> hint
                == CoZipArchiveDecodeHint::SingleThread
        },
{
    let records = read_records(entries@);
    assert forall|k: int| 0 <= k < entries@.len() implies stands_for_file(#[trigger] entries@[k])
        == !is_dir_name(records[k].name) by {
        lemma_stands_for_file(entries@[k]);
    }
    if 0 <= i < j < entries@.len() && stands_for_file(entries@[i]) && stands_for_file(entries@[j]) {
        lemma_two_files(records, i, j);
    }
    if forall|k: int| 0 <= k < entries@.len() ==> !stands_for_file(#[trigger] entries@[k]) {
        assert forall|k: int| 0 <= k < records.len() implies is_dir_name(
            (#[trigger] records[k]).name,
        ) by {
            assert(!stands_for_file(entries@[k]));
        }
        lemma_no_files(records);
    }
    if 0 <= i < entries@.len() && stands_for_file(entries@[i]) && (forall|k: int|
        0 <= k < entries@.len() && k != i ==> !stands_for_file(#[trigger] entries@[k])) {
        lemma_file_count(records, i);
        if file_count(records) == 1 {
            let parallel = hint == CoZipArchiveDecodeHint::Parallel;
            let first = choose|k: int| #[trigger]
                is_first_file(records, k) && (if records[k].method == STORED_METHOD {
                    parallel
                } else {
                    match records[k].blob {
                        None => !parallel,
                        Some(bytes) => exists|blob: &[u8]|
                            blob@ == bytes && #[trigger] call_ensures(
                                index_is_readable,
                                (blob,),
                                parallel,
                            ),
                    }
                });
            assert(stands_for_file(entries@[first]));
            assert(first == i);
        } else {
            lemma_one_file(records, i);
        }
    }
}

proof fn lemma_one_file(records: Seq<ReadRecord>, i: int)
    requires
        0 <= i < records.len(),
        forall|k: int|
            0 <= k < records.len() && k != i ==> is_dir_name((#[trigger] records[k]).name),
    ensures
        file_count(records) <= 1,
    decreases records.len(),
{
    let front = records.drop_last();
    assert forall|k: int| 0 <= k < front.len() && k != i implies is_dir_name(
        (#[trigger] front[k]).name,
    ) by {
        assert(front[k] == records[k]);
    }
    assert(records.last() == records[records.len() - 1]);
    if i < records.len() - 1 {
        lemma_one_file(front, i);
    } else {
        assert forall|k: int| 0 <= k < front.len() implies is_dir_name(
            (#[trigger] front[k]).name,
        ) by {
            assert(front[k] == records[k]);
        }
        lemma_no_files(front);
    }
}

/// The first four bytes tell how a file is decoded as they tell its format: a ZIP archive
/// by its directory, a PDeflate stream or directory by several threads; a file that
/// starts otherwise is no archive that can be asked.
pub proof fn law_magic_tells_how_to_decode(
    magic: &[u8],
    r: Result<Option<CoZipArchiveDecodeHint>, CoZipError>,
)
    requires
        call_ensures(decode_hint_by_magic, (magic,), r),
    ensures
        carries_zip(magic@) ==> r == Ok::<Option<CoZipArchiveDecodeHint>, CoZipError>(None),
        r == Ok::<Option<CoZipArchiveDecodeHint>, CoZipError>(None) <==> magic@.len() >= 2
            && magic@[0] as char == 'P' && magic@[1] as char == 'K',
        seq![0x50u8, 0x44, 0x53, 0x30].is_prefix_of(magic@) || seq![
            0x43u8,
            0x5A,
            0x50,
            0x44,
        ].is_prefix_of(magic@) ==> r == Ok::<Option<CoZipArchiveDecodeHint>, CoZipError>(
            Some(CoZipArchiveDecodeHint::Parallel),
        ),
        r matches Ok(Some(hint)) ==> hint == CoZipArchiveDecodeHint::Parallel && carries_pdeflate(
            magic@,
        ),
{
    lemma_prefix(magic@, seq![0x50u8, 0x4B]);
    lemma_prefix(magic@, seq![0x50u8, 0x4B, 0x03, 0x04]);
    lemma_prefix(magic@, seq![0x50u8, 0x4B, 0x05, 0x06]);
    lemma_prefix(magic@, seq![0x50u8, 0x44, 0x53, 0x30]);
    lemma_prefix(magic@, seq![0x43u8, 0x5A, 0x50, 0x44]);
    if magic@.len() >= 2 {
        let front = magic@.subrange(0, 2);
        assert(front[0] == magic@[0] && front[1] == magic@[1]);
        if magic@[0] == 0x50 && magic@[1] == 0x4B {
            assert(front =~= seq![0x50u8, 0x4B]);
        }
    }
}

/// The file in a stream is suggested the name that the stream has for it, else the name
/// of the archive without its end, and only where that is missing or empty the default.
pub proof fn law_stream_names_go_first(
    is_directory: bool,
    stream_name: Option<String>,
    file_stem: Option<&str>,
    info: CoZipArchiveInfo,
)
    requires
        call_ensures(pdeflate_archive_info, (is_directory, stream_name, file_stem), info),
    ensures
        info.format == CoZipArchiveFormat::PDeflate,
        is_directory <==> info.kind is Directory,
        !is_directory ==> (info.kind matches CoZipArchiveKind::SingleFile { suggested_name } && {
            &&& stream_name matches Some(name) ==> suggested_name@ == name@
            &&& stream_name is None && file_stem is Some && file_stem->Some_0@.len() > 0
                ==> suggested_name@ == file_stem->Some_0@
            &&& stream_name is None && (file_stem is None || file_stem->Some_0@.len() == 0)
                ==> suggested_name@ == "payload.bin"@
        }),
{
}

/// A file whose name ends in a dot and the name of a format is of that format by its
/// name. The names of ZIP and CoZip archives tell nothing: those go by their bytes.
pub proof fn law_formats_name_their_files(
    format: CoZipArchiveFormat,
    text: &'static str,
    stem: Seq<char>,
    name: &str,
    found: Option<CoZipArchiveFormat>,
)
    requires
        call_ensures(CoZipArchiveFormat::as_str, (&format,), text),
        call_ensures(detect_by_name, (name,), found),
        name@ == stem + "."@ + text@,
    ensures
        format is Zip ==> text@ == "zip"@,
        format is PDeflate ==> text@ == "cozip"@,
        found == if format is Zip || format is PDeflate {
            None
        } else {
            Some(format)
        },
{
    reveal_strlit(".");
    reveal_strlit("zip");
    reveal_strlit("cozip");
    reveal_strlit("tar");
    reveal_strlit("tar.gz");
    reveal_strlit("tar.bz2");
    reveal_strlit("tar.xz");
    reveal_strlit("rar");
    reveal_strlit("7z");
    reveal_strlit(".tar.gz");
    reveal_strlit(".tgz");
    reveal_strlit(".tar.bz2");
    reveal_strlit(".tbz2");
    reveal_strlit(".tar.xz");
    reveal_strlit(".txz");
    reveal_strlit(".tar");
    reveal_strlit(".7z");
    reveal_strlit(".rar");
    let n = name@.len() as int;
    let k = text@.len() as int;
    assert forall|i: int| 0 <= i < k implies name@[n - k + i] == #[trigger] text@[i] by {}
    assert(name@[n - k - 1] == '.');
    lemma_ending(name@, ".tar.gz"@);
    lemma_ending(name@, ".tgz"@);
    lemma_ending(name@, ".tar.bz2"@);
    lemma_ending(name@, ".tbz2"@);
    lemma_ending(name@, ".tar.xz"@);
    lemma_ending(name@, ".txz"@);
    lemma_ending(name@, ".tar"@);
    lemma_ending(name@, ".7z"@);
    lemma_ending(name@, ".rar"@);
    assert(text@.last() == name@[n - 1] && text@[k - 2] == name@[n - 2]);
    match format {
        CoZipArchiveFormat::TarGz => {
            assert(name@.subrange(n - 7, n) =~= ".tar.gz"@);
        },
        CoZipArchiveFormat::TarBz2 => {
            assert(name@.subrange(n - 8, n) =~= ".tar.bz2"@);
        },
        CoZipArchiveFormat::TarXz => {
            assert(name@.subrange(n - 7, n) =~= ".tar.xz"@);
        },
        CoZipArchiveFormat::Tar => {
            assert(name@.subrange(n - 4, n) =~= ".tar"@);
        },
        CoZipArchiveFormat::SevenZip => {
            assert(name@.subrange(n - 3, n) =~= ".7z"@);
        },
        CoZipArchiveFormat::Rar => {
            assert(name@.subrange(n - 4, n) =~= ".rar"@);
            assert(text@[0] == name@[n - 3]);
        },
        _ => {},
    }
}

/// A text ends with another only where their last three characters are the same.
proof fn lemma_ending(text: Seq<char>, suffix: Seq<char>)
    requires
        suffix.len() >= 3,
    ensures
        ends(text, suffix) ==> text[text.len() - 1] == suffix[suffix.len() - 1] && text[text.len()
            - 2] == suffix[suffix.len() - 2] && text[text.len() - 3] == suffix[suffix.len() - 3],
{
    if ends(text, suffix) {
        let end = text.subrange(text.len() - suffix.len(), text.len() as int);
        assert(end[suffix.len() - 1] == text[text.len() - 1]);
        assert(end[suffix.len() - 2] == text[text.len() - 2]);
        assert(end[suffix.len() - 3] == text[text.len() - 3]);
    }
}

/// A name stands for a directory exactly where it ends in a slash.
pub proof fn law_directories_end_in_a_slash(name: &str, directory: bool)
    requires
        call_ensures(is_directory_name, (name,), directory),
    ensures
        directory <==> seq!['/'].is_suffix_of(name@),
{
    if name@.len() > 0 {
        let end = name@.subrange(name@.len() - 1, name@.len() as int);
        assert(end[0] == name@.last());
        if name@.last() == '/' {
            assert(end =~= seq!['/']);
        }
    }
}

/// A stream suggests the name it has; one without a name the stem of its archive, where
/// that is not empty, else `payload.bin`.
pub proof fn law_streams_suggest_their_name(
    stream_name: Option<String>,
    file_stem: Option<&str>,
    name: String,
)
    requires
        call_ensures(suggest_stream_name, (stream_name, file_stem), name),
    ensures
        stream_name matches Some(own) ==> name@ == own@,
        stream_name is None && file_stem is Some && file_stem->Some_0@.len() > 0 ==> name@
            == file_stem->Some_0@,
        stream_name is None && (file_stem is None || file_stem->Some_0@.len() == 0) ==> name@
            == "payload.bin"@,
{
}

} // verus!
