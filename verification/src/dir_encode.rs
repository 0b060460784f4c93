//! Writing directory archives: the header of the file, and the records of the
//! stream inside it.

use vstd::prelude::*;
use vstd::utf8::{decode_utf8, encode_utf8, valid_utf8};

use crate::dir_stream::{
    goes_on, law_stream_in_pieces, run, stream_end, stream_header, stream_magic, stream_start,
    take_file_len, ArchiveItem, StreamModel, StreamState, PDEFLATE_DIR_ARCHIVE_RECORD_DIR,
    PDEFLATE_DIR_ARCHIVE_RECORD_END, PDEFLATE_DIR_ARCHIVE_RECORD_FILE,
    PDEFLATE_DIR_ARCHIVE_VERSION,
};
use crate::dir_stream::{lemma_run_data, lemma_run_field};
use crate::error::{CoZipError, IoFailure};
use crate::le::{
    get_u64, le32, le64, lemma_le32, lemma_le64, u32_le, u64_le, write_bytes, write_u32, write_u64,
};
use crate::paths::{name_parts, PathStyle};
use crate::zip_read::eof;

verus! {

broadcast use crate::le::group_le_len;

pub const PDEFLATE_DIR_FILE_VERSION_V1: u8 = 1;

pub const PDEFLATE_DIR_FILE_VERSION_V2: u8 = 2;

/// What an entry of an archive is. Directories come before files.
#[derive(Debug, Clone, Copy, PartialEq, Eq, PartialOrd, Ord, Structural)]
pub enum PDeflateArchiveEntryKind {
    Directory,
    File,
}

/// An entry that goes into an archive.
#[derive(Debug, Clone)]
pub struct PDeflateArchiveEntrySource {
    pub relative_name: String,
    pub kind: PDeflateArchiveEntryKind,
    pub file_len: u64,
}

/// Encodes the start of a stream.
pub fn encode_pdeflate_archive_header() -> (out: Vec<u8>)
    ensures
        out@ == stream_header(),
{
    let mut out: Vec<u8> = Vec::with_capacity(5);
    out.push(0x43);
    out.push(0x5A);
    out.push(0x41);
    out.push(0x52);
    out.push(PDEFLATE_DIR_ARCHIVE_VERSION);
    assert(out@ =~= stream_header());
    out
}

/// The record of an entry, up to where the bytes of a file follow.
pub open spec fn record_header(name: Seq<u8>, is_dir: bool, file_len: u64) -> Seq<u8> {
    let tag = if is_dir {
        PDEFLATE_DIR_ARCHIVE_RECORD_DIR
    } else {
        PDEFLATE_DIR_ARCHIVE_RECORD_FILE
    };
    let head = seq![tag] + u32_le(name.len() as u32) + name;
    if is_dir {
        head
    } else {
        head + u64_le(file_len)
    }
}

/// Encodes the record of an entry. Fails where the name does not fit its field.
pub fn encode_pdeflate_archive_record_header(entry: &PDeflateArchiveEntrySource) -> (r: Result<
    Vec<u8>,
    CoZipError,
>)
    ensures
        match r {
            Ok(out) => {
                &&& encode_utf8(entry.relative_name@).len() <= u32::MAX
                &&& out@ == record_header(
                    encode_utf8(entry.relative_name@),
                    entry.kind == PDeflateArchiveEntryKind::Directory,
                    entry.file_len,
                )
            },
            Err(error) => {
                &&& encode_utf8(entry.relative_name@).len() > u32::MAX
                &&& error matches CoZipError::Io(IoFailure::Other(text))
                &&& text@ == "archive path too long"@
            },
        },
{
    let path_bytes = entry.relative_name.as_str().as_bytes();
    if path_bytes.len() as u64 > u32::MAX as u64 {
        return Err(CoZipError::Io(IoFailure::Other("archive path too long".to_string())));
    }
    let mut out: Vec<u8> = Vec::new();
    match entry.kind {
        PDeflateArchiveEntryKind::Directory => {
            out.push(PDEFLATE_DIR_ARCHIVE_RECORD_DIR);
        },
        PDeflateArchiveEntryKind::File => {
            out.push(PDEFLATE_DIR_ARCHIVE_RECORD_FILE);
        },
    }
    write_u32(&mut out, path_bytes.len() as u32);
    write_bytes(&mut out, path_bytes);
    if entry.kind == PDeflateArchiveEntryKind::File {
        write_u64(&mut out, entry.file_len);
    }
    assert(out@ =~= record_header(
        encode_utf8(entry.relative_name@),
        entry.kind == PDeflateArchiveEntryKind::Directory,
        entry.file_len,
    ));
    Ok(out)
}

/// An entry with its bytes.
pub struct StreamEntry {
    pub name: Seq<u8>,
    pub is_dir: bool,
    pub content: Seq<u8>,
}

/// The entry can stand in a stream: its name is UTF-8 and stays inside the
/// directory, and the lengths fit their fields.
pub open spec fn can_encode(style: PathStyle, entry: StreamEntry) -> bool {
    &&& valid_utf8(entry.name)
    &&& name_parts(decode_utf8(entry.name), style) is Ok
    &&& entry.name.len() <= u32::MAX
    &&& entry.content.len() <= u64::MAX
    &&& entry.is_dir ==> entry.content.len() == 0
}

/// The record of an entry with the bytes behind it.
pub open spec fn encoded_entry(entry: StreamEntry) -> Seq<u8> {
    record_header(entry.name, entry.is_dir, entry.content.len() as u64) + entry.content
}

/// A stream up to its `n`th entry.
pub open spec fn encoded_entries(entries: Seq<StreamEntry>, n: int) -> Seq<u8>
    decreases n,
{
    if n <= 0 {
        stream_header()
    } else {
        encoded_entries(entries, n - 1) + encoded_entry(entries[n - 1])
    }
}

/// A whole stream.
pub open spec fn encoded_stream(entries: Seq<StreamEntry>) -> Seq<u8> {
    encoded_entries(entries, entries.len() as int) + seq![PDEFLATE_DIR_ARCHIVE_RECORD_END]
}

/// What decoding makes of an entry.
pub open spec fn decoded_item(style: PathStyle, entry: StreamEntry) -> ArchiveItem {
    ArchiveItem {
        path: name_parts(decode_utf8(entry.name), style)->Ok_0,
        is_dir: entry.is_dir,
        len: entry.content.len() as u64,
        content: entry.content,
        finished: true,
    }
}

/// What decoding makes of the first `n` entries.
pub open spec fn decoded_items(style: PathStyle, entries: Seq<StreamEntry>, n: int) -> Seq<
    ArchiveItem,
> {
    Seq::new(n as nat, |i: int| decoded_item(style, entries[i]))
}

/// A record is decoded.
proof fn lemma_entry_decoded(style: PathStyle, entry: StreamEntry, items: Seq<ArchiveItem>)
    requires
        can_encode(style, entry),
    ensures
        run(goes_on(style, StreamState::RecordTag, items), encoded_entry(entry)) == Ok::<
            StreamModel,
            CoZipError,
        >(goes_on(style, StreamState::RecordTag, items.push(decoded_item(style, entry)))),
{
    let tag = if entry.is_dir {
        PDEFLATE_DIR_ARCHIVE_RECORD_DIR
    } else {
        PDEFLATE_DIR_ARCHIVE_RECORD_FILE
    };
    let name = entry.name;
    let parts = name_parts(decode_utf8(name), style)->Ok_0;
    let start = goes_on(style, StreamState::RecordTag, items);
    let tag_bytes = seq![tag];
    let len_bytes = u32_le(name.len() as u32);
    assert(name.len() > 0) by {
        if name.len() == 0 {
            assert(decode_utf8(name) =~= Seq::<char>::empty());
            lemma_empty_name(style);
        }
    }
    lemma_run_field(style, StreamState::RecordTag, items, tag_bytes);
    let after_tag = StreamState::RecordPathLen { tag };
    law_stream_in_pieces(start, tag_bytes, len_bytes);
    lemma_run_field(style, after_tag, items, len_bytes);
    assert(le32(len_bytes, 0) == name.len()) by {
        assert(len_bytes.subrange(0, 4) =~= len_bytes);
        lemma_le32(len_bytes, 0, name.len() as u32);
    }
    let after_len = StreamState::RecordPath { tag, path_len: name.len() as int };
    law_stream_in_pieces(start, tag_bytes + len_bytes, name);
    lemma_run_field(style, after_len, items, name);
    let head = tag_bytes + len_bytes + name;
    if entry.is_dir {
        assert(encoded_entry(entry) =~= head);
        assert(decoded_item(style, entry).content =~= Seq::<u8>::empty());
    } else {
        let size = entry.content.len() as u64;
        let size_bytes = u64_le(size);
        let after_path = StreamState::RecordFileLen { path: parts };
        law_stream_in_pieces(start, head, size_bytes);
        lemma_run_field(style, after_path, items, size_bytes);
        assert(le64(size_bytes, 0) == size) by {
            assert(size_bytes.subrange(0, 8) =~= size_bytes);
            lemma_le64(size_bytes, 0, size);
        }
        law_stream_in_pieces(start, head + size_bytes, entry.content);
        let opened = take_file_len(style, parts, size, items);
        if size > 0 {
            lemma_run_data(style, size, opened.items, entry.content);
            assert(opened.items.drop_last() =~= items);
            assert(opened.items.last().content + entry.content =~= entry.content);
        } else {
            assert(entry.content =~= Seq::<u8>::empty());
        }
    }
}

/// The empty name is refused.
proof fn lemma_empty_name(style: PathStyle)
    ensures
        name_parts(Seq::<char>::empty(), style) is Err,
{
    let name = Seq::<char>::empty();
    let path = crate::paths::slashed(name);
    assert(path =~= Seq::<char>::empty());
    let split = crate::paths::split_on(path, '/');
    assert(split =~= seq![Seq::<char>::empty()]);
    assert(split.drop_last() =~= Seq::<Seq<char>>::empty());
    assert(!crate::paths::is_named(split.last()));
    reveal_with_fuel(crate::paths::named_parts, 2);
    assert(crate::paths::named_parts(split).len() == 0);
}

proof fn lemma_entries_decoded(style: PathStyle, entries: Seq<StreamEntry>, n: int)
    requires
        0 <= n <= entries.len(),
        forall|i: int| 0 <= i < entries.len() ==> can_encode(style, #[trigger] entries[i]),
    ensures
        run(stream_start(style), encoded_entries(entries, n)) == Ok::<StreamModel, CoZipError>(
            goes_on(style, StreamState::RecordTag, decoded_items(style, entries, n)),
        ),
    decreases n,
{
    if n == 0 {
        let header = stream_header();
        lemma_run_field(style, StreamState::Header, Seq::empty(), header);
        assert(header.subrange(0, 4) =~= stream_magic());
        assert(decoded_items(style, entries, 0) =~= Seq::<ArchiveItem>::empty());
    } else {
        lemma_entries_decoded(style, entries, n - 1);
        let entry = entries[n - 1];
        law_stream_in_pieces(
            stream_start(style),
            encoded_entries(entries, n - 1),
            encoded_entry(entry),
        );
        lemma_entry_decoded(style, entry, decoded_items(style, entries, n - 1));
        assert(decoded_items(style, entries, n - 1).push(decoded_item(style, entry))
            =~= decoded_items(style, entries, n));
    }
}

/// A stream that was encoded decodes to its entries: every directory and every
/// file with its path and its bytes, in the same order, and a proper end.
pub proof fn law_stream_roundtrip(style: PathStyle, entries: Seq<StreamEntry>)
    requires
        forall|i: int| 0 <= i < entries.len() ==> can_encode(style, #[trigger] entries[i]),
    ensures
        ({
            let end = goes_on(
                style,
                StreamState::Finished,
                decoded_items(style, entries, entries.len() as int),
            );
            &&& run(stream_start(style), encoded_stream(entries)) == Ok::<StreamModel, CoZipError>(
                end,
            )
            &&& stream_end(end) is Ok
        }),
{
    let n = entries.len() as int;
    let mark = seq![PDEFLATE_DIR_ARCHIVE_RECORD_END];
    lemma_entries_decoded(style, entries, n);
    law_stream_in_pieces(stream_start(style), encoded_entries(entries, n), mark);
    lemma_run_field(style, StreamState::RecordTag, decoded_items(style, entries, n), mark);
}

/// What the header of a directory archive says.
#[derive(Debug, Clone, Copy, PartialEq, Eq, Structural)]
pub struct PDeflateDirectoryFileHeader {
    pub version: u8,
    pub file_entries: Option<usize>,
    pub total_file_bytes: Option<u64>,
}

/// The first four bytes of a directory archive.
pub open spec fn directory_magic() -> Seq<u8> {
    seq![0x43u8, 0x5A, 0x50, 0x44]
}

/// The header of a directory archive.
pub open spec fn directory_header(file_entries: u64, total_file_bytes: u64) -> Seq<u8> {
    directory_magic().push(PDEFLATE_DIR_FILE_VERSION_V2) + u64_le(file_entries) + u64_le(
        total_file_bytes,
    )
}

/// Encodes the header of a directory archive.
pub fn encode_pdeflate_directory_header(file_entries: usize, total_file_bytes: u64) -> (header: Vec<
    u8,
>)
    ensures
        header@ == directory_header(file_entries as u64, total_file_bytes),
{
    let mut header: Vec<u8> = Vec::with_capacity(21);
    header.push(0x43);
    header.push(0x5A);
    header.push(0x50);
    header.push(0x44);
    header.push(PDEFLATE_DIR_FILE_VERSION_V2);
    assert(header@ =~= directory_magic().push(PDEFLATE_DIR_FILE_VERSION_V2));
    write_u64(&mut header, file_entries as u64);
    write_u64(&mut header, total_file_bytes);
    header
}

/// What the first bytes of a directory archive say, and how many of them are the header.
pub open spec fn directory_header_result(bytes: Seq<u8>) -> Result<
    (PDeflateDirectoryFileHeader, usize),
    CoZipError,
> {
    if bytes.len() < 5 {
        Err(eof())
    } else if bytes.subrange(0, 4) != directory_magic() {
        Err(CoZipError::InvalidZip("missing pdeflate directory wrapper"))
    } else if bytes[4] == PDEFLATE_DIR_FILE_VERSION_V1 {
        Ok(
            (
                PDeflateDirectoryFileHeader {
                    version: PDEFLATE_DIR_FILE_VERSION_V1,
                    file_entries: None,
                    total_file_bytes: None,
                },
                5,
            ),
        )
    } else if bytes[4] == PDEFLATE_DIR_FILE_VERSION_V2 {
        if bytes.len() < 21 {
            Err(eof())
        } else if le64(bytes, 5) > usize::MAX {
            Err(CoZipError::InvalidZip("pdeflate directory entry count too large"))
        } else {
            Ok(
                (
                    PDeflateDirectoryFileHeader {
                        version: PDEFLATE_DIR_FILE_VERSION_V2,
                        file_entries: Some(le64(bytes, 5) as usize),
                        total_file_bytes: Some(le64(bytes, 13)),
                    },
                    21,
                ),
            )
        }
    } else {
        Err(CoZipError::InvalidZip("unsupported pdeflate directory wrapper version"))
    }
}

/// Reads the header of a directory archive from its first bytes. Returns it with
/// its length.
pub fn read_pdeflate_directory_header(bytes: &[u8]) -> (r: Result<
    (PDeflateDirectoryFileHeader, usize),
    CoZipError,
>)
    ensures
        r == directory_header_result(bytes@),
{
    if bytes.len() < 5 {
        return Err(CoZipError::Io(IoFailure::UnexpectedEof));
    }
    let marked = bytes[0] == 0x43 && bytes[1] == 0x5A && bytes[2] == 0x50 && bytes[3] == 0x44;
    proof {
        let head = bytes@.subrange(0, 4);
        assert(head[0] == bytes@[0] && head[1] == bytes@[1] && head[2] == bytes@[2] && head[3]
            == bytes@[3]);
        if marked {
            assert(head =~= directory_magic());
        }
    }
    if !marked {
        return Err(CoZipError::InvalidZip("missing pdeflate directory wrapper"));
    }
    if bytes[4] == PDEFLATE_DIR_FILE_VERSION_V1 {
        return Ok(
            (
                PDeflateDirectoryFileHeader {
                    version: PDEFLATE_DIR_FILE_VERSION_V1,
                    file_entries: None,
                    total_file_bytes: None,
                },
                5,
            ),
        );
    }
    if bytes[4] != PDEFLATE_DIR_FILE_VERSION_V2 {
        return Err(CoZipError::InvalidZip("unsupported pdeflate directory wrapper version"));
    }
    if bytes.len() < 21 {
        return Err(CoZipError::Io(IoFailure::UnexpectedEof));
    }
    let file_entries: u64 = get_u64(bytes, 5);
    if file_entries > usize::MAX as u64 {
        return Err(CoZipError::InvalidZip("pdeflate directory entry count too large"));
    }
    Ok(
        (
            PDeflateDirectoryFileHeader {
                version: PDEFLATE_DIR_FILE_VERSION_V2,
                file_entries: Some(file_entries as usize),
                total_file_bytes: Some(get_u64(bytes, 13)),
            },
            21,
        ),
    )
}

/// Tells whether a file starts with the header of a directory archive.
pub fn inspect_pdeflate_directory_header(bytes: &[u8]) -> (header: Option<
    PDeflateDirectoryFileHeader,
>)
    ensures
        header == (match directory_header_result(bytes@) {
            Ok((header, _)) => Some(header),
            Err(_) => None,
        }),
{
    match read_pdeflate_directory_header(bytes) {
        Ok((header, _)) => Some(header),
        Err(_) => None,
    }
}

/// The header of a directory archive is read back, whatever follows it.
pub proof fn law_directory_header_roundtrip(
    file_entries: usize,
    total_file_bytes: u64,
    rest: Seq<u8>,
)
    ensures
        directory_header_result(directory_header(file_entries as u64, total_file_bytes) + rest)
            == Ok::<(PDeflateDirectoryFileHeader, usize), CoZipError>(
            (
                PDeflateDirectoryFileHeader {
                    version: PDEFLATE_DIR_FILE_VERSION_V2,
                    file_entries: Some(file_entries),
                    total_file_bytes: Some(total_file_bytes),
                },
                21,
            ),
        ),
{
    let bytes = directory_header(file_entries as u64, total_file_bytes) + rest;
    assert(bytes.subrange(0, 4) =~= directory_magic());
    assert(le64(bytes, 5) == file_entries) by {
        assert(bytes.subrange(5, 13) =~= u64_le(file_entries as u64));
        lemma_le64(bytes, 5, file_entries as u64);
    }
    assert(le64(bytes, 13) == total_file_bytes) by {
        assert(bytes.subrange(13, 21) =~= u64_le(total_file_bytes));
        lemma_le64(bytes, 13, total_file_bytes);
    }
}

} // verus!
