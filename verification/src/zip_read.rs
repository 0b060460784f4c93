//! Reading the central directory of a ZIP archive.
//!
//! What a file says is stated on its bytes as a whole. The reader itself never
//! holds the file: it asks for ranges of it, one after the other, and takes the
//! bytes that the caller has read.

use vstd::prelude::*;

use crate::czdi::{
    czdi_area, czdi_blob, decode_czdi_eocd64_blob, opt_bytes, opt_slice, select_czdi_blob,
};
use crate::error::{CoZipError, IoFailure};
use crate::extra::{parse_zip64_extra_field, zip64_extra_result};
use crate::le::{copy_range, get_u16, get_u32, get_u64, le16, le32, le64};
use crate::names::{decode_zip_entry_name, entry_name};
use crate::zip_write::{
    CENTRAL_DIR_HEADER_SIG, DEFLATE_METHOD, EOCD_SIG, STORED_METHOD, ZIP64_EOCD_LOCATOR_SIG,
    ZIP64_EOCD_SIG,
};

verus! {

/// The end record and the longest comment behind it.
pub const EOCD_SEARCH_LEN: u64 = 65557;

/// The result of a read beyond the end of the file.
pub open spec fn eof() -> CoZipError {
    CoZipError::Io(IoFailure::UnexpectedEof)
}

/// The last offset below `n` at which the mark of the end record stands.
pub open spec fn last_eocd(bytes: Seq<u8>, n: int) -> Option<int>
    decreases n,
{
    if n <= 0 {
        None
    } else if le32(bytes, n - 1) == EOCD_SIG {
        Some(n - 1)
    } else {
        last_eocd(bytes, n - 1)
    }
}

/// The last offset at which an end record can stand.
pub open spec fn eocd_offset(bytes: Seq<u8>) -> Option<int> {
    last_eocd(bytes, bytes.len() - 21)
}

/// Finds the last end record.
pub fn find_eocd(bytes: &[u8]) -> (found: Option<usize>)
    ensures
        match found {
            Some(offset) => eocd_offset(bytes@) == Some(offset as int) && offset + 22
                <= bytes@.len(),
            None => eocd_offset(bytes@) is None,
        },
{
    if bytes.len() < 22 {
        return None;
    }
    let mut n: usize = bytes.len() - 21;
    while n > 0
        invariant
            n + 21 <= bytes.len(),
            last_eocd(bytes@, bytes@.len() - 21) == last_eocd(bytes@, n as int),
        decreases n,
    {
        let at: usize = n - 1;
        if get_u32(bytes, at) == EOCD_SIG {
            return Some(at);
        }
        n = at;
    }
    None
}

/// Where the central directory stands.
#[derive(Debug, Clone)]
pub struct Eocd {
    pub entries: u64,
    pub central_size: u64,
    pub central_offset: u64,
    pub zip64_extensible_data: Option<Vec<u8>>,
}

/// What the end records say.
pub struct EndRecord {
    pub entries: u64,
    pub central_size: u64,
    pub central_offset: u64,
    pub extension: Option<Seq<u8>>,
}

impl View for Eocd {
    type V = EndRecord;

    open spec fn view(&self) -> EndRecord {
        EndRecord {
            entries: self.entries,
            central_size: self.central_size,
            central_offset: self.central_offset,
            extension: opt_bytes(self.zip64_extensible_data),
        }
    }
}

/// An entry of the central directory, as it was read.
#[derive(Debug, Clone)]
pub struct ZipCentralReadEntry {
    pub name: String,
    pub gp_flags: u16,
    pub method: u16,
    pub crc: u32,
    pub compressed_size: u64,
    pub uncompressed_size: u64,
    pub local_header_offset: u64,
    pub czdi_blob: Option<Vec<u8>>,
}

/// What the central directory says of an entry.
pub struct ReadRecord {
    pub name: Seq<char>,
    pub gp_flags: u16,
    pub method: u16,
    pub crc: u32,
    pub compressed_size: u64,
    pub uncompressed_size: u64,
    pub local_header_offset: u64,
    pub blob: Option<Seq<u8>>,
}

impl View for ZipCentralReadEntry {
    type V = ReadRecord;

    open spec fn view(&self) -> ReadRecord {
        ReadRecord {
            name: self.name@,
            gp_flags: self.gp_flags,
            method: self.method,
            crc: self.crc,
            compressed_size: self.compressed_size,
            uncompressed_size: self.uncompressed_size,
            local_header_offset: self.local_header_offset,
            blob: opt_bytes(self.czdi_blob),
        }
    }
}

/// The records of a list of entries.
pub open spec fn read_records(entries: Seq<ZipCentralReadEntry>) -> Seq<ReadRecord> {
    Seq::new(entries.len(), |i: int| entries[i]@)
}

/// The fixed part of an entry in the central directory.
#[derive(Debug, Clone, Copy, PartialEq, Eq)]
pub struct CentralHeader {
    pub gp_flags: u16,
    pub method: u16,
    pub crc: u32,
    pub compressed_size: u32,
    pub uncompressed_size: u32,
    pub name_len: u16,
    pub extra_len: u16,
    pub comment_len: u16,
    pub local_header_offset: u32,
}

/// What the 46 bytes of a fixed part say.
pub open spec fn central_header(fixed: Seq<u8>) -> Result<CentralHeader, CoZipError> {
    if le32(fixed, 0) != CENTRAL_DIR_HEADER_SIG {
        Err(CoZipError::InvalidZip("invalid central directory signature"))
    } else if le16(fixed, 10) != DEFLATE_METHOD && le16(fixed, 10) != STORED_METHOD {
        Err(CoZipError::Unsupported("only deflate/store methods are supported"))
    } else if le16(fixed, 8) % 2 != 0 {
        Err(CoZipError::Unsupported("encrypted zip entries are unsupported"))
    } else {
        Ok(
            CentralHeader {
                gp_flags: le16(fixed, 8),
                method: le16(fixed, 10),
                crc: le32(fixed, 16),
                compressed_size: le32(fixed, 20),
                uncompressed_size: le32(fixed, 24),
                name_len: le16(fixed, 28),
                extra_len: le16(fixed, 30),
                comment_len: le16(fixed, 32),
                local_header_offset: le32(fixed, 42),
            },
        )
    }
}

/// Reads the fixed part of an entry.
pub fn parse_central_header(fixed: &[u8]) -> (r: Result<CentralHeader, CoZipError>)
    requires
        fixed@.len() == 46,
    ensures
        r == central_header(fixed@),
{
    if get_u32(fixed, 0) != CENTRAL_DIR_HEADER_SIG {
        return Err(CoZipError::InvalidZip("invalid central directory signature"));
    }
    let gp_flags: u16 = get_u16(fixed, 8);
    let method: u16 = get_u16(fixed, 10);
    if method != DEFLATE_METHOD && method != STORED_METHOD {
        return Err(CoZipError::Unsupported("only deflate/store methods are supported"));
    }
    if gp_flags % 2 != 0 {
        return Err(CoZipError::Unsupported("encrypted zip entries are unsupported"));
    }
    Ok(
        CentralHeader {
            gp_flags,
            method,
            crc: get_u32(fixed, 16),
            compressed_size: get_u32(fixed, 20),
            uncompressed_size: get_u32(fixed, 24),
            name_len: get_u16(fixed, 28),
            extra_len: get_u16(fixed, 30),
            comment_len: get_u16(fixed, 32),
            local_header_offset: get_u32(fixed, 42),
        },
    )
}

/// What an entry is, from its fixed part, its name, its extra data and the area
/// behind the ZIP64 end record. A 32-bit value that holds the largest number
/// stands in the ZIP64 field instead.
pub open spec fn central_record(
    header: CentralHeader,
    name: Seq<char>,
    extra: Seq<u8>,
    area: Option<Seq<u8>>,
) -> Result<ReadRecord, CoZipError> {
    let wide_uncompressed = header.uncompressed_size == u32::MAX;
    let wide_compressed = header.compressed_size == u32::MAX;
    let wide_offset = header.local_header_offset == u32::MAX;
    match zip64_extra_result(extra, wide_uncompressed, wide_compressed, wide_offset) {
        Err(error) => Err(error),
        Ok(None) => if wide_uncompressed {
            Err(CoZipError::InvalidZip("missing zip64 uncompressed size in central directory"))
        } else if wide_compressed {
            Err(CoZipError::InvalidZip("missing zip64 compressed size in central directory"))
        } else if wide_offset {
            Err(CoZipError::InvalidZip("missing zip64 local header offset in central directory"))
        } else {
            Ok(
                ReadRecord {
                    name,
                    gp_flags: header.gp_flags,
                    method: header.method,
                    crc: header.crc,
                    compressed_size: header.compressed_size as u64,
                    uncompressed_size: header.uncompressed_size as u64,
                    local_header_offset: header.local_header_offset as u64,
                    blob: czdi_blob(extra, area),
                },
            )
        },
        Ok(Some(field)) => Ok(
            ReadRecord {
                name,
                gp_flags: header.gp_flags,
                method: header.method,
                crc: header.crc,
                compressed_size: if wide_compressed {
                    field.compressed_size.unwrap()
                } else {
                    header.compressed_size as u64
                },
                uncompressed_size: if wide_uncompressed {
                    field.uncompressed_size.unwrap()
                } else {
                    header.uncompressed_size as u64
                },
                local_header_offset: if wide_offset {
                    field.local_header_offset.unwrap()
                } else {
                    header.local_header_offset as u64
                },
                blob: czdi_blob(extra, area),
            },
        ),
    }
}

/// Puts an entry together from its parts.
pub fn complete_central_entry(
    header: CentralHeader,
    name: String,
    extra: &[u8],
    czdi_eocd_blob: Option<&[u8]>,
) -> (r: Result<ZipCentralReadEntry, CoZipError>)
    ensures
        match r {
            Ok(entry) => central_record(header, name@, extra@, opt_slice(czdi_eocd_blob)) == Ok::<
                ReadRecord,
                CoZipError,
            >(entry@),
            Err(error) => central_record(header, name@, extra@, opt_slice(czdi_eocd_blob)) == Err::<
                ReadRecord,
                CoZipError,
            >(error),
        },
{
    let wide_uncompressed = header.uncompressed_size == u32::MAX;
    let wide_compressed = header.compressed_size == u32::MAX;
    let wide_offset = header.local_header_offset == u32::MAX;
    let mut compressed_size: u64 = header.compressed_size as u64;
    let mut uncompressed_size: u64 = header.uncompressed_size as u64;
    let mut local_header_offset: u64 = header.local_header_offset as u64;
    match parse_zip64_extra_field(extra, wide_uncompressed, wide_compressed, wide_offset) {
        Err(error) => {
            return Err(error);
        },
        Ok(None) => {
            if wide_uncompressed {
                return Err(
                    CoZipError::InvalidZip("missing zip64 uncompressed size in central directory"),
                );
            }
            if wide_compressed {
                return Err(
                    CoZipError::InvalidZip("missing zip64 compressed size in central directory"),
                );
            }
            if wide_offset {
                return Err(
                    CoZipError::InvalidZip("missing zip64 local header offset in central directory"),
                );
            }
        },
        Ok(Some(field)) => {
            if let Some(size) = field.uncompressed_size {
                uncompressed_size = size;
            }
            if let Some(size) = field.compressed_size {
                compressed_size = size;
            }
            if let Some(offset) = field.local_header_offset {
                local_header_offset = offset;
            }
        },
    }
    let czdi_blob = select_czdi_blob(extra, czdi_eocd_blob);
    Ok(
        ZipCentralReadEntry {
            name,
            gp_flags: header.gp_flags,
            method: header.method,
            crc: header.crc,
            compressed_size,
            uncompressed_size,
            local_header_offset,
            czdi_blob,
        },
    )
}

/// The entry whose extra data starts at `pos`, and where the next entry starts.
/// A comment that reaches beyond the end of the file ends there.
pub open spec fn entry_from_extra(
    file: Seq<u8>,
    pos: int,
    header: CentralHeader,
    name: Seq<char>,
    area: Option<Seq<u8>>,
) -> Result<(ReadRecord, int), CoZipError> {
    let end = pos + header.extra_len;
    if end > file.len() {
        Err(eof())
    } else {
        match central_record(header, name, file.subrange(pos, end), area) {
            Err(error) => Err(error),
            Ok(record) => Ok(
                (
                    record,
                    if end + header.comment_len > file.len() {
                        file.len() as int
                    } else {
                        end + header.comment_len
                    },
                ),
            ),
        }
    }
}

/// The entry whose name starts at `pos`, and where the next entry starts.
pub open spec fn entry_from_name(
    file: Seq<u8>,
    pos: int,
    header: CentralHeader,
    area: Option<Seq<u8>>,
) -> Result<(ReadRecord, int), CoZipError> {
    let end = pos + header.name_len;
    if end > file.len() {
        Err(eof())
    } else {
        match entry_name(file.subrange(pos, end), header.gp_flags) {
            Err(error) => Err(error),
            Ok(name) => entry_from_extra(file, end, header, name, area),
        }
    }
}

/// The entry that starts at `pos`, and where the next one starts.
pub open spec fn entry_at(file: Seq<u8>, pos: int, area: Option<Seq<u8>>) -> Result<
    (ReadRecord, int),
    CoZipError,
> {
    if pos + 46 > file.len() {
        Err(eof())
    } else {
        match central_header(file.subrange(pos, pos + 46)) {
            Err(error) => Err(error),
            Ok(header) => entry_from_name(file, pos + 46, header, area),
        }
    }
}

/// The records that were read, and those of the `n` entries from `pos` on.
pub open spec fn entries_from(
    file: Seq<u8>,
    pos: int,
    n: nat,
    area: Option<Seq<u8>>,
    read: Seq<ReadRecord>,
) -> Result<Seq<ReadRecord>, CoZipError>
    decreases n,
{
    if n == 0 {
        Ok(read)
    } else {
        match entry_at(file, pos, area) {
            Err(error) => Err(error),
            Ok((record, next)) => entries_from(file, next, (n - 1) as nat, area, read.push(record)),
        }
    }
}

/// The records that were read, the one that comes next, and those of the `rest`
/// entries behind it.
pub open spec fn entries_after(
    next: Result<(ReadRecord, int), CoZipError>,
    file: Seq<u8>,
    rest: nat,
    area: Option<Seq<u8>>,
    read: Seq<ReadRecord>,
) -> Result<Seq<ReadRecord>, CoZipError> {
    match next {
        Err(error) => Err(error),
        Ok((record, pos)) => entries_from(file, pos, rest, area, read.push(record)),
    }
}

/// The area of indexes that an end record leads to.
pub open spec fn extension_area(extension: Option<Seq<u8>>) -> Result<
    Option<Seq<u8>>,
    CoZipError,
> {
    match extension {
        Some(data) => czdi_area(data),
        None => Ok(None),
    }
}

/// The records of the directory that an end record leads to.
pub open spec fn directory_of(file: Seq<u8>, end: EndRecord) -> Result<
    Seq<ReadRecord>,
    CoZipError,
> {
    match extension_area(end.extension) {
        Err(error) => Err(error),
        Ok(area) => if end.central_offset + end.central_size > u64::MAX {
            Err(CoZipError::InvalidZip("central directory overflow"))
        } else if end.central_offset + end.central_size > file.len() {
            Err(CoZipError::InvalidZip("central directory out of range"))
        } else if end.entries > usize::MAX {
            Err(CoZipError::InvalidZip("entry count too large"))
        } else {
            entries_from(
                file,
                end.central_offset as int,
                end.entries as nat,
                area,
                Seq::empty(),
            )
        },
    }
}

/// What the body of a ZIP64 end record says.
pub open spec fn zip64_end_record(body: Seq<u8>) -> EndRecord {
    EndRecord {
        entries: le64(body, 20),
        central_size: le64(body, 28),
        central_offset: le64(body, 36),
        extension: if body.len() > 44 {
            Some(body.subrange(44, body.len() as int))
        } else {
            None
        },
    }
}

/// The length of the body of a ZIP64 end record, from its first 12 bytes.
pub open spec fn zip64_body_len(head: Seq<u8>) -> Result<u64, CoZipError> {
    if le32(head, 0) != ZIP64_EOCD_SIG {
        Err(CoZipError::InvalidZip("invalid ZIP64 EOCD signature"))
    } else if le64(head, 4) < 44 {
        Err(CoZipError::InvalidZip("zip64 eocd record too short"))
    } else if le64(head, 4) > usize::MAX {
        Err(CoZipError::InvalidZip("zip64 eocd size too large"))
    } else {
        Ok(le64(head, 4))
    }
}

/// The records of the directory, from a ZIP64 end record whose body starts at `at`.
pub open spec fn directory_from_zip64_body(file: Seq<u8>, at: int, len: int) -> Result<
    Seq<ReadRecord>,
    CoZipError,
> {
    if at + len > file.len() {
        Err(eof())
    } else {
        directory_of(file, zip64_end_record(file.subrange(at, at + len)))
    }
}

/// The records of the directory, from a ZIP64 end record that starts at `at`.
pub open spec fn directory_from_zip64_head(file: Seq<u8>, at: int) -> Result<
    Seq<ReadRecord>,
    CoZipError,
> {
    if at + 12 > file.len() {
        Err(eof())
    } else {
        match zip64_body_len(file.subrange(at, at + 12)) {
            Err(error) => Err(error),
            Ok(len) => directory_from_zip64_body(file, at + 12, len as int),
        }
    }
}

/// What the end record says where there is no ZIP64 end record. A value that
/// holds the largest number would stand there.
pub open spec fn plain_end_record(entries: u16, central_size: u32, central_offset: u32) -> Result<
    EndRecord,
    CoZipError,
> {
    if entries == u16::MAX || central_size == u32::MAX || central_offset == u32::MAX {
        Err(CoZipError::InvalidZip("ZIP64 EOCD locator not found"))
    } else {
        Ok(
            EndRecord {
                entries: entries as u64,
                central_size: central_size as u64,
                central_offset: central_offset as u64,
                extension: None,
            },
        )
    }
}

/// The records of the directory, from a plain end record.
pub open spec fn directory_from_plain(
    file: Seq<u8>,
    entries: u16,
    central_size: u32,
    central_offset: u32,
) -> Result<Seq<ReadRecord>, CoZipError> {
    match plain_end_record(entries, central_size, central_offset) {
        Err(error) => Err(error),
        Ok(end) => directory_of(file, end),
    }
}

/// The records of the directory, from an end record at `eocd` with the given
/// values. A ZIP64 end record goes before it, where a locator in front of the end
/// record names one.
pub open spec fn directory_from_eocd(
    file: Seq<u8>,
    eocd: int,
    entries: u16,
    central_size: u32,
    central_offset: u32,
) -> Result<Seq<ReadRecord>, CoZipError> {
    if eocd >= 20 && le32(file.subrange(eocd - 20, eocd), 0) == ZIP64_EOCD_LOCATOR_SIG {
        directory_from_zip64_head(file, le64(file.subrange(eocd - 20, eocd), 8) as int)
    } else {
        directory_from_plain(file, entries, central_size, central_offset)
    }
}

/// Where the search for the end record starts.
pub open spec fn search_start(file_len: int) -> int {
    if file_len < EOCD_SEARCH_LEN {
        0
    } else {
        file_len - EOCD_SEARCH_LEN
    }
}

/// The records of the directory of an archive.
pub open spec fn read_directory(file: Seq<u8>) -> Result<Seq<ReadRecord>, CoZipError> {
    if file.len() < 22 {
        Err(CoZipError::InvalidZip("file too small for EOCD"))
    } else {
        let start = search_start(file.len() as int);
        let tail = file.subrange(start, file.len() as int);
        match eocd_offset(tail) {
            None => Err(CoZipError::InvalidZip("EOCD not found")),
            Some(rel) => directory_from_eocd(
                file,
                start + rel,
                le16(tail, rel + 10),
                le32(tail, rel + 12),
                le32(tail, rel + 16),
            ),
        }
    }
}

/// What the reader waits for.
#[derive(Debug)]
pub enum DirectoryStage {
    /// The end of the file, in which the end record is searched.
    Tail,
    /// The place in front of the end record, where the locator may stand.
    Locator { eocd: u64, entries: u16, central_size: u32, central_offset: u32 },
    /// The first bytes of the ZIP64 end record.
    Zip64Head { at: u64 },
    /// The rest of the ZIP64 end record.
    Zip64Body { at: u64, len: usize },
    /// The fixed part of an entry.
    EntryFixed { pos: u64 },
    /// The name of an entry.
    EntryName { pos: u64, header: CentralHeader },
    /// The extra data of an entry.
    EntryExtra { pos: u64, header: CentralHeader, name: String },
    /// Nothing more.
    Done,
}

/// A range of the file that the reader asks for.
#[derive(Debug, Clone, Copy, PartialEq, Eq)]
pub struct ReadRequest {
    pub offset: u64,
    pub len: usize,
}

/// Reads the central directory of a file of known length, range by range.
#[derive(Debug)]
pub struct ZipDirectoryReader {
    pub file_len: u64,
    pub stage: DirectoryStage,
    pub area: Option<Vec<u8>>,
    pub remaining: u64,
    pub entries: Vec<ZipCentralReadEntry>,
}

impl ZipDirectoryReader {
    /// The range that comes next.
    pub open spec fn wanted(self) -> Option<(int, int)> {
        match self.stage {
            DirectoryStage::Tail => Some(
                (search_start(self.file_len as int), self.file_len - search_start(self.file_len as int)),
            ),
            DirectoryStage::Locator { eocd, .. } => Some((eocd - 20, 20)),
            DirectoryStage::Zip64Head { at } => Some((at as int, 12)),
            DirectoryStage::Zip64Body { at, len } => Some((at as int, len as int)),
            DirectoryStage::EntryFixed { pos } => Some((pos as int, 46)),
            DirectoryStage::EntryName { pos, header } => Some((pos as int, header.name_len as int)),
            DirectoryStage::EntryExtra { pos, header, .. } => Some(
                (pos as int, header.extra_len as int),
            ),
            DirectoryStage::Done => None,
        }
    }

    /// The range that comes next lies in the file, and an entry that is being
    /// read is one of those that remain.
    pub open spec fn wf(self) -> bool {
        &&& self.wanted() matches Some((offset, len)) ==> 0 <= offset && 0 <= len && offset + len
            <= self.file_len
        &&& self.stage is Tail ==> self.file_len >= 22
        &&& self.stage matches DirectoryStage::Zip64Body { len, .. } ==> len >= 44
        &&& (self.stage is EntryFixed || self.stage is EntryName || self.stage is EntryExtra)
            ==> self.remaining > 0
    }

    /// What reading on gives for a file.
    pub open spec fn outcome(self, file: Seq<u8>) -> Result<Seq<ReadRecord>, CoZipError> {
        let area = opt_bytes(self.area);
        let read = read_records(self.entries@);
        let rest = (self.remaining - 1) as nat;
        match self.stage {
            DirectoryStage::Tail => read_directory(file),
            DirectoryStage::Locator { eocd, entries, central_size, central_offset } =>
            directory_from_eocd(file, eocd as int, entries, central_size, central_offset),
            DirectoryStage::Zip64Head { at } => directory_from_zip64_head(file, at as int),
            DirectoryStage::Zip64Body { at, len } => directory_from_zip64_body(
                file,
                at as int,
                len as int,
            ),
            DirectoryStage::EntryFixed { pos } => entries_from(
                file,
                pos as int,
                self.remaining as nat,
                area,
                read,
            ),
            DirectoryStage::EntryName { pos, header } => entries_after(
                entry_from_name(file, pos as int, header, area),
                file,
                rest,
                area,
                read,
            ),
            DirectoryStage::EntryExtra { pos, header, name } => entries_after(
                entry_from_extra(file, pos as int, header, name@, area),
                file,
                rest,
                area,
                read,
            ),
            DirectoryStage::Done => Ok(read),
        }
    }

    /// How far the reader is from its end.
    pub open spec fn rank(self) -> (nat, nat, nat) {
        match self.stage {
            DirectoryStage::Tail => (4, 0, 0),
            DirectoryStage::Locator { .. } => (3, 0, 0),
            DirectoryStage::Zip64Head { .. } => (2, 0, 0),
            DirectoryStage::Zip64Body { .. } => (1, 0, 0),
            DirectoryStage::EntryFixed { .. } => (0, self.remaining as nat, 3),
            DirectoryStage::EntryName { .. } => (0, self.remaining as nat, 2),
            DirectoryStage::EntryExtra { .. } => (0, self.remaining as nat, 1),
            DirectoryStage::Done => (0, 0, 0),
        }
    }
}

/// The bytes are what the reader asked for, taken from this file.
pub open spec fn answers(reader: ZipDirectoryReader, file: Seq<u8>, bytes: Seq<u8>) -> bool {
    &&& file.len() == reader.file_len
    &&& reader.wanted() matches Some((offset, len)) && bytes == file.subrange(offset, offset + len)
}

/// The first rank is below the second.
pub open spec fn rank_below(a: (nat, nat, nat), b: (nat, nat, nat)) -> bool {
    a.0 < b.0 || (a.0 == b.0 && (a.1 < b.1 || (a.1 == b.1 && a.2 < b.2)))
}

impl ZipDirectoryReader {
    /// Starts to read a file of this length. A file that is too short for an end
    /// record is refused.
    pub fn open(file_len: u64) -> (r: Result<Self, CoZipError>)
        ensures
            match r {
                Ok(reader) => {
                    &&& reader.wf()
                    &&& reader.file_len == file_len
                    &&& forall|file: Seq<u8>|
                        file.len() == file_len ==> #[trigger] reader.outcome(file)
                            == read_directory(file)
                },
                Err(error) => forall|file: Seq<u8>|
                    file.len() == file_len ==> #[trigger] read_directory(file) == Err::<
                        Seq<ReadRecord>,
                        CoZipError,
                    >(error),
            },
    {
        if file_len < 22 {
            return Err(CoZipError::InvalidZip("file too small for EOCD"));
        }
        Ok(
            ZipDirectoryReader {
                file_len,
                stage: DirectoryStage::Tail,
                area: None,
                remaining: 0,
                entries: Vec::new(),
            },
        )
    }

    /// The range of the file that comes next, or `None` at the end.
    pub fn request(&self) -> (wanted: Option<ReadRequest>)
        requires
            self.wf(),
        ensures
            match wanted {
                Some(range) => self.wanted() == Some((range.offset as int, range.len as int)),
                None => self.stage is Done,
            },
    {
        match &self.stage {
            DirectoryStage::Tail => {
                if self.file_len < EOCD_SEARCH_LEN {
                    Some(ReadRequest { offset: 0, len: self.file_len as usize })
                } else {
                    Some(
                        ReadRequest {
                            offset: self.file_len - EOCD_SEARCH_LEN,
                            len: EOCD_SEARCH_LEN as usize,
                        },
                    )
                }
            },
            DirectoryStage::Locator { eocd, .. } => Some(
                ReadRequest { offset: *eocd - 20, len: 20 },
            ),
            DirectoryStage::Zip64Head { at } => Some(ReadRequest { offset: *at, len: 12 }),
            DirectoryStage::Zip64Body { at, len } => Some(ReadRequest { offset: *at, len: *len }),
            DirectoryStage::EntryFixed { pos } => Some(ReadRequest { offset: *pos, len: 46 }),
            DirectoryStage::EntryName { pos, header } => Some(
                ReadRequest { offset: *pos, len: header.name_len as usize },
            ),
            DirectoryStage::EntryExtra { pos, header, .. } => Some(
                ReadRequest { offset: *pos, len: header.extra_len as usize },
            ),
            DirectoryStage::Done => None,
        }
    }
}

/// Goes on to the next entry, or ends where none remains.
fn enter_entry(
    file_len: u64,
    pos: u64,
    remaining: u64,
    area: Option<Vec<u8>>,
    entries: Vec<ZipCentralReadEntry>,
) -> (r: Result<ZipDirectoryReader, CoZipError>)
    requires
        pos <= file_len,
    ensures
        match r {
            Ok(next) => {
                &&& next.wf()
                &&& next.file_len == file_len
                &&& !rank_below((0, remaining as nat, 3), next.rank())
                &&& forall|file: Seq<u8>|
                    file.len() == file_len ==> #[trigger] next.outcome(file) == entries_from(
                        file,
                        pos as int,
                        remaining as nat,
                        opt_bytes(area),
                        read_records(entries@),
                    )
            },
            Err(error) => forall|file: Seq<u8>|
                file.len() == file_len ==> #[trigger] entries_from(
                    file,
                    pos as int,
                    remaining as nat,
                    opt_bytes(area),
                    read_records(entries@),
                ) == Err::<Seq<ReadRecord>, CoZipError>(error),
        },
{
    if remaining == 0 {
        return Ok(
            ZipDirectoryReader { file_len, stage: DirectoryStage::Done, area, remaining, entries },
        );
    }
    if file_len - pos < 46 {
        return Err(CoZipError::Io(IoFailure::UnexpectedEof));
    }
    Ok(
        ZipDirectoryReader {
            file_len,
            stage: DirectoryStage::EntryFixed { pos },
            area,
            remaining,
            entries,
        },
    )
}

/// Goes from the end records to the first entry.
fn enter_directory(file_len: u64, end: Eocd) -> (r: Result<ZipDirectoryReader, CoZipError>)
    ensures
        match r {
            Ok(next) => {
                &&& next.wf()
                &&& next.file_len == file_len
                &&& next.rank().0 == 0
                &&& forall|file: Seq<u8>|
                    file.len() == file_len ==> #[trigger] next.outcome(file) == directory_of(
                        file,
                        end@,
                    )
            },
            Err(error) => forall|file: Seq<u8>|
                file.len() == file_len ==> #[trigger] directory_of(file, end@) == Err::<
                    Seq<ReadRecord>,
                    CoZipError,
                >(error),
        },
{
    let area = match &end.zip64_extensible_data {
        None => None,
        Some(data) => match decode_czdi_eocd64_blob(data.as_slice()) {
            Ok(area) => area,
            Err(error) => {
                return Err(error);
            },
        },
    };
    match end.central_offset.checked_add(end.central_size) {
        None => {
            return Err(CoZipError::InvalidZip("central directory overflow"));
        },
        Some(central_end) => {
            if central_end > file_len {
                return Err(CoZipError::InvalidZip("central directory out of range"));
            }
        },
    }
    if end.entries > usize::MAX as u64 {
        return Err(CoZipError::InvalidZip("entry count too large"));
    }
    let entries: Vec<ZipCentralReadEntry> = Vec::new();
    assert(read_records(entries@) =~= Seq::<ReadRecord>::empty());
    let r = enter_entry(file_len, end.central_offset, end.entries, area, entries);
    proof {
        assert forall|file: Seq<u8>| file.len() == file_len implies #[trigger] directory_of(
            file,
            end@,
        ) == entries_from(
            file,
            end.central_offset as int,
            end.entries as nat,
            opt_bytes(area),
            Seq::empty(),
        ) by {}
    }
    r
}

/// Searches the end record in the tail of the file.
fn take_tail(file_len: u64, tail: &[u8]) -> (r: Result<ZipDirectoryReader, CoZipError>)
    requires
        file_len >= 22,
        tail@.len() == file_len - search_start(file_len as int),
    ensures
        match r {
            Ok(next) => {
                &&& next.wf()
                &&& next.file_len == file_len
                &&& next.rank().0 < 4
                &&& forall|file: Seq<u8>|
                    file.len() == file_len && tail@ == file.subrange(
                        search_start(file_len as int),
                        file_len as int,
                    ) ==> #[trigger] next.outcome(file) == read_directory(file)
            },
            Err(error) => forall|file: Seq<u8>|
                file.len() == file_len && tail@ == file.subrange(
                    search_start(file_len as int),
                    file_len as int,
                ) ==> #[trigger] read_directory(file) == Err::<Seq<ReadRecord>, CoZipError>(error),
        },
{
    let start: u64 = if file_len < EOCD_SEARCH_LEN {
        0
    } else {
        file_len - EOCD_SEARCH_LEN
    };
    let rel: usize = match find_eocd(tail) {
        Some(rel) => rel,
        None => {
            return Err(CoZipError::InvalidZip("EOCD not found"));
        },
    };
    let eocd: u64 = start + rel as u64;
    let entries: u16 = get_u16(tail, rel + 10);
    let central_size: u32 = get_u32(tail, rel + 12);
    let central_offset: u32 = get_u32(tail, rel + 16);
    if eocd < 20 {
        return enter_plain(file_len, entries, central_size, central_offset);
    }
    Ok(
        ZipDirectoryReader {
            file_len,
            stage: DirectoryStage::Locator { eocd, entries, central_size, central_offset },
            area: None,
            remaining: 0,
            entries: Vec::new(),
        },
    )
}

/// Goes on without a ZIP64 end record.
fn enter_plain(file_len: u64, entries: u16, central_size: u32, central_offset: u32) -> (r: Result<
    ZipDirectoryReader,
    CoZipError,
>)
    ensures
        match r {
            Ok(next) => {
                &&& next.wf()
                &&& next.file_len == file_len
                &&& next.rank().0 == 0
                &&& forall|file: Seq<u8>|
                    file.len() == file_len ==> #[trigger] next.outcome(file)
                        == directory_from_plain(file, entries, central_size, central_offset)
            },
            Err(error) => forall|file: Seq<u8>|
                file.len() == file_len ==> #[trigger] directory_from_plain(
                    file,
                    entries,
                    central_size,
                    central_offset,
                ) == Err::<Seq<ReadRecord>, CoZipError>(error),
        },
{
    if entries == u16::MAX || central_size == u32::MAX || central_offset == u32::MAX {
        return Err(CoZipError::InvalidZip("ZIP64 EOCD locator not found"));
    }
    enter_directory(
        file_len,
        Eocd {
            entries: entries as u64,
            central_size: central_size as u64,
            central_offset: central_offset as u64,
            zip64_extensible_data: None,
        },
    )
}

/// Goes from the locator to the ZIP64 end record, or on without one.
fn take_locator(
    file_len: u64,
    locator: &[u8],
    entries: u16,
    central_size: u32,
    central_offset: u32,
) -> (r: Result<ZipDirectoryReader, CoZipError>)
    requires
        locator@.len() == 20,
    ensures
        match r {
            Ok(next) => {
                &&& next.wf()
                &&& next.file_len == file_len
                &&& next.rank().0 < 3
                &&& forall|file: Seq<u8>|
                    file.len() == file_len ==> #[trigger] next.outcome(file) == (if le32(
                        locator@,
                        0,
                    ) == ZIP64_EOCD_LOCATOR_SIG {
                        directory_from_zip64_head(file, le64(locator@, 8) as int)
                    } else {
                        directory_from_plain(file, entries, central_size, central_offset)
                    })
            },
            Err(error) => forall|file: Seq<u8>|
                #![trigger directory_from_zip64_head(file, le64(locator@, 8) as int)]
                #![trigger directory_from_plain(file, entries, central_size, central_offset)]
                file.len() == file_len ==> (if le32(locator@, 0) == ZIP64_EOCD_LOCATOR_SIG {
                    directory_from_zip64_head(file, le64(locator@, 8) as int)
                } else {
                    directory_from_plain(file, entries, central_size, central_offset)
                }) == Err::<Seq<ReadRecord>, CoZipError>(error),
        },
{
    if get_u32(locator, 0) != ZIP64_EOCD_LOCATOR_SIG {
        return enter_plain(file_len, entries, central_size, central_offset);
    }
    let at: u64 = get_u64(locator, 8);
    if file_len < 12 || at > file_len - 12 {
        return Err(CoZipError::Io(IoFailure::UnexpectedEof));
    }
    Ok(
        ZipDirectoryReader {
            file_len,
            stage: DirectoryStage::Zip64Head { at },
            area: None,
            remaining: 0,
            entries: Vec::new(),
        },
    )
}

/// Takes the first bytes of the ZIP64 end record at `at`.
fn take_zip64_head(file_len: u64, at: u64, head: &[u8]) -> (r: Result<
    ZipDirectoryReader,
    CoZipError,
>)
    requires
        head@.len() == 12,
        at + 12 <= file_len,
    ensures
        match r {
            Ok(next) => {
                &&& next.wf()
                &&& next.file_len == file_len
                &&& next.rank().0 < 2
                &&& forall|file: Seq<u8>|
                    file.len() == file_len && head@ == file.subrange(at as int, at + 12)
                        ==> #[trigger] next.outcome(file) == directory_from_zip64_head(
                        file,
                        at as int,
                    )
            },
            Err(error) => forall|file: Seq<u8>|
                file.len() == file_len && head@ == file.subrange(at as int, at + 12)
                    ==> #[trigger] directory_from_zip64_head(file, at as int) == Err::<
                    Seq<ReadRecord>,
                    CoZipError,
                >(error),
        },
{
    if get_u32(head, 0) != ZIP64_EOCD_SIG {
        return Err(CoZipError::InvalidZip("invalid ZIP64 EOCD signature"));
    }
    let len: u64 = get_u64(head, 4);
    if len < 44 {
        return Err(CoZipError::InvalidZip("zip64 eocd record too short"));
    }
    if len > usize::MAX as u64 {
        return Err(CoZipError::InvalidZip("zip64 eocd size too large"));
    }
    let body: u64 = at + 12;
    if len > file_len - body {
        return Err(CoZipError::Io(IoFailure::UnexpectedEof));
    }
    Ok(
        ZipDirectoryReader {
            file_len,
            stage: DirectoryStage::Zip64Body { at: body, len: len as usize },
            area: None,
            remaining: 0,
            entries: Vec::new(),
        },
    )
}

/// Takes the body of the ZIP64 end record.
fn take_zip64_body(file_len: u64, body: &[u8]) -> (r: Result<ZipDirectoryReader, CoZipError>)
    requires
        body@.len() >= 44,
    ensures
        match r {
            Ok(next) => {
                &&& next.wf()
                &&& next.file_len == file_len
                &&& next.rank().0 == 0
                &&& forall|file: Seq<u8>|
                    file.len() == file_len ==> #[trigger] next.outcome(file) == directory_of(
                        file,
                        zip64_end_record(body@),
                    )
            },
            Err(error) => forall|file: Seq<u8>|
                file.len() == file_len ==> #[trigger] directory_of(file, zip64_end_record(body@))
                    == Err::<Seq<ReadRecord>, CoZipError>(error),
        },
{
    let extension: Option<Vec<u8>> = if body.len() > 44 {
        Some(copy_range(body, 44, body.len()))
    } else {
        None
    };
    enter_directory(
        file_len,
        Eocd {
            entries: get_u64(body, 20),
            central_size: get_u64(body, 28),
            central_offset: get_u64(body, 36),
            zip64_extensible_data: extension,
        },
    )
}

impl ZipDirectoryReader {
    /// Takes the bytes of the range that was asked for, and goes on. Whatever
    /// the rest of the file holds, reading on from the new state gives what
    /// reading on from the old one would have given.
    pub fn supply(self, bytes: &[u8]) -> (r: Result<Self, CoZipError>)
        requires
            self.wf(),
            self.wanted() matches Some((_, len)) && bytes@.len() == len,
        ensures
            match r {
                Ok(next) => {
                    &&& next.wf()
                    &&& next.file_len == self.file_len
                    &&& rank_below(next.rank(), self.rank())
                    &&& forall|file: Seq<u8>| #[trigger]
                        answers(self, file, bytes@) ==> next.outcome(file) == self.outcome(file)
                },
                Err(error) => forall|file: Seq<u8>| #[trigger]
                    answers(self, file, bytes@) ==> self.outcome(file) == Err::<
                        Seq<ReadRecord>,
                        CoZipError,
                    >(error),
            },
    {
        let file_len: u64 = self.file_len;
        match self.stage {
            DirectoryStage::Tail => take_tail(file_len, bytes),
            DirectoryStage::Locator { eocd: _, entries, central_size, central_offset } => take_locator(
                file_len,
                bytes,
                entries,
                central_size,
                central_offset,
            ),
            DirectoryStage::Zip64Head { at } => take_zip64_head(file_len, at, bytes),
            DirectoryStage::Zip64Body { at: _, len: _ } => take_zip64_body(file_len, bytes),
            DirectoryStage::EntryFixed { pos } => {
                let header = match parse_central_header(bytes) {
                    Ok(header) => header,
                    Err(error) => {
                        return Err(error);
                    },
                };
                let next_pos: u64 = pos + 46;
                if header.name_len as u64 > file_len - next_pos {
                    return Err(CoZipError::Io(IoFailure::UnexpectedEof));
                }
                Ok(
                    ZipDirectoryReader {
                        file_len,
                        stage: DirectoryStage::EntryName { pos: next_pos, header },
                        area: self.area,
                        remaining: self.remaining,
                        entries: self.entries,
                    },
                )
            },
            DirectoryStage::EntryName { pos, header } => {
                let name = match decode_zip_entry_name(bytes, header.gp_flags) {
                    Ok(name) => name,
                    Err(error) => {
                        return Err(error);
                    },
                };
                let next_pos: u64 = pos + header.name_len as u64;
                if header.extra_len as u64 > file_len - next_pos {
                    return Err(CoZipError::Io(IoFailure::UnexpectedEof));
                }
                Ok(
                    ZipDirectoryReader {
                        file_len,
                        stage: DirectoryStage::EntryExtra { pos: next_pos, header, name },
                        area: self.area,
                        remaining: self.remaining,
                        entries: self.entries,
                    },
                )
            },
            DirectoryStage::EntryExtra { pos, header, name } => {
                let area = match &self.area {
                    Some(area) => Some(area.as_slice()),
                    None => None,
                };
                let entry = match complete_central_entry(header, name, bytes, area) {
                    Ok(entry) => entry,
                    Err(error) => {
                        return Err(error);
                    },
                };
                let end: u64 = pos + header.extra_len as u64;
                let next_pos: u64 = if header.comment_len as u64 > file_len - end {
                    file_len
                } else {
                    end + header.comment_len as u64
                };
                let mut entries = self.entries;
                let ghost read = read_records(entries@);
                entries.push(entry);
                assert(read_records(entries@) =~= read.push(entry@));
                enter_entry(file_len, next_pos, self.remaining - 1, self.area, entries)
            },
            DirectoryStage::Done => Ok(self),
        }
    }
}

/// Reads the central directory of an archive that is in memory. Returns its
/// entries and the length of the file.
pub fn read_central_directory_entries(file: &[u8]) -> (r: Result<
    (Vec<ZipCentralReadEntry>, u64),
    CoZipError,
>)
    ensures
        match r {
            Ok((entries, file_len)) => read_directory(file@) == Ok::<Seq<ReadRecord>, CoZipError>(
                read_records(entries@),
            ) && file_len == file@.len(),
            Err(error) => read_directory(file@) == Err::<Seq<ReadRecord>, CoZipError>(error),
        },
{
    let mut reader = match ZipDirectoryReader::open(file.len() as u64) {
        Ok(reader) => reader,
        Err(error) => {
            return Err(error);
        },
    };
    loop
        invariant
            reader.wf(),
            reader.file_len == file.len(),
            reader.outcome(file@) == read_directory(file@),
        decreases reader.rank().0, reader.rank().1, reader.rank().2,
    {
        let range = match reader.request() {
            Some(range) => range,
            None => {
                return Ok((reader.entries, file.len() as u64));
            },
        };
        let start = range.offset as usize;
        let bytes = &file[start..start + range.len];
        assert(answers(reader, file@, bytes@));
        match reader.supply(bytes) {
            Ok(next) => {
                reader = next;
            },
            Err(error) => {
                return Err(error);
            },
        }
    }
}

} // verus!
