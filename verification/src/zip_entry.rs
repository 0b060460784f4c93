//! The data of an entry: where it stands in the archive, and whether what came
//! out of it is what the directory promised.

use vstd::prelude::*;

use crate::czdi::opt_bytes;
use crate::error::{CoZipError, IoFailure};
use crate::extra::{parse_zip64_extra_field, zip64_extra_result};
use crate::le::{copy_range, get_u16, get_u32, le16, le32};
use crate::trusted::{crc32, fed_bytes};
use crate::zip_read::{eof, ReadRecord, ZipCentralReadEntry};
use crate::zip_write::{DEFLATE_METHOD, LOCAL_FILE_HEADER_SIG, STORED_METHOD};

verus! {

/// The lengths of what stands between a local header and the data.
#[derive(Debug, Clone, Copy, PartialEq, Eq)]
pub struct LocalLengths {
    pub name_len: u16,
    pub extra_len: u16,
}

/// What the 30 bytes of a local header say.
pub open spec fn local_lengths(fixed: Seq<u8>) -> Result<LocalLengths, CoZipError> {
    if le32(fixed, 0) != LOCAL_FILE_HEADER_SIG {
        Err(CoZipError::InvalidZip("invalid local file header signature"))
    } else {
        Ok(LocalLengths { name_len: le16(fixed, 26), extra_len: le16(fixed, 28) })
    }
}

/// Reads the fixed part of a local header.
pub fn parse_local_header(fixed: &[u8]) -> (r: Result<LocalLengths, CoZipError>)
    requires
        fixed@.len() == 30,
    ensures
        r == local_lengths(fixed@),
{
    if get_u32(fixed, 0) != LOCAL_FILE_HEADER_SIG {
        return Err(CoZipError::InvalidZip("invalid local file header signature"));
    }
    Ok(LocalLengths { name_len: get_u16(fixed, 26), extra_len: get_u16(fixed, 28) })
}

/// Finds out where the data of an entry starts: behind the local header, the
/// name and the extra data. `None` where that place does not fit 64 bits.
pub fn data_start(local_header_offset: u64, lengths: LocalLengths) -> (r: Option<u64>)
    ensures
        ({
            let start = local_header_offset + 30 + lengths.name_len + lengths.extra_len;
            match r {
                Some(at) => at == start,
                None => start > u64::MAX,
            }
        }),
{
    local_header_offset.checked_add(30 + lengths.name_len as u64 + lengths.extra_len as u64)
}

/// The number of compressed bytes, from what the directory says and the extra
/// data of the local header.
pub open spec fn data_size(compressed_size: u64, local_extra: Seq<u8>) -> Result<u64, CoZipError> {
    if compressed_size != u32::MAX {
        Ok(compressed_size)
    } else {
        match zip64_extra_result(local_extra, false, true, false) {
            Err(error) => Err(error),
            Ok(None) => Err(
                CoZipError::InvalidZip("missing zip64 compressed size in local header"),
            ),
            Ok(Some(field)) => Ok(field.compressed_size.unwrap()),
        }
    }
}

/// Finds out the number of compressed bytes.
pub fn resolve_data_size(compressed_size: u64, local_extra: &[u8]) -> (r: Result<u64, CoZipError>)
    ensures
        r == data_size(compressed_size, local_extra@),
{
    if compressed_size != u32::MAX as u64 {
        return Ok(compressed_size);
    }
    match parse_zip64_extra_field(local_extra, false, true, false) {
        Err(error) => Err(error),
        Ok(None) => Err(CoZipError::InvalidZip("missing zip64 compressed size in local header")),
        Ok(Some(field)) => match field.compressed_size {
            Some(size) => Ok(size),
            None => Err(CoZipError::InvalidZip("missing zip64 compressed size in local header")),
        },
    }
}

/// Where the data of an entry starts in a file, and how many bytes it has. A
/// start beyond the end of the file is the end of the file.
pub open spec fn entry_data(file: Seq<u8>, local_header_offset: u64, compressed_size: u64) -> Result<
    (int, u64),
    CoZipError,
> {
    let at = local_header_offset as int;
    if at + 30 > file.len() {
        Err(eof())
    } else {
        match local_lengths(file.subrange(at, at + 30)) {
            Err(error) => Err(error),
            Ok(lengths) => {
                let extra_at = at + 30 + lengths.name_len;
                let start = extra_at + lengths.extra_len;
                if lengths.extra_len > 0 && start > file.len() {
                    Err(eof())
                } else {
                    let extra = if lengths.extra_len > 0 {
                        file.subrange(extra_at, start)
                    } else {
                        Seq::empty()
                    };
                    match data_size(compressed_size, extra) {
                        Err(error) => Err(error),
                        Ok(size) => Ok(
                            (
                                if start > file.len() {
                                    file.len() as int
                                } else {
                                    start
                                },
                                size,
                            ),
                        ),
                    }
                }
            },
        }
    }
}

/// Finds the data of an entry in an archive that is in memory.
pub fn position_reader_at_entry_data(file: &[u8], entry: &ZipCentralReadEntry) -> (r: Result<
    (usize, u64),
    CoZipError,
>)
    ensures
        match r {
            Ok((start, size)) => entry_data(
                file@,
                entry.local_header_offset,
                entry.compressed_size,
            ) == Ok::<(int, u64), CoZipError>((start as int, size)) && start <= file@.len(),
            Err(error) => entry_data(file@, entry.local_header_offset, entry.compressed_size)
                == Err::<(int, u64), CoZipError>(error),
        },
{
    let file_len: usize = file.len();
    if file_len < 30 || entry.local_header_offset > (file_len - 30) as u64 {
        return Err(CoZipError::Io(IoFailure::UnexpectedEof));
    }
    let at: usize = entry.local_header_offset as usize;
    let lengths = match parse_local_header(&file[at..at + 30]) {
        Ok(lengths) => lengths,
        Err(error) => {
            return Err(error);
        },
    };
    let left: usize = file_len - (at + 30);
    let name_len: usize = lengths.name_len as usize;
    let extra_len: usize = lengths.extra_len as usize;
    if extra_len > 0 {
        if name_len + extra_len > left {
            return Err(CoZipError::Io(IoFailure::UnexpectedEof));
        }
        let extra_at: usize = at + 30 + name_len;
        let start: usize = extra_at + extra_len;
        match resolve_data_size(entry.compressed_size, &file[extra_at..start]) {
            Ok(size) => Ok((start, size)),
            Err(error) => Err(error),
        }
    } else {
        let start: usize = if name_len > left {
            file_len
        } else {
            at + 30 + name_len
        };
        let none: Vec<u8> = Vec::new();
        assert(none@ =~= Seq::<u8>::empty());
        match resolve_data_size(entry.compressed_size, none.as_slice()) {
            Ok(size) => Ok((start, size)),
            Err(error) => Err(error),
        }
    }
}

/// The compressed bytes of an entry.
pub open spec fn compressed_payload(
    file: Seq<u8>,
    local_header_offset: u64,
    compressed_size: u64,
) -> Result<Seq<u8>, CoZipError> {
    match entry_data(file, local_header_offset, compressed_size) {
        Err(error) => Err(error),
        Ok((start, size)) => if size > usize::MAX {
            Err(CoZipError::DataTooLarge)
        } else if start + size > file.len() {
            Err(eof())
        } else {
            Ok(file.subrange(start, start + size))
        },
    }
}

/// Copies the compressed bytes of an entry.
pub fn read_entry_compressed_payload(file: &[u8], entry: &ZipCentralReadEntry) -> (r: Result<
    Vec<u8>,
    CoZipError,
>)
    ensures
        match r {
            Ok(payload) => compressed_payload(
                file@,
                entry.local_header_offset,
                entry.compressed_size,
            ) == Ok::<Seq<u8>, CoZipError>(payload@),
            Err(error) => compressed_payload(
                file@,
                entry.local_header_offset,
                entry.compressed_size,
            ) == Err::<Seq<u8>, CoZipError>(error),
        },
{
    let (start, size) = match position_reader_at_entry_data(file, entry) {
        Ok(found) => found,
        Err(error) => {
            return Err(error);
        },
    };
    if size > usize::MAX as u64 {
        return Err(CoZipError::DataTooLarge);
    }
    let len: usize = size as usize;
    if len > file.len() - start {
        return Err(CoZipError::Io(IoFailure::UnexpectedEof));
    }
    Ok(copy_range(file, start, start + len))
}

/// The compressed bytes of an entry, as far as the file holds them.
pub open spec fn streamed_payload(
    file: Seq<u8>,
    local_header_offset: u64,
    compressed_size: u64,
) -> Result<Seq<u8>, CoZipError> {
    match entry_data(file, local_header_offset, compressed_size) {
        Err(error) => Err(error),
        Ok((start, size)) => Ok(
            if start + size > file.len() {
                file.skip(start)
            } else {
                file.subrange(start, start + size)
            },
        ),
    }
}

/// Copies the compressed bytes of an entry, as far as the file holds them.
pub fn read_streamed_payload(file: &[u8], entry: &ZipCentralReadEntry) -> (r: Result<
    Vec<u8>,
    CoZipError,
>)
    ensures
        gives(
            r,
            streamed_payload(file@, entry.local_header_offset, entry.compressed_size),
        ),
{
    let (start, size) = match position_reader_at_entry_data(file, entry) {
        Ok(found) => found,
        Err(error) => {
            return Err(error);
        },
    };
    let left: usize = file.len() - start;
    let len: usize = if size > left as u64 {
        left
    } else {
        size as usize
    };
    let payload = copy_range(file, start, start + len);
    assert(payload@ =~= if start + size > file@.len() {
        file@.skip(start as int)
    } else {
        file@.subrange(start as int, start + size)
    });
    Ok(payload)
}

/// Where the file holds all of them, the compressed bytes are the same either way.
pub proof fn lemma_streamed_whole(file: Seq<u8>, local_header_offset: u64, compressed_size: u64)
    requires
        compressed_payload(file, local_header_offset, compressed_size) is Ok,
    ensures
        streamed_payload(file, local_header_offset, compressed_size) == compressed_payload(
            file,
            local_header_offset,
            compressed_size,
        ),
{
}

/// What a decoder reports of an entry: the bytes that came out, their checksum,
/// and how many of the compressed bytes it left.
#[derive(Debug, Clone, Copy, PartialEq, Eq)]
pub struct DecodeReport {
    pub output_bytes: u64,
    pub output_crc32: u32,
    pub leftover: u64,
}

/// Whether a decoded entry is what the directory promised: first its checksum,
/// then that all its compressed bytes were used, then its size.
pub open spec fn entry_verdict(
    method: u16,
    gp_flags: u16,
    crc: u32,
    uncompressed_size: u64,
    report: DecodeReport,
) -> Result<u64, CoZipError> {
    if method != DEFLATE_METHOD && method != STORED_METHOD {
        Err(CoZipError::Unsupported("only deflate/store methods are supported"))
    } else if report.output_crc32 != crc {
        Err(CoZipError::InvalidZip("crc32 mismatch"))
    } else if report.leftover != 0 {
        Err(CoZipError::InvalidZip("compressed stream did not consume declared size"))
    } else if report.output_bytes != uncompressed_size {
        Err(CoZipError::InvalidZip("decompressed size mismatch"))
    } else if gp_flags % 2 != 0 {
        Err(CoZipError::Unsupported("encrypted zip entries are unsupported"))
    } else {
        Ok(report.output_bytes)
    }
}

/// Checks a decoded entry. Returns the number of bytes that came out.
pub fn check_extracted_entry(entry: &ZipCentralReadEntry, report: DecodeReport) -> (r: Result<
    u64,
    CoZipError,
>)
    ensures
        r == entry_verdict(
            entry.method,
            entry.gp_flags,
            entry.crc,
            entry.uncompressed_size,
            report,
        ),
{
    if entry.method != DEFLATE_METHOD && entry.method != STORED_METHOD {
        return Err(CoZipError::Unsupported("only deflate/store methods are supported"));
    }
    if report.output_crc32 != entry.crc {
        return Err(CoZipError::InvalidZip("crc32 mismatch"));
    }
    if report.leftover != 0 {
        return Err(CoZipError::InvalidZip("compressed stream did not consume declared size"));
    }
    if report.output_bytes != entry.uncompressed_size {
        return Err(CoZipError::InvalidZip("decompressed size mismatch"));
    }
    if entry.gp_flags % 2 != 0 {
        return Err(CoZipError::Unsupported("encrypted zip entries are unsupported"));
    }
    Ok(report.output_bytes)
}

/// Whether an entry that was decoded with its index is what the directory
/// promised: first that all its compressed bytes were used, then its size, then
/// its checksum.
pub open spec fn indexed_verdict(crc: u32, uncompressed_size: u64, report: DecodeReport) -> Result<
    DecodeReport,
    CoZipError,
> {
    if report.leftover != 0 {
        Err(CoZipError::InvalidZip("compressed stream did not consume declared size"))
    } else if report.output_bytes != uncompressed_size {
        Err(CoZipError::InvalidZip("decompressed size mismatch"))
    } else if report.output_crc32 != crc {
        Err(CoZipError::InvalidZip("crc32 mismatch"))
    } else {
        Ok(report)
    }
}

/// Checks an entry that was decoded with its index.
pub fn check_indexed_entry(entry: &ZipCentralReadEntry, report: DecodeReport) -> (r: Result<
    DecodeReport,
    CoZipError,
>)
    ensures
        r == indexed_verdict(entry.crc, entry.uncompressed_size, report),
{
    if report.leftover != 0 {
        return Err(CoZipError::InvalidZip("compressed stream did not consume declared size"));
    }
    if report.output_bytes != entry.uncompressed_size {
        return Err(CoZipError::InvalidZip("decompressed size mismatch"));
    }
    if report.output_crc32 != entry.crc {
        return Err(CoZipError::InvalidZip("crc32 mismatch"));
    }
    Ok(report)
}

/// How the data of an entry is decoded.
#[derive(Debug, Clone, Copy, PartialEq, Eq, Structural)]
pub enum DecodeRoute {
    /// Copied as it stands.
    Stored,
    /// Inflated in pieces, by its index.
    Indexed,
    /// Inflated from start to end.
    Plain,
}

/// The way that fits an entry.
pub open spec fn route_for(method: u16, indexed: bool) -> Result<DecodeRoute, CoZipError> {
    if method == DEFLATE_METHOD {
        if indexed {
            Ok(DecodeRoute::Indexed)
        } else {
            Ok(DecodeRoute::Plain)
        }
    } else if method == STORED_METHOD {
        Ok(DecodeRoute::Stored)
    } else {
        Err(CoZipError::Unsupported("only deflate/store methods are supported"))
    }
}

/// Chooses how an entry is decoded; `indexed` says that its index could be read.
pub fn decode_route(entry: &ZipCentralReadEntry, indexed: bool) -> (r: Result<
    DecodeRoute,
    CoZipError,
>)
    ensures
        r == route_for(entry.method, indexed),
{
    if entry.method == DEFLATE_METHOD {
        if indexed {
            Ok(DecodeRoute::Indexed)
        } else {
            Ok(DecodeRoute::Plain)
        }
    } else if entry.method == STORED_METHOD {
        Ok(DecodeRoute::Stored)
    } else {
        Err(CoZipError::Unsupported("only deflate/store methods are supported"))
    }
}

/// Follows the bytes of a stored entry on their way out.
pub struct StoredEntryCheck {
    pub hasher: crc32fast::Hasher,
    pub written: u64,
}

impl StoredEntryCheck {
    /// The bytes so far.
    pub open spec fn bytes(self) -> Seq<u8> {
        fed_bytes(self.hasher)
    }

    /// The count is the number of bytes so far.
    pub open spec fn wf(self) -> bool {
        self.written == self.bytes().len()
    }

    /// Starts with no bytes.
    pub fn new() -> (check: Self)
        ensures
            check.wf(),
            check.bytes() == Seq::<u8>::empty(),
    {
        StoredEntryCheck { hasher: crc32fast::Hasher::new(), written: 0 }
    }

    /// Takes the next bytes. Fails where their number leaves 64 bits.
    pub fn update(&mut self, chunk: &[u8]) -> (r: Result<(), CoZipError>)
        requires
            old(self).wf(),
        ensures
            final(self).wf(),
            match r {
                Ok(_) => final(self).bytes() == old(self).bytes() + chunk@,
                Err(error) => {
                    &&& error == CoZipError::DataTooLarge
                    &&& old(self).bytes().len() + chunk@.len() > u64::MAX
                    &&& *final(self) == *old(self)
                },
            },
    {
        let written: u64 = match self.written.checked_add(chunk.len() as u64) {
            Some(written) => written,
            None => {
                return Err(CoZipError::DataTooLarge);
            },
        };
        self.hasher.update(chunk);
        self.written = written;
        Ok(())
    }

    /// What is to be checked of the entry, all of whose bytes were taken.
    pub fn report(self) -> (report: DecodeReport)
        requires
            self.wf(),
        ensures
            report == (DecodeReport {
                output_bytes: self.bytes().len() as u64,
                output_crc32: crc32(self.bytes()),
                leftover: 0,
            }),
    {
        DecodeReport {
            output_bytes: self.written,
            output_crc32: self.hasher.finalize(),
            leftover: 0,
        }
    }
}

/// What a decoder hands back for an entry: its bytes, their checksum, and the
/// number of compressed bytes that it left.
#[derive(Debug, Clone)]
pub struct InflatedPayload {
    pub data: Vec<u8>,
    pub crc32: u32,
    pub leftover: u64,
}

/// What is reported of a stored entry.
pub open spec fn stored_report(payload: Seq<u8>) -> DecodeReport {
    DecodeReport {
        output_bytes: payload.len() as u64,
        output_crc32: crc32(payload),
        leftover: 0,
    }
}

/// What is reported of an entry that was inflated.
pub open spec fn inflated_report(inflated: InflatedPayload) -> DecodeReport {
    DecodeReport {
        output_bytes: inflated.data@.len() as u64,
        output_crc32: inflated.crc32,
        leftover: inflated.leftover,
    }
}

/// The data of an entry, where it is what the directory promised.
pub open spec fn checked_data(
    record: ReadRecord,
    data: Seq<u8>,
    report: DecodeReport,
) -> Result<Seq<u8>, CoZipError> {
    match entry_verdict(
        record.method,
        record.gp_flags,
        record.crc,
        record.uncompressed_size,
        report,
    ) {
        Ok(_) => Ok(data),
        Err(error) => Err(error),
    }
}

/// The data of an entry, from what the decoder made of it.
pub open spec fn inflated_data(
    record: ReadRecord,
    inflated: Result<InflatedPayload, String>,
) -> Result<Seq<u8>, CoZipError> {
    match inflated {
        Ok(inflated) => checked_data(record, inflated.data@, inflated_report(inflated)),
        Err(message) => Err(CoZipError::Deflate(message)),
    }
}

/// The bytes that came back, or the error, are those that are stated.
pub open spec fn gives(r: Result<Vec<u8>, CoZipError>, stated: Result<Seq<u8>, CoZipError>) -> bool {
    match r {
        Ok(data) => stated == Ok::<Seq<u8>, CoZipError>(data@),
        Err(error) => stated == Err::<Seq<u8>, CoZipError>(error),
    }
}

/// Checks what the decoder made of an entry, and hands its data on.
pub fn complete_inflated_entry(
    entry: &ZipCentralReadEntry,
    inflated: Result<InflatedPayload, String>,
) -> (r: Result<Vec<u8>, CoZipError>)
    ensures
        gives(r, inflated_data(entry@, inflated)),
{
    match inflated {
        Ok(inflated) => {
            let report = DecodeReport {
                output_bytes: inflated.data.len() as u64,
                output_crc32: inflated.crc32,
                leftover: inflated.leftover,
            };
            match check_extracted_entry(entry, report) {
                Ok(_) => Ok(inflated.data),
                Err(error) => Err(error),
            }
        },
        Err(message) => Err(CoZipError::Deflate(message)),
    }
}

/// The decoder was given these bytes and the index of the entry.
pub open spec fn inflated_as<
    F: Fn(&[u8], &Option<Vec<u8>>) -> Result<InflatedPayload, String>,
>(
    inflate: F,
    payload: Seq<u8>,
    blob: Option<Seq<u8>>,
    inflated: Result<InflatedPayload, String>,
) -> bool {
    exists|slice: &[u8], index: &Option<Vec<u8>>|
        {
            &&& slice@ == payload
            &&& opt_bytes(*index) == blob
            &&& #[trigger] call_ensures(inflate, (slice, index), inflated)
        }
}

/// The contents of an entry as it stands in the file, or why there are none.
pub open spec fn entry_written<
    F: Fn(&[u8], &Option<Vec<u8>>) -> Result<InflatedPayload, String>,
>(r: Result<Vec<u8>, CoZipError>, file: Seq<u8>, record: ReadRecord, inflate: F) -> bool {
    match streamed_payload(file, record.local_header_offset, record.compressed_size) {
        Err(error) => r == Err::<Vec<u8>, CoZipError>(error),
        Ok(payload) => if record.method == STORED_METHOD {
            gives(r, checked_data(record, payload, stored_report(payload)))
        } else if record.method == DEFLATE_METHOD {
            exists|inflated: Result<InflatedPayload, String>|
                {
                    &&& #[trigger] inflated_as(inflate, payload, record.blob, inflated)
                    &&& gives(r, inflated_data(record, inflated))
                }
        } else {
            r == Err::<Vec<u8>, CoZipError>(
                CoZipError::Unsupported("only deflate/store methods are supported"),
            )
        },
    }
}

/// Extracts an entry of an archive that is in memory. `inflate` decodes DEFLATE
/// data, with the index of the entry where it has one. Data that ends with the
/// file before its declared size is taken as far as it goes, and judged by what
/// comes out.
pub fn extract_entry_to_writer<
    F: Fn(&[u8], &Option<Vec<u8>>) -> Result<InflatedPayload, String>,
>(file: &[u8], entry: &ZipCentralReadEntry, inflate: F) -> (r: Result<Vec<u8>, CoZipError>)
    requires
        forall|payload: &[u8], index: &Option<Vec<u8>>|
            call_requires(inflate, (payload, index)),
    ensures
        entry_written(r, file@, entry@, inflate),
{
    let payload = match read_streamed_payload(file, entry) {
        Ok(payload) => payload,
        Err(error) => {
            return Err(error);
        },
    };
    if entry.method == STORED_METHOD {
        let report = DecodeReport {
            output_bytes: payload.len() as u64,
            output_crc32: crc32fast::hash(payload.as_slice()),
            leftover: 0,
        };
        match check_extracted_entry(entry, report) {
            Ok(_) => Ok(payload),
            Err(error) => Err(error),
        }
    } else if entry.method == DEFLATE_METHOD {
        let inflated = inflate(payload.as_slice(), &entry.czdi_blob);
        assert(inflated_as(inflate, payload@, entry@.blob, inflated));
        complete_inflated_entry(entry, inflated)
    } else {
        Err(CoZipError::Unsupported("only deflate/store methods are supported"))
    }
}

} // verus!
