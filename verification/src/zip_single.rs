//! Archives of one file, in memory.

use vstd::prelude::*;
use vstd::utf8::{decode_utf8, encode_utf8, valid_utf8};

use crate::error::CoZipError;
use crate::extra::{parse_zip64_extra_field, zip64_extra_result, ZIP64_EXTRA_FIELD_TAG};
use crate::le::{
    copy_range, get_u16, get_u32, get_u64, le16, le32, le64, read_u16, read_u16_result, read_u32,
    read_u32_result, read_u64, read_u64_result, u16_le, u32_le, u64_le, usize_from_u64,
    usize_from_u64_result, write_bytes, write_u16, write_u32, write_u64,
};
use crate::paths::{normalize_zip_entry_name, normalized_name, PathStyle};
use crate::trusted::{crc32, string_from_utf8};
use crate::types::ZipEntry;
use crate::zip_entry::gives;
use crate::zip_read::{eocd_offset, find_eocd};
use crate::zip_write::{
    central_fixed, eocd, write_central_fixed, write_eocd, write_zip64_eocd, write_zip64_locator,
    zip64_eocd, zip64_field, zip64_locator, CentralRecord, ZipCentralWriteEntry,
    CENTRAL_DIR_HEADER_SIG, DEFLATE_METHOD, GP_FLAG_UTF8, LOCAL_FILE_HEADER_SIG, STORED_METHOD,
    ZIP64_EOCD_LOCATOR_SIG, ZIP64_EOCD_SIG, ZIP_VERSION_ZIP64,
};

verus! {

broadcast use crate::le::group_le_len;

/// The record of the one file.
pub open spec fn single_record(
    name: Seq<u8>,
    crc: u32,
    compressed_size: u64,
    uncompressed_size: u64,
) -> CentralRecord {
    CentralRecord {
        name,
        gp_flags: GP_FLAG_UTF8,
        crc,
        compressed_size,
        uncompressed_size,
        local_header_offset: 0,
        blob: None,
    }
}

/// The local header of the one file. Its sizes stand in a ZIP64 field.
#[verifier::opaque]
pub open spec fn single_local_header(record: CentralRecord) -> Seq<u8> {
    u32_le(LOCAL_FILE_HEADER_SIG) + u16_le(ZIP_VERSION_ZIP64) + u16_le(GP_FLAG_UTF8) + u16_le(
        DEFLATE_METHOD,
    ) + u16_le(0) + u16_le(0) + u32_le(record.crc) + u32_le(0xFFFF_FFFF) + u32_le(0xFFFF_FFFF)
        + u16_le(record.name.len() as u16) + u16_le(20) + record.name + u16_le(
        ZIP64_EXTRA_FIELD_TAG,
    ) + u16_le(16) + u64_le(record.uncompressed_size) + u64_le(record.compressed_size)
}

/// An archive of one file.
pub open spec fn single_archive(record: CentralRecord, compressed: Seq<u8>) -> Seq<u8> {
    let front = single_local_header(record) + compressed;
    let directory = central_fixed(record, 28) + record.name + zip64_field(record);
    let size = directory.len() as u64;
    let offset = front.len() as u64;
    front + directory + zip64_eocd(1, size, offset, Seq::empty()) + zip64_locator(
        (front.len() + directory.len()) as u64,
    ) + eocd(1, size, offset)
}

/// Builds an archive of one file from its compressed bytes. Fails where the name
/// does not fit its field.
pub fn build_single_archive(
    name: String,
    crc: u32,
    compressed: &[u8],
    uncompressed_size: u64,
) -> (r: Result<Vec<u8>, CoZipError>)
    ensures
        gives(
            r,
            if encode_utf8(name@).len() > 0xffff {
                Err(CoZipError::DataTooLarge)
            } else {
                Ok(
                    single_archive(
                        single_record(
                            encode_utf8(name@),
                            crc,
                            compressed@.len() as u64,
                            uncompressed_size,
                        ),
                        compressed@,
                    ),
                )
            },
        ),
{
    let entry = ZipCentralWriteEntry {
        name,
        gp_flags: GP_FLAG_UTF8,
        crc,
        compressed_size: compressed.len() as u64,
        uncompressed_size,
        local_header_offset: 0,
        czdi_blob: None,
    };
    let name_bytes = entry.name.as_str().as_bytes();
    if name_bytes.len() > 0xffff {
        return Err(CoZipError::DataTooLarge);
    }
    let name_len: u16 = name_bytes.len() as u16;
    let ghost record = entry@;
    assert(record == single_record(
        encode_utf8(name@),
        crc,
        compressed@.len() as u64,
        uncompressed_size,
    ));
    let mut out: Vec<u8> = Vec::new();
    write_single_local_header(&mut out, &entry, name_bytes);
    write_bytes(&mut out, compressed);
    let ghost front = single_local_header(record) + compressed@;
    assert(out@ =~= front);
    let central_start: usize = out.len();
    write_central_fixed(&mut out, &entry, name_len, 28);
    write_bytes(&mut out, name_bytes);
    write_u16(&mut out, ZIP64_EXTRA_FIELD_TAG);
    write_u16(&mut out, 24);
    write_u64(&mut out, uncompressed_size);
    write_u64(&mut out, compressed.len() as u64);
    write_u64(&mut out, 0);
    let ghost directory = central_fixed(record, 28) + record.name + zip64_field(record);
    assert(out@ =~= front + directory);
    let central_end: usize = out.len();
    let central_offset: u64 = central_start as u64;
    let central_size: u64 = (central_end - central_start) as u64;
    let nothing: Vec<u8> = Vec::new();
    assert(nothing@ =~= Seq::<u8>::empty());
    write_zip64_eocd(&mut out, 1, central_size, central_offset, nothing.as_slice());
    write_zip64_locator(&mut out, central_end as u64);
    write_eocd(&mut out, 1, central_size, central_offset);
    Ok(out)
}

/// Appends the local header of the one file.
fn write_single_local_header(out: &mut Vec<u8>, entry: &ZipCentralWriteEntry, name_bytes: &[u8])
    requires
        name_bytes@ == encode_utf8(entry.name@),
        name_bytes@.len() <= 0xffff,
    ensures
        final(out)@ == old(out)@ + single_local_header(entry@),
{
    write_u32(out, LOCAL_FILE_HEADER_SIG);
    write_u16(out, ZIP_VERSION_ZIP64);
    write_u16(out, GP_FLAG_UTF8);
    write_u16(out, DEFLATE_METHOD);
    write_u16(out, 0);
    write_u16(out, 0);
    write_u32(out, entry.crc);
    write_u32(out, 0xFFFF_FFFF);
    write_u32(out, 0xFFFF_FFFF);
    write_u16(out, name_bytes.len() as u16);
    write_u16(out, 20);
    write_bytes(out, name_bytes);
    write_u16(out, ZIP64_EXTRA_FIELD_TAG);
    write_u16(out, 16);
    write_u64(out, entry.uncompressed_size);
    write_u64(out, entry.compressed_size);
    reveal(single_local_header);
    assert(out@ =~= old(out)@ + single_local_header(entry@));
}

/// What a compressor hands back: the compressed bytes, and the checksum of those
/// it was given.
#[derive(Debug, Clone)]
pub struct DeflatedPayload {
    pub compressed: Vec<u8>,
    pub input_crc32: u32,
}

/// The archive of one file, from what the compressor made of it.
pub open spec fn compressed_archive(
    name: Seq<char>,
    uncompressed_size: u64,
    deflated: Result<DeflatedPayload, String>,
) -> Result<Seq<u8>, CoZipError> {
    match deflated {
        Err(message) => Err(CoZipError::Deflate(message)),
        Ok(deflated) => Ok(
            single_archive(
                single_record(
                    encode_utf8(name),
                    deflated.input_crc32,
                    deflated.compressed@.len() as u64,
                    uncompressed_size,
                ),
                deflated.compressed@,
            ),
        ),
    }
}

/// One file was compressed into an archive, or it could not be: the name must be
/// one that can be cleaned and fits, and the compressor must not fail.
pub open spec fn packed_single<F: Fn(&[u8]) -> Result<DeflatedPayload, String>>(
    r: Result<Vec<u8>, CoZipError>,
    file_name: Seq<char>,
    data: &[u8],
    style: PathStyle,
    deflate: F,
) -> bool {
    if file_name.len() == 0 {
        r == Err::<Vec<u8>, CoZipError>(CoZipError::InvalidZip("file name is empty"))
    } else {
        match normalized_name(file_name, style) {
            Err(error) => r == Err::<Vec<u8>, CoZipError>(error),
            Ok(name) => if encode_utf8(name).len() > 0xffff {
                r == Err::<Vec<u8>, CoZipError>(CoZipError::DataTooLarge)
            } else {
                exists|deflated: Result<DeflatedPayload, String>|
                    #![trigger call_ensures(deflate, (data,), deflated)]
                    call_ensures(deflate, (data,), deflated) && gives(
                        r,
                        compressed_archive(name, data@.len() as u64, deflated),
                    )
            },
        }
    }
}

/// Compresses one file into an archive, with `deflate` as the compressor. The
/// name is cleaned first, by the rules of a system.
pub fn zip_compress_single<F: Fn(&[u8]) -> Result<DeflatedPayload, String>>(
    file_name: &str,
    data: &[u8],
    style: PathStyle,
    deflate: F,
) -> (r: Result<Vec<u8>, CoZipError>)
    requires
        call_requires(deflate, (data,)),
    ensures
        packed_single(r, file_name@, data, style, deflate),
{
    if file_name.is_empty() {
        return Err(CoZipError::InvalidZip("file name is empty"));
    }
    let name = match normalize_zip_entry_name(file_name, style) {
        Ok(name) => name,
        Err(error) => {
            return Err(error);
        },
    };
    if name.as_str().as_bytes().len() > 0xffff {
        return Err(CoZipError::DataTooLarge);
    }
    let deflated = deflate(data);
    match deflated {
        Err(message) => Err(CoZipError::Deflate(message)),
        Ok(payload) => {
            let r = build_single_archive(
                name,
                payload.input_crc32,
                payload.compressed.as_slice(),
                data.len() as u64,
            );
            assert(gives(
                r,
                compressed_archive(
                    name@,
                    data@.len() as u64,
                    Ok::<DeflatedPayload, String>(payload),
                ),
            ));
            r
        },
    }
}

/// Where the directory of an archive of one file stands: the number of entries,
/// the size and the offset.
pub open spec fn zip64_single_directory(file: Seq<u8>, at: int) -> Result<
    (u64, usize, usize),
    CoZipError,
> {
    match read_u32_result(file, at) {
        Err(error) => Err(error),
        Ok(sig) => if sig != ZIP64_EOCD_SIG {
            Err(CoZipError::InvalidZip("invalid ZIP64 EOCD signature"))
        } else {
            match (
                read_u64_result(file, at + 32),
                read_u64_result(file, at + 40),
                read_u64_result(file, at + 48),
            ) {
                (Err(error), _, _) => Err(error),
                (Ok(_), Err(error), _) => Err(error),
                (Ok(entries), Ok(size), offset) => if size > usize::MAX {
                    Err(
                        CoZipError::InvalidZip("zip64 central directory size out of range"),
                    )
                } else {
                    match offset {
                        Err(error) => Err(error),
                        Ok(offset) => if offset > usize::MAX {
                            Err(
                                CoZipError::InvalidZip(
                                    "zip64 central directory offset out of range",
                                ),
                            )
                        } else {
                            Ok((entries, size as usize, offset as usize))
                        },
                    }
                },
            }
        },
    }
}

/// Where the directory of an archive of one file stands. Only where the end
/// record holds a largest value is the ZIP64 end record read.
pub open spec fn single_directory(file: Seq<u8>) -> Result<(u64, usize, usize), CoZipError> {
    match eocd_offset(file) {
        None => Err(CoZipError::InvalidZip("EOCD not found")),
        Some(at) => {
            let entries = le16(file, at + 10);
            let size = le32(file, at + 12);
            let offset = le32(file, at + 16);
            if entries == u16::MAX || size == u32::MAX || offset == u32::MAX {
                if at < 20 || le32(file, at - 20) != ZIP64_EOCD_LOCATOR_SIG {
                    Err(CoZipError::InvalidZip("ZIP64 EOCD locator not found"))
                } else if le64(file, at - 12) > usize::MAX {
                    Err(CoZipError::InvalidZip("zip64 eocd offset out of range"))
                } else {
                    zip64_single_directory(file, le64(file, at - 12) as int)
                }
            } else {
                Ok((entries as u64, size as usize, offset as usize))
            }
        },
    }
}

/// What the directory says of the one file.
pub struct SingleRecord {
    pub name: Seq<char>,
    pub method: u16,
    pub crc: u32,
    pub compressed_size: usize,
    pub uncompressed_size: usize,
    pub local_header_offset: usize,
    pub record_len: int,
    pub directory_len: int,
}

/// A size or an offset of the one file: the one in the header, or the one in the
/// ZIP64 field where the header holds the largest value.
pub open spec fn wide_value(
    narrow: u32,
    wide: Option<u64>,
    missing: &'static str,
    too_large: &'static str,
) -> Result<usize, CoZipError> {
    if narrow != u32::MAX {
        Ok(narrow as usize)
    } else {
        match wide {
            None => Err(CoZipError::InvalidZip(missing)),
            Some(value) => usize_from_u64_result(value, too_large),
        }
    }
}

/// What the directory says of the one file, from a header whose fixed part, name
/// and extra data lie in the file.
pub open spec fn single_values(
    file: Seq<u8>,
    at: int,
    size: int,
    name: Seq<char>,
    extra: Seq<u8>,
) -> Result<SingleRecord, CoZipError> {
    let compressed = le32(file, at + 20);
    let uncompressed = le32(file, at + 24);
    let offset = le32(file, at + 42);
    match zip64_extra_result(
        extra,
        uncompressed == u32::MAX,
        compressed == u32::MAX,
        offset == u32::MAX,
    ) {
        Err(error) => Err(error),
        Ok(field) => {
            let uncompressed_size = wide_value(
                uncompressed,
                match field {
                    Some(field) => field.uncompressed_size,
                    None => None,
                },
                "missing zip64 uncompressed size in central directory",
                "zip64 uncompressed size out of range",
            );
            let compressed_size = wide_value(
                compressed,
                match field {
                    Some(field) => field.compressed_size,
                    None => None,
                },
                "missing zip64 compressed size in central directory",
                "zip64 compressed size out of range",
            );
            let local_header_offset = wide_value(
                offset,
                match field {
                    Some(field) => field.local_header_offset,
                    None => None,
                },
                "missing zip64 local header offset in central directory",
                "zip64 local header offset out of range",
            );
            match (uncompressed_size, compressed_size, local_header_offset) {
                (Err(error), _, _) => Err(error),
                (Ok(_), Err(error), _) => Err(error),
                (Ok(_), Ok(_), Err(error)) => Err(error),
                (Ok(uncompressed_size), Ok(compressed_size), Ok(local_header_offset)) => Ok(
                    SingleRecord {
                        name,
                        method: le16(file, at + 10),
                        crc: le32(file, at + 16),
                        compressed_size,
                        uncompressed_size,
                        local_header_offset,
                        record_len: 46 + le16(file, at + 28) + le16(file, at + 30) + le16(
                            file,
                            at + 32,
                        ),
                        directory_len: size,
                    },
                ),
            }
        },
    }
}

/// What the directory at `at` says of the one file.
pub open spec fn single_header(file: Seq<u8>, size: int, at: int) -> Result<
    SingleRecord,
    CoZipError,
> {
    if at + 4 > file.len() {
        Err(CoZipError::InvalidZip("u32 out of range"))
    } else if le32(file, at) != CENTRAL_DIR_HEADER_SIG {
        Err(CoZipError::InvalidZip("invalid central directory signature"))
    } else if at + 12 > file.len() {
        Err(CoZipError::InvalidZip("u16 out of range"))
    } else if le16(file, at + 10) != DEFLATE_METHOD && le16(file, at + 10) != STORED_METHOD {
        Err(CoZipError::Unsupported("only deflate/store methods are supported"))
    } else if at + 28 > file.len() {
        Err(CoZipError::InvalidZip("u32 out of range"))
    } else if at + 34 > file.len() {
        Err(CoZipError::InvalidZip("u16 out of range"))
    } else if at + 46 > file.len() {
        Err(CoZipError::InvalidZip("u32 out of range"))
    } else {
        let name_end = at + 46 + le16(file, at + 28);
        let extra_end = name_end + le16(file, at + 30);
        if name_end > file.len() {
            Err(CoZipError::InvalidZip("name out of range"))
        } else if !valid_utf8(file.subrange(at + 46, name_end)) {
            Err(CoZipError::NonUtf8Name)
        } else if extra_end > file.len() {
            Err(CoZipError::InvalidZip("extra out of range"))
        } else {
            single_values(
                file,
                at,
                size,
                decode_utf8(file.subrange(at + 46, name_end)),
                file.subrange(name_end, extra_end),
            )
        }
    }
}

/// What an archive says of its one file.
pub open spec fn single_entry(file: Seq<u8>) -> Result<SingleRecord, CoZipError> {
    match single_directory(file) {
        Err(error) => Err(error),
        Ok((entries, size, offset)) => if entries != 1 {
            Err(CoZipError::Unsupported("zip_decompress_single expects exactly one file"))
        } else if offset + size > usize::MAX {
            Err(CoZipError::InvalidZip("central directory overflow"))
        } else if offset + size > file.len() {
            Err(CoZipError::InvalidZip("central directory out of range"))
        } else {
            single_header(file, size as int, offset as int)
        },
    }
}

/// The compressed bytes of the one file.
pub open spec fn single_payload(file: Seq<u8>, record: SingleRecord) -> Result<
    Seq<u8>,
    CoZipError,
> {
    let at = record.local_header_offset as int;
    match (read_u16_result(file, at + 26), read_u16_result(file, at + 28), read_u32_result(
        file,
        at,
    )) {
        (Err(error), _, _) => Err(error),
        (Ok(_), Err(error), _) => Err(error),
        (Ok(_), Ok(_), Err(error)) => Err(error),
        (Ok(name_len), Ok(extra_len), Ok(sig)) => {
            let start = at + 30 + name_len + extra_len;
            let end = start + record.compressed_size;
            if sig != LOCAL_FILE_HEADER_SIG {
                Err(CoZipError::InvalidZip("invalid local file header signature"))
            } else if start > usize::MAX {
                Err(CoZipError::InvalidZip("local data range overflow"))
            } else if end > usize::MAX {
                Err(CoZipError::InvalidZip("compressed data range overflow"))
            } else if end > file.len() {
                Err(CoZipError::InvalidZip("compressed data out of range"))
            } else {
                Ok(file.subrange(start, end))
            }
        },
    }
}

/// Whether the data of the one file is what the directory promised, and the
/// directory is long enough for its record.
pub open spec fn single_verdict(record: SingleRecord, data: Seq<u8>) -> Result<(), CoZipError> {
    if data.len() != record.uncompressed_size {
        Err(CoZipError::InvalidZip("decompressed size mismatch against directory"))
    } else if crc32(data) != record.crc {
        Err(CoZipError::InvalidZip("crc32 mismatch"))
    } else if record.record_len > record.directory_len {
        Err(CoZipError::InvalidZip("central record is truncated"))
    } else {
        Ok(())
    }
}

/// The one file of an archive, before its data is decoded.
#[derive(Debug, Clone)]
pub struct LocatedEntry {
    pub name: String,
    pub method: u16,
    pub crc: u32,
    pub compressed_size: usize,
    pub uncompressed_size: usize,
    pub local_header_offset: usize,
    pub record_len: usize,
    pub directory_len: usize,
}

impl View for LocatedEntry {
    type V = SingleRecord;

    open spec fn view(&self) -> SingleRecord {
        SingleRecord {
            name: self.name@,
            method: self.method,
            crc: self.crc,
            compressed_size: self.compressed_size,
            uncompressed_size: self.uncompressed_size,
            local_header_offset: self.local_header_offset,
            record_len: self.record_len as int,
            directory_len: self.directory_len as int,
        }
    }
}

/// Reads a 16-bit integer at `base + delta`.
fn read_u16_at(bytes: &[u8], base: usize, delta: usize) -> (r: Result<u16, CoZipError>)
    ensures
        r == read_u16_result(bytes@, base + delta),
{
    match base.checked_add(delta) {
        None => Err(CoZipError::InvalidZip("u16 overflow")),
        Some(offset) => read_u16(bytes, offset),
    }
}

/// Reads a 64-bit integer at `base + delta`.
fn read_u64_at(bytes: &[u8], base: usize, delta: usize) -> (r: Result<u64, CoZipError>)
    ensures
        r == read_u64_result(bytes@, base + delta),
{
    match base.checked_add(delta) {
        None => Err(CoZipError::InvalidZip("u64 overflow")),
        Some(offset) => read_u64(bytes, offset),
    }
}

/// Reads the ZIP64 end record of an archive of one file.
fn read_zip64_single_directory(zip_bytes: &[u8], at: usize) -> (r: Result<
    (u64, usize, usize),
    CoZipError,
>)
    ensures
        r == zip64_single_directory(zip_bytes@, at as int),
{
    match read_u32(zip_bytes, at) {
        Ok(sig) => {
            if sig != ZIP64_EOCD_SIG {
                return Err(CoZipError::InvalidZip("invalid ZIP64 EOCD signature"));
            }
        },
        Err(error) => {
            return Err(error);
        },
    }
    let entries: u64 = match read_u64_at(zip_bytes, at, 32) {
        Ok(entries) => entries,
        Err(error) => {
            return Err(error);
        },
    };
    let size: usize = match read_u64_at(zip_bytes, at, 40) {
        Ok(size) => match usize_from_u64(size, "zip64 central directory size out of range") {
            Ok(size) => size,
            Err(error) => {
                return Err(error);
            },
        },
        Err(error) => {
            return Err(error);
        },
    };
    let offset: usize = match read_u64_at(zip_bytes, at, 48) {
        Ok(offset) => match usize_from_u64(offset, "zip64 central directory offset out of range") {
            Ok(offset) => offset,
            Err(error) => {
                return Err(error);
            },
        },
        Err(error) => {
            return Err(error);
        },
    };
    Ok((entries, size, offset))
}

/// Finds the directory of an archive of one file.
fn read_single_directory(zip_bytes: &[u8]) -> (r: Result<(u64, usize, usize), CoZipError>)
    ensures
        r == single_directory(zip_bytes@),
{
    let at: usize = match find_eocd(zip_bytes) {
        Some(at) => at,
        None => {
            return Err(CoZipError::InvalidZip("EOCD not found"));
        },
    };
    assert(at + 22 <= zip_bytes.len());
    let entries: u16 = get_u16(zip_bytes, at + 10);
    let size: u32 = get_u32(zip_bytes, at + 12);
    let offset: u32 = get_u32(zip_bytes, at + 16);
    if entries == u16::MAX || size == u32::MAX || offset == u32::MAX {
        if at < 20 || get_u32(zip_bytes, at - 20) != ZIP64_EOCD_LOCATOR_SIG {
            return Err(CoZipError::InvalidZip("ZIP64 EOCD locator not found"));
        }
        let at64: usize = match usize_from_u64(
            get_u64(zip_bytes, at - 12),
            "zip64 eocd offset out of range",
        ) {
            Ok(at64) => at64,
            Err(error) => {
                return Err(error);
            },
        };
        return read_zip64_single_directory(zip_bytes, at64);
    }
    Ok((entries as u64, size as usize, offset as usize))
}

/// Picks a size or an offset of the one file.
fn pick_wide_value(
    narrow: u32,
    wide: Option<u64>,
    missing: &'static str,
    too_large: &'static str,
) -> (r: Result<usize, CoZipError>)
    ensures
        r == wide_value(narrow, wide, missing, too_large),
{
    if narrow != u32::MAX {
        return Ok(narrow as usize);
    }
    match wide {
        None => Err(CoZipError::InvalidZip(missing)),
        Some(value) => usize_from_u64(value, too_large),
    }
}

/// The result of looking for the one file is what is stated.
pub open spec fn locates(
    r: Result<LocatedEntry, CoZipError>,
    stated: Result<SingleRecord, CoZipError>,
) -> bool {
    match r {
        Ok(located) => stated == Ok::<SingleRecord, CoZipError>(located@),
        Err(error) => stated == Err::<SingleRecord, CoZipError>(error),
    }
}

/// Reads the values of the one file.
fn read_single_values(
    zip_bytes: &[u8],
    at: usize,
    size: usize,
    name: String,
    extra: &[u8],
) -> (r: Result<LocatedEntry, CoZipError>)
    requires
        at + 46 <= zip_bytes.len(),
    ensures
        locates(r, single_values(zip_bytes@, at as int, size as int, name@, extra@)),
{
    let compressed: u32 = get_u32(zip_bytes, at + 20);
    let uncompressed: u32 = get_u32(zip_bytes, at + 24);
    let offset: u32 = get_u32(zip_bytes, at + 42);
    let field = match parse_zip64_extra_field(
        extra,
        uncompressed == u32::MAX,
        compressed == u32::MAX,
        offset == u32::MAX,
    ) {
        Ok(field) => field,
        Err(error) => {
            return Err(error);
        },
    };
    let (wide_uncompressed, wide_compressed, wide_offset) = match field {
        Some(field) => (
            field.uncompressed_size,
            field.compressed_size,
            field.local_header_offset,
        ),
        None => (None, None, None),
    };
    let uncompressed_size: usize = match pick_wide_value(
        uncompressed,
        wide_uncompressed,
        "missing zip64 uncompressed size in central directory",
        "zip64 uncompressed size out of range",
    ) {
        Ok(value) => value,
        Err(error) => {
            return Err(error);
        },
    };
    let compressed_size: usize = match pick_wide_value(
        compressed,
        wide_compressed,
        "missing zip64 compressed size in central directory",
        "zip64 compressed size out of range",
    ) {
        Ok(value) => value,
        Err(error) => {
            return Err(error);
        },
    };
    let local_header_offset: usize = match pick_wide_value(
        offset,
        wide_offset,
        "missing zip64 local header offset in central directory",
        "zip64 local header offset out of range",
    ) {
        Ok(value) => value,
        Err(error) => {
            return Err(error);
        },
    };
    let record_len: usize = 46 + get_u16(zip_bytes, at + 28) as usize + get_u16(
        zip_bytes,
        at + 30,
    ) as usize + get_u16(zip_bytes, at + 32) as usize;
    Ok(
        LocatedEntry {
            name,
            method: get_u16(zip_bytes, at + 10),
            crc: get_u32(zip_bytes, at + 16),
            compressed_size,
            uncompressed_size,
            local_header_offset,
            record_len,
            directory_len: size,
        },
    )
}

/// Reads the header of the one file.
fn read_single_header(zip_bytes: &[u8], size: usize, at: usize) -> (r: Result<
    LocatedEntry,
    CoZipError,
>)
    requires
        at <= zip_bytes@.len(),
    ensures
        locates(r, single_header(zip_bytes@, size as int, at as int)),
{
    let left: usize = zip_bytes.len() - at;
    if left < 4 {
        return Err(CoZipError::InvalidZip("u32 out of range"));
    }
    if get_u32(zip_bytes, at) != CENTRAL_DIR_HEADER_SIG {
        return Err(CoZipError::InvalidZip("invalid central directory signature"));
    }
    if left < 12 {
        return Err(CoZipError::InvalidZip("u16 out of range"));
    }
    let method: u16 = get_u16(zip_bytes, at + 10);
    if method != DEFLATE_METHOD && method != STORED_METHOD {
        return Err(CoZipError::Unsupported("only deflate/store methods are supported"));
    }
    if left < 28 {
        return Err(CoZipError::InvalidZip("u32 out of range"));
    }
    if left < 34 {
        return Err(CoZipError::InvalidZip("u16 out of range"));
    }
    if left < 46 {
        return Err(CoZipError::InvalidZip("u32 out of range"));
    }
    let name_len: usize = get_u16(zip_bytes, at + 28) as usize;
    let extra_len: usize = get_u16(zip_bytes, at + 30) as usize;
    if name_len > left - 46 {
        return Err(CoZipError::InvalidZip("name out of range"));
    }
    let name_end: usize = at + 46 + name_len;
    let name = match string_from_utf8(copy_range(zip_bytes, at + 46, name_end)) {
        Some(name) => name,
        None => {
            return Err(CoZipError::NonUtf8Name);
        },
    };
    if extra_len > zip_bytes.len() - name_end {
        return Err(CoZipError::InvalidZip("extra out of range"));
    }
    read_single_values(zip_bytes, at, size, name, &zip_bytes[name_end..name_end + extra_len])
}

/// Finds the one file of an archive.
pub fn locate_single_entry(zip_bytes: &[u8]) -> (r: Result<LocatedEntry, CoZipError>)
    ensures
        locates(r, single_entry(zip_bytes@)),
{
    let (entries, size, offset) = match read_single_directory(zip_bytes) {
        Ok(found) => found,
        Err(error) => {
            return Err(error);
        },
    };
    if entries != 1 {
        return Err(CoZipError::Unsupported("zip_decompress_single expects exactly one file"));
    }
    match offset.checked_add(size) {
        None => {
            return Err(CoZipError::InvalidZip("central directory overflow"));
        },
        Some(central_end) => {
            if central_end > zip_bytes.len() {
                return Err(CoZipError::InvalidZip("central directory out of range"));
            }
        },
    }
    read_single_header(zip_bytes, size, offset)
}

/// Copies the compressed bytes of the one file.
pub fn read_single_payload(zip_bytes: &[u8], located: &LocatedEntry) -> (r: Result<
    Vec<u8>,
    CoZipError,
>)
    ensures
        gives(r, single_payload(zip_bytes@, located@)),
{
    let at: usize = located.local_header_offset;
    let name_len: usize = match read_u16_at(zip_bytes, at, 26) {
        Ok(len) => len as usize,
        Err(error) => {
            return Err(error);
        },
    };
    let extra_len: usize = match read_u16_at(zip_bytes, at, 28) {
        Ok(len) => len as usize,
        Err(error) => {
            return Err(error);
        },
    };
    match read_u32(zip_bytes, at) {
        Ok(sig) => {
            if sig != LOCAL_FILE_HEADER_SIG {
                return Err(CoZipError::InvalidZip("invalid local file header signature"));
            }
        },
        Err(error) => {
            return Err(error);
        },
    }
    let start: usize = match at.checked_add(30 + name_len + extra_len) {
        Some(start) => start,
        None => {
            return Err(CoZipError::InvalidZip("local data range overflow"));
        },
    };
    let end: usize = match start.checked_add(located.compressed_size) {
        Some(end) => end,
        None => {
            return Err(CoZipError::InvalidZip("compressed data range overflow"));
        },
    };
    if end > zip_bytes.len() {
        return Err(CoZipError::InvalidZip("compressed data out of range"));
    }
    Ok(copy_range(zip_bytes, start, end))
}

/// The file that comes out of an archive of one file, or the error, is what is stated.
pub open spec fn unpacks(
    r: Result<ZipEntry, CoZipError>,
    record: SingleRecord,
    data: Seq<u8>,
) -> bool {
    match single_verdict(record, data) {
        Ok(_) => r matches Ok(entry) && entry.name@ == record.name && entry.data@ == data,
        Err(error) => r == Err::<ZipEntry, CoZipError>(error),
    }
}

/// Checks the decoded data of the one file, and hands it on with its name.
pub fn complete_single_entry(located: LocatedEntry, data: Vec<u8>) -> (r: Result<
    ZipEntry,
    CoZipError,
>)
    ensures
        unpacks(r, located@, data@),
{
    if data.len() != located.uncompressed_size {
        return Err(CoZipError::InvalidZip("decompressed size mismatch against directory"));
    }
    if crc32fast::hash(data.as_slice()) != located.crc {
        return Err(CoZipError::InvalidZip("crc32 mismatch"));
    }
    if located.record_len > located.directory_len {
        return Err(CoZipError::InvalidZip("central record is truncated"));
    }
    Ok(ZipEntry { name: located.name, data })
}

/// The decoder was given these bytes.
pub open spec fn inflates_to<F: Fn(&[u8]) -> Result<Vec<u8>, String>>(
    inflate: F,
    payload: Seq<u8>,
    inflated: Result<Vec<u8>, String>,
) -> bool {
    exists|slice: &[u8]| slice@ == payload && #[trigger] call_ensures(inflate, (slice,), inflated)
}

/// The file came out of its compressed bytes, or it could not.
pub open spec fn unpacked_payload<F: Fn(&[u8]) -> Result<Vec<u8>, String>>(
    r: Result<ZipEntry, CoZipError>,
    record: SingleRecord,
    payload: Seq<u8>,
    inflate: F,
) -> bool {
    if record.method == DEFLATE_METHOD {
        exists|inflated: Result<Vec<u8>, String>|
            {
                &&& #[trigger] inflates_to(inflate, payload, inflated)
                &&& match inflated {
                    Ok(data) => unpacks(r, record, data@),
                    Err(message) => r == Err::<ZipEntry, CoZipError>(CoZipError::Deflate(message)),
                }
            }
    } else {
        unpacks(r, record, payload)
    }
}

/// The file came out of an archive of one file, or it could not.
pub open spec fn unpacked_single<F: Fn(&[u8]) -> Result<Vec<u8>, String>>(
    r: Result<ZipEntry, CoZipError>,
    zip: Seq<u8>,
    inflate: F,
) -> bool {
    match single_entry(zip) {
        Err(error) => r == Err::<ZipEntry, CoZipError>(error),
        Ok(record) => match single_payload(zip, record) {
            Err(error) => r == Err::<ZipEntry, CoZipError>(error),
            Ok(payload) => unpacked_payload(r, record, payload, inflate),
        },
    }
}

/// Decodes the compressed bytes of the one file, and checks what comes out.
fn unpack_payload<F: Fn(&[u8]) -> Result<Vec<u8>, String>>(
    located: LocatedEntry,
    payload: Vec<u8>,
    inflate: F,
) -> (r: Result<ZipEntry, CoZipError>)
    requires
        forall|payload: &[u8]| call_requires(inflate, (payload,)),
    ensures
        unpacked_payload(r, located@, payload@, inflate),
{
    if located.method == DEFLATE_METHOD {
        let inflated = inflate(payload.as_slice());
        assert(inflates_to(inflate, payload@, inflated));
        match inflated {
            Ok(data) => complete_single_entry(located, data),
            Err(message) => Err(CoZipError::Deflate(message)),
        }
    } else {
        complete_single_entry(located, payload)
    }
}

/// Unpacks an archive of one file, with `inflate` as the decoder of DEFLATE data.
pub fn zip_decompress_single<F: Fn(&[u8]) -> Result<Vec<u8>, String>>(
    zip_bytes: &[u8],
    inflate: F,
) -> (r: Result<ZipEntry, CoZipError>)
    requires
        forall|payload: &[u8]| call_requires(inflate, (payload,)),
    ensures
        unpacked_single(r, zip_bytes@, inflate),
{
    let located = match locate_single_entry(zip_bytes) {
        Ok(located) => located,
        Err(error) => {
            return Err(error);
        },
    };
    let payload = match read_single_payload(zip_bytes, &located) {
        Ok(payload) => payload,
        Err(error) => {
            return Err(error);
        },
    };
    unpack_payload(located, payload, inflate)
}

} // verus!
