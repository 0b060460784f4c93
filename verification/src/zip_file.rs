//! A single file, compressed into a ZIP archive of its own and back.

use std::collections::VecDeque;

use vstd::prelude::*;
use vstd::utf8::{encode_utf8, encode_utf8_decode_utf8, encode_utf8_valid_utf8};

use crate::czdi::opt_bytes;
use crate::error::CoZipError;
use crate::le::copy_range;
use crate::paths::{normalize_zip_entry_name, normalized_name, PathStyle};
use crate::pipeline::{assemble_archive, prepared_inputs, PreparedPayload};
use crate::trusted::crc32;
use crate::types::CoZipStats;
use crate::zip_entry::{
    check_extracted_entry, check_indexed_entry, compressed_payload, entry_verdict, gives,
    indexed_verdict, inflated_report, lemma_streamed_whole, read_entry_compressed_payload,
    read_streamed_payload, stored_report, streamed_payload, DecodeReport, InflatedPayload,
};
use crate::zip_laws::{
    archive, archive_body, archive_records, law_archive_roundtrip, law_payload_roundtrip,
    lemma_archive_holds, ArchiveInput,
};
use crate::zip_read::{
    read_central_directory_entries, read_directory, read_records, ReadRecord, ZipCentralReadEntry,
};
use crate::zip_write::{
    can_finish, zip64_extension, ZipPreparedEntry, DEFLATE_METHOD, GP_FLAGS_WRITTEN, STORED_METHOD,
};

verus! {

/// What a compressor hands back for a file: the compressed bytes, the checksum
/// and the number of the bytes before, and an index, where it made one.
#[derive(Debug, Clone)]
pub struct DeflatedFile {
    pub payload: Vec<u8>,
    pub crc32: u32,
    pub uncompressed_size: u64,
    pub czdi_blob: Option<Vec<u8>>,
}

/// What goes into an archive for a file of that name.
pub open spec fn file_input(name: Seq<char>, deflated: DeflatedFile) -> ArchiveInput {
    ArchiveInput {
        name: encode_utf8(name),
        payload: deflated.payload@,
        crc: deflated.crc32,
        uncompressed_size: deflated.uncompressed_size,
        blob: opt_bytes(deflated.czdi_blob),
    }
}

/// The archive can be written: what stands in it fits its fields.
pub open spec fn file_fits(input: ArchiveInput) -> bool {
    let inputs = seq![input];
    let body = archive_body(inputs, 1);
    &&& body.len() <= u64::MAX
    &&& can_finish(archive_records(inputs), body.len() as u64)
}

/// An archive of one file was made, or it could not be.
pub open spec fn file_archived(
    r: Result<(Vec<u8>, CoZipStats), CoZipError>,
    name: Seq<char>,
    deflated: DeflatedFile,
) -> bool {
    let input = file_input(name, deflated);
    match r {
        Ok((bytes, stats)) => {
            &&& file_fits(input)
            &&& bytes@ == archive(seq![input])
            &&& stats == (CoZipStats {
                entries: 1,
                input_bytes: deflated.uncompressed_size,
                output_bytes: bytes@.len() as u64,
            })
        },
        Err(error) => error == CoZipError::DataTooLarge && !file_fits(input),
    }
}

/// Makes the archive of a file that was compressed. `name` stands in it as it is.
pub fn archive_deflated_file(name: String, deflated: DeflatedFile) -> (r: Result<
    (Vec<u8>, CoZipStats),
    CoZipError,
>)
    ensures
        file_archived(r, name@, deflated),
{
    let ghost input = file_input(name@, deflated);
    let entry = ZipPreparedEntry {
        name,
        crc: deflated.crc32,
        compressed_size: deflated.payload.len() as u64,
        uncompressed_size: deflated.uncompressed_size,
        czdi_blob: deflated.czdi_blob,
    };
    let mut prepared: VecDeque<PreparedPayload> = VecDeque::new();
    prepared.push_back(PreparedPayload { entry, payload: deflated.payload });
    proof {
        assert(prepared_inputs(prepared@) =~= seq![input]);
        reveal_with_fuel(crate::pipeline::uncompressed_total, 2);
        assert(prepared@.drop_last() =~= Seq::<PreparedPayload>::empty());
    }
    assemble_archive(prepared)
}

/// A file was compressed into an archive, or it could not be.
pub open spec fn named_file_compressed<F: FnOnce() -> Result<DeflatedFile, CoZipError>>(
    r: Result<(Vec<u8>, CoZipStats), CoZipError>,
    entry_name: Seq<char>,
    style: PathStyle,
    deflate: F,
) -> bool {
    match normalized_name(entry_name, style) {
        Err(error) => r == Err::<(Vec<u8>, CoZipStats), CoZipError>(error),
        Ok(name) => if encode_utf8(name).len() > 0xffff {
            r == Err::<(Vec<u8>, CoZipStats), CoZipError>(CoZipError::DataTooLarge)
        } else {
            exists|deflated: Result<DeflatedFile, CoZipError>|
                {
                    &&& #[trigger] call_ensures(deflate, (), deflated)
                    &&& match deflated {
                        Ok(deflated) => file_archived(r, name, deflated),
                        Err(error) => r == Err::<(Vec<u8>, CoZipStats), CoZipError>(error),
                    }
                }
        },
    }
}

/// Compresses a file into an archive. `deflate` compresses its contents; it is
/// called once the name was cleaned and found to fit.
pub fn compress_named_file<F: FnOnce() -> Result<DeflatedFile, CoZipError>>(
    entry_name: &str,
    style: PathStyle,
    deflate: F,
) -> (r: Result<(Vec<u8>, CoZipStats), CoZipError>)
    requires
        call_requires(deflate, ()),
    ensures
        named_file_compressed(r, entry_name@, style, deflate),
{
    let name = match normalize_zip_entry_name(entry_name, style) {
        Ok(name) => name,
        Err(error) => {
            return Err(error);
        },
    };
    if name.as_str().as_bytes().len() > 0xffff {
        return Err(CoZipError::DataTooLarge);
    }
    let deflated = deflate();
    assert(call_ensures(deflate, (), deflated));
    match deflated {
        Ok(deflated) => archive_deflated_file(name, deflated),
        Err(error) => Err(error),
    }
}

/// The one entry of an archive of a single file.
pub open spec fn sole_record(file: Seq<u8>) -> Result<ReadRecord, CoZipError> {
    match read_directory(file) {
        Err(error) => Err(error),
        Ok(records) => if records.len() == 1 {
            Ok(records[0])
        } else {
            Err(CoZipError::Unsupported("decompress_file expects exactly one file in archive"))
        },
    }
}

/// Whether the directory holds exactly one entry, as an archive of a single file
/// does.
pub fn check_sole_entry(entries: &[ZipCentralReadEntry]) -> (r: Result<(), CoZipError>)
    ensures
        match r {
            Ok(_) => entries@.len() == 1,
            Err(error) => {
                &&& entries@.len() != 1
                &&& error == CoZipError::Unsupported(
                    "decompress_file expects exactly one file in archive",
                )
            },
        },
{
    if entries.len() != 1 {
        return Err(CoZipError::Unsupported("decompress_file expects exactly one file in archive"));
    }
    Ok(())
}

/// The contents of an entry: its compressed bytes as they stand where it is
/// stored, else what the decoder made of them. The checks differ where the entry
/// was decoded with its index.
pub open spec fn entry_contents(
    record: ReadRecord,
    indexed: bool,
    payload: Seq<u8>,
    inflated: Result<InflatedPayload, String>,
) -> Result<Seq<u8>, CoZipError> {
    if indexed {
        match inflated {
            Err(message) => Err(CoZipError::Deflate(message)),
            Ok(inflated) => match indexed_verdict(
                record.crc,
                record.uncompressed_size,
                inflated_report(inflated),
            ) {
                Err(error) => Err(error),
                Ok(_) => Ok(inflated.data@),
            },
        }
    } else if record.method == STORED_METHOD {
        match entry_verdict(
            record.method,
            record.gp_flags,
            record.crc,
            record.uncompressed_size,
            stored_report(payload),
        ) {
            Err(error) => Err(error),
            Ok(_) => Ok(payload),
        }
    } else if record.method == DEFLATE_METHOD {
        match inflated {
            Err(message) => Err(CoZipError::Deflate(message)),
            Ok(inflated) => match entry_verdict(
                record.method,
                record.gp_flags,
                record.crc,
                record.uncompressed_size,
                inflated_report(inflated),
            ) {
                Err(error) => Err(error),
                Ok(_) => Ok(inflated.data@),
            },
        }
    } else {
        Err(CoZipError::Unsupported("only deflate/store methods are supported"))
    }
}

/// Checks what the decoder made of an entry, and hands its contents on.
pub fn complete_decoded_entry(
    entry: &ZipCentralReadEntry,
    indexed: bool,
    inflated: Result<InflatedPayload, String>,
) -> (r: Result<Vec<u8>, CoZipError>)
    requires
        indexed || entry.method == DEFLATE_METHOD,
    ensures
        forall|payload: Seq<u8>|
            gives(r, #[trigger] entry_contents(entry@, indexed, payload, inflated)),
        inflated matches Err(message) ==> r == Err::<Vec<u8>, CoZipError>(
            CoZipError::Deflate(message),
        ),
        inflated matches Ok(out) ==> (r is Ok <==> if indexed {
            indexed_verdict(entry.crc, entry.uncompressed_size, inflated_report(out)) is Ok
        } else {
            entry_verdict(
                entry.method,
                entry.gp_flags,
                entry.crc,
                entry.uncompressed_size,
                inflated_report(out),
            ) is Ok
        }),
        r matches Ok(data) ==> data@ == inflated->Ok_0.data@,
{
    let inflated = match inflated {
        Ok(inflated) => inflated,
        Err(message) => {
            return Err(CoZipError::Deflate(message));
        },
    };
    let report = DecodeReport {
        output_bytes: inflated.data.len() as u64,
        output_crc32: inflated.crc32,
        leftover: inflated.leftover,
    };
    if indexed {
        match check_indexed_entry(entry, report) {
            Ok(_) => {},
            Err(error) => {
                return Err(error);
            },
        }
    } else {
        match check_extracted_entry(entry, report) {
            Ok(_) => {},
            Err(error) => {
                return Err(error);
            },
        }
    }
    Ok(inflated.data)
}

/// Hands on the contents of a stored entry.
fn complete_stored_entry(entry: &ZipCentralReadEntry, payload: Vec<u8>) -> (r: Result<
    Vec<u8>,
    CoZipError,
>)
    requires
        entry.method == STORED_METHOD,
    ensures
        forall|inflated: Result<InflatedPayload, String>|
            gives(r, #[trigger] entry_contents(entry@, false, payload@, inflated)),
{
    let report = DecodeReport {
        output_bytes: payload.len() as u64,
        output_crc32: crc32fast::hash(payload.as_slice()),
        leftover: 0,
    };
    match check_extracted_entry(entry, report) {
        Ok(_) => Ok(payload),
        Err(error) => Err(error),
    }
}

/// The index of the entry, where it has one, is found readable or not.
pub open spec fn index_judged<D: Fn(&[u8]) -> bool>(
    index_is_readable: D,
    blob: Option<Seq<u8>>,
    indexed: bool,
) -> bool {
    match blob {
        None => !indexed,
        Some(blob) => exists|slice: &[u8]|
            slice@ == blob && #[trigger] call_ensures(index_is_readable, (slice,), indexed),
    }
}

/// The index that the decoder is given.
pub open spec fn index_used(indexed: bool, blob: Option<Seq<u8>>) -> Option<Seq<u8>> {
    if indexed {
        blob
    } else {
        None
    }
}

/// The decoder was given these bytes, with or without the index.
pub open spec fn decoded_as<
    F: Fn(&[u8], Option<&Vec<u8>>) -> Result<InflatedPayload, String>,
>(
    inflate: F,
    payload: Seq<u8>,
    index: Option<Seq<u8>>,
    inflated: Result<InflatedPayload, String>,
) -> bool {
    exists|slice: &[u8], blob: Option<&Vec<u8>>|
        {
            &&& slice@ == payload
            &&& match blob {
                Some(blob) => index == Some(blob@),
                None => index is None,
            }
            &&& #[trigger] call_ensures(inflate, (slice, blob), inflated)
        }
}

/// The contents of an entry, from the bytes that were found for it.
pub open spec fn entry_decoded<
    F: Fn(&[u8], Option<&Vec<u8>>) -> Result<InflatedPayload, String>,
>(
    r: Result<Vec<u8>, CoZipError>,
    record: ReadRecord,
    indexed: bool,
    payload: Seq<u8>,
    inflate: F,
) -> bool {
    if indexed || record.method == DEFLATE_METHOD {
        exists|inflated: Result<InflatedPayload, String>|
            {
                &&& #[trigger] decoded_as(
                    inflate,
                    payload,
                    index_used(indexed, record.blob),
                    inflated,
                )
                &&& gives(r, entry_contents(record, indexed, payload, inflated))
            }
    } else {
        forall|inflated: Result<InflatedPayload, String>|
            gives(r, #[trigger] entry_contents(record, indexed, payload, inflated))
    }
}

/// The compressed bytes that are decoded. Without an index no more are taken than
/// `limit` says, where there is one.
pub open spec fn bytes_decoded(payload: Seq<u8>, limit: Option<u64>, indexed: bool) -> Seq<u8> {
    match limit {
        Some(limit) => if !indexed && limit < payload.len() {
            payload.take(limit as int)
        } else {
            payload
        },
        None => payload,
    }
}

/// The contents of an entry, from its compressed bytes, or why there are none.
pub open spec fn payload_extracted<
    D: Fn(&[u8]) -> bool,
    F: Fn(&[u8], Option<&Vec<u8>>) -> Result<InflatedPayload, String>,
>(
    r: Result<Vec<u8>, CoZipError>,
    payload: Result<Seq<u8>, CoZipError>,
    limit: Option<u64>,
    record: ReadRecord,
    index_is_readable: D,
    inflate: F,
) -> bool {
    match payload {
        Err(error) => r == Err::<Vec<u8>, CoZipError>(error),
        Ok(payload) => exists|indexed: bool|
            {
                &&& #[trigger] index_judged(index_is_readable, record.blob, indexed)
                &&& entry_decoded(
                    r,
                    record,
                    indexed,
                    bytes_decoded(payload, limit, indexed),
                    inflate,
                )
            },
    }
}

/// The contents of an entry of an archive that holds all its compressed bytes, or
/// why there are none. Without an index no more bytes are decoded than the
/// directory declares, whatever the local header says.
pub open spec fn entry_extracted<
    D: Fn(&[u8]) -> bool,
    F: Fn(&[u8], Option<&Vec<u8>>) -> Result<InflatedPayload, String>,
>(
    r: Result<Vec<u8>, CoZipError>,
    file: Seq<u8>,
    record: ReadRecord,
    index_is_readable: D,
    inflate: F,
) -> bool {
    payload_extracted(
        r,
        compressed_payload(file, record.local_header_offset, record.compressed_size),
        Some(record.compressed_size),
        record,
        index_is_readable,
        inflate,
    )
}

/// The contents of an entry of an archive, whose compressed bytes are taken as far
/// as the file holds them, or why there are none.
pub open spec fn entry_streamed<
    D: Fn(&[u8]) -> bool,
    F: Fn(&[u8], Option<&Vec<u8>>) -> Result<InflatedPayload, String>,
>(
    r: Result<Vec<u8>, CoZipError>,
    file: Seq<u8>,
    record: ReadRecord,
    index_is_readable: D,
    inflate: F,
) -> bool {
    payload_extracted(
        r,
        streamed_payload(file, record.local_header_offset, record.compressed_size),
        None,
        record,
        index_is_readable,
        inflate,
    )
}

/// Cuts off the compressed bytes that are not decoded.
fn cut_payload(payload: Vec<u8>, limit: Option<u64>, indexed: bool) -> (cut: Vec<u8>)
    ensures
        cut@ == bytes_decoded(payload@, limit, indexed),
{
    if let Some(limit) = limit {
        if !indexed && limit < payload.len() as u64 {
            let cut = copy_range(payload.as_slice(), 0, limit as usize);
            assert(cut@ =~= payload@.take(limit as int));
            return cut;
        }
    }
    payload
}

/// Decodes the compressed bytes of an entry, and checks what comes out.
fn extract_payload<
    D: Copy + Fn(&[u8]) -> bool,
    F: Copy + Fn(&[u8], Option<&Vec<u8>>) -> Result<InflatedPayload, String>,
>(
    payload: Vec<u8>,
    limit: Option<u64>,
    entry: &ZipCentralReadEntry,
    index_is_readable: D,
    inflate: F,
) -> (r: Result<Vec<u8>, CoZipError>)
    requires
        forall|blob: &[u8]| call_requires(index_is_readable, (blob,)),
        forall|payload: &[u8], index: Option<&Vec<u8>>|
            call_requires(inflate, (payload, index)),
    ensures
        payload_extracted(r, Ok(payload@), limit, entry@, index_is_readable, inflate),
{
    let ghost record = entry@;
    let indexed: bool = match &entry.czdi_blob {
        None => false,
        Some(blob) => index_is_readable(blob.as_slice()),
    };
    assert(index_judged(index_is_readable, record.blob, indexed));
    let taken = cut_payload(payload, limit, indexed);
    let ghost bytes = taken@;
    if !indexed && entry.method == STORED_METHOD {
        let r = complete_stored_entry(entry, taken);
        assert(entry_decoded(r, record, indexed, bytes, inflate));
        return r;
    }
    if !indexed && entry.method != DEFLATE_METHOD {
        let r = Err(CoZipError::Unsupported("only deflate/store methods are supported"));
        assert(entry_decoded(r, record, indexed, bytes, inflate));
        return r;
    }
    let index: Option<&Vec<u8>> = if indexed {
        entry.czdi_blob.as_ref()
    } else {
        None
    };
    let inflated = inflate(taken.as_slice(), index);
    assert(decoded_as(inflate, bytes, index_used(indexed, record.blob), inflated));
    let r = complete_decoded_entry(entry, indexed, inflated);
    assert(entry_decoded(r, record, indexed, bytes, inflate));
    r
}

/// Extracts an entry of an archive that is in memory. `index_is_readable` tells
/// whether an index can be used, `inflate` decodes DEFLATE data, with the index
/// where it can be.
pub fn extract_entry<
    D: Copy + Fn(&[u8]) -> bool,
    F: Copy + Fn(&[u8], Option<&Vec<u8>>) -> Result<InflatedPayload, String>,
>(
    file: &[u8],
    entry: &ZipCentralReadEntry,
    index_is_readable: D,
    inflate: F,
) -> (r: Result<Vec<u8>, CoZipError>)
    requires
        forall|blob: &[u8]| call_requires(index_is_readable, (blob,)),
        forall|payload: &[u8], index: Option<&Vec<u8>>|
            call_requires(inflate, (payload, index)),
    ensures
        entry_extracted(r, file@, entry@, index_is_readable, inflate),
{
    match read_entry_compressed_payload(file, entry) {
        Ok(payload) => extract_payload(
            payload,
            Some(entry.compressed_size),
            entry,
            index_is_readable,
            inflate,
        ),
        Err(error) => Err(error),
    }
}

/// Extracts an entry of an archive that is in memory, whose compressed bytes are
/// taken as far as the file holds them.
fn stream_entry<
    D: Copy + Fn(&[u8]) -> bool,
    F: Copy + Fn(&[u8], Option<&Vec<u8>>) -> Result<InflatedPayload, String>,
>(
    file: &[u8],
    entry: &ZipCentralReadEntry,
    index_is_readable: D,
    inflate: F,
) -> (r: Result<Vec<u8>, CoZipError>)
    requires
        forall|blob: &[u8]| call_requires(index_is_readable, (blob,)),
        forall|payload: &[u8], index: Option<&Vec<u8>>|
            call_requires(inflate, (payload, index)),
    ensures
        entry_streamed(r, file@, entry@, index_is_readable, inflate),
{
    match read_streamed_payload(file, entry) {
        Ok(payload) => extract_payload(payload, None, entry, index_is_readable, inflate),
        Err(error) => Err(error),
    }
}

/// The file of a single-file archive came out with the counts, or the error did.
pub open spec fn file_extracted(
    r: Result<(Vec<u8>, CoZipStats), CoZipError>,
    contents: Result<Vec<u8>, CoZipError>,
    file_len: nat,
) -> bool {
    match contents {
        Ok(data) => r == Ok::<(Vec<u8>, CoZipStats), CoZipError>(
            (
                data,
                CoZipStats {
                    entries: 1,
                    input_bytes: file_len as u64,
                    output_bytes: data@.len() as u64,
                },
            ),
        ),
        Err(error) => r == Err::<(Vec<u8>, CoZipStats), CoZipError>(error),
    }
}

/// The file of a single-file archive came out, or it could not.
pub open spec fn single_file_decompressed<
    D: Fn(&[u8]) -> bool,
    F: Fn(&[u8], Option<&Vec<u8>>) -> Result<InflatedPayload, String>,
>(
    r: Result<(Vec<u8>, CoZipStats), CoZipError>,
    file: Seq<u8>,
    index_is_readable: D,
    inflate: F,
) -> bool {
    match sole_record(file) {
        Err(error) => r == Err::<(Vec<u8>, CoZipStats), CoZipError>(error),
        Ok(record) => exists|contents: Result<Vec<u8>, CoZipError>|
            {
                &&& #[trigger] entry_streamed(contents, file, record, index_is_readable, inflate)
                &&& file_extracted(r, contents, file.len())
            },
    }
}

/// Extracts the file of a single-file archive that is in memory. Data that ends
/// with the archive before its declared size is taken as far as it goes, and
/// judged by what comes out.
pub fn decompress_single_file<
    D: Copy + Fn(&[u8]) -> bool,
    F: Copy + Fn(&[u8], Option<&Vec<u8>>) -> Result<InflatedPayload, String>,
>(file: &[u8], index_is_readable: D, inflate: F) -> (r: Result<(Vec<u8>, CoZipStats), CoZipError>)
    requires
        forall|blob: &[u8]| call_requires(index_is_readable, (blob,)),
        forall|payload: &[u8], index: Option<&Vec<u8>>|
            call_requires(inflate, (payload, index)),
    ensures
        single_file_decompressed(r, file@, index_is_readable, inflate),
{
    let (entries, file_len) = match read_central_directory_entries(file) {
        Ok(found) => found,
        Err(error) => {
            return Err(error);
        },
    };
    assert(read_records(entries@).len() == entries@.len());
    match check_sole_entry(entries.as_slice()) {
        Ok(_) => {},
        Err(error) => {
            return Err(error);
        },
    }
    let entry = &entries[0];
    assert(sole_record(file@) == Ok::<ReadRecord, CoZipError>(entry@));
    let contents = stream_entry(file, entry, index_is_readable, inflate);
    assert(entry_streamed(contents, file@, entry@, index_is_readable, inflate));
    match contents {
        Ok(data) => {
            let stats = CoZipStats {
                entries: 1,
                input_bytes: file_len,
                output_bytes: data.len() as u64,
            };
            Ok((data, stats))
        },
        Err(error) => Err(error),
    }
}

/// What a faithful decoder gives is the contents of the entry.
pub proof fn lemma_faithful_contents(
    record: ReadRecord,
    indexed: bool,
    payload: Seq<u8>,
    inflated: InflatedPayload,
)
    requires
        record.method == DEFLATE_METHOD,
        record.gp_flags == GP_FLAGS_WRITTEN,
        record.crc == crc32(inflated.data@),
        record.uncompressed_size == inflated.data@.len(),
        inflated.crc32 == crc32(inflated.data@),
        inflated.leftover == 0,
    ensures
        entry_contents(record, indexed, payload, Ok(inflated)) == Ok::<Seq<u8>, CoZipError>(
            inflated.data@,
        ),
{
}

/// What was compressed into an archive comes out of it again: the directory names
/// the file, its compressed bytes are found, and a decoder that gives back what the
/// compressor was given is believed, with the index or without. Left out are files
/// of 4294967295 compressed bytes: the directory's number then asks for a ZIP64
/// field in the local header, which has none.
pub proof fn law_file_roundtrip(
    name: Seq<char>,
    deflated: DeflatedFile,
    inflated: InflatedPayload,
    indexed: bool,
)
    requires
        file_fits(file_input(name, deflated)),
        44 + zip64_extension(archive_records(seq![file_input(name, deflated)])).len()
            <= usize::MAX,
        deflated.payload@.len() != u32::MAX,
        deflated.payload@.len() <= usize::MAX,
        deflated.crc32 == crc32(inflated.data@),
        deflated.uncompressed_size == inflated.data@.len(),
        inflated.crc32 == crc32(inflated.data@),
        inflated.leftover == 0,
    ensures
        ({
            let file = archive(seq![file_input(name, deflated)]);
            &&& sole_record(file) matches Ok(record)
            &&& record.name == name
            &&& record.blob == opt_bytes(deflated.czdi_blob)
            &&& streamed_payload(file, record.local_header_offset, record.compressed_size)
                == Ok::<Seq<u8>, CoZipError>(deflated.payload@)
            &&& entry_contents(record, indexed, deflated.payload@, Ok(inflated)) == Ok::<
                Seq<u8>,
                CoZipError,
            >(inflated.data@)
        }),
{
    lemma_file_record(name, deflated);
    let record = sole_record(archive(seq![file_input(name, deflated)]))->Ok_0;
    lemma_faithful_contents(record, indexed, deflated.payload@, inflated);
}

/// The decoder makes of the compressed bytes the data, with an index or without.
pub open spec fn decoder_gives_back<
    F: Fn(&[u8], Option<&Vec<u8>>) -> Result<InflatedPayload, String>,
>(inflate: F, payload: Seq<u8>, data: Seq<u8>) -> bool {
    forall|index: Option<Seq<u8>>, inflated: Result<InflatedPayload, String>| #[trigger]
        decoded_as(inflate, payload, index, inflated) ==> {
            &&& inflated matches Ok(out)
            &&& out.data@ == data
            &&& out.crc32 == crc32(data)
            &&& out.leftover == 0
        }
}

/// The compressor told the size and the checksum of the data, and the decoder
/// gives the data back.
pub open spec fn file_codec_gives_back<
    C: FnOnce() -> Result<DeflatedFile, CoZipError>,
    F: Fn(&[u8], Option<&Vec<u8>>) -> Result<InflatedPayload, String>,
>(deflate: C, inflate: F, data: Seq<u8>) -> bool {
    forall|deflated: DeflatedFile| #[trigger]
        call_ensures(deflate, (), Ok(deflated)) ==> {
            &&& deflated.crc32 == crc32(data)
            &&& deflated.uncompressed_size == data.len()
            &&& deflated.payload@.len() != u32::MAX
            &&& decoder_gives_back(inflate, deflated.payload@, data)
        }
}

/// A file that was compressed comes out of its archive again, whether its index
/// can be used or not: where compressing gave an archive and the codec gives back
/// what it is given, extracting gives the data and its size. Left out are files of
/// 4294967295 compressed bytes: the directory's number then asks for a ZIP64 field
/// in the local header, which has none.
pub proof fn law_compressed_file_comes_back<
    C: FnOnce() -> Result<DeflatedFile, CoZipError>,
    D: Fn(&[u8]) -> bool,
    F: Fn(&[u8], Option<&Vec<u8>>) -> Result<InflatedPayload, String>,
>(
    entry_name: Seq<char>,
    style: PathStyle,
    deflate: C,
    zip: (Vec<u8>, CoZipStats),
    index_is_readable: D,
    inflate: F,
    data: Seq<u8>,
    r: Result<(Vec<u8>, CoZipStats), CoZipError>,
)
    requires
        named_file_compressed(Ok(zip), entry_name, style, deflate),
        single_file_decompressed(r, zip.0@, index_is_readable, inflate),
        file_codec_gives_back(deflate, inflate, data),
        zip.0@.len() <= usize::MAX,
    ensures
        ({
            &&& r matches Ok((out, stats))
            &&& out@ == data
            &&& stats == (CoZipStats {
                entries: 1,
                input_bytes: zip.0@.len() as u64,
                output_bytes: data.len() as u64,
            })
        }),
{
    let name = normalized_name(entry_name, style)->Ok_0;
    let made = Ok::<(Vec<u8>, CoZipStats), CoZipError>(zip);
    let deflated = choose|deflated: Result<DeflatedFile, CoZipError>|
        {
            &&& #[trigger] call_ensures(deflate, (), deflated)
            &&& match deflated {
                Ok(deflated) => file_archived(made, name, deflated),
                Err(error) => made == Err::<(Vec<u8>, CoZipStats), CoZipError>(error),
            }
        };
    let deflated = deflated->Ok_0;
    assert(call_ensures(deflate, (), Ok(deflated)));
    let input = file_input(name, deflated);
    let file = zip.0@;
    lemma_archive_holds(seq![input], 0);
    let record = sole_record(file)->Ok_0;
    let payload = deflated.payload@;
    lemma_file_record(name, deflated);
    let contents = choose|contents: Result<Vec<u8>, CoZipError>|
        {
            &&& #[trigger] entry_streamed(contents, file, record, index_is_readable, inflate)
            &&& file_extracted(r, contents, file.len())
        };
    let indexed = choose|indexed: bool|
        {
            &&& #[trigger] index_judged(index_is_readable, record.blob, indexed)
            &&& entry_decoded(contents, record, indexed, payload, inflate)
        };
    assert(entry_decoded(contents, record, indexed, payload, inflate));
    let inflated = choose|inflated: Result<InflatedPayload, String>|
        {
            &&& #[trigger] decoded_as(inflate, payload, index_used(indexed, record.blob), inflated)
            &&& gives(contents, entry_contents(record, indexed, payload, inflated))
        };
    assert(decoded_as(inflate, payload, index_used(indexed, record.blob), inflated));
    law_file_roundtrip(name, deflated, inflated->Ok_0, indexed);
}

/// The one record of the archive of a compressed file.
proof fn lemma_file_record(name: Seq<char>, deflated: DeflatedFile)
    requires
        file_fits(file_input(name, deflated)),
        44 + zip64_extension(archive_records(seq![file_input(name, deflated)])).len()
            <= usize::MAX,
        deflated.payload@.len() != u32::MAX,
        deflated.payload@.len() <= usize::MAX,
    ensures
        ({
            let file = archive(seq![file_input(name, deflated)]);
            &&& sole_record(file) matches Ok(record)
            &&& record.method == DEFLATE_METHOD
            &&& record.gp_flags == GP_FLAGS_WRITTEN
            &&& record.name == name
            &&& record.crc == deflated.crc32
            &&& record.uncompressed_size == deflated.uncompressed_size
            &&& record.blob == opt_bytes(deflated.czdi_blob)
            &&& streamed_payload(file, record.local_header_offset, record.compressed_size)
                == Ok::<Seq<u8>, CoZipError>(deflated.payload@)
        }),
{
    let input = file_input(name, deflated);
    let inputs = seq![input];
    encode_utf8_valid_utf8(name);
    encode_utf8_decode_utf8(name);
    assert(archive_records(inputs)[0].name.len() <= 0xffff);
    law_archive_roundtrip(inputs);
    law_payload_roundtrip(inputs, 0);
    let record = sole_record(archive(inputs))->Ok_0;
    lemma_streamed_whole(archive(inputs), record.local_header_offset, record.compressed_size);
}

} // verus!
