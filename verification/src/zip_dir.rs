//! A directory in a ZIP archive, taken out again in one go.

use vstd::prelude::*;

use crate::czdi::opt_bytes;
use crate::error::CoZipError;
use crate::formats::{file_count, is_dir_name, is_directory_name};
use crate::paths::{entry_path_from_zip_name, name_parts, texts_of, PathStyle};
use crate::pipeline::{
    can_assemble, directory_assembled, entries_up_to, law_directory_archive_reads_back,
    lemma_uncompressed_grows, prepared_inputs, uncompressed_total, FileResult, PreparedPayload,
};
use crate::progress::capped_sum;
use crate::trusted::crc32;
use crate::types::CoZipStats;
use crate::zip_entry::{
    compressed_payload, entry_written, extract_entry_to_writer, gives, inflated_as, inflated_data,
    lemma_streamed_whole, streamed_payload, InflatedPayload,
};
use crate::zip_file::{
    decoded_as, decoder_gives_back, entry_contents, entry_decoded, entry_extracted, extract_entry,
    index_judged, index_used, lemma_faithful_contents,
};
use crate::zip_laws::{archive, archive_records, law_archive_roundtrip, lemma_archive_holds};
use crate::zip_read::{
    read_central_directory_entries, read_directory, read_records, ReadRecord, ZipCentralReadEntry,
};
use crate::zip_write::{lemma_tail_len, zip64_extension, DEFLATE_METHOD, GP_FLAGS_WRITTEN};

verus! {

/// What came out of an archive for an entry: a directory, or a file with its
/// contents.
#[derive(Debug, Clone)]
pub struct ExtractedEntry {
    pub path: Vec<String>,
    pub data: Option<Vec<u8>>,
}

/// The item is what a record stands for.
pub open spec fn entry_restored<
    D: Fn(&[u8]) -> bool,
    F: Fn(&[u8], Option<&Vec<u8>>) -> Result<InflatedPayload, String>,
>(
    item: ExtractedEntry,
    file: Seq<u8>,
    record: ReadRecord,
    style: PathStyle,
    index_is_readable: D,
    inflate: F,
) -> bool {
    &&& name_parts(record.name, style) == Ok::<Seq<Seq<char>>, CoZipError>(texts_of(item.path@))
    &&& match item.data {
        None => is_dir_name(record.name),
        Some(data) => !is_dir_name(record.name) && entry_extracted(
            Ok(data),
            file,
            record,
            index_is_readable,
            inflate,
        ),
    }
}

/// The names of the first `n` records stay below the output directory.
pub open spec fn names_hold(records: Seq<ReadRecord>, style: PathStyle, n: int) -> bool {
    forall|i: int| 0 <= i < n ==> name_parts((#[trigger] records[i]).name, style) is Ok
}

/// Record `i` is the first whose name does not.
pub open spec fn name_fails_at(
    records: Seq<ReadRecord>,
    style: PathStyle,
    i: int,
    error: CoZipError,
) -> bool {
    &&& 0 <= i < records.len()
    &&& names_hold(records, style, i)
    &&& name_parts(records[i].name, style) == Err::<Seq<Seq<char>>, CoZipError>(error)
}

/// Record `i` stands for a file that could not be extracted.
pub open spec fn file_fails_at<
    D: Fn(&[u8]) -> bool,
    F: Fn(&[u8], Option<&Vec<u8>>) -> Result<InflatedPayload, String>,
>(
    file: Seq<u8>,
    records: Seq<ReadRecord>,
    i: int,
    error: CoZipError,
    index_is_readable: D,
    inflate: F,
) -> bool {
    &&& 0 <= i < records.len()
    &&& !is_dir_name(records[i].name)
    &&& entry_extracted(Err(error), file, records[i], index_is_readable, inflate)
}

/// The bytes of the files that came out, added up as far as the number goes.
pub open spec fn restored_bytes(items: Seq<ExtractedEntry>) -> u64
    decreases items.len(),
{
    if items.len() == 0 {
        0
    } else {
        match items.last().data {
            None => restored_bytes(items.drop_last()),
            Some(data) => capped_sum(restored_bytes(items.drop_last()), data@.len() as u64),
        }
    }
}

/// Everything came out, or something failed: a name, before any file is
/// extracted, or a file.
pub open spec fn directory_restored<
    D: Fn(&[u8]) -> bool,
    F: Fn(&[u8], Option<&Vec<u8>>) -> Result<InflatedPayload, String>,
>(
    r: Result<(Vec<ExtractedEntry>, CoZipStats), CoZipError>,
    file: Seq<u8>,
    records: Seq<ReadRecord>,
    style: PathStyle,
    index_is_readable: D,
    inflate: F,
) -> bool {
    match r {
        Ok((items, stats)) => {
            &&& items@.len() == records.len()
            &&& forall|i: int|
                0 <= i < items@.len() ==> entry_restored(
                    #[trigger] items@[i],
                    file,
                    records[i],
                    style,
                    index_is_readable,
                    inflate,
                )
            &&& stats == (CoZipStats {
                entries: file_count(records) as usize,
                input_bytes: file.len() as u64,
                output_bytes: restored_bytes(items@),
            })
        },
        Err(error) => if names_hold(records, style, records.len() as int) {
            exists|i: int| #[trigger]
                file_fails_at(file, records, i, error, index_is_readable, inflate)
        } else {
            exists|i: int| #[trigger] name_fails_at(records, style, i, error)
        },
    }
}

/// Finds where every entry goes.
fn plan_paths(entries: &[ZipCentralReadEntry], style: PathStyle) -> (r: Result<
    Vec<Vec<String>>,
    CoZipError,
>)
    ensures
        ({
            let records = read_records(entries@);
            match r {
                Ok(paths) => {
                    &&& paths@.len() == records.len()
                    &&& names_hold(records, style, records.len() as int)
                    &&& forall|i: int|
                        0 <= i < paths@.len() ==> name_parts(records[i].name, style) == Ok::<
                            Seq<Seq<char>>,
                            CoZipError,
                        >(texts_of((#[trigger] paths@[i])@))
                },
                Err(error) => {
                    &&& !names_hold(records, style, records.len() as int)
                    &&& exists|i: int| #[trigger] name_fails_at(records, style, i, error)
                },
            }
        }),
{
    let ghost records = read_records(entries@);
    let mut paths: Vec<Vec<String>> = Vec::new();
    let mut i: usize = 0;
    while i < entries.len()
        invariant
            i <= entries@.len(),
            paths@.len() == i,
            records == read_records(entries@),
            names_hold(records, style, i as int),
            forall|j: int|
                0 <= j < i ==> name_parts(records[j].name, style) == Ok::<Seq<Seq<char>>, CoZipError>(
                    texts_of((#[trigger] paths@[j])@),
                ),
        decreases entries@.len() - i,
    {
        match entry_path_from_zip_name(entries[i].name.as_str(), style) {
            Ok(path) => {
                paths.push(path);
            },
            Err(error) => {
                proof {
                    assert(name_fails_at(records, style, i as int, error));
                    assert(name_parts(records[i as int].name, style) is Err);
                }
                return Err(error);
            },
        }
        i = i + 1;
    }
    Ok(paths)
}

/// Everything came out of an archive, or it could not.
pub open spec fn archive_extracted<
    D: Fn(&[u8]) -> bool,
    F: Fn(&[u8], Option<&Vec<u8>>) -> Result<InflatedPayload, String>,
>(
    r: Result<(Vec<ExtractedEntry>, CoZipStats), CoZipError>,
    file: Seq<u8>,
    style: PathStyle,
    index_is_readable: D,
    inflate: F,
) -> bool {
    match read_directory(file) {
        Err(error) => r == Err::<(Vec<ExtractedEntry>, CoZipStats), CoZipError>(error),
        Ok(records) => directory_restored(
            r,
            file,
            records,
            style,
            index_is_readable,
            inflate,
        ),
    }
}

/// Takes everything out of an archive that is in memory. The items stand in the
/// order of the archive; their names are read by the rules of a system.
pub fn extract_directory<
    D: Copy + Fn(&[u8]) -> bool,
    F: Copy + Fn(&[u8], Option<&Vec<u8>>) -> Result<InflatedPayload, String>,
>(file: &[u8], style: PathStyle, index_is_readable: D, inflate: F) -> (r: Result<
    (Vec<ExtractedEntry>, CoZipStats),
    CoZipError,
>)
    requires
        forall|blob: &[u8]| call_requires(index_is_readable, (blob,)),
        forall|payload: &[u8], index: Option<&Vec<u8>>|
            call_requires(inflate, (payload, index)),
    ensures
        archive_extracted(r, file@, style, index_is_readable, inflate),
{
    let (entries, file_len) = match read_central_directory_entries(file) {
        Ok(found) => found,
        Err(error) => {
            return Err(error);
        },
    };
    let ghost records = read_records(entries@);
    let paths = match plan_paths(entries.as_slice(), style) {
        Ok(paths) => paths,
        Err(error) => {
            return Err(error);
        },
    };
    let mut items: Vec<ExtractedEntry> = Vec::new();
    let mut files: usize = 0;
    let mut written: u64 = 0;
    let mut i: usize = 0;
    assert(records.take(0) =~= Seq::<ReadRecord>::empty());
    assert(items@.take(0) =~= items@);
    while i < entries.len()
        invariant
            i <= entries@.len(),
            entries@.len() == entries.len(),
            items@.len() == i,
            records == read_records(entries@),
            paths@.len() == records.len(),
            names_hold(records, style, records.len() as int),
            read_directory(file@) == Ok::<Seq<ReadRecord>, CoZipError>(records),
            forall|j: int|
                0 <= j < paths@.len() ==> name_parts(records[j].name, style) == Ok::<
                    Seq<Seq<char>>,
                    CoZipError,
                >(texts_of((#[trigger] paths@[j])@)),
            forall|blob: &[u8]| call_requires(index_is_readable, (blob,)),
            forall|payload: &[u8], index: Option<&Vec<u8>>|
                call_requires(inflate, (payload, index)),
            forall|j: int|
                0 <= j < i ==> entry_restored(
                    #[trigger] items@[j],
                    file@,
                    records[j],
                    style,
                    index_is_readable,
                    inflate,
                ),
            files <= i,
            files == file_count(records.take(i as int)),
            written == restored_bytes(items@),
        decreases entries@.len() - i,
    {
        let ghost before = items@;
        assert(records.take(i + 1).drop_last() =~= records.take(i as int));
        let path = copy_path(&paths[i]);
        assert(texts_of(path@) == texts_of(paths@[i as int]@));
        if is_directory_name(entries[i].name.as_str()) {
            items.push(ExtractedEntry { path, data: None });
        } else {
            let contents = extract_entry(file, &entries[i], index_is_readable, inflate);
            match contents {
                Ok(data) => {
                    files = files + 1;
                    written = written.saturating_add(data.len() as u64);
                    items.push(ExtractedEntry { path, data: Some(data) });
                },
                Err(error) => {
                    assert(file_fails_at(
                        file@,
                        records,
                        i as int,
                        error,
                        index_is_readable,
                        inflate,
                    ));
                    return Err(error);
                },
            }
        }
        assert(items@.drop_last() =~= before);
        i = i + 1;
    }
    assert(records.take(i as int) =~= records);
    let stats = CoZipStats { entries: files, input_bytes: file_len, output_bytes: written };
    Ok((items, stats))
}

/// Copies a path.
fn copy_path(path: &Vec<String>) -> (copy: Vec<String>)
    ensures
        texts_of(copy@) == texts_of(path@),
{
    let mut copy: Vec<String> = Vec::new();
    let mut i: usize = 0;
    while i < path.len()
        invariant
            i <= path@.len(),
            copy@.len() == i,
            forall|j: int| 0 <= j < i ==> (#[trigger] copy@[j])@ == path@[j]@,
        decreases path@.len() - i,
    {
        copy.push(path[i].clone());
        i = i + 1;
    }
    assert(texts_of(copy@) =~= texts_of(path@));
    copy
}

/// What was compressed from a directory comes out of the archive again: a file
/// stands there under its name, its compressed bytes are found, and a decoder that
/// gives back what the compressor was given is believed, with the index or
/// without. Left out are files of 4294967295 compressed bytes: the directory's
/// number then asks for a ZIP64 field in the local header, which has none.
pub proof fn law_directory_roundtrip_through_archive(
    prepared: Seq<PreparedPayload>,
    i: int,
    inflated: InflatedPayload,
    indexed: bool,
)
    requires
        can_assemble(prepared),
        prepared.len() <= usize::MAX,
        44 + zip64_extension(archive_records(prepared_inputs(prepared))).len() <= usize::MAX,
        0 <= i < prepared.len(),
        prepared[i].payload@.len() != u32::MAX,
        prepared[i].payload@.len() <= usize::MAX,
        prepared[i].entry.crc == crc32(inflated.data@),
        prepared[i].entry.uncompressed_size == inflated.data@.len(),
        inflated.crc32 == crc32(inflated.data@),
        inflated.leftover == 0,
    ensures
        ({
            let file = archive(prepared_inputs(prepared));
            &&& read_directory(file) matches Ok(records)
            &&& records.len() == prepared.len()
            &&& records[i].name == prepared[i].entry.name@
            &&& compressed_payload(
                file,
                records[i].local_header_offset,
                records[i].compressed_size,
            ) == Ok::<Seq<u8>, CoZipError>(prepared[i].payload@)
            &&& entry_contents(records[i], indexed, prepared[i].payload@, Ok(inflated)) == Ok::<
                Seq<u8>,
                CoZipError,
            >(inflated.data@)
        }),
{
    law_directory_archive_reads_back(prepared, i);
    let file = archive(prepared_inputs(prepared));
    lemma_faithful_contents(
        read_directory(file)->Ok_0[i],
        indexed,
        prepared[i].payload@,
        inflated,
    );
}

/// Every entry from the first up to `n` was decoded and found right.
pub open spec fn verified_up_to<
    F: Fn(&[u8], &Option<Vec<u8>>) -> Result<InflatedPayload, String>,
>(file: Seq<u8>, records: Seq<ReadRecord>, n: int, inflate: F) -> bool {
    forall|i: int| 0 <= i < n ==> entry_is_right(file, #[trigger] records[i], inflate)
}

/// The entry was decoded and found right.
pub open spec fn entry_is_right<
    F: Fn(&[u8], &Option<Vec<u8>>) -> Result<InflatedPayload, String>,
>(file: Seq<u8>, record: ReadRecord, inflate: F) -> bool {
    exists|data: Vec<u8>| #[trigger] entry_written(Ok(data), file, record, inflate)
}

/// Entry `i` is the first that could not be decoded or was found wrong.
pub open spec fn entry_wrong_at<
    F: Fn(&[u8], &Option<Vec<u8>>) -> Result<InflatedPayload, String>,
>(file: Seq<u8>, records: Seq<ReadRecord>, i: int, error: CoZipError, inflate: F) -> bool {
    &&& 0 <= i < records.len()
    &&& verified_up_to(file, records, i, inflate)
    &&& entry_written(Err(error), file, records[i], inflate)
}

/// The entries from the first to the last were found right, or the first that is
/// wrong was named.
pub open spec fn records_verified<
    F: Fn(&[u8], &Option<Vec<u8>>) -> Result<InflatedPayload, String>,
>(r: Result<(), CoZipError>, file: Seq<u8>, records: Seq<ReadRecord>, inflate: F) -> bool {
    match r {
        Ok(_) => verified_up_to(file, records, records.len() as int, inflate),
        Err(error) => exists|i: int| #[trigger] entry_wrong_at(file, records, i, error, inflate),
    }
}

/// All entries of an archive were found right, or the first that is wrong was
/// named.
pub open spec fn archive_verified<
    F: Fn(&[u8], &Option<Vec<u8>>) -> Result<InflatedPayload, String>,
>(r: Result<(), CoZipError>, file: Seq<u8>, inflate: F) -> bool {
    match read_directory(file) {
        Err(error) => r == Err::<(), CoZipError>(error),
        Ok(records) => records_verified(r, file, records, inflate),
    }
}

/// Decodes an entry, and checks it.
fn verify_entry<F: Copy + Fn(&[u8], &Option<Vec<u8>>) -> Result<InflatedPayload, String>>(
    file: &[u8],
    entry: &ZipCentralReadEntry,
    inflate: F,
) -> (r: Result<(), CoZipError>)
    requires
        forall|payload: &[u8], index: &Option<Vec<u8>>|
            call_requires(inflate, (payload, index)),
    ensures
        match r {
            Ok(_) => entry_is_right(file@, entry@, inflate),
            Err(error) => entry_written(Err(error), file@, entry@, inflate),
        },
{
    match extract_entry_to_writer(file, entry, inflate) {
        Ok(_) => Ok(()),
        Err(error) => Err(error),
    }
}

/// Decodes and checks entries in their order, up to the first that is wrong.
fn verify_entries<F: Copy + Fn(&[u8], &Option<Vec<u8>>) -> Result<InflatedPayload, String>>(
    file: &[u8],
    entries: &[ZipCentralReadEntry],
    inflate: F,
) -> (r: Result<(), CoZipError>)
    requires
        forall|payload: &[u8], index: &Option<Vec<u8>>|
            call_requires(inflate, (payload, index)),
    ensures
        records_verified(r, file@, read_records(entries@), inflate),
{
    let ghost records = read_records(entries@);
    let mut i: usize = 0;
    while i < entries.len()
        invariant
            i <= entries@.len(),
            records == read_records(entries@),
            verified_up_to(file@, records, i as int, inflate),
            forall|payload: &[u8], index: &Option<Vec<u8>>|
                call_requires(inflate, (payload, index)),
        decreases entries@.len() - i,
    {
        match verify_entry(file, &entries[i], inflate) {
            Ok(_) => {},
            Err(error) => {
                assert(entry_wrong_at(file@, records, i as int, error, inflate));
                return Err(error);
            },
        }
        i = i + 1;
    }
    Ok(())
}

/// Decodes every entry of an archive that is in memory, and checks it against the
/// directory. What comes out is dropped.
pub fn verify_written_zip_archive<
    F: Copy + Fn(&[u8], &Option<Vec<u8>>) -> Result<InflatedPayload, String>,
>(file: &[u8], inflate: F) -> (r: Result<(), CoZipError>)
    requires
        forall|payload: &[u8], index: &Option<Vec<u8>>|
            call_requires(inflate, (payload, index)),
    ensures
        archive_verified(r, file@, inflate),
{
    let (entries, _) = match read_central_directory_entries(file) {
        Ok(found) => found,
        Err(error) => {
            return Err(error);
        },
    };
    verify_entries(file, entries.as_slice(), inflate)
}

/// The directory of an archive that was put together, with the files in their
/// order.
proof fn lemma_directory_reads_back(prepared: Seq<PreparedPayload>) -> (records: Seq<ReadRecord>)
    requires
        can_assemble(prepared),
        prepared.len() <= usize::MAX,
        archive(prepared_inputs(prepared)).len() <= usize::MAX,
        forall|i: int|
            0 <= i < prepared.len() ==> (#[trigger] prepared[i]).payload@.len() != u32::MAX,
    ensures
        read_directory(archive(prepared_inputs(prepared))) == Ok::<Seq<ReadRecord>, CoZipError>(
            records,
        ),
        records.len() == prepared.len(),
        forall|i: int| 0 <= i < records.len() ==> stands_for(
            archive(prepared_inputs(prepared)),
            #[trigger] records[i],
            prepared[i],
        ),
{
    let inputs = prepared_inputs(prepared);
    let file = archive(inputs);
    let records = read_directory(file)->Ok_0;
    if prepared.len() == 0 {
        lemma_tail_len(archive_records(inputs), 0);
        law_archive_roundtrip(inputs);
    } else {
        lemma_archive_holds(inputs, 0);
        law_directory_archive_reads_back(prepared, 0);
    }
    assert forall|i: int| 0 <= i < records.len() implies stands_for(
        file,
        #[trigger] records[i],
        prepared[i],
    ) by {
        lemma_archive_holds(inputs, i);
        assert(prepared[i].payload@.len() != u32::MAX);
        law_directory_archive_reads_back(prepared, i);
        lemma_streamed_whole(file, records[i].local_header_offset, records[i].compressed_size);
    }
    records
}

/// The record tells of the prepared entry, and leads to its compressed bytes.
spec fn stands_for(file: Seq<u8>, record: ReadRecord, prepared: PreparedPayload) -> bool {
    &&& record.name == prepared.entry.name@
    &&& record.method == DEFLATE_METHOD
    &&& record.gp_flags == GP_FLAGS_WRITTEN
    &&& record.crc == prepared.entry.crc
    &&& record.uncompressed_size == prepared.entry.uncompressed_size
    &&& record.blob == opt_bytes(prepared.entry.czdi_blob)
    &&& record.compressed_size == prepared.payload@.len()
    &&& compressed_payload(file, record.local_header_offset, record.compressed_size) == Ok::<
        Seq<u8>,
        CoZipError,
    >(prepared.payload@)
    &&& streamed_payload(file, record.local_header_offset, record.compressed_size) == Ok::<
        Seq<u8>,
        CoZipError,
    >(prepared.payload@)
}

/// The entry was prepared from the data: it tells its checksum and size. Left out
/// are 4294967295 compressed bytes: the directory's number then asks for a ZIP64
/// field in the local header, which has none.
pub open spec fn prepared_from(prepared: PreparedPayload, data: Seq<u8>) -> bool {
    &&& prepared.entry.crc == crc32(data)
    &&& prepared.entry.uncompressed_size == data.len()
    &&& prepared.payload@.len() != u32::MAX
}

/// The decoder makes of the compressed bytes of an entry the data.
pub open spec fn inflater_gives_back<
    F: Fn(&[u8], &Option<Vec<u8>>) -> Result<InflatedPayload, String>,
>(inflate: F, payload: Seq<u8>, data: Seq<u8>) -> bool {
    forall|blob: Option<Seq<u8>>, inflated: Result<InflatedPayload, String>| #[trigger]
        inflated_as(inflate, payload, blob, inflated) ==> {
            &&& inflated matches Ok(out)
            &&& out.data@ == data
            &&& out.crc32 == crc32(data)
            &&& out.leftover == 0
        }
}

/// An archive that was put together is found right when it is verified: where the
/// entries were prepared from the data and the decoder gives the data back, every
/// entry has the sizes and the checksum that the directory tells.
pub proof fn law_written_archive_verifies<
    F: Fn(&[u8], &Option<Vec<u8>>) -> Result<InflatedPayload, String>,
>(
    prepared: Seq<PreparedPayload>,
    data: Seq<Seq<u8>>,
    inflate: F,
    r: Result<(), CoZipError>,
)
    requires
        can_assemble(prepared),
        prepared.len() <= usize::MAX,
        archive(prepared_inputs(prepared)).len() <= usize::MAX,
        data.len() == prepared.len(),
        forall|i: int|
            0 <= i < prepared.len() ==> prepared_from(#[trigger] prepared[i], data[i])
                && inflater_gives_back(inflate, prepared[i].payload@, data[i]),
        archive_verified(r, archive(prepared_inputs(prepared)), inflate),
    ensures
        r is Ok,
{
    let file = archive(prepared_inputs(prepared));
    let records = lemma_directory_reads_back(prepared);
    if let Err(error) = r {
        let i = choose|i: int| #[trigger] entry_wrong_at(file, records, i, error, inflate);
        assert(stands_for(file, records[i], prepared[i]));
        assert(prepared_from(prepared[i], data[i]));
        let wrong = Err::<Vec<u8>, CoZipError>(error);
        let inflated = choose|inflated: Result<InflatedPayload, String>|
            {
                &&& #[trigger] inflated_as(
                    inflate,
                    prepared[i].payload@,
                    records[i].blob,
                    inflated,
                )
                &&& gives(wrong, inflated_data(records[i], inflated))
            };
        assert(inflated_as(inflate, prepared[i].payload@, records[i].blob, inflated));
        assert(inflated_data(records[i], inflated) is Ok);
    }
}

/// A prepared entry comes out of the archive with its data.
proof fn lemma_entry_comes_back<
    D: Fn(&[u8]) -> bool,
    F: Fn(&[u8], Option<&Vec<u8>>) -> Result<InflatedPayload, String>,
>(
    file: Seq<u8>,
    record: ReadRecord,
    prepared: PreparedPayload,
    data: Seq<u8>,
    index_is_readable: D,
    inflate: F,
    contents: Result<Vec<u8>, CoZipError>,
)
    requires
        stands_for(file, record, prepared),
        prepared_from(prepared, data),
        decoder_gives_back(inflate, prepared.payload@, data),
        entry_extracted(contents, file, record, index_is_readable, inflate),
    ensures
        contents matches Ok(out) && out@ == data,
{
    let payload = prepared.payload@;
    let indexed = choose|indexed: bool|
        {
            &&& #[trigger] index_judged(index_is_readable, record.blob, indexed)
            &&& entry_decoded(contents, record, indexed, payload, inflate)
        };
    assert(entry_decoded(contents, record, indexed, payload, inflate));
    let inflated = choose|inflated: Result<InflatedPayload, String>|
        {
            &&& #[trigger] decoded_as(inflate, payload, index_used(indexed, record.blob), inflated)
            &&& gives(contents, entry_contents(record, indexed, payload, inflated))
        };
    assert(decoded_as(inflate, payload, index_used(indexed, record.blob), inflated));
    lemma_faithful_contents(record, indexed, payload, inflated->Ok_0);
}

/// The counts of what came out.
proof fn lemma_restored_counts(
    records: Seq<ReadRecord>,
    items: Seq<ExtractedEntry>,
    prepared: Seq<PreparedPayload>,
    n: int,
)
    requires
        0 <= n <= items.len(),
        items.len() == prepared.len(),
        items.len() == records.len(),
        uncompressed_total(prepared) <= u64::MAX,
        forall|i: int| 0 <= i < records.len() ==> !is_dir_name((#[trigger] records[i]).name),
        forall|i: int|
            0 <= i < items.len() ==> ((#[trigger] items[i]).data matches Some(data) && data@.len()
                == prepared[i].entry.uncompressed_size),
    ensures
        file_count(records.take(n)) == n,
        restored_bytes(items.take(n)) == uncompressed_total(prepared.take(n)),
    decreases n,
{
    if n > 0 {
        lemma_restored_counts(records, items, prepared, n - 1);
        assert(records.take(n).drop_last() =~= records.take(n - 1));
        assert(items.take(n).drop_last() =~= items.take(n - 1));
        assert(prepared.take(n).drop_last() =~= prepared.take(n - 1));
        assert(items.take(n).last() == items[n - 1]);
        lemma_uncompressed_grows(prepared, n);
    }
}

/// A directory that was compressed comes out of its archive again: where its files
/// were put together into an archive and the codec gives back what it is given,
/// extracting gives every file below its name with its data, none lost and none
/// added, and counts the files and their bytes.
pub proof fn law_compressed_directory_comes_back<
    D: Fn(&[u8]) -> bool,
    F: Fn(&[u8], Option<&Vec<u8>>) -> Result<InflatedPayload, String>,
>(
    ordered: Seq<FileResult>,
    zip: (Vec<u8>, CoZipStats),
    data: Seq<Seq<u8>>,
    style: PathStyle,
    index_is_readable: D,
    inflate: F,
    r: Result<(Vec<ExtractedEntry>, CoZipStats), CoZipError>,
)
    requires
        directory_assembled(Ok(zip), ordered),
        archive_extracted(r, zip.0@, style, index_is_readable, inflate),
        ordered.len() <= usize::MAX,
        zip.0@.len() <= usize::MAX,
        data.len() == ordered.len(),
        forall|i: int|
            0 <= i < ordered.len() ==> {
                let prepared = (#[trigger] ordered[i])->Ok_0;
                &&& prepared_from(prepared, data[i])
                &&& decoder_gives_back(inflate, prepared.payload@, data[i])
                &&& name_parts(prepared.entry.name@, style) is Ok
                &&& !is_dir_name(prepared.entry.name@)
            },
    ensures
        ({
            &&& r matches Ok((items, stats))
            &&& items@.len() == ordered.len()
            &&& forall|i: int|
                0 <= i < ordered.len() ==> file_comes_back(
                    #[trigger] items@[i],
                    ordered[i]->Ok_0,
                    data[i],
                    style,
                )
            &&& stats == (CoZipStats {
                entries: ordered.len() as usize,
                input_bytes: zip.0@.len() as u64,
                output_bytes: uncompressed_total(
                    entries_up_to(ordered, ordered.len() as int),
                ) as u64,
            })
        }),
{
    let n = ordered.len() as int;
    let prepared = entries_up_to(ordered, n);
    let file = zip.0@;
    assert forall|i: int| 0 <= i < n implies prepared_from(#[trigger] prepared[i], data[i]) by {
        assert(prepared[i] == ordered[i]->Ok_0);
    }
    let records = lemma_directory_reads_back(prepared);
    assert forall|i: int| 0 <= i < n implies name_parts((#[trigger] records[i]).name, style) is Ok
        && !is_dir_name(records[i].name) by {
        assert(prepared[i] == ordered[i]->Ok_0);
        assert(stands_for(file, records[i], prepared[i]));
    }
    assert(names_hold(records, style, n));
    match r {
        Err(error) => {
            let i = choose|i: int| #[trigger]
                file_fails_at(file, records, i, error, index_is_readable, inflate);
            assert(stands_for(file, records[i], prepared[i]));
            assert(prepared[i] == ordered[i]->Ok_0);
            lemma_entry_comes_back(
                file,
                records[i],
                prepared[i],
                data[i],
                index_is_readable,
                inflate,
                Err(error),
            );
        },
        Ok((items, stats)) => {
            assert forall|i: int| 0 <= i < n implies file_comes_back(
                #[trigger] items@[i],
                ordered[i]->Ok_0,
                data[i],
                style,
            ) by {
                assert(entry_restored(
                    items@[i],
                    file,
                    records[i],
                    style,
                    index_is_readable,
                    inflate,
                ));
                assert(stands_for(file, records[i], prepared[i]));
                assert(prepared[i] == ordered[i]->Ok_0);
                if let Some(out) = items@[i].data {
                    lemma_entry_comes_back(
                        file,
                        records[i],
                        prepared[i],
                        data[i],
                        index_is_readable,
                        inflate,
                        Ok(out),
                    );
                }
            }
            assert forall|i: int| 0 <= i < n implies ((#[trigger] items@[i]).data matches Some(
                out,
            ) && out@.len() == prepared[i].entry.uncompressed_size) by {
                assert(file_comes_back(items@[i], ordered[i]->Ok_0, data[i], style));
                assert(prepared_from(prepared[i], data[i]));
            }
            lemma_restored_counts(records, items@, prepared, n);
            assert(records.take(n) =~= records);
            assert(items@.take(n) =~= items@);
            assert(prepared.take(n) =~= prepared);
        },
    }
}

/// The file that was prepared came out: below its name, with its data.
pub open spec fn file_comes_back(
    item: ExtractedEntry,
    prepared: PreparedPayload,
    data: Seq<u8>,
    style: PathStyle,
) -> bool {
    &&& name_parts(prepared.entry.name@, style) == Ok::<Seq<Seq<char>>, CoZipError>(
        texts_of(item.path@),
    )
    &&& item.data matches Some(out)
    &&& out@ == data
}

} // verus!
