//! What comes out of a ZIP archive, stated on the bytes of the archive: the contents of
//! its files are what stands in it, and what its directory promises of them.

use vstd::prelude::*;
use vstd::utf8::{decode_utf8, encode_utf8, valid_utf8};

use crate::czdi::opt_bytes;
use crate::error::CoZipError;
use crate::formats::file_count;
use crate::le::number_at;
use crate::paths::{
    entry_path_from_zip_name, name_parts, normalize_zip_entry_name, texts_of, PathStyle,
};
use crate::trusted::crc32;
use crate::types::CoZipStats;
use crate::zip_dir::{
    entry_is_right, extract_directory, file_fails_at, names_hold, restored_bytes,
    verify_written_zip_archive, ExtractedEntry,
};
use crate::zip_entry::{
    compressed_payload, entry_written, gives, inflated_as, inflated_data, streamed_payload,
    InflatedPayload,
};
use crate::zip_file::{
    bytes_decoded, complete_decoded_entry, compress_named_file, decoded_as, decompress_single_file, entry_contents,
    entry_decoded, entry_extracted, entry_streamed, extract_entry, file_archived, file_extracted, index_judged,
    index_used, payload_extracted, DeflatedFile,
};
use crate::zip_layout::{
    file_given, is_archive_of, is_single_archive, lemma_file_is_archive_of, lemma_single_archive,
    signed,
};
use crate::zip_plain::{
    data_place, is_plain_archive, lemma_local_header_read, lemma_plain_directory,
    plain_record_stands, reads_record,
};
use crate::zip_read::{read_directory, ReadRecord, ZipCentralReadEntry};
use crate::zip_single::{compressed_archive, zip_compress_single, DeflatedPayload};

verus! {

/// The decoder made these contents, of this checksum, of all of these compressed bytes.
pub open spec fn decoder_made<
    F: Fn(&[u8], Option<&Vec<u8>>) -> Result<InflatedPayload, String>,
>(inflate: F, payload: Seq<u8>, crc: u32, data: Seq<u8>) -> bool {
    exists|slice: &[u8], index: Option<&Vec<u8>>, out: InflatedPayload|
        {
            &&& #[trigger] call_ensures(
                inflate,
                (slice, index),
                Ok::<InflatedPayload, String>(out),
            )
            &&& slice@ == payload
            &&& out.data@ == data
            &&& out.crc32 == crc
            &&& out.leftover == 0
        }
}

proof fn lemma_payload_extracted<
    D: Fn(&[u8]) -> bool,
    F: Fn(&[u8], Option<&Vec<u8>>) -> Result<InflatedPayload, String>,
>(
    data: Vec<u8>,
    payload: Seq<u8>,
    limit: Option<u64>,
    record: ReadRecord,
    index_is_readable: D,
    inflate: F,
)
    requires
        payload_extracted(
            Ok(data),
            Ok(payload),
            limit,
            record,
            index_is_readable,
            inflate,
        ),
        payload.len() <= u64::MAX,
        limit matches Some(limit) ==> limit >= payload.len(),
    ensures
        data@.len() == record.uncompressed_size,
        record.blob is None ==> record.method == 0 || record.method == 8,
        record.blob is None ==> record.gp_flags % 2 == 0,
        record.blob is None && record.method == 0 ==> data@ == payload && crc32(data@)
            == record.crc,
        record.method == 8 ==> decoder_made(inflate, payload, record.crc, data@),
{
    let indexed = choose|indexed: bool|
        {
            &&& #[trigger] index_judged(index_is_readable, record.blob, indexed)
            &&& entry_decoded(
                Ok(data),
                record,
                indexed,
                bytes_decoded(payload, limit, indexed),
                inflate,
            )
        };
    let r: Result<Vec<u8>, CoZipError> = Ok(data);
    assert(bytes_decoded(payload, limit, indexed) == payload);
    assert(data.len() == data@.len());
    if indexed || record.method == 8 {
        let inflated = choose|inflated: Result<InflatedPayload, String>|
            {
                &&& #[trigger] decoded_as(
                    inflate,
                    payload,
                    index_used(indexed, record.blob),
                    inflated,
                )
                &&& gives(r, entry_contents(record, indexed, payload, inflated))
            };
        let (slice, blob) = choose|slice: &[u8], blob: Option<&Vec<u8>>|
            {
                &&& slice@ == payload
                &&& match blob {
                    Some(blob) => index_used(indexed, record.blob) == Some(blob@),
                    None => index_used(indexed, record.blob) is None,
                }
                &&& #[trigger] call_ensures(inflate, (slice, blob), inflated)
            };
        let out = inflated->Ok_0;
        assert(inflated == Ok::<InflatedPayload, String>(out));
        assert(call_ensures(inflate, (slice, blob), Ok::<InflatedPayload, String>(out)));
        assert(out.data.len() == out.data@.len());
    } else {
        let inflated: Result<InflatedPayload, String> = Err(arbitrary());
        assert(gives(r, entry_contents(record, indexed, payload, inflated)));
    }
}

/// What the record at `at` of the directory promises of a file holds of its contents:
/// they have the size that it says; where the file is stored, without extra data in its
/// record, they are the bytes behind its local header and have the checksum; where it is
/// deflated, the decoder made them of those bytes, with the checksum.
pub open spec fn promise_kept<
    F: Fn(&[u8], Option<&Vec<u8>>) -> Result<InflatedPayload, String>,
>(data: Seq<u8>, file: Seq<u8>, at: int, inflate: F) -> bool {
    let local = number_at(file, at + 42, 4) as int;
    let from = data_place(file, local);
    let size = number_at(file, at + 20, 4);
    let crc = number_at(file, at + 16, 4);
    &&& data.len() == number_at(file, at + 24, 4)
    &&& signed(file, local, 3, 4)
    &&& from + size <= file.len() ==> {
        &&& number_at(file, at + 10, 2) == 0 && number_at(file, at + 30, 2) == 0 ==> data
            == file.subrange(from, from + size) && crc32(data) == crc
        &&& number_at(file, at + 10, 2) == 8 ==> decoder_made(
            inflate,
            file.subrange(from, from + size),
            crc as u32,
            data,
        )
    }
}

proof fn lemma_promise_kept<
    D: Fn(&[u8]) -> bool,
    F: Fn(&[u8], Option<&Vec<u8>>) -> Result<InflatedPayload, String>,
>(
    data: Vec<u8>,
    file: Seq<u8>,
    record: ReadRecord,
    at: int,
    index_is_readable: D,
    inflate: F,
)
    requires
        entry_extracted(Ok(data), file, record, index_is_readable, inflate) || entry_streamed(
            Ok(data),
            file,
            record,
            index_is_readable,
            inflate,
        ),
        file.len() <= usize::MAX,
        reads_record(record, file, at),
        number_at(file, at + 20, 4) < 0xFFFF_FFFF,
    ensures
        promise_kept(data@, file, at, inflate),
        entry_extracted(Ok(data), file, record, index_is_readable, inflate) ==> data_place(
            file,
            number_at(file, at + 42, 4) as int,
        ) + number_at(file, at + 20, 4) <= file.len() || number_at(file, at + 20, 4) == 0,
{
    let local = record.local_header_offset as int;
    if local + 30 <= file.len() {
        lemma_local_header_read(file, local);
    }
    if entry_extracted(Ok(data), file, record, index_is_readable, inflate) {
        let payload = compressed_payload(
            file,
            record.local_header_offset,
            record.compressed_size,
        )->Ok_0;
        lemma_payload_extracted(
            data,
            payload,
            Some(record.compressed_size),
            record,
            index_is_readable,
            inflate,
        );
    } else {
        let payload = streamed_payload(
            file,
            record.local_header_offset,
            record.compressed_size,
        )->Ok_0;
        lemma_payload_extracted(data, payload, None, record, index_is_readable, inflate);
    }
}

/// What comes out of a directory archive keeps what the directory of the archive
/// promises, entry by entry: an entry whose name ends in a slash is a directory, every
/// other one a file with the contents that are promised, below the path that its name
/// leads to. The totals are the number of files, the length of the archive and that of
/// all contents.
pub proof fn law_extracted_directory_keeps_its_promises<
    D: Copy + Fn(&[u8]) -> bool,
    F: Copy + Fn(&[u8], Option<&Vec<u8>>) -> Result<InflatedPayload, String>,
>(
    file: &[u8],
    style: PathStyle,
    index_is_readable: D,
    inflate: F,
    items: Vec<ExtractedEntry>,
    stats: CoZipStats,
    places: Seq<int>,
    last: int,
    i: int,
    name: &str,
    path: Vec<String>,
)
    requires
        call_ensures(
            extract_directory::<D, F>,
            (file, style, index_is_readable, inflate),
            Ok::<(Vec<ExtractedEntry>, CoZipStats), CoZipError>((items, stats)),
        ),
        is_plain_archive(file@, places, last),
        file@.len() <= usize::MAX,
        0 <= i < places.len() - 1,
        valid_utf8(
            file@.subrange(places[i] + 46, places[i] + 46 + number_at(file@, places[i] + 28, 2)),
        ),
        name@ == decode_utf8(
            file@.subrange(places[i] + 46, places[i] + 46 + number_at(file@, places[i] + 28, 2)),
        ),
        call_ensures(
            entry_path_from_zip_name,
            (name, style),
            Ok::<Vec<String>, CoZipError>(path),
        ),
    ensures
        items@.len() == places.len() - 1,
        texts_of(items@[i].path@) == texts_of(path@),
        items@[i].data is None <==> seq!['/'].is_suffix_of(name@),
        items@[i].data matches Some(data) ==> promise_kept(data@, file@, places[i], inflate),
        stats.entries == contents_of(items@).len(),
        stats.input_bytes == file@.len(),
        stats.output_bytes == if total_len(contents_of(items@)) <= u64::MAX {
            total_len(contents_of(items@)) as int
        } else {
            u64::MAX as int
        },
{
    let bytes = file@;
    lemma_plain_directory(bytes, places, last);
    let records = read_directory(bytes)->Ok_0;
    assert(reads_record(records[i], bytes, places[i]));
    let record = records[i];
    let item = items@[i];
    assert(record.name == name@);
    assert(seq!['/'].is_suffix_of(name@) <==> name@.len() > 0 && name@.last() == '/') by {
        if name@.len() > 0 {
            let end = name@.subrange(name@.len() - 1, name@.len() as int);
            assert(end[0] == name@.last());
            if name@.last() == '/' {
                assert(end =~= seq!['/']);
            }
        }
    }
    if let Some(data) = item.data {
        lemma_promise_kept(data, bytes, record, places[i], index_is_readable, inflate);
    }
    let n = items@.len() as int;
    assert(items@.take(n) =~= items@);
    assert(records.take(n) =~= records);
    assert forall|j: int| 0 <= j < n implies ((#[trigger] items@[j]).data is Some <==> !(
    records[j].name.len() > 0 && records[j].name.last() == '/')) by {}
    lemma_contents_counted(items@, records);
}

/// The contents of the files among the items.
pub open spec fn contents_of(items: Seq<ExtractedEntry>) -> Seq<Seq<u8>>
    decreases items.len(),
{
    if items.len() == 0 {
        Seq::empty()
    } else {
        match items.last().data {
            Some(data) => contents_of(items.drop_last()).push(data@),
            None => contents_of(items.drop_last()),
        }
    }
}

/// The length of all contents.
pub open spec fn total_len(contents: Seq<Seq<u8>>) -> nat {
    contents.flatten().len()
}

proof fn lemma_contents_counted(items: Seq<ExtractedEntry>, records: Seq<ReadRecord>)
    requires
        items.len() == records.len(),
        forall|j: int|
            0 <= j < items.len() ==> ((#[trigger] items[j]).data is Some <==> !(
            records[j].name.len() > 0 && records[j].name.last() == '/')),
    ensures
        file_count(records) == contents_of(items).len(),
        contents_of(items).len() <= items.len(),
        restored_bytes(items) == if total_len(contents_of(items)) <= u64::MAX {
            total_len(contents_of(items)) as int
        } else {
            u64::MAX as int
        },
    decreases items.len(),
{
    if items.len() == 0 {
        assert(contents_of(items) =~= Seq::<Seq<u8>>::empty());
        contents_of(items).lemma_flatten_and_flatten_alt_are_equivalent();
    } else {
        let n = items.len() - 1;
        let front = items.drop_last();
        assert forall|j: int| 0 <= j < front.len() implies ((#[trigger] front[j]).data is Some
            <==> !(records.drop_last()[j].name.len() > 0 && records.drop_last()[j].name.last()
            == '/')) by {
            assert(front[j] == items[j]);
        }
        lemma_contents_counted(front, records.drop_last());
        if let Some(data) = items.last().data {
            assert(items[n].data is Some);
            assert(data.len() == data@.len());
            let all = contents_of(items);
            assert(all.drop_last() =~= contents_of(front));
            all.lemma_flatten_and_flatten_alt_are_equivalent();
            contents_of(front).lemma_flatten_and_flatten_alt_are_equivalent();
        } else {
            assert(items[n].data is None);
        }
    }
}

/// What comes out of an archive of a single file keeps what its directory promises, with
/// the totals of one file, and nothing comes out of an archive of no file or of several.
pub proof fn law_single_file_archive_keeps_its_promise<
    D: Copy + Fn(&[u8]) -> bool,
    F: Copy + Fn(&[u8], Option<&Vec<u8>>) -> Result<InflatedPayload, String>,
>(
    file: &[u8],
    index_is_readable: D,
    inflate: F,
    r: Result<(Vec<u8>, CoZipStats), CoZipError>,
    places: Seq<int>,
    last: int,
)
    requires
        call_ensures(decompress_single_file::<D, F>, (file, index_is_readable, inflate), r),
        is_plain_archive(file@, places, last),
        file@.len() <= usize::MAX,
    ensures
        places.len() != 2 ==> r is Err && r->Err_0 is Unsupported,
        r matches Ok((data, stats)) ==> {
            &&& promise_kept(data@, file@, places[0], inflate)
            &&& stats.entries == 1
            &&& stats.input_bytes == file@.len()
            &&& stats.output_bytes == data@.len()
        },
{
    let bytes = file@;
    lemma_plain_directory(bytes, places, last);
    let records = read_directory(bytes)->Ok_0;
    if let Ok((data, stats)) = r {
        assert(reads_record(records[0], bytes, places[0]));
        let contents = choose|contents: Result<Vec<u8>, CoZipError>|
            {
                &&& #[trigger] entry_streamed(
                    contents,
                    bytes,
                    records[0],
                    index_is_readable,
                    inflate,
                )
                &&& file_extracted(r, contents, bytes.len())
            };
        assert(contents == Ok::<Vec<u8>, CoZipError>(data));
        assert(data.len() == data@.len());
        lemma_promise_kept(data, bytes, records[0], places[0], index_is_readable, inflate);
    }
}

/// The file at `at` of the directory is stored, without extra data in its record, and is
/// sound: its local header and its bytes are there, and have the size and the checksum
/// that the record says.
pub open spec fn is_sound_stored(file: Seq<u8>, at: int) -> bool {
    let local = number_at(file, at + 42, 4) as int;
    let from = data_place(file, local);
    let size = number_at(file, at + 20, 4);
    &&& number_at(file, at + 10, 2) == 0
    &&& number_at(file, at + 30, 2) == 0
    &&& signed(file, local, 3, 4)
    &&& local + 30 <= file.len()
    &&& from + size <= file.len()
    &&& number_at(file, at + 24, 4) == size
    &&& number_at(file, at + 16, 4) == crc32(file.subrange(from, from + size))
}

proof fn lemma_sound_stored<
    D: Fn(&[u8]) -> bool,
    F: Fn(&[u8], Option<&Vec<u8>>) -> Result<InflatedPayload, String>,
>(
    r: Result<Vec<u8>, CoZipError>,
    file: Seq<u8>,
    record: ReadRecord,
    at: int,
    index_is_readable: D,
    inflate: F,
)
    requires
        entry_extracted(r, file, record, index_is_readable, inflate) || entry_streamed(
            r,
            file,
            record,
            index_is_readable,
            inflate,
        ),
        file.len() <= usize::MAX,
        reads_record(record, file, at),
        number_at(file, at + 20, 4) < 0xFFFF_FFFF,
        number_at(file, at + 8, 2) % 2 == 0,
        is_sound_stored(file, at),
    ensures
        r is Ok,
{
    let local = record.local_header_offset as int;
    lemma_local_header_read(file, local);
    let from = data_place(file, local);
    let payload = file.subrange(from, from + record.compressed_size);
    let streamed = !entry_extracted(r, file, record, index_is_readable, inflate);
    let limit = if streamed {
        None
    } else {
        Some(record.compressed_size)
    };
    assert(payload_extracted(r, Ok(payload), limit, record, index_is_readable, inflate));
    let indexed = choose|indexed: bool|
        {
            &&& #[trigger] index_judged(index_is_readable, record.blob, indexed)
            &&& entry_decoded(
                r,
                record,
                indexed,
                bytes_decoded(payload, limit, indexed),
                inflate,
            )
        };
    assert(!indexed);
    assert(bytes_decoded(payload, limit, indexed) == payload);
    let inflated: Result<InflatedPayload, String> = Err(arbitrary());
    assert(gives(r, entry_contents(record, indexed, payload, inflated)));
}

/// A sound stored file comes out of an archive of a single file.
pub proof fn law_sound_single_file_archives_come_out<
    D: Copy + Fn(&[u8]) -> bool,
    F: Copy + Fn(&[u8], Option<&Vec<u8>>) -> Result<InflatedPayload, String>,
>(
    file: &[u8],
    index_is_readable: D,
    inflate: F,
    r: Result<(Vec<u8>, CoZipStats), CoZipError>,
    at: int,
    next: int,
    last: int,
)
    requires
        call_ensures(decompress_single_file::<D, F>, (file, index_is_readable, inflate), r),
        is_plain_archive(file@, seq![at, next], last),
        file@.len() <= usize::MAX,
        is_sound_stored(file@, at),
    ensures
        r is Ok,
{
    let bytes = file@;
    let places = seq![at, next];
    lemma_plain_directory(bytes, places, last);
    let records = read_directory(bytes)->Ok_0;
    assert(reads_record(records[0], bytes, places[0]));
    assert(plain_record_stands(bytes, places[0], places[0int + 1]));
    let contents = choose|contents: Result<Vec<u8>, CoZipError>|
        {
            &&& #[trigger] entry_streamed(
                contents,
                bytes,
                records[0],
                index_is_readable,
                inflate,
            )
            &&& file_extracted(r, contents, bytes.len())
        };
    lemma_sound_stored(contents, bytes, records[0], at, index_is_readable, inflate);
}

/// A directory archive comes out where its names lead below the output directory and
/// its files are stored and sound.
pub proof fn law_sound_directories_come_out<
    D: Copy + Fn(&[u8]) -> bool,
    F: Copy + Fn(&[u8], Option<&Vec<u8>>) -> Result<InflatedPayload, String>,
>(
    file: &[u8],
    style: PathStyle,
    index_is_readable: D,
    inflate: F,
    r: Result<(Vec<ExtractedEntry>, CoZipStats), CoZipError>,
    places: Seq<int>,
    last: int,
    names: Seq<String>,
    paths: Seq<Vec<String>>,
)
    requires
        call_ensures(
            extract_directory::<D, F>,
            (file, style, index_is_readable, inflate),
            r,
        ),
        is_plain_archive(file@, places, last),
        file@.len() <= usize::MAX,
        names.len() == places.len() - 1,
        paths.len() == places.len() - 1,
        forall|i: int|
            #![trigger places[i]]
            0 <= i < places.len() - 1 ==> {
                let name = file@.subrange(
                    places[i] + 46,
                    places[i] + 46 + number_at(file@, places[i] + 28, 2),
                );
                &&& valid_utf8(name)
                &&& names[i]@ == decode_utf8(name)
                &&& path_of(names[i]@, style, paths[i])
                &&& is_sound_stored(file@, places[i])
            },
    ensures
        r is Ok,
{
    let bytes = file@;
    lemma_plain_directory(bytes, places, last);
    let records = read_directory(bytes)->Ok_0;
    assert forall|i: int| 0 <= i < records.len() implies name_parts(
        (#[trigger] records[i]).name,
        style,
    ) is Ok by {
        assert(reads_record(records[i], bytes, places[i]));
        assert(path_of(names[i]@, style, paths[i]));
    }
    assert(names_hold(records, style, records.len() as int));
    if let Err(error) = r {
        let i = choose|i: int| #[trigger]
            file_fails_at(bytes, records, i, error, index_is_readable, inflate);
        assert(reads_record(records[i], bytes, places[i]));
        assert(plain_record_stands(bytes, places[i], places[i + 1]));
        lemma_sound_stored(
            Err(error),
            bytes,
            records[i],
            places[i],
            index_is_readable,
            inflate,
        );
    }
}

/// A name is taken apart into this path.
pub open spec fn path_of(name: Seq<char>, style: PathStyle, path: Vec<String>) -> bool {
    exists|text: &str|
        text@ == name && #[trigger] call_ensures(
            entry_path_from_zip_name,
            (text, style),
            Ok::<Vec<String>, CoZipError>(path),
        )
}

/// An archive that passes is sound: each stored entry has the size and the checksum that
/// its record says, and the decoder made each other one with that size and checksum.
pub proof fn law_verified_archives_are_sound<
    F: Copy + Fn(&[u8], &Option<Vec<u8>>) -> Result<InflatedPayload, String>,
>(
    file: &[u8],
    inflate: F,
    places: Seq<int>,
    last: int,
    i: int,
)
    requires
        call_ensures(
            verify_written_zip_archive::<F>,
            (file, inflate),
            Ok::<(), CoZipError>(()),
        ),
        is_plain_archive(file@, places, last),
        file@.len() <= usize::MAX,
        0 <= i < places.len() - 1,
    ensures
        ({
            let at = places[i];
            let local = number_at(file@, at + 42, 4) as int;
            let from = data_place(file@, local);
            let size = number_at(file@, at + 20, 4);
            let crc = number_at(file@, at + 16, 4);
            &&& signed(file@, local, 3, 4)
            &&& from + size <= file@.len() ==> {
                &&& number_at(file@, at + 10, 2) == 0 ==> size == number_at(file@, at + 24, 4)
                    && crc32(file@.subrange(from, from + size)) == crc
                &&& number_at(file@, at + 10, 2) == 8 ==> exists|
                    slice: &[u8],
                    index: &Option<Vec<u8>>,
                    out: InflatedPayload,
                |
                    {
                        &&& #[trigger] call_ensures(
                            inflate,
                            (slice, index),
                            Ok::<InflatedPayload, String>(out),
                        )
                        &&& slice@ == file@.subrange(from, from + size)
                        &&& out.data@.len() == number_at(file@, at + 24, 4)
                        &&& out.crc32 == crc
                        &&& out.leftover == 0
                    }
            }
        }),
{
    let bytes = file@;
    lemma_plain_directory(bytes, places, last);
    let records = read_directory(bytes)->Ok_0;
    let record = records[i];
    assert(reads_record(record, bytes, places[i]));
    assert(plain_record_stands(bytes, places[i], places[i + 1]));
    assert(entry_is_right(bytes, record, inflate));
    let data = choose|data: Vec<u8>| #[trigger] entry_written(Ok(data), bytes, record, inflate);
    let local = record.local_header_offset as int;
    if local + 30 <= bytes.len() {
        lemma_local_header_read(bytes, local);
    }
    let payload = streamed_payload(
        bytes,
        record.local_header_offset,
        record.compressed_size,
    )->Ok_0;
    let r: Result<Vec<u8>, CoZipError> = Ok(data);
    if record.method == 8 {
        let inflated = choose|inflated: Result<InflatedPayload, String>|
            {
                &&& #[trigger] inflated_as(inflate, payload, record.blob, inflated)
                &&& gives(r, inflated_data(record, inflated))
            };
        let (slice, index) = choose|slice: &[u8], index: &Option<Vec<u8>>|
            {
                &&& slice@ == payload
                &&& opt_bytes(*index) == record.blob
                &&& #[trigger] call_ensures(inflate, (slice, index), inflated)
            };
        let out = inflated->Ok_0;
        assert(inflated == Ok::<InflatedPayload, String>(out));
        assert(call_ensures(inflate, (slice, index), Ok::<InflatedPayload, String>(out)));
        assert(out.data.len() == out.data@.len());
    }
}

/// The archive of a named file is the archive of what the compressor made of it, under
/// the cleaned name.
pub proof fn law_named_file_is_archived_under_its_clean_name<
    F: FnOnce() -> Result<DeflatedFile, CoZipError>,
>(
    entry_name: &str,
    style: PathStyle,
    deflate: F,
    r: Result<(Vec<u8>, CoZipStats), CoZipError>,
    name: Result<String, CoZipError>,
)
    requires
        call_ensures(compress_named_file::<F>, (entry_name, style, deflate), r),
        call_ensures(normalize_zip_entry_name, (entry_name, style), name),
    ensures
        name matches Err(error) ==> r == Err::<(Vec<u8>, CoZipStats), CoZipError>(error),
        r matches Ok((bytes, stats)) ==> name is Ok && encode_utf8(name->Ok_0@).len() <= 65535
            && exists|deflated: DeflatedFile|
            {
                &&& #[trigger] call_ensures(
                    deflate,
                    (),
                    Ok::<DeflatedFile, CoZipError>(deflated),
                )
                &&& stats.entries == 1
                &&& stats.input_bytes == deflated.uncompressed_size
                &&& stats.output_bytes == bytes@.len()
                &&& exists|places: Seq<int>| #[trigger]
                    is_archive_of(bytes@, seq![file_given(name->Ok_0@, deflated)], places)
            },
        (r is Err && name is Ok && encode_utf8(name->Ok_0@).len() <= 65535) ==> r->Err_0
            == CoZipError::DataTooLarge || call_ensures(
            deflate,
            (),
            Err::<DeflatedFile, CoZipError>(r->Err_0),
        ),
{
    if name is Ok && encode_utf8(name->Ok_0@).len() <= 65535 {
        let clean = name->Ok_0@;
        let deflated = choose|deflated: Result<DeflatedFile, CoZipError>|
            {
                &&& #[trigger] call_ensures(deflate, (), deflated)
                &&& match deflated {
                    Ok(deflated) => file_archived(r, clean, deflated),
                    Err(error) => r == Err::<(Vec<u8>, CoZipStats), CoZipError>(error),
                }
            };
        if let Ok((bytes, stats)) = r {
            let made = deflated->Ok_0;
            assert(deflated == Ok::<DeflatedFile, CoZipError>(made));
            lemma_file_is_archive_of(clean, made);
        } else {
            assert(deflated is Ok || deflated == Err::<DeflatedFile, CoZipError>(r->Err_0));
        }
    }
}

/// The archive of one file in memory is the archive of what the compressor made of its
/// bytes, under the cleaned name and with its length; a compressor that fails is heard.
pub proof fn law_single_file_is_archived_under_its_clean_name<
    F: Fn(&[u8]) -> Result<DeflatedPayload, String>,
>(
    file_name: &str,
    data: &[u8],
    style: PathStyle,
    deflate: F,
    r: Result<Vec<u8>, CoZipError>,
    name: Result<String, CoZipError>,
)
    requires
        call_ensures(zip_compress_single::<F>, (file_name, data, style, deflate), r),
        call_ensures(normalize_zip_entry_name, (file_name, style), name),
        data@.len() <= u64::MAX,
        r matches Ok(bytes) ==> bytes@.len() <= u64::MAX,
    ensures
        file_name@.len() == 0 ==> r is Err,
        name is Err ==> r is Err,
        r matches Ok(bytes) ==> exists|deflated: DeflatedPayload|
            {
                &&& #[trigger] call_ensures(
                    deflate,
                    (data,),
                    Ok::<DeflatedPayload, String>(deflated),
                )
                &&& is_single_archive(
                    bytes@,
                    encode_utf8(name->Ok_0@),
                    deflated.input_crc32,
                    deflated.compressed@,
                    data@.len() as u64,
                )
            },
        (r is Err && file_name@.len() > 0 && name is Ok && encode_utf8(name->Ok_0@).len() <= 65535)
            ==> (r->Err_0 matches CoZipError::Deflate(message) && call_ensures(
            deflate,
            (data,),
            Err::<DeflatedPayload, String>(message),
        )),
{
    if file_name@.len() > 0 && name is Ok && encode_utf8(name->Ok_0@).len() <= 65535 {
        let clean = name->Ok_0@;
        let deflated = choose|deflated: Result<DeflatedPayload, String>|
            #![trigger call_ensures(deflate, (data,), deflated)]
            call_ensures(deflate, (data,), deflated) && gives(
                r,
                compressed_archive(clean, data@.len() as u64, deflated),
            );
        assert(call_ensures(deflate, (data,), deflated));
        match deflated {
            Ok(made) => {
                lemma_single_archive(
                    encode_utf8(clean),
                    made.input_crc32,
                    made.compressed@,
                    data@.len() as u64,
                );
            },
            Err(message) => {
                assert(r == Err::<Vec<u8>, CoZipError>(CoZipError::Deflate(message)));
            },
        }
    }
}

/// What the decoder made of an entry is handed on exactly where its bytes have the size
/// and the checksum that the directory says and none of the compressed bytes was left;
/// without an index the entry must also be stored or deflated and not encrypted.
pub proof fn law_decoded_entries_are_checked(
    entry: &ZipCentralReadEntry,
    indexed: bool,
    inflated: Result<InflatedPayload, String>,
    r: Result<Vec<u8>, CoZipError>,
)
    requires
        indexed || entry.method == 8,
        call_ensures(complete_decoded_entry, (entry, indexed, inflated), r),
    ensures
        inflated matches Err(message) ==> r == Err::<Vec<u8>, CoZipError>(
            CoZipError::Deflate(message),
        ),
        inflated matches Ok(out) ==> (r is Ok <==> {
            &&& out.crc32 == entry.crc
            &&& out.data@.len() == entry.uncompressed_size
            &&& out.leftover == 0
            &&& indexed || entry.gp_flags % 2 == 0
        }),
        r matches Ok(data) ==> inflated is Ok && data@ == inflated->Ok_0.data@,
{
    if let Ok(out) = inflated {
        assert(out.data.len() == out.data@.len());
    }
}

/// What comes out of an entry without an index keeps what the directory says of it: as
/// many bytes as it says; of a stored one the very bytes behind its local header, with
/// the checksum; of a deflated one what the decoder made of those bytes, with the
/// checksum.
pub proof fn law_extracted_entries_keep_their_promise<
    D: Copy + Fn(&[u8]) -> bool,
    F: Copy + Fn(&[u8], Option<&Vec<u8>>) -> Result<InflatedPayload, String>,
>(
    file: &[u8],
    entry: &ZipCentralReadEntry,
    index_is_readable: D,
    inflate: F,
    data: Vec<u8>,
)
    requires
        call_ensures(
            extract_entry::<D, F>,
            (file, entry, index_is_readable, inflate),
            Ok::<Vec<u8>, CoZipError>(data),
        ),
        entry.czdi_blob is None,
        entry.compressed_size != 0xFFFF_FFFF,
        0 < entry.compressed_size,
        file@.len() <= usize::MAX,
    ensures
        ({
            let at = entry.local_header_offset as int;
            let from = data_place(file@, at);
            let payload = file@.subrange(from, from + entry.compressed_size);
            &&& signed(file@, at, 3, 4)
            &&& from + entry.compressed_size <= file@.len()
            &&& data@.len() == entry.uncompressed_size
            &&& entry.gp_flags % 2 == 0
            &&& entry.method == 0 || entry.method == 8
            &&& entry.method == 0 ==> data@ == payload && crc32(data@) == entry.crc
            &&& entry.method == 8 ==> decoder_made(inflate, payload, entry.crc, data@)
        }),
{
    let at = entry.local_header_offset as int;
    if at + 30 <= file@.len() {
        lemma_local_header_read(file@, at);
    }
    let payload = compressed_payload(
        file@,
        entry.local_header_offset,
        entry.compressed_size,
    )->Ok_0;
    lemma_payload_extracted(
        data,
        payload,
        Some(entry.compressed_size),
        entry@,
        index_is_readable,
        inflate,
    );
}

} // verus!
