//! Archives of other tools: what is read from a ZIP file, stated on the bytes that the
//! ZIP format gives a meaning to.

use vstd::prelude::*;
use vstd::utf8::{decode_utf8, valid_utf8};

use crate::czdi::{lemma_field_behind, opt_bytes};
use crate::error::{CoZipError, IoFailure};
use crate::extra::{find_field, parse_zip64_extra_field, FieldSpan, Zip64ExtraField};
use crate::le::{
    law_eight_bytes_are_read, law_four_bytes_are_read, law_two_bytes_are_read, le16, le32, le64,
    number_at,
};
use crate::pipeline::verify_prepared_entry;
use crate::trusted::crc32;
use crate::types::ZipEntry;
use crate::zip_entry::{
    check_extracted_entry, check_indexed_entry, complete_inflated_entry, data_start, decode_route, extract_entry_to_writer,
    gives, inflated_as, inflated_data, local_lengths, parse_local_header,
    read_entry_compressed_payload, read_streamed_payload, resolve_data_size, streamed_payload, DecodeReport, DecodeRoute,
    InflatedPayload, LocalLengths, StoredEntryCheck,
};
use crate::zip_layout::signed;
use crate::zip_read::{
    central_header, complete_central_entry, entries_from, entry_at, eocd_offset, find_eocd, last_eocd,
    parse_central_header, read_central_directory_entries,
    read_directory, read_records, search_start, CentralHeader, ReadRecord, ZipCentralReadEntry,
};
use crate::zip_single::{
    inflates_to, locate_single_entry, single_entry, single_payload, unpacks,
    zip_decompress_single, LocatedEntry,
};
use crate::zip_write::ZipPreparedEntry;

verus! {

/// Extra data is a list of fields: each has a tag and a length of two bytes each, and
/// so many bytes behind them. Fewer than four bytes at the end hold no field.
pub open spec fn is_field_list(extra: Seq<u8>) -> bool
    decreases extra.len(),
{
    if extra.len() < 4 {
        true
    } else {
        let size = 4 + number_at(extra, 2, 2);
        size <= extra.len() && is_field_list(extra.skip(size as int))
    }
}

proof fn lemma_field_list(extra: Seq<u8>, pos: int, tag: u16)
    requires
        0 <= pos <= extra.len(),
        is_field_list(extra.skip(pos)),
    ensures
        find_field(extra, pos, tag) !is Truncated,
    decreases extra.len() - pos,
{
    let rest = extra.skip(pos);
    if pos + 4 <= extra.len() {
        law_two_bytes_are_read(extra, pos + 2);
        assert(rest.subrange(2, 4) =~= extra.subrange(pos + 2, pos + 4));
        let size = 4 + number_at(rest, 2, 2);
        assert(rest.skip(size as int) =~= extra.skip(pos + size));
        if le16(extra, pos) != tag {
            lemma_field_list(extra, pos + size, tag);
        }
    }
}

proof fn lemma_signature(file: Seq<u8>, at: int)
    requires
        0 <= at,
        at + 4 <= file.len(),
    ensures
        le32(file, at) == 0x0201_4b50 <==> signed(file, at, 1, 2),
        le32(file, at) == 0x0403_4b50 <==> signed(file, at, 3, 4),
        le32(file, at) == 0x0605_4b50 <==> signed(file, at, 5, 6),
        le32(file, at) == 0x0706_4b50 <==> signed(file, at, 6, 7),
{
}

/// A record of the directory stands from `at` to `next`, whose sizes and place are
/// numbers of four bytes.
pub open spec fn plain_record_stands(file: Seq<u8>, at: int, next: int) -> bool {
    let name = at + 46;
    let extra = name + number_at(file, at + 28, 2);
    let comment = extra + number_at(file, at + 30, 2);
    &&& signed(file, at, 1, 2)
    &&& next == comment + number_at(file, at + 32, 2)
    &&& next <= file.len()
    &&& number_at(file, at + 8, 2) % 2 == 0
    &&& number_at(file, at + 10, 2) == 0 || number_at(file, at + 10, 2) == 8
    &&& number_at(file, at + 20, 4) < 0xFFFF_FFFF
    &&& number_at(file, at + 24, 4) < 0xFFFF_FFFF
    &&& number_at(file, at + 42, 4) < 0xFFFF_FFFF
    &&& valid_utf8(file.subrange(name, extra)) || number_at(file, at + 8, 2) / 0x800 % 2 == 0
    &&& is_field_list(file.subrange(extra, comment))
}

/// What was read of the record at `at` is what stands there.
pub open spec fn reads_record(record: ReadRecord, file: Seq<u8>, at: int) -> bool {
    let name = file.subrange(at + 46, at + 46 + number_at(file, at + 28, 2));
    &&& record.gp_flags == number_at(file, at + 8, 2)
    &&& record.method == number_at(file, at + 10, 2)
    &&& record.crc == number_at(file, at + 16, 4)
    &&& record.compressed_size == number_at(file, at + 20, 4)
    &&& record.uncompressed_size == number_at(file, at + 24, 4)
    &&& record.local_header_offset == number_at(file, at + 42, 4)
    &&& valid_utf8(name) ==> record.name == decode_utf8(name)
    &&& number_at(file, at + 30, 2) == 0 ==> record.blob is None
}

proof fn lemma_record_read(file: Seq<u8>, at: int, next: int, area: Option<Seq<u8>>)
    requires
        plain_record_stands(file, at, next),
    ensures
        entry_at(file, at, area) matches Ok((record, end)) && end == next && reads_record(
            record,
            file,
            at,
        ),
{
    let fixed = file.subrange(at, at + 46);
    let n = number_at(file, at + 28, 2) as int;
    let m = number_at(file, at + 30, 2) as int;
    lemma_signature(fixed, 0);
    assert(fixed[0] == file[at] && fixed[1] == file[at + 1] && fixed[2] == file[at + 2] && fixed[3]
        == file[at + 3]);
    lemma_short_field(file, at, fixed, 8);
    lemma_short_field(file, at, fixed, 10);
    lemma_short_field(file, at, fixed, 28);
    lemma_short_field(file, at, fixed, 30);
    lemma_short_field(file, at, fixed, 32);
    lemma_long_field(file, at, fixed, 16);
    lemma_long_field(file, at, fixed, 20);
    lemma_long_field(file, at, fixed, 24);
    lemma_long_field(file, at, fixed, 42);
    let extra = file.subrange(at + 46 + n, at + 46 + n + m);
    assert(extra.skip(0) =~= extra);
    lemma_field_list(extra, 0, 1);
    assert(central_header(fixed) is Ok);
}

proof fn lemma_short_field(file: Seq<u8>, at: int, part: Seq<u8>, from: int)
    requires
        0 <= at,
        at + part.len() <= file.len(),
        part == file.subrange(at, at + part.len()),
        0 <= from,
        from + 2 <= part.len(),
    ensures
        le16(part, from) == number_at(file, at + from, 2),
{
    law_two_bytes_are_read(file, at + from);
    assert(part[from] == file[at + from] && part[from + 1] == file[at + from + 1]);
}

proof fn lemma_long_field(file: Seq<u8>, at: int, part: Seq<u8>, from: int)
    requires
        0 <= at,
        at + part.len() <= file.len(),
        part == file.subrange(at, at + part.len()),
        0 <= from,
        from + 4 <= part.len(),
    ensures
        le32(part, from) == number_at(file, at + from, 4),
{
    law_four_bytes_are_read(file, at + from);
    assert(part[from] == file[at + from] && part[from + 1] == file[at + from + 1] && part[from + 2]
        == file[at + from + 2] && part[from + 3] == file[at + from + 3]);
}

/// The records from place `i` on are read, behind those that were read before.
proof fn lemma_records_read(
    file: Seq<u8>,
    places: Seq<int>,
    i: int,
    area: Option<Seq<u8>>,
    read: Seq<ReadRecord>,
)
    requires
        0 <= i < places.len(),
        forall|j: int|
            0 <= j < places.len() - 1 ==> plain_record_stands(
                file,
                #[trigger] places[j],
                places[j + 1],
            ),
    ensures
        entries_from(file, places[i], (places.len() - 1 - i) as nat, area, read) matches Ok(all)
            && all.len() == read.len() + places.len() - 1 - i && (forall|j: int|
            0 <= j < read.len() ==> #[trigger] all[j] == read[j]) && (forall|j: int|
            i <= j < places.len() - 1 ==> reads_record(
                all[read.len() + j - i],
                file,
                #[trigger] places[j],
            )),
    decreases places.len() - i,
{
    if i < places.len() - 1 {
        lemma_record_read(file, places[i], places[i + 1], area);
        let (record, next) = entry_at(file, places[i], area)->Ok_0;
        let more = read.push(record);
        lemma_records_read(file, places, i + 1, area, more);
        let all = entries_from(
            file,
            places[i + 1],
            (places.len() - 1 - (i + 1)) as nat,
            area,
            more,
        )->Ok_0;
        assert forall|j: int| 0 <= j < read.len() implies #[trigger] all[j] == read[j] by {
            assert(all[j] == more[j]);
        }
        assert forall|j: int| i <= j < places.len() - 1 implies reads_record(
            all[read.len() + j - i],
            file,
            #[trigger] places[j],
        ) by {
            if j == i {
                assert(all[read.len() as int] == more[read.len() as int]);
            }
        }
    }
}

/// The file is a ZIP archive without ZIP64 records: the records of its directory stand
/// at these places, one behind the other, and the end record, the last one in the file,
/// tells their number, their size and where they start. A comment may follow on it.
pub open spec fn is_plain_archive(file: Seq<u8>, places: Seq<int>, last: int) -> bool {
    let n = places.len() - 1;
    &&& 0 <= n < 0xFFFF
    &&& signed(file, last, 5, 6)
    &&& last + 22 <= file.len() <= last + 22 + 0xFFFF
    &&& forall|p: int| last < p <= file.len() - 22 ==> !#[trigger] signed(file, p, 5, 6)
    &&& !signed(file, last - 20, 6, 7)
    &&& number_at(file, last + 10, 2) == n
    &&& number_at(file, last + 12, 4) == places[n] - places[0]
    &&& number_at(file, last + 16, 4) == places[0]
    &&& places[n] - places[0] < 0xFFFF_FFFF
    &&& places[0] < 0xFFFF_FFFF
    &&& places[n] <= file.len()
    &&& forall|j: int|
        0 <= j < n ==> plain_record_stands(file, #[trigger] places[j], places[j + 1])
}

proof fn lemma_last_end_record(file: Seq<u8>, start: int, last: int, n: int)
    requires
        0 <= start <= last < start + n,
        start + n + 21 <= file.len(),
        signed(file, last, 5, 6),
        forall|p: int| last < p <= file.len() - 22 ==> !#[trigger] signed(file, p, 5, 6),
    ensures
        last_eocd(file.subrange(start, file.len() as int), n) == Some(last - start),
    decreases n,
{
    let tail = file.subrange(start, file.len() as int);
    let p = start + n - 1;
    lemma_signature(tail, n - 1);
    assert(tail[n - 1] == file[p] && tail[n] == file[p + 1] && tail[n + 1] == file[p + 2] && tail[n
        + 2] == file[p + 3]);
    assert(signed(tail, n - 1, 5, 6) == signed(file, p, 5, 6));
    if p > last {
        lemma_last_end_record(file, start, last, n - 1);
    }
}

/// The directory of an archive that another tool made holds what stands there.
#[verifier::spinoff_prover]
#[verifier::rlimit(40)]
pub proof fn lemma_plain_directory(bytes: Seq<u8>, places: Seq<int>, last: int)
    requires
        is_plain_archive(bytes, places, last),
    ensures
        read_directory(bytes) matches Ok(records) && records.len() == places.len() - 1 && (forall|
            i: int,
        |
            0 <= i < records.len() ==> reads_record(#[trigger] records[i], bytes, places[i])),
{
    let start = search_start(bytes.len() as int);
    let tail = bytes.subrange(start, bytes.len() as int);
    let rel = last - start;
    lemma_last_end_record(bytes, start, last, tail.len() - 21);
    assert(eocd_offset(tail) == Some(rel));
    lemma_short_field(bytes, start, tail, rel + 10);
    lemma_long_field(bytes, start, tail, rel + 12);
    lemma_long_field(bytes, start, tail, rel + 16);
    if last >= 20 {
        let locator = bytes.subrange(last - 20, last);
        lemma_signature(locator, 0);
        assert(locator[0] == bytes[last - 20] && locator[1] == bytes[last - 19] && locator[2]
            == bytes[last - 18] && locator[3] == bytes[last - 17]);
    }
    lemma_records_read(bytes, places, 0, None, Seq::empty());
    let all = entries_from(
        bytes,
        places[0],
        (places.len() - 1) as nat,
        None,
        Seq::empty(),
    )->Ok_0;
    assert(read_directory(bytes) == Ok::<Seq<ReadRecord>, CoZipError>(all));
}

/// The directory of an archive that another tool made is read as it stands: every
/// record, in order, with the flags, the method, the checksum, the sizes, the place and
/// the name that its bytes say.
pub proof fn law_plain_archives_are_read(
    file: &[u8],
    places: Seq<int>,
    last: int,
    r: Result<(Vec<ZipCentralReadEntry>, u64), CoZipError>,
)
    requires
        call_ensures(read_central_directory_entries, (file,), r),
        is_plain_archive(file@, places, last),
    ensures
        r matches Ok((entries, len)) && len == file@.len() && entries@.len() == places.len() - 1 && (
        forall|i: int|
            0 <= i < entries@.len() ==> reads_record(
                (#[trigger] entries@[i])@,
                file@,
                places[i],
            )),
{
    lemma_plain_directory(file@, places, last);
    let entries = r->Ok_0.0;
    assert forall|i: int| 0 <= i < entries@.len() implies reads_record(
        (#[trigger] entries@[i])@,
        file@,
        places[i],
    ) by {
        assert(read_records(entries@)[i] == entries@[i]@);
    }
}

/// The place behind the local header at `at`: behind its 30 bytes, the name and the
/// extra data.
pub open spec fn data_place(file: Seq<u8>, at: int) -> int {
    at + 30 + number_at(file, at + 26, 2) + number_at(file, at + 28, 2)
}

pub proof fn lemma_local_header_read(file: Seq<u8>, at: int)
    requires
        0 <= at,
        at + 30 <= file.len(),
    ensures
        signed(file, at, 3, 4) ==> local_lengths(file.subrange(at, at + 30)) == Ok::<
            LocalLengths,
            CoZipError,
        >(
            LocalLengths {
                name_len: number_at(file, at + 26, 2) as u16,
                extra_len: number_at(file, at + 28, 2) as u16,
            },
        ),
        !signed(file, at, 3, 4) ==> local_lengths(file.subrange(at, at + 30)) == Err::<
            LocalLengths,
            CoZipError,
        >(CoZipError::InvalidZip("invalid local file header signature")),
        data_place(file, at) == at + 30 + le16(file.subrange(at, at + 30), 26) + le16(
            file.subrange(at, at + 30),
            28,
        ),
{
    let fixed = file.subrange(at, at + 30);
    lemma_signature(fixed, 0);
    assert(fixed[0] == file[at] && fixed[1] == file[at + 1] && fixed[2] == file[at + 2] && fixed[3]
        == file[at + 3]);
    lemma_short_field(file, at, fixed, 26);
    lemma_short_field(file, at, fixed, 28);
}

/// The compressed bytes of an entry are those that stand behind its local header, as
/// many as the directory says. Where no local header stands at its place, or the file
/// ends before the bytes do, no byte comes out. Left out are sizes that refer to a
/// ZIP64 field.
pub proof fn law_data_stands_behind_the_local_header(
    file: &[u8],
    entry: &ZipCentralReadEntry,
    r: Result<Vec<u8>, CoZipError>,
)
    requires
        call_ensures(read_entry_compressed_payload, (file, entry), r),
        entry.compressed_size != 0xFFFF_FFFF,
        entry.compressed_size <= usize::MAX,
    ensures
        ({
            let at = entry.local_header_offset as int;
            let from = data_place(file@, at);
            let size = entry.compressed_size;
            if signed(file@, at, 3, 4) && at + 30 <= file@.len() && from + size <= file@.len() {
                r matches Ok(payload) && payload@ == file@.subrange(from, from + size)
            } else {
                ||| size == 0 && r is Ok && r->Ok_0@.len() == 0
                ||| r is Err && at + 30 <= file@.len() && !signed(file@, at, 3, 4)
                    && r->Err_0 is InvalidZip
                ||| r is Err && (at + 30 > file@.len() || signed(file@, at, 3, 4)) && r->Err_0
                    == CoZipError::Io(IoFailure::UnexpectedEof)
            }
        }),
{
    let at = entry.local_header_offset as int;
    if at + 30 <= file@.len() {
        lemma_local_header_read(file@, at);
    }
}

/// Where the directory leaves the size of an entry to a ZIP64 field, that field stands
/// in the local header, and its first eight bytes are the size.
pub proof fn law_wide_data_stands_behind_the_local_header(
    file: &[u8],
    entry: &ZipCentralReadEntry,
    r: Result<Vec<u8>, CoZipError>,
)
    requires
        call_ensures(read_entry_compressed_payload, (file, entry), r),
        entry.compressed_size == 0xFFFF_FFFF,
        ({
            let at = entry.local_header_offset as int;
            let extra = at + 30 + number_at(file@, at + 26, 2);
            let size = number_at(file@, extra + 4, 8);
            &&& at + 30 <= file@.len()
            &&& signed(file@, at, 3, 4)
            &&& number_at(file@, extra, 2) == 1
            &&& number_at(file@, extra + 2, 2) >= 8
            &&& number_at(file@, at + 28, 2) >= 4 + number_at(file@, extra + 2, 2)
            &&& data_place(file@, at) + size <= file@.len() <= usize::MAX
        }),
    ensures
        ({
            let at = entry.local_header_offset as int;
            let extra = at + 30 + number_at(file@, at + 26, 2);
            let from = data_place(file@, at);
            let size = number_at(file@, extra + 4, 8);
            r matches Ok(payload) && payload@ == file@.subrange(from, from + size)
        }),
{
    let bytes = file@;
    let at = entry.local_header_offset as int;
    let extra_at = at + 30 + number_at(bytes, at + 26, 2);
    let from = data_place(bytes, at);
    lemma_local_header_read(bytes, at);
    let extra = bytes.subrange(extra_at, from);
    lemma_short_field(bytes, extra_at, extra, 0);
    lemma_short_field(bytes, extra_at, extra, 2);
    let data = extra.subrange(4, 4 + le16(extra, 2));
    law_eight_bytes_are_read(data, 0);
    assert(data.subrange(0, 8) =~= bytes.subrange(extra_at + 4, extra_at + 12));
    assert(find_field(extra, 0, 1) == (FieldSpan::Found { start: 4, end: 4 + le16(extra, 2) }));
}

/// The values of a ZIP64 field stand in the order of the uncompressed size, the
/// compressed size and the place of the local header, eight bytes each, and only those
/// are there that the header leaves open.
pub proof fn law_zip64_values_stand_in_order(
    extra: &[u8],
    uncompressed: bool,
    compressed: bool,
    place: bool,
    r: Result<Option<Zip64ExtraField>, CoZipError>,
)
    requires
        call_ensures(parse_zip64_extra_field, (extra, uncompressed, compressed, place), r),
        extra@.len() >= 4,
        number_at(extra@, 0, 2) == 1,
        4 + number_at(extra@, 2, 2) <= extra@.len(),
    ensures
        ({
            let before_compressed: int = if uncompressed { 1 } else { 0 };
            let before_place: int = before_compressed + if compressed { 1int } else { 0 };
            let all: int = before_place + if place { 1int } else { 0 };
            if number_at(extra@, 2, 2) >= 8 * all {
                &&& r matches Ok(Some(field))
                &&& if uncompressed {
                    field.uncompressed_size matches Some(v) && v == number_at(extra@, 4, 8)
                } else {
                    field.uncompressed_size is None
                }
                &&& if compressed {
                    field.compressed_size matches Some(v) && v == number_at(
                        extra@,
                        4 + 8 * before_compressed,
                        8,
                    )
                } else {
                    field.compressed_size is None
                }
                &&& if place {
                    field.local_header_offset matches Some(v) && v == number_at(
                        extra@,
                        4 + 8 * before_place,
                        8,
                    )
                } else {
                    field.local_header_offset is None
                }
            } else {
                r is Err
            }
        }),
{
    let bytes = extra@;
    law_two_bytes_are_read(bytes, 0);
    law_two_bytes_are_read(bytes, 2);
    let size = le16(bytes, 2) as int;
    let data = bytes.subrange(4, 4 + size);
    assert(find_field(bytes, 0, 1) == (FieldSpan::Found { start: 4, end: 4 + size }));
    if size >= 8 {
        law_eight_bytes_are_read(data, 0);
        assert(data.subrange(0, 8) =~= bytes.subrange(4, 12));
    }
    if size >= 16 {
        law_eight_bytes_are_read(data, 8);
        assert(data.subrange(8, 16) =~= bytes.subrange(12, 20));
    }
    if size >= 24 {
        law_eight_bytes_are_read(data, 16);
        assert(data.subrange(16, 24) =~= bytes.subrange(20, 28));
    }
}

/// An entry is handed on only where it is what the directory promised: it is stored or
/// deflated and not encrypted, its bytes have the checksum and the size, and none of
/// its compressed bytes was left. Where all that holds it is.
pub proof fn law_only_sound_entries_pass(
    entry: &ZipCentralReadEntry,
    report: DecodeReport,
    r: Result<u64, CoZipError>,
)
    requires
        call_ensures(check_extracted_entry, (entry, report), r),
    ensures
        r is Ok <==> {
            &&& entry.method == 0 || entry.method == 8
            &&& entry.gp_flags % 2 == 0
            &&& report.output_crc32 == entry.crc
            &&& report.output_bytes == entry.uncompressed_size
            &&& report.leftover == 0
        },
        r matches Ok(bytes) ==> bytes == entry.uncompressed_size,
        report.output_crc32 != entry.crc && (entry.method == 0 || entry.method == 8) ==> r == Err::<
            u64,
            CoZipError,
        >(CoZipError::InvalidZip("crc32 mismatch")),
        ({
            let known = entry.method == 0 || entry.method == 8;
            let whole = report.leftover == 0;
            let sized = report.output_bytes == entry.uncompressed_size;
            let right = report.output_crc32 == entry.crc;
            &&& known && right && !whole ==> r == Err::<u64, CoZipError>(
                CoZipError::InvalidZip("compressed stream did not consume declared size"),
            )
            &&& known && right && whole && !sized ==> r == Err::<u64, CoZipError>(
                CoZipError::InvalidZip("decompressed size mismatch"),
            )
            &&& known && right && whole && sized && r is Err ==> r == Err::<u64, CoZipError>(
                CoZipError::Unsupported("encrypted zip entries are unsupported"),
            )
        }),
        entry.method != 0 && entry.method != 8 ==> r->Err_0 is Unsupported,
        (entry.method == 0 || entry.method == 8) && r is Err ==> (r->Err_0 is Unsupported
            <==> report.output_crc32 == entry.crc && report.output_bytes == entry.uncompressed_size
            && report.leftover == 0),
        (entry.method == 0 || entry.method == 8) && r is Err ==> r->Err_0 is Unsupported
            || r->Err_0 is InvalidZip,
{
}

/// An entry that was decoded with its index is handed on only where its bytes have the
/// checksum and the size that the directory promised and none of its compressed bytes
/// was left, and where all that holds it is.
pub proof fn law_only_sound_indexed_entries_pass(
    entry: &ZipCentralReadEntry,
    report: DecodeReport,
    r: Result<DecodeReport, CoZipError>,
)
    requires
        call_ensures(check_indexed_entry, (entry, report), r),
    ensures
        r is Ok <==> {
            &&& report.output_crc32 == entry.crc
            &&& report.output_bytes == entry.uncompressed_size
            &&& report.leftover == 0
        },
        r matches Ok(passed) ==> passed == report,
        r is Err ==> r->Err_0 is InvalidZip,
{
}

/// An entry that was prepared for an archive passes only where it decodes to what it
/// was made from: from all its compressed bytes, to bytes of that number and checksum.
pub proof fn law_only_sound_prepared_entries_pass(
    prepared: &ZipPreparedEntry,
    input_bytes: u64,
    report: DecodeReport,
    r: Result<(), CoZipError>,
)
    requires
        call_ensures(verify_prepared_entry, (prepared, input_bytes, report), r),
    ensures
        r is Ok <==> {
            &&& input_bytes == prepared.compressed_size
            &&& report.output_bytes == prepared.uncompressed_size
            &&& report.output_crc32 == prepared.crc
        },
        r is Err ==> r->Err_0 is InvalidZip,
{
}

/// An entry is copied where it is stored and inflated where it is deflated, by its
/// index where that could be read; no other method is decoded.
pub proof fn law_method_settles_the_route(
    entry: &ZipCentralReadEntry,
    indexed: bool,
    r: Result<DecodeRoute, CoZipError>,
)
    requires
        call_ensures(decode_route, (entry, indexed), r),
    ensures
        r == Ok::<DecodeRoute, CoZipError>(DecodeRoute::Stored) <==> entry.method == 0,
        r == Ok::<DecodeRoute, CoZipError>(DecodeRoute::Indexed) <==> entry.method == 8 && indexed,
        r == Ok::<DecodeRoute, CoZipError>(DecodeRoute::Plain) <==> entry.method == 8 && !indexed,
        entry.method != 0 && entry.method != 8 && !indexed ==> r is Err && r->Err_0 is Unsupported,
{
}

/// What comes out of an entry is what the directory promised of it: as many bytes as it
/// says, and of a stored entry bytes with its checksum, which are the very bytes behind
/// its local header.
pub proof fn law_extracted_entry_keeps_its_promise<
    F: Fn(&[u8], &Option<Vec<u8>>) -> Result<InflatedPayload, String>,
>(file: &[u8], entry: &ZipCentralReadEntry, inflate: F, data: Vec<u8>)
    requires
        call_ensures(
            extract_entry_to_writer::<F>,
            (file, entry, inflate),
            Ok::<Vec<u8>, CoZipError>(data),
        ),
        entry.compressed_size != 0xFFFF_FFFF,
    ensures
        data@.len() == entry.uncompressed_size,
        entry.gp_flags % 2 == 0,
        entry.method == 0 || entry.method == 8,
        signed(file@, entry.local_header_offset as int, 3, 4),
        entry.method == 0 ==> {
            let from = data_place(file@, entry.local_header_offset as int);
            &&& crc32(data@) == entry.crc
            &&& from + entry.compressed_size <= file@.len() ==> data@ == file@.subrange(
                from,
                from + entry.compressed_size,
            )
        },
        entry.method == 8 ==> exists|slice: &[u8], index: &Option<Vec<u8>>, out: InflatedPayload|
            {
                &&& #[trigger] call_ensures(
                    inflate,
                    (slice, index),
                    Ok::<InflatedPayload, String>(out),
                )
                &&& out.data@ == data@
                &&& out.crc32 == entry.crc
                &&& out.leftover == 0
                &&& opt_bytes(*index) == opt_bytes(entry.czdi_blob)
                &&& ({
                    let from = data_place(file@, entry.local_header_offset as int);
                    from + entry.compressed_size <= file@.len() ==> slice@ == file@.subrange(
                        from,
                        from + entry.compressed_size,
                    )
                })
            },
{
    let at = entry.local_header_offset as int;
    if at + 30 <= file@.len() {
        lemma_local_header_read(file@, at);
    }
    assert(data.len() == data@.len());
    let record = entry@;
    let payload = streamed_payload(
        file@,
        record.local_header_offset,
        record.compressed_size,
    )->Ok_0;
    if entry.method == 8 {
        let inflated = choose|inflated: Result<InflatedPayload, String>|
            {
                &&& #[trigger] inflated_as(inflate, payload, record.blob, inflated)
                &&& gives(Ok(data), inflated_data(record, inflated))
            };
        let (slice, index) = choose|slice: &[u8], index: &Option<Vec<u8>>|
            {
                &&& slice@ == payload
                &&& opt_bytes(*index) == record.blob
                &&& #[trigger] call_ensures(inflate, (slice, index), inflated)
            };
        assert(call_ensures(inflate, (slice, index), inflated));
        assert(inflated == Ok::<InflatedPayload, String>(inflated->Ok_0));
    }
}

/// The one record of an archive of one file is found as it stands.
proof fn lemma_single_record_read(file: Seq<u8>, at: int, next: int, last: int)
    requires
        is_plain_archive(file, seq![at, next], last),
        file.len() <= usize::MAX,
        valid_utf8(file.subrange(at + 46, at + 46 + number_at(file, at + 28, 2))),
    ensures
        single_entry(file) matches Ok(record) && record.name == decode_utf8(
            file.subrange(at + 46, at + 46 + number_at(file, at + 28, 2)),
        ) && record.method == number_at(file, at + 10, 2) && record.crc == number_at(
            file,
            at + 16,
            4,
        ) && record.compressed_size == number_at(file, at + 20, 4) && record.uncompressed_size
            == number_at(file, at + 24, 4) && record.local_header_offset == number_at(
            file,
            at + 42,
            4,
        ) && record.record_len <= record.directory_len,
{
    let places = seq![at, next];
    assert(plain_record_stands(file, places[0], places[0int + 1]));
    assert(file.subrange(0, file.len() as int) =~= file);
    lemma_last_end_record(file, 0, last, file.len() - 21);
    law_two_bytes_are_read(file, last + 10);
    law_four_bytes_are_read(file, last + 12);
    law_four_bytes_are_read(file, last + 16);
    lemma_signature(file, at);
    law_two_bytes_are_read(file, at + 10);
    law_two_bytes_are_read(file, at + 28);
    law_two_bytes_are_read(file, at + 30);
    law_two_bytes_are_read(file, at + 32);
    law_four_bytes_are_read(file, at + 16);
    law_four_bytes_are_read(file, at + 20);
    law_four_bytes_are_read(file, at + 24);
    law_four_bytes_are_read(file, at + 42);
    let name_end = at + 46 + number_at(file, at + 28, 2);
    let extra = file.subrange(name_end, name_end + number_at(file, at + 30, 2));
    assert(extra.skip(0) =~= extra);
    lemma_field_list(extra, 0, 1);
}

/// The one file of an archive comes out under the name in the directory, with as many
/// bytes and the checksum that it says; a stored one is the very bytes behind its local
/// header.
pub proof fn law_single_file_keeps_its_promise<F: Fn(&[u8]) -> Result<Vec<u8>, String>>(
    zip: &[u8],
    inflate: F,
    at: int,
    next: int,
    last: int,
    entry: ZipEntry,
)
    requires
        call_ensures(
            zip_decompress_single::<F>,
            (zip, inflate),
            Ok::<ZipEntry, CoZipError>(entry),
        ),
        is_plain_archive(zip@, seq![at, next], last),
        zip@.len() <= usize::MAX,
        valid_utf8(zip@.subrange(at + 46, at + 46 + number_at(zip@, at + 28, 2))),
    ensures
        ({
            let local = number_at(zip@, at + 42, 4) as int;
            let from = data_place(zip@, local);
            let size = number_at(zip@, at + 20, 4);
            &&& entry.name@ == decode_utf8(
                zip@.subrange(at + 46, at + 46 + number_at(zip@, at + 28, 2)),
            )
            &&& entry.data@.len() == number_at(zip@, at + 24, 4)
            &&& crc32(entry.data@) == number_at(zip@, at + 16, 4)
            &&& signed(zip@, local, 3, 4)
            &&& from + size <= zip@.len()
            &&& number_at(zip@, at + 10, 2) == 0 ==> entry.data@ == zip@.subrange(from, from + size)
            &&& number_at(zip@, at + 10, 2) == 8 ==> exists|payload: &[u8], data: Vec<u8>|
                {
                    &&& #[trigger] call_ensures(
                        inflate,
                        (payload,),
                        Ok::<Vec<u8>, String>(data),
                    )
                    &&& payload@ == zip@.subrange(from, from + size)
                    &&& data@ == entry.data@
                }
        }),
{
    let file = zip@;
    lemma_single_record_read(file, at, next, last);
    let record = single_entry(file)->Ok_0;
    let local = record.local_header_offset as int;
    lemma_signature(file, local);
    law_two_bytes_are_read(file, local + 26);
    law_two_bytes_are_read(file, local + 28);
    let payload = single_payload(file, record)->Ok_0;
    assert(single_payload(file, record) is Ok);
    if number_at(file, at + 10, 2) == 8 {
        let inflated = choose|inflated: Result<Vec<u8>, String>|
            {
                &&& #[trigger] inflates_to(inflate, payload, inflated)
                &&& match inflated {
                    Ok(data) => unpacks(Ok(entry), record, data@),
                    Err(message) => Ok::<ZipEntry, CoZipError>(entry) == Err::<
                        ZipEntry,
                        CoZipError,
                    >(CoZipError::Deflate(message)),
                }
            };
        let slice = choose|slice: &[u8]|
            slice@ == payload && #[trigger] call_ensures(inflate, (slice,), inflated);
        assert(call_ensures(inflate, (slice,), inflated));
        assert(inflated == Ok::<Vec<u8>, String>(inflated->Ok_0));
    }
}

/// A sound archive of one stored file is unpacked.
pub proof fn law_sound_single_files_come_out<F: Fn(&[u8]) -> Result<Vec<u8>, String>>(
    zip: &[u8],
    inflate: F,
    at: int,
    next: int,
    last: int,
    r: Result<ZipEntry, CoZipError>,
)
    requires
        call_ensures(zip_decompress_single::<F>, (zip, inflate), r),
        is_plain_archive(zip@, seq![at, next], last),
        zip@.len() <= usize::MAX,
        valid_utf8(zip@.subrange(at + 46, at + 46 + number_at(zip@, at + 28, 2))),
        number_at(zip@, at + 10, 2) == 0,
        ({
            let local = number_at(zip@, at + 42, 4) as int;
            let from = data_place(zip@, local);
            let size = number_at(zip@, at + 20, 4);
            &&& signed(zip@, local, 3, 4)
            &&& local + 30 <= zip@.len()
            &&& from + size <= zip@.len()
            &&& number_at(zip@, at + 24, 4) == size
            &&& number_at(zip@, at + 16, 4) == crc32(zip@.subrange(from, from + size))
        }),
    ensures
        ({
            let from = data_place(zip@, number_at(zip@, at + 42, 4) as int);
            let size = number_at(zip@, at + 20, 4);
            r matches Ok(entry) && entry.data@ == zip@.subrange(from, from + size)
        }),
{
    let file = zip@;
    lemma_single_record_read(file, at, next, last);
    let record = single_entry(file)->Ok_0;
    let local = record.local_header_offset as int;
    lemma_signature(file, local);
    law_two_bytes_are_read(file, local + 26);
    law_two_bytes_are_read(file, local + 28);
}

/// Fields of others are passed over: the ZIP64 values are found behind them as if they
/// were not there, and where there is no field at all, there are none.
pub proof fn law_zip64_field_is_found_behind_others(
    extra: &[u8],
    rest: &[u8],
    uncompressed: bool,
    compressed: bool,
    place: bool,
    r: Result<Option<Zip64ExtraField>, CoZipError>,
    of_rest: Result<Option<Zip64ExtraField>, CoZipError>,
)
    requires
        call_ensures(parse_zip64_extra_field, (extra, uncompressed, compressed, place), r),
        call_ensures(parse_zip64_extra_field, (rest, uncompressed, compressed, place), of_rest),
        extra@.len() < 4 || number_at(extra@, 0, 2) != 1 && 4 + number_at(extra@, 2, 2)
            <= extra@.len() && rest@ == extra@.skip(4 + number_at(extra@, 2, 2) as int),
    ensures
        extra@.len() < 4 ==> (r matches Ok(field) && field is None),
        extra@.len() >= 4 ==> r == of_rest,
{
    if extra@.len() >= 4 {
        law_two_bytes_are_read(extra@, 0);
        law_two_bytes_are_read(extra@, 2);
        let by = 4 + number_at(extra@, 2, 2) as int;
        lemma_field_behind(extra@, by, by, 1);
        if let FieldSpan::Found { start, end } = find_field(extra@, by, 1) {
            assert(rest@.subrange(start - by, end - by) =~= extra@.subrange(start, end));
        }
    }
}

/// A field that reaches beyond the end is refused.
pub proof fn law_cut_off_fields_are_refused(
    extra: &[u8],
    uncompressed: bool,
    compressed: bool,
    place: bool,
    r: Result<Option<Zip64ExtraField>, CoZipError>,
)
    requires
        call_ensures(parse_zip64_extra_field, (extra, uncompressed, compressed, place), r),
        extra@.len() >= 4,
        4 + number_at(extra@, 2, 2) > extra@.len(),
    ensures
        r is Err,
{
    law_two_bytes_are_read(extra@, 2);
}

/// An archive of no file or of several is not the archive of a single file.
pub proof fn law_only_archives_of_one_file_are_single<
    F: Fn(&[u8]) -> Result<Vec<u8>, String>,
>(
    zip: &[u8],
    inflate: F,
    places: Seq<int>,
    last: int,
    r: Result<ZipEntry, CoZipError>,
)
    requires
        call_ensures(zip_decompress_single::<F>, (zip, inflate), r),
        is_plain_archive(zip@, places, last),
        places.len() != 2,
    ensures
        r is Err && r->Err_0 is Unsupported,
{
    let file = zip@;
    assert(file.subrange(0, file.len() as int) =~= file);
    lemma_last_end_record(file, 0, last, file.len() - 21);
    law_two_bytes_are_read(file, last + 10);
    law_four_bytes_are_read(file, last + 12);
    law_four_bytes_are_read(file, last + 16);
}

/// A local header is told by its letters, and says how long the name and the extra data
/// behind it are.
pub proof fn law_local_headers_are_told(fixed: &[u8], r: Result<LocalLengths, CoZipError>)
    requires
        call_ensures(parse_local_header, (fixed,), r),
        fixed@.len() == 30,
    ensures
        r is Ok <==> signed(fixed@, 0, 3, 4),
        r matches Ok(lengths) ==> lengths.name_len == number_at(fixed@, 26, 2) && lengths.extra_len
            == number_at(fixed@, 28, 2),
{
    lemma_signature(fixed@, 0);
    law_two_bytes_are_read(fixed@, 26);
    law_two_bytes_are_read(fixed@, 28);
}

/// The data starts 30 bytes behind the start of the local header and behind the name
/// and the extra data.
pub proof fn law_data_starts_behind_the_name(offset: u64, lengths: LocalLengths, r: Option<u64>)
    requires
        call_ensures(data_start, (offset, lengths), r),
    ensures
        r matches Some(at) ==> at - offset == 30 + lengths.name_len + lengths.extra_len,
        r is None ==> offset > u64::MAX - 131100,
{
}

/// The directory says how many bytes an entry has, unless it leaves that to the extra
/// data of the local header; then it is an error where that has no ZIP64 field.
pub proof fn law_directory_says_the_size(size: u64, extra: &[u8], r: Result<u64, CoZipError>)
    requires
        call_ensures(resolve_data_size, (size, extra), r),
    ensures
        size != 0xFFFF_FFFF ==> r == Ok::<u64, CoZipError>(size),
        size == 0xFFFF_FFFF && extra@.len() < 4 ==> r is Err,
        size == 0xFFFF_FFFF && extra@.len() >= 4 && number_at(extra@, 0, 2) == 1 && 4 + number_at(
            extra@,
            2,
            2,
        ) <= extra@.len() ==> if number_at(extra@, 2, 2) >= 8 {
            r matches Ok(wide) && wide == number_at(extra@, 4, 8)
        } else {
            r is Err
        },
{
    if extra@.len() >= 4 {
        law_two_bytes_are_read(extra@, 0);
        law_two_bytes_are_read(extra@, 2);
        let end = 4 + number_at(extra@, 2, 2) as int;
        if number_at(extra@, 0, 2) == 1 && end <= extra@.len() && end >= 12 {
            let data = extra@.subrange(4, end);
            law_eight_bytes_are_read(data, 0);
            assert(data.subrange(0, 8) =~= extra@.subrange(4, 12));
        }
    }
}

/// The report on a stored entry counts its bytes and has their checksum, in however
/// many pieces they came.
pub proof fn law_stored_bytes_are_followed(
    start: StoredEntryCheck,
    first: &mut StoredEntryCheck,
    a: &[u8],
    second: &mut StoredEntryCheck,
    b: &[u8],
    report: DecodeReport,
)
    requires
        call_ensures(StoredEntryCheck::new, (), start),
        *old(first) == start,
        call_ensures(StoredEntryCheck::update, (first, a), Ok::<(), CoZipError>(())),
        *old(second) == *final(first),
        call_ensures(StoredEntryCheck::update, (second, b), Ok::<(), CoZipError>(())),
        call_ensures(StoredEntryCheck::report, (*final(second),), report),
        a@.len() + b@.len() <= u64::MAX,
    ensures
        report.output_bytes == a@.len() + b@.len(),
        report.output_crc32 == crc32(a@ + b@),
        report.leftover == 0,
{
    assert(final(second).bytes() =~= a@ + b@);
}

/// A sound stored entry comes out: one whose local header and bytes are there, that is
/// not encrypted, and whose bytes have the size and the checksum that the directory
/// says.
pub proof fn law_sound_stored_entries_come_out<
    F: Fn(&[u8], &Option<Vec<u8>>) -> Result<InflatedPayload, String>,
>(file: &[u8], entry: &ZipCentralReadEntry, inflate: F, r: Result<Vec<u8>, CoZipError>)
    requires
        call_ensures(extract_entry_to_writer::<F>, (file, entry, inflate), r),
        entry.method == 0,
        entry.gp_flags % 2 == 0,
        entry.compressed_size != 0xFFFF_FFFF,
        entry.uncompressed_size == entry.compressed_size,
        ({
            let at = entry.local_header_offset as int;
            let from = data_place(file@, at);
            &&& signed(file@, at, 3, 4)
            &&& at + 30 <= file@.len()
            &&& from + entry.compressed_size <= file@.len()
            &&& entry.crc == crc32(file@.subrange(from, from + entry.compressed_size))
        }),
    ensures
        ({
            let from = data_place(file@, entry.local_header_offset as int);
            r matches Ok(data) && data@ == file@.subrange(from, from + entry.compressed_size)
        }),
{
    let at = entry.local_header_offset as int;
    lemma_local_header_read(file@, at);
}

/// The end record that is found is the last place where its letters stand with room for
/// its 22 bytes, and none is found only where there is no such place.
pub proof fn law_last_end_record_is_found(bytes: &[u8], found: Option<usize>)
    requires
        call_ensures(find_eocd, (bytes,), found),
    ensures
        match found {
            Some(at) => {
                &&& signed(bytes@, at as int, 5, 6)
                &&& at + 22 <= bytes@.len()
                &&& forall|p: int|
                    at < p <= bytes@.len() - 22 ==> !#[trigger] signed(bytes@, p, 5, 6)
            },
            None => forall|p: int|
                0 <= p <= bytes@.len() - 22 ==> !#[trigger] signed(bytes@, p, 5, 6),
        },
{
    lemma_none_behind(bytes@, bytes@.len() - 21);
}

proof fn lemma_none_behind(bytes: Seq<u8>, n: int)
    requires
        n + 21 <= bytes.len(),
    ensures
        match last_eocd(bytes, n) {
            Some(at) => signed(bytes, at, 5, 6) && at < n && forall|p: int|
                at < p < n ==> !#[trigger] signed(bytes, p, 5, 6),
            None => forall|p: int| 0 <= p < n ==> !#[trigger] signed(bytes, p, 5, 6),
        },
    decreases n,
{
    if n > 0 {
        lemma_signature(bytes, n - 1);
        lemma_none_behind(bytes, n - 1);
    }
}

/// The fixed part of a record is read by its bytes: it is told by its letters, holds a
/// file that is stored or deflated and not encrypted, and the numbers stand at their
/// places, lowest byte first.
pub proof fn law_central_headers_are_read(fixed: &[u8], r: Result<CentralHeader, CoZipError>)
    requires
        call_ensures(parse_central_header, (fixed,), r),
        fixed@.len() == 46,
    ensures
        r is Ok <==> {
            &&& signed(fixed@, 0, 1, 2)
            &&& number_at(fixed@, 8, 2) % 2 == 0
            &&& number_at(fixed@, 10, 2) == 0 || number_at(fixed@, 10, 2) == 8
        },
        !signed(fixed@, 0, 1, 2) ==> r->Err_0 is InvalidZip,
        signed(fixed@, 0, 1, 2) && r is Err ==> r->Err_0 is Unsupported,
        r matches Ok(header) ==> {
            &&& header.gp_flags == number_at(fixed@, 8, 2)
            &&& header.method == number_at(fixed@, 10, 2)
            &&& header.crc == number_at(fixed@, 16, 4)
            &&& header.compressed_size == number_at(fixed@, 20, 4)
            &&& header.uncompressed_size == number_at(fixed@, 24, 4)
            &&& header.name_len == number_at(fixed@, 28, 2)
            &&& header.extra_len == number_at(fixed@, 30, 2)
            &&& header.comment_len == number_at(fixed@, 32, 2)
            &&& header.local_header_offset == number_at(fixed@, 42, 4)
        },
{
    lemma_signature(fixed@, 0);
    law_two_bytes_are_read(fixed@, 8);
    law_two_bytes_are_read(fixed@, 10);
    law_two_bytes_are_read(fixed@, 28);
    law_two_bytes_are_read(fixed@, 30);
    law_two_bytes_are_read(fixed@, 32);
    law_four_bytes_are_read(fixed@, 16);
    law_four_bytes_are_read(fixed@, 20);
    law_four_bytes_are_read(fixed@, 24);
    law_four_bytes_are_read(fixed@, 42);
}

/// What the decoder made of an entry is handed on exactly where it is what the directory
/// promised; a failure of the decoder is heard.
pub proof fn law_inflated_entries_are_checked(
    entry: &ZipCentralReadEntry,
    inflated: Result<InflatedPayload, String>,
    r: Result<Vec<u8>, CoZipError>,
)
    requires
        call_ensures(complete_inflated_entry, (entry, inflated), r),
    ensures
        inflated matches Err(message) ==> r == Err::<Vec<u8>, CoZipError>(
            CoZipError::Deflate(message),
        ),
        inflated matches Ok(out) ==> (r is Ok <==> {
            &&& entry.method == 0 || entry.method == 8
            &&& entry.gp_flags % 2 == 0
            &&& out.crc32 == entry.crc
            &&& out.data@.len() == entry.uncompressed_size
            &&& out.leftover == 0
        }),
        r matches Ok(data) ==> inflated is Ok && data@ == inflated->Ok_0.data@,
{
    if let Ok(out) = inflated {
        assert(out.data.len() == out.data@.len());
    }
}

/// What is known of an entry is what its header says; a size or a place that holds the
/// largest number stands in the ZIP64 field instead, each in its turn.
pub proof fn law_wide_values_stand_for_narrow_ones(
    header: CentralHeader,
    name: String,
    extra: &[u8],
    area: Option<&[u8]>,
    r: Result<ZipCentralReadEntry, CoZipError>,
)
    requires
        call_ensures(complete_central_entry, (header, name, extra, area), r),
        extra@.len() < 4 || number_at(extra@, 0, 2) == 1 && 28 <= 4 + number_at(extra@, 2, 2)
            <= extra@.len(),
    ensures
        extra@.len() < 4 ==> (r is Ok <==> header.uncompressed_size < 0xFFFF_FFFF
            && header.compressed_size < 0xFFFF_FFFF && header.local_header_offset < 0xFFFF_FFFF),
        extra@.len() >= 4 ==> r is Ok,
        r matches Ok(entry) ==> {
            let before_compressed: int = if header.uncompressed_size == 0xFFFF_FFFF { 8 } else {
                0
            };
            let before_place: int = before_compressed + if header.compressed_size == 0xFFFF_FFFF {
                8int
            } else {
                0
            };
            &&& entry.name@ == name@
            &&& entry.gp_flags == header.gp_flags
            &&& entry.method == header.method
            &&& entry.crc == header.crc
            &&& entry.uncompressed_size == if header.uncompressed_size == 0xFFFF_FFFF {
                number_at(extra@, 4, 8)
            } else {
                header.uncompressed_size as nat
            }
            &&& entry.compressed_size == if header.compressed_size == 0xFFFF_FFFF {
                number_at(extra@, 4 + before_compressed, 8)
            } else {
                header.compressed_size as nat
            }
            &&& entry.local_header_offset == if header.local_header_offset == 0xFFFF_FFFF {
                number_at(extra@, 4 + before_place, 8)
            } else {
                header.local_header_offset as nat
            }
        },
{
    let bytes = extra@;
    if bytes.len() >= 4 {
        law_two_bytes_are_read(bytes, 0);
        law_two_bytes_are_read(bytes, 2);
        let size = le16(bytes, 2) as int;
        let data = bytes.subrange(4, 4 + size);
        assert(find_field(bytes, 0, 1) == (FieldSpan::Found { start: 4, end: 4 + size }));
        law_eight_bytes_are_read(data, 0);
        law_eight_bytes_are_read(data, 8);
        law_eight_bytes_are_read(data, 16);
        assert(data.subrange(0, 8) =~= bytes.subrange(4, 12));
        assert(data.subrange(8, 16) =~= bytes.subrange(12, 20));
        assert(data.subrange(16, 24) =~= bytes.subrange(20, 28));
    }
}

/// The file is a ZIP archive with a ZIP64 end record at `end`, as other tools make it:
/// as many records as the ZIP64 end record says stand one behind the other, from the
/// place that it says on, at these places; the end record stands at `last`, and in front
/// of it the locator, which says where the ZIP64 end record stands.
pub open spec fn is_wide_archive(file: Seq<u8>, places: Seq<int>, end: int, last: int) -> bool {
    let n = places.len() - 1;
    &&& 0 <= n <= usize::MAX
    &&& signed(file, last, 5, 6)
    &&& last + 22 <= file.len() <= last + 22 + 0xFFFF
    &&& forall|p: int| last < p <= file.len() - 22 ==> !#[trigger] signed(file, p, 5, 6)
    &&& signed(file, last - 20, 6, 7)
    &&& number_at(file, last - 12, 8) == end
    &&& signed(file, end, 6, 6)
    &&& end + 56 <= file.len()
    &&& number_at(file, end + 4, 8) == 44
    &&& number_at(file, end + 32, 8) == n
    &&& number_at(file, end + 40, 8) == places[n] - places[0]
    &&& number_at(file, end + 48, 8) == places[0]
    &&& places[n] <= file.len() <= u64::MAX
    &&& forall|j: int|
        0 <= j < n ==> plain_record_stands(file, #[trigger] places[j], places[j + 1])
}

proof fn lemma_wide_field(file: Seq<u8>, at: int, part: Seq<u8>, from: int)
    requires
        0 <= at,
        at + part.len() <= file.len(),
        part == file.subrange(at, at + part.len()),
        0 <= from,
        from + 8 <= part.len(),
    ensures
        le64(part, from) == number_at(file, at + from, 8),
{
    law_eight_bytes_are_read(part, from);
    assert(part.subrange(from, from + 8) =~= file.subrange(at + from, at + from + 8));
}

/// The directory of an archive with a ZIP64 end record is read as that says, whatever
/// the end record says.
#[verifier::spinoff_prover]
#[verifier::rlimit(40)]
pub proof fn law_wide_archives_are_read(
    file: &[u8],
    places: Seq<int>,
    end: int,
    last: int,
    r: Result<(Vec<ZipCentralReadEntry>, u64), CoZipError>,
)
    requires
        call_ensures(read_central_directory_entries, (file,), r),
        is_wide_archive(file@, places, end, last),
    ensures
        r matches Ok((entries, len)) && len == file@.len() && entries@.len() == places.len() - 1 && (
        forall|i: int|
            0 <= i < entries@.len() ==> reads_record(
                (#[trigger] entries@[i])@,
                file@,
                places[i],
            )),
{
    let bytes = file@;
    lemma_wide_directory(bytes, places, end, last);
    let entries = r->Ok_0.0;
    assert forall|i: int| 0 <= i < entries@.len() implies reads_record(
        (#[trigger] entries@[i])@,
        bytes,
        places[i],
    ) by {
        assert(read_records(entries@)[i] == entries@[i]@);
    }
}

#[verifier::spinoff_prover]
#[verifier::rlimit(40)]
proof fn lemma_wide_directory(bytes: Seq<u8>, places: Seq<int>, end: int, last: int)
    requires
        is_wide_archive(bytes, places, end, last),
    ensures
        read_directory(bytes) matches Ok(records) && records.len() == places.len() - 1 && (forall|
            i: int,
        |
            0 <= i < records.len() ==> reads_record(#[trigger] records[i], bytes, places[i])),
{
    let start = search_start(bytes.len() as int);
    let tail = bytes.subrange(start, bytes.len() as int);
    lemma_last_end_record(bytes, start, last, tail.len() - 21);
    assert(eocd_offset(tail) == Some(last - start));
    let locator = bytes.subrange(last - 20, last);
    lemma_signature(locator, 0);
    assert(locator[0] == bytes[last - 20] && locator[1] == bytes[last - 19] && locator[2]
        == bytes[last - 18] && locator[3] == bytes[last - 17]);
    lemma_wide_field(bytes, last - 20, locator, 8);
    let head = bytes.subrange(end, end + 12);
    lemma_signature(head, 0);
    assert(head[0] == bytes[end] && head[1] == bytes[end + 1] && head[2] == bytes[end + 2]
        && head[3] == bytes[end + 3]);
    lemma_wide_field(bytes, end, head, 4);
    let body = bytes.subrange(end + 12, end + 56);
    lemma_wide_field(bytes, end + 12, body, 20);
    lemma_wide_field(bytes, end + 12, body, 28);
    lemma_wide_field(bytes, end + 12, body, 36);
    lemma_records_read(bytes, places, 0, None, Seq::empty());
}

/// A file that is too short for an end record, or has none in its last 65557 bytes, is
/// no valid archive.
pub proof fn law_files_without_end_record_are_refused(
    file: &[u8],
    r: Result<(Vec<ZipCentralReadEntry>, u64), CoZipError>,
)
    requires
        call_ensures(read_central_directory_entries, (file,), r),
        file@.len() < 22 || forall|p: int|
            file@.len() - 65557 <= p <= file@.len() - 22 ==> !#[trigger] signed(file@, p, 5, 6),
    ensures
        r is Err && r->Err_0 is InvalidZip,
{
    let bytes = file@;
    if bytes.len() >= 22 {
        let start = search_start(bytes.len() as int);
        let tail = bytes.subrange(start, bytes.len() as int);
        lemma_none_behind(tail, tail.len() - 21);
        if let Some(at) = last_eocd(tail, tail.len() - 21) {
            assert(signed(tail, at, 5, 6));
            assert(tail[at] == bytes[start + at] && tail[at + 1] == bytes[start + at + 1]
                && tail[at + 2] == bytes[start + at + 2] && tail[at + 3] == bytes[start + at + 3]);
            assert(signed(bytes, start + at, 5, 6));
        }
    }
}

/// An entry that is taken as far as the file holds it is taken whole where the file
/// holds all of it, and else up to the end of the file.
pub proof fn law_data_is_taken_as_far_as_it_goes(
    file: &[u8],
    entry: &ZipCentralReadEntry,
    r: Result<Vec<u8>, CoZipError>,
)
    requires
        call_ensures(read_streamed_payload, (file, entry), r),
        entry.compressed_size != 0xFFFF_FFFF,
        signed(file@, entry.local_header_offset as int, 3, 4),
        entry.local_header_offset + 30 <= file@.len(),
        data_place(file@, entry.local_header_offset as int) <= file@.len(),
    ensures
        ({
            let from = data_place(file@, entry.local_header_offset as int);
            let end = if from + entry.compressed_size <= file@.len() {
                from + entry.compressed_size
            } else {
                file@.len() as int
            };
            r matches Ok(payload) && payload@ == file@.subrange(from, end)
        }),
{
    let at = entry.local_header_offset as int;
    lemma_local_header_read(file@, at);
    let from = data_place(file@, at);
    assert(file@.skip(from) =~= file@.subrange(from, file@.len() as int));
}

/// The one record of an archive with a ZIP64 end record is found as it stands, where the
/// end record refers to that.
#[verifier::spinoff_prover]
#[verifier::rlimit(40)]
pub proof fn law_wide_single_files_are_located(
    zip: &[u8],
    at: int,
    next: int,
    end: int,
    last: int,
    r: Result<LocatedEntry, CoZipError>,
)
    requires
        call_ensures(locate_single_entry, (zip,), r),
        is_wide_archive(zip@, seq![at, next], end, last),
        zip@.len() <= usize::MAX,
        number_at(zip@, last + 10, 2) == 0xFFFF || number_at(zip@, last + 12, 4) == 0xFFFF_FFFF
            || number_at(zip@, last + 16, 4) == 0xFFFF_FFFF,
        valid_utf8(zip@.subrange(at + 46, at + 46 + number_at(zip@, at + 28, 2))),
    ensures
        r matches Ok(located) && located@.name == decode_utf8(
            zip@.subrange(at + 46, at + 46 + number_at(zip@, at + 28, 2)),
        ) && located@.method == number_at(zip@, at + 10, 2) && located@.crc == number_at(
            zip@,
            at + 16,
            4,
        ) && located@.compressed_size == number_at(zip@, at + 20, 4) && located@.uncompressed_size
            == number_at(zip@, at + 24, 4) && located@.local_header_offset == number_at(
            zip@,
            at + 42,
            4,
        ),
{
    let file = zip@;
    let places = seq![at, next];
    assert(plain_record_stands(file, places[0], places[0int + 1]));
    assert(file.subrange(0, file.len() as int) =~= file);
    lemma_last_end_record(file, 0, last, file.len() - 21);
    law_two_bytes_are_read(file, last + 10);
    law_four_bytes_are_read(file, last + 12);
    law_four_bytes_are_read(file, last + 16);
    lemma_signature(file, last - 20);
    law_eight_bytes_are_read(file, last - 12);
    law_eight_bytes_are_read(file, end + 32);
    law_eight_bytes_are_read(file, end + 40);
    law_eight_bytes_are_read(file, end + 48);
    lemma_signature(file, at);
    law_two_bytes_are_read(file, at + 10);
    law_two_bytes_are_read(file, at + 28);
    law_two_bytes_are_read(file, at + 30);
    law_two_bytes_are_read(file, at + 32);
    law_four_bytes_are_read(file, at + 16);
    law_four_bytes_are_read(file, at + 20);
    law_four_bytes_are_read(file, at + 24);
    law_four_bytes_are_read(file, at + 42);
    let name_end = at + 46 + number_at(file, at + 28, 2);
    let extra = file.subrange(name_end, name_end + number_at(file, at + 30, 2));
    assert(extra.skip(0) =~= extra);
    lemma_field_list(extra, 0, 1);
}

} // verus!
