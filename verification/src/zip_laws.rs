//! What reading gives back of what was written.

use vstd::prelude::*;
use vstd::utf8::{decode_utf8, valid_utf8};

use crate::czdi::{
    czdi_area, czdi_area_record, czdi_blob, czdi_extra_result, czdi_field, czdi_head, czdi_magic,
    czdi_payload, czdi_values, CzdiExtraKind, CZDI_EXTRA_FIELD_TAG, CZDI_EXTRA_VERSION_V1,
    CZDI_STORAGE_EOCD64, CZDI_STORAGE_INLINE, CZDI_STORAGE_NONE,
};
use crate::error::CoZipError;
use crate::extra::{
    find_field, zip64_extra_result, FieldSpan, Zip64ExtraField, ZIP64_EXTRA_FIELD_TAG,
};
use crate::le::{
    le16, le32, le64, lemma_le16, lemma_le32, lemma_le64, u16_le, u32_le, u64_le,
};

use crate::zip_entry::{compressed_payload, local_lengths, LocalLengths};
use crate::zip_read::{
    central_header, directory_from_zip64_head, directory_of, entries_from, entry_at, eocd_offset,
    extension_area, read_directory, search_start, zip64_body_len, zip64_end_record, CentralHeader,
    EndRecord, ReadRecord,
};
use crate::zip_write::{
    archive_tail, blob_area, can_finish, central_directory, central_entry, central_extra,
    central_fixed, czdi_plan, data_descriptor, eocd, is_large, lemma_blob_area, lemma_central_extra_len,
    lemma_fixed_lengths, lemma_tail_len, local_header, zip64_eocd, zip64_extension, zip64_field,
    zip64_locator, CentralRecord, CENTRAL_DIR_HEADER_SIG, DEFLATE_METHOD, EOCD_SIG,
    GP_FLAGS_WRITTEN, LOCAL_FILE_HEADER_SIG, ZIP64_EOCD_LOCATOR_SIG, ZIP64_EOCD_SIG,
};

verus! {

broadcast use crate::le::group_le_len;

/// The fields of the fixed part of a record that reading looks at.
pub proof fn lemma_central_header(record: CentralRecord, extra_len: u16)
    requires
        record.name.len() <= 0xffff,
        record.gp_flags % 2 == 0,
    ensures
        central_header(central_fixed(record, extra_len)) == Ok::<CentralHeader, CoZipError>(
            CentralHeader {
                gp_flags: record.gp_flags,
                method: DEFLATE_METHOD,
                crc: record.crc,
                compressed_size: 0xFFFF_FFFF,
                uncompressed_size: 0xFFFF_FFFF,
                name_len: record.name.len() as u16,
                extra_len,
                comment_len: 0,
                local_header_offset: 0xFFFF_FFFF,
            },
        ),
{
    reveal(central_fixed);
    let s = central_fixed(record, extra_len);
    assert(le32(s, 0) == CENTRAL_DIR_HEADER_SIG) by {
        assert(s.subrange(0, 4) =~= u32_le(CENTRAL_DIR_HEADER_SIG));
        lemma_le32(s, 0, CENTRAL_DIR_HEADER_SIG);
    }
    assert(le16(s, 8) == record.gp_flags) by {
        assert(s.subrange(8, 10) =~= u16_le(record.gp_flags));
        lemma_le16(s, 8, record.gp_flags);
    }
    assert(le16(s, 10) == DEFLATE_METHOD) by {
        assert(s.subrange(10, 12) =~= u16_le(DEFLATE_METHOD));
        lemma_le16(s, 10, DEFLATE_METHOD);
    }
    assert(le32(s, 16) == record.crc) by {
        assert(s.subrange(16, 20) =~= u32_le(record.crc));
        lemma_le32(s, 16, record.crc);
    }
    assert(le32(s, 20) == 0xFFFF_FFFF) by {
        assert(s.subrange(20, 24) =~= u32_le(0xFFFF_FFFF));
        lemma_le32(s, 20, 0xFFFF_FFFF);
    }
    assert(le32(s, 24) == 0xFFFF_FFFF) by {
        assert(s.subrange(24, 28) =~= u32_le(0xFFFF_FFFF));
        lemma_le32(s, 24, 0xFFFF_FFFF);
    }
    assert(le16(s, 28) == record.name.len() as u16) by {
        assert(s.subrange(28, 30) =~= u16_le(record.name.len() as u16));
        lemma_le16(s, 28, record.name.len() as u16);
    }
    assert(le16(s, 30) == extra_len) by {
        assert(s.subrange(30, 32) =~= u16_le(extra_len));
        lemma_le16(s, 30, extra_len);
    }
    assert(le16(s, 32) == 0) by {
        assert(s.subrange(32, 34) =~= u16_le(0));
        lemma_le16(s, 32, 0);
    }
    assert(le32(s, 42) == 0xFFFF_FFFF) by {
        assert(s.subrange(42, 46) =~= u32_le(0xFFFF_FFFF));
        lemma_le32(s, 42, 0xFFFF_FFFF);
    }
}

/// The two fields of the extra data that is written for a record.
proof fn lemma_extra_fields(records: Seq<CentralRecord>, i: int)
    ensures
        ({
            let extra = central_extra(records, i);
            let payload = czdi_payload(czdi_plan(records, i));
            &&& find_field(extra, 0, ZIP64_EXTRA_FIELD_TAG) == (FieldSpan::Found {
                start: 4,
                end: 28,
            })
            &&& find_field(extra, 0, CZDI_EXTRA_FIELD_TAG) == (FieldSpan::Found {
                start: 32,
                end: extra.len() as int,
            })
            &&& extra.subrange(32, extra.len() as int) == payload
        }),
{
    let record = records[i];
    let extra = central_extra(records, i);
    let field = zip64_field(record);
    let payload = czdi_payload(czdi_plan(records, i));
    lemma_central_extra_len(records, i);
    assert(extra.subrange(0, 2) =~= u16_le(ZIP64_EXTRA_FIELD_TAG)) by {
        assert(extra.subrange(0, 2) =~= field.subrange(0, 2));
        assert(field.subrange(0, 2) =~= u16_le(ZIP64_EXTRA_FIELD_TAG));
    }
    lemma_le16(extra, 0, ZIP64_EXTRA_FIELD_TAG);
    assert(extra.subrange(2, 4) =~= u16_le(24)) by {
        assert(extra.subrange(2, 4) =~= field.subrange(2, 4));
        assert(field.subrange(2, 4) =~= u16_le(24));
    }
    lemma_le16(extra, 2, 24);
    let second = czdi_field(payload);
    assert(extra.subrange(28, 30) =~= u16_le(CZDI_EXTRA_FIELD_TAG)) by {
        assert(extra.subrange(28, 30) =~= second.subrange(0, 2));
        assert(second.subrange(0, 2) =~= u16_le(CZDI_EXTRA_FIELD_TAG));
    }
    lemma_le16(extra, 28, CZDI_EXTRA_FIELD_TAG);
    assert(extra.subrange(30, 32) =~= u16_le(payload.len() as u16)) by {
        assert(extra.subrange(30, 32) =~= second.subrange(2, 4));
        assert(second.subrange(2, 4) =~= u16_le(payload.len() as u16));
    }
    lemma_le16(extra, 30, payload.len() as u16);
    assert(extra.subrange(32, extra.len() as int) =~= payload);
    assert(find_field(extra, 28, CZDI_EXTRA_FIELD_TAG) == (FieldSpan::Found {
        start: 32,
        end: extra.len() as int,
    }));
    reveal_with_fuel(find_field, 2);
}

/// The ZIP64 field that is written for a record gives its three values back.
pub proof fn law_zip64_field_roundtrip(records: Seq<CentralRecord>, i: int)
    ensures
        zip64_extra_result(central_extra(records, i), true, true, true) == Ok::<
            Option<Zip64ExtraField>,
            CoZipError,
        >(
            Some(
                Zip64ExtraField {
                    uncompressed_size: Some(records[i].uncompressed_size),
                    compressed_size: Some(records[i].compressed_size),
                    local_header_offset: Some(records[i].local_header_offset),
                },
            ),
        ),
{
    let record = records[i];
    let extra = central_extra(records, i);
    let field = zip64_field(record);
    lemma_central_extra_len(records, i);
    lemma_extra_fields(records, i);
    let data = extra.subrange(4, 28);
    assert(data =~= field.subrange(4, 28));
    assert(le64(data, 0) == record.uncompressed_size) by {
        assert(data.subrange(0, 8) =~= u64_le(record.uncompressed_size));
        lemma_le64(data, 0, record.uncompressed_size);
    }
    assert(le64(data, 8) == record.compressed_size) by {
        assert(data.subrange(8, 16) =~= u64_le(record.compressed_size));
        lemma_le64(data, 8, record.compressed_size);
    }
    assert(le64(data, 16) == record.local_header_offset) by {
        assert(data.subrange(16, 24) =~= u64_le(record.local_header_offset));
        lemma_le64(data, 16, record.local_header_offset);
    }
}

/// The index field that is written for a plan gives the plan back.
pub proof fn law_czdi_field_roundtrip(records: Seq<CentralRecord>, i: int)
    requires
        blob_area(records, i).len() <= u32::MAX,
        records[i].blob matches Some(blob) ==> blob.len() <= u32::MAX,
    ensures
        czdi_extra_result(central_extra(records, i)) == Ok::<
            Option<(CzdiExtraKind, Option<Seq<u8>>)>,
            CoZipError,
        >(Some(czdi_plan(records, i))),
{
    let plan = czdi_plan(records, i);
    let data = czdi_payload(plan);
    lemma_extra_fields(records, i);
    lemma_central_extra_len(records, i);
    match plan.0 {
        CzdiExtraKind::Inline { blob_len, blob_crc32 } => {
            let blob = plan.1.unwrap();
            let head = czdi_head(CZDI_STORAGE_INLINE);
            assert(data[0] == head[0] && data[1] == head[1]);
            assert(data.subrange(4, 8) =~= u32_le(blob_len));
            lemma_le32(data, 4, blob_len);
            assert(data.subrange(8, 12) =~= u32_le(blob_crc32));
            lemma_le32(data, 8, blob_crc32);
            assert(data.subrange(12, 12 + blob_len) =~= blob);
            assert(czdi_values(data) == Ok::<(CzdiExtraKind, Option<Seq<u8>>), CoZipError>(plan));
        },
        CzdiExtraKind::Eocd64Ref { blob_offset, blob_len, blob_crc32 } => {
            let head = czdi_head(CZDI_STORAGE_EOCD64);
            assert(data[0] == head[0] && data[1] == head[1]);
            assert(data.subrange(4, 8) =~= u32_le(blob_offset));
            lemma_le32(data, 4, blob_offset);
            assert(data.subrange(8, 12) =~= u32_le(blob_len));
            lemma_le32(data, 8, blob_len);
            assert(data.subrange(12, 16) =~= u32_le(blob_crc32));
            lemma_le32(data, 12, blob_crc32);
        },
        CzdiExtraKind::Absent => {
            let head = czdi_head(CZDI_STORAGE_NONE);
            assert(data[0] == head[0] && data[1] == head[1]);
        },
    }
}

/// The area behind the ZIP64 end record is read back as it was written.
pub proof fn law_czdi_area_roundtrip(area: Seq<u8>)
    requires
        area.len() <= u32::MAX,
        12 + area.len() <= usize::MAX,
    ensures
        czdi_area(czdi_area_record(area)) == Ok::<Option<Seq<u8>>, CoZipError>(Some(area)),
{
    let data = czdi_area_record(area);
    assert(data.subrange(0, 4) =~= czdi_magic());
    assert(data[4] == CZDI_EXTRA_VERSION_V1);
    assert(le32(data, 8) == area.len() as u32) by {
        assert(data.subrange(8, 12) =~= u32_le(area.len() as u32));
        lemma_le32(data, 8, area.len() as u32);
    }
    assert(data.subrange(12, 12int + area.len()) =~= area);
}

/// What reading makes of the area behind the ZIP64 end record.
pub open spec fn area_read(records: Seq<CentralRecord>) -> Option<Seq<u8>> {
    let area = blob_area(records, records.len() as int);
    if area.len() == 0 {
        None
    } else {
        Some(area)
    }
}

/// The index of each record is found again, wherever it is kept.
pub proof fn law_czdi_blob_roundtrip(records: Seq<CentralRecord>, i: int)
    requires
        0 <= i < records.len(),
        blob_area(records, records.len() as int).len() <= u32::MAX,
    ensures
        czdi_blob(central_extra(records, i), area_read(records)) == records[i].blob,
{
    lemma_blob_area(records, i, records.len() as int);
    law_czdi_field_roundtrip(records, i);
    let area = blob_area(records, records.len() as int);
    if is_large(records[i].blob) {
        let at = blob_area(records, i).len() as int;
        let blob = records[i].blob.unwrap();
        assert(area.len() > 0);
        assert(area.subrange(at, at + blob.len()) == blob);
    }
}

/// The directory only grows with the number of records, and holds each record
/// behind those before it.
pub proof fn lemma_directory(records: Seq<CentralRecord>, i: int, n: int)
    requires
        0 <= i <= n <= records.len(),
    ensures
        central_directory(records, i).len() <= central_directory(records, n).len(),
        central_directory(records, n).subrange(0, central_directory(records, i).len() as int)
            == central_directory(records, i),
        i < n ==> {
            let at = central_directory(records, i).len() as int;
            let entry = central_entry(records, i);
            at + entry.len() <= central_directory(records, n).len() && central_directory(
                records,
                n,
            ).subrange(at, at + entry.len()) == entry
        },
    decreases n - i,
{
    let whole = central_directory(records, n);
    if i < n {
        let first = central_directory(records, i);
        let next = central_directory(records, i + 1);
        let entry = central_entry(records, i);
        let at = first.len() as int;
        lemma_directory(records, i + 1, n);
        assert(next == first + entry);
        let prefix = whole.subrange(0, next.len() as int);
        assert(whole.subrange(0, at) =~= prefix.subrange(0, at));
        assert(next.subrange(0, at) =~= first);
        assert(whole.subrange(at, at + entry.len()) =~= prefix.subrange(at, at + entry.len()));
        assert(next.subrange(at, at + entry.len()) =~= entry);
    } else {
        assert(whole.subrange(0, whole.len() as int) =~= whole);
    }
}

/// What reading gives back of a record.
pub open spec fn read_back(record: CentralRecord) -> ReadRecord {
    ReadRecord {
        name: decode_utf8(record.name),
        gp_flags: record.gp_flags,
        method: DEFLATE_METHOD,
        crc: record.crc,
        compressed_size: record.compressed_size,
        uncompressed_size: record.uncompressed_size,
        local_header_offset: record.local_header_offset,
        blob: record.blob,
    }
}

/// What reading gives back of the first `n` records.
pub open spec fn read_back_all(records: Seq<CentralRecord>, n: int) -> Seq<ReadRecord> {
    Seq::new(n as nat, |i: int| read_back(records[i]))
}

/// The records can be read again: their names are UTF-8, and no flag says that
/// they are encrypted.
pub open spec fn readable(records: Seq<CentralRecord>) -> bool {
    forall|i: int|
        0 <= i < records.len() ==> valid_utf8((#[trigger] records[i]).name) && records[i].gp_flags
            % 2 == 0
}

/// A record in the directory is read back.
proof fn lemma_entry_roundtrip(file: Seq<u8>, pos: int, records: Seq<CentralRecord>, i: int)
    requires
        0 <= i < records.len(),
        0 <= pos,
        readable(records),
        records[i].name.len() <= 0xffff,
        blob_area(records, records.len() as int).len() <= u32::MAX,
        pos + central_entry(records, i).len() <= file.len(),
        file.subrange(pos, pos + central_entry(records, i).len()) == central_entry(records, i),
    ensures
        entry_at(file, pos, area_read(records)) == Ok::<(ReadRecord, int), CoZipError>(
            (read_back(records[i]), pos + central_entry(records, i).len()),
        ),
{
    reveal(central_entry);
    let record = records[i];
    let extra = central_extra(records, i);
    let extra_len = extra.len() as u16;
    let fixed = central_fixed(record, extra_len);
    let entry = central_entry(records, i);
    let n = record.name.len() as int;
    lemma_central_extra_len(records, i);
    lemma_fixed_lengths(record, extra_len, record.name);
    assert(file.subrange(pos, pos + 46) =~= fixed) by {
        assert(file.subrange(pos, pos + 46) =~= entry.subrange(0, 46));
        assert(entry.subrange(0, 46) =~= fixed);
    }
    assert(file.subrange(pos + 46, pos + 46 + n) =~= record.name) by {
        assert(file.subrange(pos + 46, pos + 46 + n) =~= entry.subrange(46, 46 + n));
        assert(entry.subrange(46, 46 + n) =~= record.name);
    }
    assert(file.subrange(pos + 46 + n, pos + 46 + n + extra.len()) =~= extra) by {
        assert(file.subrange(pos + 46 + n, pos + 46 + n + extra.len()) =~= entry.subrange(
            46 + n,
            46 + n + extra.len(),
        ));
        assert(entry.subrange(46 + n, 46 + n + extra.len()) =~= extra);
    }
    lemma_central_header(record, extra_len);
    law_zip64_field_roundtrip(records, i);
    law_czdi_blob_roundtrip(records, i);
}

/// The records from the `i`th on are read back.
proof fn lemma_entries_roundtrip(file: Seq<u8>, start: int, records: Seq<CentralRecord>, i: int)
    requires
        0 <= i <= records.len(),
        0 <= start,
        readable(records),
        forall|j: int| 0 <= j < records.len() ==> (#[trigger] records[j]).name.len() <= 0xffff,
        blob_area(records, records.len() as int).len() <= u32::MAX,
        start + central_directory(records, records.len() as int).len() <= file.len(),
        file.subrange(start, start + central_directory(records, records.len() as int).len())
            == central_directory(records, records.len() as int),
    ensures
        entries_from(
            file,
            start + central_directory(records, i).len(),
            (records.len() - i) as nat,
            area_read(records),
            read_back_all(records, i),
        ) == Ok::<Seq<ReadRecord>, CoZipError>(read_back_all(records, records.len() as int)),
    decreases records.len() - i,
{
    if i < records.len() {
        let directory = central_directory(records, records.len() as int);
        let at = central_directory(records, i).len() as int;
        let entry = central_entry(records, i);
        lemma_directory(records, i, records.len() as int);
        assert(file.subrange(start + at, start + at + entry.len()) =~= directory.subrange(
            at,
            at + entry.len(),
        ));
        lemma_entry_roundtrip(file, start + at, records, i);
        lemma_entries_roundtrip(file, start, records, i + 1);
        assert(central_directory(records, i + 1).len() == at + entry.len());
        assert(read_back_all(records, i).push(read_back(records[i])) =~= read_back_all(
            records,
            i + 1,
        ));
    }
}

/// The values in the body of a ZIP64 end record are read back.
pub proof fn lemma_zip64_eocd(count: u64, size: u64, offset: u64, extension: Seq<u8>)
    requires
        44 + extension.len() <= usize::MAX,
    ensures
        ({
            let s = zip64_eocd(count, size, offset, extension);
            &&& s.len() == 56 + extension.len()
            &&& zip64_body_len(s.subrange(0, 12)) == Ok::<u64, CoZipError>(
                (44 + extension.len()) as u64,
            )
            &&& zip64_end_record(s.subrange(12, s.len() as int)) == (EndRecord {
                entries: count,
                central_size: size,
                central_offset: offset,
                extension: if extension.len() == 0 {
                    None
                } else {
                    Some(extension)
                },
            })
        }),
{
    reveal(zip64_eocd);
    let s = zip64_eocd(count, size, offset, extension);
    let head = s.subrange(0, 12);
    let len = (44 + extension.len()) as u64;
    assert(le32(head, 0) == ZIP64_EOCD_SIG) by {
        assert(head.subrange(0, 4) =~= u32_le(ZIP64_EOCD_SIG));
        lemma_le32(head, 0, ZIP64_EOCD_SIG);
    }
    assert(le64(head, 4) == len) by {
        assert(head.subrange(4, 12) =~= u64_le(len));
        lemma_le64(head, 4, len);
    }
    let body = s.subrange(12, s.len() as int);
    assert(le64(body, 20) == count) by {
        assert(body.subrange(20, 28) =~= u64_le(count));
        lemma_le64(body, 20, count);
    }
    assert(le64(body, 28) == size) by {
        assert(body.subrange(28, 36) =~= u64_le(size));
        lemma_le64(body, 28, size);
    }
    assert(le64(body, 36) == offset) by {
        assert(body.subrange(36, 44) =~= u64_le(offset));
        lemma_le64(body, 36, offset);
    }
    if extension.len() > 0 {
        assert(body.subrange(44, body.len() as int) =~= extension);
    }
}

/// The locator leads to the ZIP64 end record.
pub proof fn lemma_zip64_locator(at: u64)
    ensures
        zip64_locator(at).len() == 20,
        le32(zip64_locator(at), 0) == ZIP64_EOCD_LOCATOR_SIG,
        le64(zip64_locator(at), 8) == at,
{
    reveal(zip64_locator);
    let s = zip64_locator(at);
    assert(le32(s, 0) == ZIP64_EOCD_LOCATOR_SIG) by {
        assert(s.subrange(0, 4) =~= u32_le(ZIP64_EOCD_LOCATOR_SIG));
        lemma_le32(s, 0, ZIP64_EOCD_LOCATOR_SIG);
    }
    assert(le64(s, 8) == at) by {
        assert(s.subrange(8, 16) =~= u64_le(at));
        lemma_le64(s, 8, at);
    }
}

/// An end record that closes the file is the one that is found.
pub proof fn lemma_eocd_found(tail: Seq<u8>, count: u64, size: u64, offset: u64)
    requires
        tail.len() >= 22,
        tail.subrange(tail.len() - 22, tail.len() as int) == eocd(count, size, offset),
    ensures
        eocd_offset(tail) == Some(tail.len() - 22),
{
    reveal(eocd);
    let s = eocd(count, size, offset);
    let at = tail.len() - 22;
    assert(tail.subrange(at, at + 4) =~= u32_le(EOCD_SIG)) by {
        assert(tail.subrange(at, at + 4) =~= s.subrange(0, 4));
        assert(s.subrange(0, 4) =~= u32_le(EOCD_SIG));
    }
    lemma_le32(tail, at, EOCD_SIG);
}

/// Where the parts of a finished archive stand.
pub open spec fn laid_out(file: Seq<u8>, offset: u64, records: Seq<CentralRecord>) -> bool {
    let directory = central_directory(records, records.len() as int);
    let count = records.len() as u64;
    let size = directory.len() as u64;
    let at64 = offset + directory.len();
    let end64 = zip64_eocd(count, size, offset, zip64_extension(records));
    let locator_at = at64 + end64.len();
    &&& file.len() == locator_at + 42
    &&& file.subrange(offset as int, at64) == directory
    &&& file.subrange(at64, locator_at) == end64
    &&& file.subrange(locator_at, locator_at + 20) == zip64_locator(at64 as u64)
    &&& file.subrange(locator_at + 20, locator_at + 42) == eocd(count, size, offset)
}

pub proof fn lemma_laid_out(body: Seq<u8>, records: Seq<CentralRecord>)
    requires
        body.len() <= u64::MAX,
    ensures
        laid_out(body + archive_tail(records, body.len() as u64), body.len() as u64, records),
{
    let offset = body.len() as u64;
    let directory = central_directory(records, records.len() as int);
    let count = records.len() as u64;
    let size = directory.len() as u64;
    let at64 = offset + directory.len();
    let end64 = zip64_eocd(count, size, offset, zip64_extension(records));
    let locator_at = at64 + end64.len();
    let locator = zip64_locator(at64 as u64);
    let end = eocd(count, size, offset);
    let file = body + archive_tail(records, offset);
    lemma_tail_len(records, offset);
    assert(end.len() == 22) by {
        reveal(eocd);
    }
    assert(locator.len() == 20) by {
        reveal(zip64_locator);
    }
    assert(file.subrange(offset as int, at64) =~= directory);
    assert(file.subrange(at64, locator_at) =~= end64);
    assert(file.subrange(locator_at, locator_at + 20) =~= locator);
    assert(file.subrange(locator_at + 20, locator_at + 42) =~= end);
}

/// The ZIP64 end record of a finished archive leads to its directory.
proof fn lemma_zip64_head_read(file: Seq<u8>, offset: u64, records: Seq<CentralRecord>)
    requires
        laid_out(file, offset, records),
        44 + zip64_extension(records).len() <= usize::MAX,
    ensures
        directory_from_zip64_head(
            file,
            offset + central_directory(records, records.len() as int).len(),
        ) == directory_of(
            file,
            EndRecord {
                entries: records.len() as u64,
                central_size: central_directory(records, records.len() as int).len() as u64,
                central_offset: offset,
                extension: if zip64_extension(records).len() == 0 {
                    None
                } else {
                    Some(zip64_extension(records))
                },
            },
        ),
{
    let directory = central_directory(records, records.len() as int);
    let count = records.len() as u64;
    let size = directory.len() as u64;
    let at64 = offset + directory.len();
    let extension = zip64_extension(records);
    let end64 = zip64_eocd(count, size, offset, extension);
    lemma_zip64_eocd(count, size, offset, extension);
    assert(file.subrange(at64, at64 + 12) =~= end64.subrange(0, 12)) by {
        assert(file.subrange(at64, at64 + 12) =~= file.subrange(
            at64,
            at64 + end64.len(),
        ).subrange(0, 12));
    }
    assert(file.subrange(at64 + 12, at64 + end64.len()) =~= end64.subrange(12, end64.len() as int))
        by {
        assert(file.subrange(at64 + 12, at64 + end64.len()) =~= file.subrange(
            at64,
            at64 + end64.len(),
        ).subrange(12, end64.len() as int));
    }
}

/// The end record and the locator of a finished archive lead to its ZIP64 end record.
proof fn lemma_eocd_read(file: Seq<u8>, offset: u64, records: Seq<CentralRecord>)
    requires
        laid_out(file, offset, records),
        file.len() <= u64::MAX,
    ensures
        read_directory(file) == directory_from_zip64_head(
            file,
            offset + central_directory(records, records.len() as int).len(),
        ),
{
    let directory = central_directory(records, records.len() as int);
    let count = records.len() as u64;
    let size = directory.len() as u64;
    let at64 = offset + directory.len();
    let end64 = zip64_eocd(count, size, offset, zip64_extension(records));
    let eocd_at = file.len() - 22;
    let start = search_start(file.len() as int);
    let tail = file.subrange(start, file.len() as int);
    assert(tail.subrange(tail.len() - 22, tail.len() as int) =~= file.subrange(
        eocd_at,
        eocd_at + 22,
    ));
    lemma_eocd_found(tail, count, size, offset);
    lemma_zip64_locator(at64 as u64);
    assert(start + (tail.len() - 22) == eocd_at);
    assert(at64 + end64.len() == eocd_at - 20);
}

/// The directory of a finished archive is read back.
proof fn lemma_directory_read(file: Seq<u8>, offset: u64, records: Seq<CentralRecord>)
    requires
        laid_out(file, offset, records),
        file.len() <= u64::MAX,
        readable(records),
        records.len() <= usize::MAX,
        blob_area(records, records.len() as int).len() <= u32::MAX,
        forall|j: int| 0 <= j < records.len() ==> (#[trigger] records[j]).name.len() <= 0xffff,
        44 + zip64_extension(records).len() <= usize::MAX,
    ensures
        directory_of(
            file,
            EndRecord {
                entries: records.len() as u64,
                central_size: central_directory(records, records.len() as int).len() as u64,
                central_offset: offset,
                extension: if zip64_extension(records).len() == 0 {
                    None
                } else {
                    Some(zip64_extension(records))
                },
            },
        ) == Ok::<Seq<ReadRecord>, CoZipError>(read_back_all(records, records.len() as int)),
{
    let n = records.len() as int;
    let area = blob_area(records, n);
    assert(extension_area(
        if zip64_extension(records).len() == 0 {
            None
        } else {
            Some(zip64_extension(records))
        },
    ) == Ok::<Option<Seq<u8>>, CoZipError>(area_read(records))) by {
        if area.len() > 0 {
            law_czdi_area_roundtrip(area);
        }
    }
    lemma_entries_roundtrip(file, offset as int, records, 0);
    assert(read_back_all(records, 0) =~= Seq::<ReadRecord>::empty());
    assert(central_directory(records, 0).len() == 0);
}

/// An archive that was finished gives its directory back: whatever stands in
/// front of the directory, reading finds every record with its name, checksum,
/// sizes, offset and index.
pub proof fn law_directory_roundtrip(body: Seq<u8>, records: Seq<CentralRecord>)
    requires
        body.len() <= u64::MAX,
        can_finish(records, body.len() as u64),
        readable(records),
        records.len() <= usize::MAX,
        44 + zip64_extension(records).len() <= usize::MAX,
    ensures
        read_directory(body + archive_tail(records, body.len() as u64)) == Ok::<
            Seq<ReadRecord>,
            CoZipError,
        >(read_back_all(records, records.len() as int)),
{
    let offset = body.len() as u64;
    let file = body + archive_tail(records, offset);
    assert(file.len() <= u64::MAX);
    lemma_laid_out(body, records);
    lemma_eocd_read(file, offset, records);
    lemma_zip64_head_read(file, offset, records);
    lemma_directory_read(file, offset, records);
}

/// An entry that goes into an archive: its name, its compressed bytes, and what
/// is said of it.
pub struct ArchiveInput {
    pub name: Seq<u8>,
    pub payload: Seq<u8>,
    pub crc: u32,
    pub uncompressed_size: u64,
    pub blob: Option<Seq<u8>>,
}

/// What is written for an entry in front of the directory.
pub open spec fn input_bytes(input: ArchiveInput) -> Seq<u8> {
    local_header(input.name) + input.payload + data_descriptor(
        input.crc,
        input.payload.len() as u64,
        input.uncompressed_size,
    )
}

/// What is written for the first `n` entries in front of the directory.
pub open spec fn archive_body(inputs: Seq<ArchiveInput>, n: int) -> Seq<u8>
    decreases n,
{
    if n <= 0 {
        Seq::empty()
    } else {
        archive_body(inputs, n - 1) + input_bytes(inputs[n - 1])
    }
}

/// What the directory says of the entries.
pub open spec fn archive_records(inputs: Seq<ArchiveInput>) -> Seq<CentralRecord> {
    Seq::new(
        inputs.len(),
        |i: int|
            CentralRecord {
                name: inputs[i].name,
                gp_flags: GP_FLAGS_WRITTEN,
                crc: inputs[i].crc,
                compressed_size: inputs[i].payload.len() as u64,
                uncompressed_size: inputs[i].uncompressed_size,
                local_header_offset: archive_body(inputs, i).len() as u64,
                blob: inputs[i].blob,
            },
    )
}

/// The whole archive.
pub open spec fn archive(inputs: Seq<ArchiveInput>) -> Seq<u8> {
    let body = archive_body(inputs, inputs.len() as int);
    body + archive_tail(archive_records(inputs), body.len() as u64)
}

/// An archive is longer than what stands in it: the end records with the index
/// area, and the compressed bytes of each entry.
pub proof fn lemma_archive_holds(inputs: Seq<ArchiveInput>, i: int)
    requires
        0 <= i < inputs.len(),
    ensures
        44 + zip64_extension(archive_records(inputs)).len() <= archive(inputs).len(),
        inputs[i].payload.len() <= archive(inputs).len(),
{
    let body = archive_body(inputs, inputs.len() as int);
    lemma_tail_len(archive_records(inputs), body.len() as u64);
    lemma_payload_fits_body(inputs, i, inputs.len() as int);
}

/// What is written in front of the directory holds the compressed bytes of each
/// entry.
proof fn lemma_payload_fits_body(inputs: Seq<ArchiveInput>, i: int, n: int)
    requires
        0 <= i < n <= inputs.len(),
    ensures
        inputs[i].payload.len() <= archive_body(inputs, n).len(),
    decreases n,
{
    if i < n - 1 {
        lemma_payload_fits_body(inputs, i, n - 1);
    }
}

/// More entries at the end change nothing of what is written for the first ones.
proof fn lemma_body_prefix(inputs: Seq<ArchiveInput>, input: ArchiveInput, n: int)
    requires
        0 <= n <= inputs.len(),
    ensures
        archive_body(inputs.push(input), n) == archive_body(inputs, n),
    decreases n,
{
    if n > 0 {
        lemma_body_prefix(inputs, input, n - 1);
    }
}

/// Writing one more entry behind the archive so far gives the archive with one
/// more entry: the bytes grow by those of the entry, and the directory by a
/// record that names where they start.
pub proof fn law_archive_grows(inputs: Seq<ArchiveInput>, input: ArchiveInput)
    ensures
        ({
            let more = inputs.push(input);
            let body = archive_body(inputs, inputs.len() as int);
            &&& archive_body(more, more.len() as int) == body + input_bytes(input)
            &&& archive_records(more) == archive_records(inputs).push(
                CentralRecord {
                    name: input.name,
                    gp_flags: GP_FLAGS_WRITTEN,
                    crc: input.crc,
                    compressed_size: input.payload.len() as u64,
                    uncompressed_size: input.uncompressed_size,
                    local_header_offset: body.len() as u64,
                    blob: input.blob,
                },
            )
        }),
{
    let more = inputs.push(input);
    assert forall|n: int| 0 <= n <= inputs.len() implies #[trigger] archive_body(more, n)
        == archive_body(inputs, n) by {
        lemma_body_prefix(inputs, input, n);
    }
    let body = archive_body(inputs, inputs.len() as int);
    assert(archive_body(more, inputs.len() as int) == body);
    assert(archive_body(more, inputs.len() + 1int) == body + input_bytes(input));
    assert(archive_records(more) =~= archive_records(inputs).push(
        CentralRecord {
            name: input.name,
            gp_flags: GP_FLAGS_WRITTEN,
            crc: input.crc,
            compressed_size: input.payload.len() as u64,
            uncompressed_size: input.uncompressed_size,
            local_header_offset: body.len() as u64,
            blob: input.blob,
        },
    ));
}

pub proof fn lemma_body_holds(inputs: Seq<ArchiveInput>, i: int, n: int)
    requires
        0 <= i < n <= inputs.len(),
    ensures
        ({
            let at = archive_body(inputs, i).len() as int;
            let entry = input_bytes(inputs[i]);
            at + entry.len() <= archive_body(inputs, n).len() && archive_body(inputs, n).subrange(
                at,
                at + entry.len(),
            ) == entry
        }),
    decreases n,
{
    let at = archive_body(inputs, i).len() as int;
    let entry = input_bytes(inputs[i]);
    let whole = archive_body(inputs, n);
    if i == n - 1 {
        assert(whole.subrange(at, at + entry.len()) =~= entry);
    } else {
        lemma_body_holds(inputs, i, n - 1);
        let shorter = archive_body(inputs, n - 1);
        assert(whole.subrange(at, at + entry.len()) =~= shorter.subrange(at, at + entry.len()));
    }
}

/// The local header of an entry leads to its data.
proof fn lemma_local_header(name: Seq<u8>)
    requires
        name.len() <= 0xffff,
    ensures
        local_header(name).len() == 30 + name.len(),
        local_lengths(local_header(name).subrange(0, 30)) == Ok::<LocalLengths, CoZipError>(
            LocalLengths { name_len: name.len() as u16, extra_len: 0 },
        ),
{
    let s = local_header(name);
    let fixed = s.subrange(0, 30);
    assert(le32(fixed, 0) == LOCAL_FILE_HEADER_SIG) by {
        assert(fixed.subrange(0, 4) =~= u32_le(LOCAL_FILE_HEADER_SIG));
        lemma_le32(fixed, 0, LOCAL_FILE_HEADER_SIG);
    }
    assert(le16(fixed, 26) == name.len() as u16) by {
        assert(fixed.subrange(26, 28) =~= u16_le(name.len() as u16));
        lemma_le16(fixed, 26, name.len() as u16);
    }
    assert(le16(fixed, 28) == 0) by {
        assert(fixed.subrange(28, 30) =~= u16_le(0));
        lemma_le16(fixed, 28, 0);
    }
}

/// The compressed bytes of each entry are found again in the archive, from what
/// its directory says. Left out are entries of 4294967295 compressed bytes: the
/// directory's number then asks for a ZIP64 field in the local header, which has
/// none.
pub proof fn law_payload_roundtrip(inputs: Seq<ArchiveInput>, i: int)
    requires
        0 <= i < inputs.len(),
        inputs[i].name.len() <= 0xffff,
        inputs[i].payload.len() <= usize::MAX,
        inputs[i].payload.len() != u32::MAX,
        archive(inputs).len() <= u64::MAX,
    ensures
        compressed_payload(
            archive(inputs),
            archive_records(inputs)[i].local_header_offset,
            archive_records(inputs)[i].compressed_size,
        ) == Ok::<Seq<u8>, CoZipError>(inputs[i].payload),
{
    let n = inputs.len() as int;
    let body = archive_body(inputs, n);
    let file = archive(inputs);
    let input = inputs[i];
    let at = archive_body(inputs, i).len() as int;
    let entry = input_bytes(input);
    let header = local_header(input.name);
    lemma_body_holds(inputs, i, n);
    lemma_local_header(input.name);
    assert(file.subrange(at, at + entry.len()) =~= entry) by {
        assert(file.subrange(at, at + entry.len()) =~= body.subrange(at, at + entry.len()));
    }
    assert(file.subrange(at, at + 30) =~= header.subrange(0, 30)) by {
        assert(file.subrange(at, at + 30) =~= entry.subrange(0, 30));
    }
    let start = at + header.len();
    assert(file.subrange(start, start + input.payload.len()) =~= input.payload) by {
        assert(file.subrange(start, start + input.payload.len()) =~= entry.subrange(
            header.len() as int,
            (header.len() + input.payload.len()) as int,
        ));
    }
}

/// An archive that is written is read back: its directory gives the name, the
/// checksum, the sizes and the index of every entry, in the order in which they
/// were written.
pub proof fn law_archive_roundtrip(inputs: Seq<ArchiveInput>)
    requires
        can_finish(archive_records(inputs), archive_body(inputs, inputs.len() as int).len() as u64),
        archive_body(inputs, inputs.len() as int).len() <= u64::MAX,
        forall|i: int| 0 <= i < inputs.len() ==> valid_utf8((#[trigger] inputs[i]).name),
        inputs.len() <= usize::MAX,
        44 + zip64_extension(archive_records(inputs)).len() <= usize::MAX,
    ensures
        read_directory(archive(inputs)) == Ok::<Seq<ReadRecord>, CoZipError>(
            read_back_all(archive_records(inputs), inputs.len() as int),
        ),
{
    assert(readable(archive_records(inputs)));
    law_directory_roundtrip(
        archive_body(inputs, inputs.len() as int),
        archive_records(inputs),
    );
}

} // verus!
