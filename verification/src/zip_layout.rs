//! The layout of the ZIP archives that are written, byte by byte: where the fields
//! stand by which other tools find their way through them.

use std::collections::VecDeque;

use vstd::prelude::*;
use vstd::utf8::encode_utf8;

use crate::czdi::{czdi_area_record, czdi_field, czdi_payload};
use crate::error::CoZipError;
use crate::le::{law_numbers_are_written, number, number_at, u16_le, u32_le, u64_le};
use crate::pipeline::{
    assemble_archive, assemble_directory, can_assemble, entries_up_to, in_file_order, lemma_arrival_is_placed,
    prepared_inputs, uncompressed_total, FileResult, PreparedPayload,
};
use crate::trusted::crc32;
use crate::types::CoZipStats;
use crate::zip_file::{archive_deflated_file, file_fits, file_input, DeflatedFile};
use crate::zip_laws::{
    archive, archive_body, archive_records, input_bytes, lemma_body_holds, lemma_directory,
    lemma_laid_out, ArchiveInput,
};
use crate::zip_single::{build_single_archive, single_archive, single_local_header, single_record};
use crate::zip_write::{
    blob_area, can_finish, central_directory, central_entry, central_extra, central_fixed,
    clamp_u16, clamp_u32, czdi_plan, eocd, is_large, lemma_blob_area, lemma_central_extra_len,
    lemma_fixed_lengths, lemma_tail_len, zip64_eocd, zip64_extension, zip64_field, zip64_locator,
    CentralRecord,
};

verus! {

broadcast use crate::le::group_le_len;

/// A signature stands at `at`: the letters PK and two bytes that tell what follows.
pub open spec fn signed(file: Seq<u8>, at: int, third: u8, fourth: u8) -> bool {
    &&& 0 <= at
    &&& at + 4 <= file.len()
    &&& file[at] == 0x50
    &&& file[at + 1] == 0x4B
    &&& file[at + 2] == third
    &&& file[at + 3] == fourth
}

/// The bytes stand at `at`.
pub open spec fn holds_at(file: Seq<u8>, at: int, bytes: Seq<u8>) -> bool {
    &&& 0 <= at
    &&& at + bytes.len() <= file.len()
    &&& file.subrange(at, at + bytes.len()) == bytes
}

/// A part of what stands somewhere stands there too.
pub proof fn lemma_part(file: Seq<u8>, at: int, bytes: Seq<u8>, from: int, part: Seq<u8>)
    requires
        holds_at(file, at, bytes),
        holds_at(bytes, from, part),
    ensures
        holds_at(file, at + from, part),
        number_at(file, at + from, part.len() as int) == number(part),
{
    assert(file.subrange(at + from, at + from + part.len()) =~= file.subrange(
        at,
        at + bytes.len(),
    ).subrange(from, from + part.len()));
}

proof fn lemma_signed(file: Seq<u8>, at: int, signature: u32)
    requires
        holds_at(file, at, u32_le(signature)),
    ensures
        signature == 0x0403_4b50 ==> signed(file, at, 3, 4),
        signature == 0x0201_4b50 ==> signed(file, at, 1, 2),
        signature == 0x0605_4b50 ==> signed(file, at, 5, 6),
        signature == 0x0807_4b50 ==> signed(file, at, 7, 8),
        signature == 0x0606_4b50 ==> signed(file, at, 6, 6),
        signature == 0x0706_4b50 ==> signed(file, at, 6, 7),
{
    reveal(u32_le);
    let s = file.subrange(at, at + 4);
    assert(s[0] == file[at] && s[1] == file[at + 1] && s[2] == file[at + 2] && s[3] == file[at
        + 3]);
}

/// An entry stands at `at`: a local header for deflated data whose name is UTF-8 and
/// whose checksum and sizes come later, the name, the compressed bytes, and a data
/// descriptor with the checksum and both sizes.
#[verifier::opaque]
pub open spec fn entry_stands(file: Seq<u8>, at: int, input: ArchiveInput) -> bool {
    let data = at + 30 + input.name.len();
    let end = data + input.payload.len();
    &&& signed(file, at, 3, 4)
    &&& number_at(file, at + 4, 2) == 45
    &&& number_at(file, at + 6, 2) == 0x0808
    &&& number_at(file, at + 8, 2) == 8
    &&& number_at(file, at + 10, 2) == 0
    &&& number_at(file, at + 12, 2) == 0
    &&& number_at(file, at + 14, 4) == 0
    &&& number_at(file, at + 18, 4) == 0
    &&& number_at(file, at + 22, 4) == 0
    &&& number_at(file, at + 26, 2) == input.name.len()
    &&& number_at(file, at + 28, 2) == 0
    &&& holds_at(file, at + 30, input.name)
    &&& holds_at(file, data, input.payload)
    &&& signed(file, end, 7, 8)
    &&& number_at(file, end + 4, 4) == input.crc
    &&& number_at(file, end + 8, 8) == input.payload.len()
    &&& number_at(file, end + 16, 8) == input.uncompressed_size
}

proof fn lemma_entry_stands(file: Seq<u8>, at: int, input: ArchiveInput)
    requires
        holds_at(file, at, input_bytes(input)),
        input.name.len() <= 0xffff,
        input.payload.len() <= u64::MAX,
    ensures
        entry_stands(file, at, input),
{
    reveal(entry_stands);
    let s = input_bytes(input);
    let n = input.name.len() as int;
    let p = input.payload.len() as int;
    let d = 30 + n + p;
    law_numbers_are_written(45, input.crc, p as u64);
    law_numbers_are_written(0x0808, 0, input.uncompressed_size);
    law_numbers_are_written(8, 0, 0);
    law_numbers_are_written(0, 0, 0);
    law_numbers_are_written(n as u16, 0, 0);
    assert(s.subrange(0, 4) =~= u32_le(0x0403_4b50));
    assert(s.subrange(4, 6) =~= u16_le(45));
    assert(s.subrange(6, 8) =~= u16_le(0x0808));
    assert(s.subrange(8, 10) =~= u16_le(8));
    assert(s.subrange(10, 12) =~= u16_le(0));
    assert(s.subrange(12, 14) =~= u16_le(0));
    assert(s.subrange(14, 18) =~= u32_le(0));
    assert(s.subrange(18, 22) =~= u32_le(0));
    assert(s.subrange(22, 26) =~= u32_le(0));
    assert(s.subrange(26, 28) =~= u16_le(n as u16));
    assert(s.subrange(28, 30) =~= u16_le(0));
    assert(s.subrange(30, 30 + n) =~= input.name);
    assert(s.subrange(30 + n, d) =~= input.payload);
    assert(s.subrange(d, d + 4) =~= u32_le(0x0807_4b50));
    assert(s.subrange(d + 4, d + 8) =~= u32_le(input.crc));
    assert(s.subrange(d + 8, d + 16) =~= u64_le(p as u64));
    assert(s.subrange(d + 16, d + 24) =~= u64_le(input.uncompressed_size));
    lemma_part(file, at, s, 0, u32_le(0x0403_4b50));
    lemma_signed(file, at, 0x0403_4b50);
    lemma_part(file, at, s, 4, u16_le(45));
    lemma_part(file, at, s, 6, u16_le(0x0808));
    lemma_part(file, at, s, 8, u16_le(8));
    lemma_part(file, at, s, 10, u16_le(0));
    lemma_part(file, at, s, 12, u16_le(0));
    lemma_part(file, at, s, 14, u32_le(0));
    lemma_part(file, at, s, 18, u32_le(0));
    lemma_part(file, at, s, 22, u32_le(0));
    lemma_part(file, at, s, 26, u16_le(n as u16));
    lemma_part(file, at, s, 28, u16_le(0));
    lemma_part(file, at, s, 30, input.name);
    lemma_part(file, at, s, 30 + n, input.payload);
    lemma_part(file, at, s, d, u32_le(0x0807_4b50));
    lemma_signed(file, at + d, 0x0807_4b50);
    lemma_part(file, at, s, d + 4, u32_le(input.crc));
    lemma_part(file, at, s, d + 8, u64_le(p as u64));
    lemma_part(file, at, s, d + 16, u64_le(input.uncompressed_size));
}

/// The record of an entry in the directory stands from `at` to `next`: the method and
/// flags of the local header, the checksum and the name, 32-bit sizes and offset that
/// refer to the ZIP64 field, and that field with both sizes and the place of the local
/// header, ahead of the field for the chunk index.
#[verifier::opaque]
pub open spec fn record_stands(
    file: Seq<u8>,
    at: int,
    next: int,
    input: ArchiveInput,
    local_at: int,
    area: int,
) -> bool {
    let extra = at + 46 + input.name.len();
    &&& signed(file, at, 1, 2)
    &&& number_at(file, at + 4, 2) == 45
    &&& number_at(file, at + 6, 2) == 45
    &&& number_at(file, at + 8, 2) == number_at(file, local_at + 6, 2)
    &&& number_at(file, at + 10, 2) == number_at(file, local_at + 8, 2)
    &&& number_at(file, at + 12, 2) == 0
    &&& number_at(file, at + 14, 2) == 0
    &&& number_at(file, at + 16, 4) == input.crc
    &&& number_at(file, at + 20, 4) == 0xFFFF_FFFF
    &&& number_at(file, at + 24, 4) == 0xFFFF_FFFF
    &&& number_at(file, at + 28, 2) == input.name.len()
    &&& number_at(file, at + 30, 2) == next - extra
    &&& number_at(file, at + 32, 2) == 0
    &&& number_at(file, at + 34, 2) == 0
    &&& number_at(file, at + 36, 2) == 0
    &&& number_at(file, at + 38, 4) == 0
    &&& number_at(file, at + 42, 4) == 0xFFFF_FFFF
    &&& holds_at(file, at + 46, input.name)
    &&& number_at(file, extra, 2) == 1
    &&& number_at(file, extra + 2, 2) == 24
    &&& number_at(file, extra + 4, 8) == input.uncompressed_size
    &&& number_at(file, extra + 12, 8) == input.payload.len()
    &&& number_at(file, extra + 20, 8) == local_at
    &&& index_stands(file, extra + 28, next, input.blob, area)
}

/// The field for the chunk index of an entry stands from `at` to `next`. It has tag
/// 0x435A and version 1, and holds the length, the checksum and the bytes of an index
/// that fits; the place behind `area`, the length and the checksum of one that does
/// not, whose bytes stand there; and nothing of none.
pub open spec fn index_stands(
    file: Seq<u8>,
    at: int,
    next: int,
    blob: Option<Seq<u8>>,
    area: int,
) -> bool {
    &&& next <= file.len()
    &&& number_at(file, at, 2) == 0x435A
    &&& number_at(file, at + 2, 2) == next - at - 4
    &&& file[at + 4] == 1
    &&& file[at + 6] == 0
    &&& file[at + 7] == 0
    &&& match blob {
        None => file[at + 5] == 2 && next == at + 8,
        Some(blob) => if blob.len() <= 65491 {
            &&& file[at + 5] == 0
            &&& number_at(file, at + 8, 4) == blob.len()
            &&& number_at(file, at + 12, 4) == crc32(blob)
            &&& holds_at(file, at + 16, blob)
            &&& next == at + 16 + blob.len()
        } else {
            &&& file[at + 5] == 1
            &&& number_at(file, at + 12, 4) == blob.len()
            &&& number_at(file, at + 16, 4) == crc32(blob)
            &&& holds_at(file, area + number_at(file, at + 8, 4), blob)
            &&& next == at + 20
        },
    }
}

proof fn lemma_index_stands(
    file: Seq<u8>,
    at: int,
    records: Seq<CentralRecord>,
    i: int,
    area: int,
)
    requires
        0 <= i < records.len(),
        blob_area(records, records.len() as int).len() <= u32::MAX,
        holds_at(file, at, czdi_field(czdi_payload(czdi_plan(records, i)))),
        is_large(records[i].blob) ==> holds_at(
            file,
            area,
            blob_area(records, records.len() as int),
        ),
    ensures
        index_stands(
            file,
            at,
            at + czdi_field(czdi_payload(czdi_plan(records, i))).len(),
            records[i].blob,
            area,
        ),
{
    let payload = czdi_payload(czdi_plan(records, i));
    let s = czdi_field(payload);
    lemma_central_extra_len(records, i);
    lemma_blob_area(records, i, records.len() as int);
    law_numbers_are_written(0x435A, 0, 0);
    law_numbers_are_written(payload.len() as u16, 0, 0);
    assert(s.subrange(0, 2) =~= u16_le(0x435A));
    assert(s.subrange(2, 4) =~= u16_le(payload.len() as u16));
    lemma_part(file, at, s, 0, u16_le(0x435A));
    lemma_part(file, at, s, 2, u16_le(payload.len() as u16));
    assert forall|k: int| 0 <= k < s.len() implies #[trigger] file[at + k] == s[k] by {
        assert(file.subrange(at, at + s.len())[k] == s[k]);
    }
    assert(file[at + 4] == s[4] && file[at + 5] == s[5] && file[at + 6] == s[6] && file[at + 7]
        == s[7]);
    if let Some(blob) = records[i].blob {
        let len = blob.len() as u32;
        let sum = crc32(blob);
        law_numbers_are_written(0, len, 0);
        law_numbers_are_written(0, sum, 0);
        if blob.len() <= 65491 {
            assert(s.subrange(8, 12) =~= u32_le(len));
            assert(s.subrange(12, 16) =~= u32_le(sum));
            assert(s.subrange(16, 16 + blob.len() as int) =~= blob);
            lemma_part(file, at, s, 8, u32_le(len));
            lemma_part(file, at, s, 12, u32_le(sum));
            lemma_part(file, at, s, 16, blob);
        } else {
            let all = blob_area(records, records.len() as int);
            let place = blob_area(records, i).len() as int;
            law_numbers_are_written(0, place as u32, 0);
            assert(s.subrange(8, 12) =~= u32_le(place as u32));
            lemma_part(file, at, s, 8, u32_le(place as u32));
            lemma_part(file, area, all, place, blob);
            assert(s.subrange(12, 16) =~= u32_le(len));
            assert(s.subrange(16, 20) =~= u32_le(sum));
            lemma_part(file, at, s, 12, u32_le(len));
            lemma_part(file, at, s, 16, u32_le(sum));
        }
    }
}

proof fn lemma_fixed_stands(
    file: Seq<u8>,
    at: int,
    record: CentralRecord,
    extra_len: u16,
)
    requires
        holds_at(file, at, central_fixed(record, extra_len)),
        record.name.len() <= 0xffff,
    ensures
        signed(file, at, 1, 2),
        number_at(file, at + 4, 2) == 45,
        number_at(file, at + 6, 2) == 45,
        number_at(file, at + 8, 2) == record.gp_flags,
        number_at(file, at + 10, 2) == 8,
        number_at(file, at + 12, 2) == 0,
        number_at(file, at + 14, 2) == 0,
        number_at(file, at + 16, 4) == record.crc,
        number_at(file, at + 20, 4) == 0xFFFF_FFFF,
        number_at(file, at + 24, 4) == 0xFFFF_FFFF,
        number_at(file, at + 28, 2) == record.name.len(),
        number_at(file, at + 30, 2) == extra_len,
        number_at(file, at + 32, 2) == 0,
        number_at(file, at + 34, 2) == 0,
        number_at(file, at + 36, 2) == 0,
        number_at(file, at + 38, 4) == 0,
        number_at(file, at + 42, 4) == 0xFFFF_FFFF,
{
    reveal(central_fixed);
    let s = central_fixed(record, extra_len);
    let n = record.name.len() as u16;
    law_numbers_are_written(45, record.crc, 0);
    law_numbers_are_written(record.gp_flags, 0xFFFF_FFFF, 0);
    law_numbers_are_written(8, 0, 0);
    law_numbers_are_written(n, 0, 0);
    law_numbers_are_written(extra_len, 0, 0);
    law_numbers_are_written(0, 0, 0);
    assert(s.subrange(0, 4) =~= u32_le(0x0201_4b50));
    assert(s.subrange(4, 6) =~= u16_le(45));
    assert(s.subrange(6, 8) =~= u16_le(45));
    assert(s.subrange(8, 10) =~= u16_le(record.gp_flags));
    assert(s.subrange(10, 12) =~= u16_le(8));
    assert(s.subrange(12, 14) =~= u16_le(0));
    assert(s.subrange(14, 16) =~= u16_le(0));
    assert(s.subrange(16, 20) =~= u32_le(record.crc));
    assert(s.subrange(20, 24) =~= u32_le(0xFFFF_FFFF));
    assert(s.subrange(24, 28) =~= u32_le(0xFFFF_FFFF));
    assert(s.subrange(28, 30) =~= u16_le(n));
    assert(s.subrange(30, 32) =~= u16_le(extra_len));
    assert(s.subrange(32, 34) =~= u16_le(0));
    assert(s.subrange(34, 36) =~= u16_le(0));
    assert(s.subrange(36, 38) =~= u16_le(0));
    assert(s.subrange(38, 42) =~= u32_le(0));
    assert(s.subrange(42, 46) =~= u32_le(0xFFFF_FFFF));
    lemma_part(file, at, s, 0, u32_le(0x0201_4b50));
    lemma_signed(file, at, 0x0201_4b50);
    lemma_part(file, at, s, 4, u16_le(45));
    lemma_part(file, at, s, 6, u16_le(45));
    lemma_part(file, at, s, 8, u16_le(record.gp_flags));
    lemma_part(file, at, s, 10, u16_le(8));
    lemma_part(file, at, s, 12, u16_le(0));
    lemma_part(file, at, s, 14, u16_le(0));
    lemma_part(file, at, s, 16, u32_le(record.crc));
    lemma_part(file, at, s, 20, u32_le(0xFFFF_FFFF));
    lemma_part(file, at, s, 24, u32_le(0xFFFF_FFFF));
    lemma_part(file, at, s, 28, u16_le(n));
    lemma_part(file, at, s, 30, u16_le(extra_len));
    lemma_part(file, at, s, 32, u16_le(0));
    lemma_part(file, at, s, 34, u16_le(0));
    lemma_part(file, at, s, 36, u16_le(0));
    lemma_part(file, at, s, 38, u32_le(0));
    lemma_part(file, at, s, 42, u32_le(0xFFFF_FFFF));
}

proof fn lemma_zip64_stands(file: Seq<u8>, at: int, record: CentralRecord)
    requires
        holds_at(file, at, zip64_field(record)),
    ensures
        number_at(file, at, 2) == 1,
        number_at(file, at + 2, 2) == 24,
        number_at(file, at + 4, 8) == record.uncompressed_size,
        number_at(file, at + 12, 8) == record.compressed_size,
        number_at(file, at + 20, 8) == record.local_header_offset,
{
    let s = zip64_field(record);
    law_numbers_are_written(1, 0, record.uncompressed_size);
    law_numbers_are_written(24, 0, record.compressed_size);
    law_numbers_are_written(0, 0, record.local_header_offset);
    assert(s.subrange(0, 2) =~= u16_le(1));
    assert(s.subrange(2, 4) =~= u16_le(24));
    assert(s.subrange(4, 12) =~= u64_le(record.uncompressed_size));
    assert(s.subrange(12, 20) =~= u64_le(record.compressed_size));
    assert(s.subrange(20, 28) =~= u64_le(record.local_header_offset));
    lemma_part(file, at, s, 0, u16_le(1));
    lemma_part(file, at, s, 2, u16_le(24));
    lemma_part(file, at, s, 4, u64_le(record.uncompressed_size));
    lemma_part(file, at, s, 12, u64_le(record.compressed_size));
    lemma_part(file, at, s, 20, u64_le(record.local_header_offset));
}

proof fn lemma_record_stands(
    file: Seq<u8>,
    at: int,
    records: Seq<CentralRecord>,
    i: int,
    input: ArchiveInput,
    local_at: int,
    area: int,
)
    requires
        0 <= i < records.len(),
        blob_area(records, records.len() as int).len() <= u32::MAX,
        holds_at(file, at, central_entry(records, i)),
        entry_stands(file, local_at, input),
        input.name.len() <= 0xffff,
        input.payload.len() <= u64::MAX,
        local_at <= u64::MAX,
        is_large(records[i].blob) ==> holds_at(
            file,
            area,
            blob_area(records, records.len() as int),
        ),
        records[i] == (CentralRecord {
            name: input.name,
            gp_flags: 0x0808,
            crc: input.crc,
            compressed_size: input.payload.len() as u64,
            uncompressed_size: input.uncompressed_size,
            local_header_offset: local_at as u64,
            blob: input.blob,
        }),
    ensures
        record_stands(file, at, at + central_entry(records, i).len(), input, local_at, area),
{
    reveal(central_entry);
    reveal(entry_stands);
    reveal(record_stands);
    let record = records[i];
    let extra = central_extra(records, i);
    let fixed = central_fixed(record, extra.len() as u16);
    let index = czdi_field(czdi_payload(czdi_plan(records, i)));
    let s = central_entry(records, i);
    let n = record.name.len() as int;
    lemma_central_extra_len(records, i);
    lemma_fixed_lengths(record, extra.len() as u16, record.name);
    assert(s.subrange(0, 46) =~= fixed);
    assert(s.subrange(46, 46 + n) =~= record.name);
    assert(s.subrange(46 + n, 46 + n + 28) =~= zip64_field(record));
    assert(s.subrange(46 + n + 28, 46 + n + 28 + index.len()) =~= index);
    lemma_part(file, at, s, 0, fixed);
    lemma_part(file, at, s, 46, record.name);
    lemma_part(file, at, s, 46 + n, zip64_field(record));
    lemma_part(file, at, s, 46 + n + 28, index);
    lemma_fixed_stands(file, at, record, extra.len() as u16);
    lemma_zip64_stands(file, at + 46 + n, record);
    lemma_index_stands(file, at + 46 + n + 28, records, i, area);
}

/// The end of an archive of `count` entries stands, whose directory goes from `start`
/// to `end`: the ZIP64 end record with the count, the size and the place of the
/// directory, the locator of that record, and the end record, which says the same as
/// far as its fields go. Large indexes stand behind the ZIP64 end record, with their
/// mark and their length.
#[verifier::opaque]
pub open spec fn end_stands(file: Seq<u8>, start: int, end: int, count: int) -> bool {
    let locator = file.len() - 42;
    let last = file.len() - 22;
    &&& signed(file, end, 6, 6)
    &&& number_at(file, end + 4, 8) == locator - end - 12
    &&& number_at(file, end + 12, 2) == 45
    &&& number_at(file, end + 14, 2) == 45
    &&& number_at(file, end + 16, 4) == 0
    &&& number_at(file, end + 20, 4) == 0
    &&& number_at(file, end + 24, 8) == count
    &&& number_at(file, end + 32, 8) == count
    &&& number_at(file, end + 40, 8) == end - start
    &&& number_at(file, end + 48, 8) == start
    &&& locator > end + 56 ==> {
        &&& file[end + 56] == 0x43
        &&& file[end + 57] == 0x5A
        &&& file[end + 58] == 0x44
        &&& file[end + 59] == 0x47
        &&& file[end + 60] == 1
        &&& file[end + 61] == 0
        &&& file[end + 62] == 0
        &&& file[end + 63] == 0
        &&& number_at(file, end + 64, 4) == locator - end - 68
    }
    &&& signed(file, locator, 6, 7)
    &&& number_at(file, locator + 4, 4) == 0
    &&& number_at(file, locator + 8, 8) == end
    &&& number_at(file, locator + 16, 4) == 1
    &&& signed(file, last, 5, 6)
    &&& number_at(file, last + 4, 2) == 0
    &&& number_at(file, last + 6, 2) == 0
    &&& number_at(file, last + 8, 2) == if count < 0xFFFF {
        count
    } else {
        0xFFFF
    }
    &&& number_at(file, last + 10, 2) == number_at(file, last + 8, 2)
    &&& number_at(file, last + 12, 4) == if end - start < 0xFFFF_FFFF {
        end - start
    } else {
        0xFFFF_FFFF
    }
    &&& number_at(file, last + 16, 4) == if start < 0xFFFF_FFFF {
        start
    } else {
        0xFFFF_FFFF
    }
    &&& number_at(file, last + 20, 2) == 0
}

proof fn lemma_zip64_end_stands(file: Seq<u8>, at: int, count: u64, size: u64, offset: u64, extension: Seq<u8>)
    requires
        holds_at(file, at, zip64_eocd(count, size, offset, extension)),
        44 + extension.len() <= u64::MAX,
    ensures
        zip64_eocd(count, size, offset, extension).len() == 56 + extension.len(),
        signed(file, at, 6, 6),
        number_at(file, at + 4, 8) == 44 + extension.len(),
        number_at(file, at + 12, 2) == 45,
        number_at(file, at + 14, 2) == 45,
        number_at(file, at + 16, 4) == 0,
        number_at(file, at + 20, 4) == 0,
        number_at(file, at + 24, 8) == count,
        number_at(file, at + 32, 8) == count,
        number_at(file, at + 40, 8) == size,
        number_at(file, at + 48, 8) == offset,
        holds_at(file, at + 56, extension),
{
    reveal(zip64_eocd);
    let s = zip64_eocd(count, size, offset, extension);
    let len = (44 + extension.len()) as u64;
    law_numbers_are_written(45, 0, len);
    law_numbers_are_written(0, 0, count);
    law_numbers_are_written(0, 0, size);
    law_numbers_are_written(0, 0, offset);
    assert(s.subrange(0, 4) =~= u32_le(0x0606_4b50));
    assert(s.subrange(4, 12) =~= u64_le(len));
    assert(s.subrange(12, 14) =~= u16_le(45));
    assert(s.subrange(14, 16) =~= u16_le(45));
    assert(s.subrange(16, 20) =~= u32_le(0));
    assert(s.subrange(20, 24) =~= u32_le(0));
    assert(s.subrange(24, 32) =~= u64_le(count));
    assert(s.subrange(32, 40) =~= u64_le(count));
    assert(s.subrange(40, 48) =~= u64_le(size));
    assert(s.subrange(48, 56) =~= u64_le(offset));
    assert(s.subrange(56, 56 + extension.len() as int) =~= extension);
    lemma_part(file, at, s, 0, u32_le(0x0606_4b50));
    lemma_signed(file, at, 0x0606_4b50);
    lemma_part(file, at, s, 4, u64_le(len));
    lemma_part(file, at, s, 12, u16_le(45));
    lemma_part(file, at, s, 14, u16_le(45));
    lemma_part(file, at, s, 16, u32_le(0));
    lemma_part(file, at, s, 20, u32_le(0));
    lemma_part(file, at, s, 24, u64_le(count));
    lemma_part(file, at, s, 32, u64_le(count));
    lemma_part(file, at, s, 40, u64_le(size));
    lemma_part(file, at, s, 48, u64_le(offset));
    lemma_part(file, at, s, 56, extension);
}

proof fn lemma_locator_stands(file: Seq<u8>, at: int, end: u64)
    requires
        holds_at(file, at, zip64_locator(end)),
    ensures
        signed(file, at, 6, 7),
        number_at(file, at + 4, 4) == 0,
        number_at(file, at + 8, 8) == end,
        number_at(file, at + 16, 4) == 1,
{
    reveal(zip64_locator);
    let s = zip64_locator(end);
    law_numbers_are_written(0, 0, end);
    law_numbers_are_written(0, 1, 0);
    assert(s.subrange(0, 4) =~= u32_le(0x0706_4b50));
    assert(s.subrange(4, 8) =~= u32_le(0));
    assert(s.subrange(8, 16) =~= u64_le(end));
    assert(s.subrange(16, 20) =~= u32_le(1));
    lemma_part(file, at, s, 0, u32_le(0x0706_4b50));
    lemma_signed(file, at, 0x0706_4b50);
    lemma_part(file, at, s, 4, u32_le(0));
    lemma_part(file, at, s, 8, u64_le(end));
    lemma_part(file, at, s, 16, u32_le(1));
}

proof fn lemma_eocd_stands(file: Seq<u8>, at: int, count: u64, size: u64, offset: u64)
    requires
        holds_at(file, at, eocd(count, size, offset)),
    ensures
        signed(file, at, 5, 6),
        number_at(file, at + 4, 2) == 0,
        number_at(file, at + 6, 2) == 0,
        number_at(file, at + 8, 2) == if count < 0xFFFF {
            count as int
        } else {
            0xFFFF
        },
        number_at(file, at + 10, 2) == number_at(file, at + 8, 2),
        number_at(file, at + 12, 4) == if size < 0xFFFF_FFFF {
            size as int
        } else {
            0xFFFF_FFFF
        },
        number_at(file, at + 16, 4) == if offset < 0xFFFF_FFFF {
            offset as int
        } else {
            0xFFFF_FFFF
        },
        number_at(file, at + 20, 2) == 0,
{
    reveal(eocd);
    let s = eocd(count, size, offset);
    law_numbers_are_written(0, 0, 0);
    law_numbers_are_written(clamp_u16(count), clamp_u32(size), 0);
    law_numbers_are_written(0, clamp_u32(offset), 0);
    assert(s.subrange(0, 4) =~= u32_le(0x0605_4b50));
    assert(s.subrange(4, 6) =~= u16_le(0));
    assert(s.subrange(6, 8) =~= u16_le(0));
    assert(s.subrange(8, 10) =~= u16_le(clamp_u16(count)));
    assert(s.subrange(10, 12) =~= u16_le(clamp_u16(count)));
    assert(s.subrange(12, 16) =~= u32_le(clamp_u32(size)));
    assert(s.subrange(16, 20) =~= u32_le(clamp_u32(offset)));
    assert(s.subrange(20, 22) =~= u16_le(0));
    lemma_part(file, at, s, 0, u32_le(0x0605_4b50));
    lemma_signed(file, at, 0x0605_4b50);
    lemma_part(file, at, s, 4, u16_le(0));
    lemma_part(file, at, s, 6, u16_le(0));
    lemma_part(file, at, s, 8, u16_le(clamp_u16(count)));
    lemma_part(file, at, s, 10, u16_le(clamp_u16(count)));
    lemma_part(file, at, s, 12, u32_le(clamp_u32(size)));
    lemma_part(file, at, s, 16, u32_le(clamp_u32(offset)));
    lemma_part(file, at, s, 20, u16_le(0));
}

proof fn lemma_area_stands(file: Seq<u8>, at: int, area: Seq<u8>)
    requires
        holds_at(file, at, czdi_area_record(area)),
        area.len() <= u32::MAX,
    ensures
        czdi_area_record(area).len() == 12 + area.len(),
        file[at] == 0x43,
        file[at + 1] == 0x5A,
        file[at + 2] == 0x44,
        file[at + 3] == 0x47,
        file[at + 4] == 1,
        file[at + 5] == 0,
        file[at + 6] == 0,
        file[at + 7] == 0,
        number_at(file, at + 8, 4) == area.len(),
        holds_at(file, at + 12, area),
{
    let s = czdi_area_record(area);
    law_numbers_are_written(0, area.len() as u32, 0);
    assert(s.subrange(8, 12) =~= u32_le(area.len() as u32));
    assert(s.subrange(12, 12 + area.len() as int) =~= area);
    lemma_part(file, at, s, 8, u32_le(area.len() as u32));
    lemma_part(file, at, s, 12, area);
    assert forall|k: int| 0 <= k < 8 implies #[trigger] file[at + k] == s[k] by {
        assert(file.subrange(at, at + s.len())[k] == s[k]);
    }
    assert(file[at + 0] == s[0] && file[at + 1] == s[1] && file[at + 2] == s[2] && file[at + 3]
        == s[3] && file[at + 4] == s[4] && file[at + 5] == s[5] && file[at + 6] == s[6] && file[at
        + 7] == s[7]);
}

/// Where the local header of entry `i` stands: behind the entries before it.
pub open spec fn local_place(inputs: Seq<ArchiveInput>, i: int) -> int
    decreases i,
{
    if i <= 0 {
        0
    } else {
        local_place(inputs, i - 1) + 54 + inputs[i - 1].name.len() + inputs[i - 1].payload.len()
    }
}

proof fn lemma_local_place(inputs: Seq<ArchiveInput>, i: int)
    requires
        0 <= i <= inputs.len(),
    ensures
        archive_body(inputs, i).len() == local_place(inputs, i),
    decreases i,
{
    if i > 0 {
        lemma_local_place(inputs, i - 1);
    }
}

/// The file is the ZIP archive of these entries: they stand one behind the other from
/// the start on, the records of the directory follow at these places, each leading to
/// its entry, and the end follows on the last of them.
pub open spec fn is_archive_of(file: Seq<u8>, inputs: Seq<ArchiveInput>, places: Seq<int>) -> bool {
    let n = inputs.len() as int;
    &&& places.len() == n + 1
    &&& places[0] == local_place(inputs, n)
    &&& forall|i: int|
        0 <= i < n ==> entry_stands(file, local_place(inputs, i), #[trigger] inputs[i])
    &&& forall|i: int|
        0 <= i < n ==> record_stands(
            file,
            places[i],
            places[i + 1],
            #[trigger] inputs[i],
            local_place(inputs, i),
            places[n] + 68,
        )
    &&& end_stands(file, places[0], places[n], n)
}

/// Where the records of the directory stand.
pub open spec fn record_places(inputs: Seq<ArchiveInput>) -> Seq<int> {
    Seq::new(
        inputs.len() + 1,
        |i: int|
            (archive_body(inputs, inputs.len() as int).len() + central_directory(
                archive_records(inputs),
                i,
            ).len()) as int,
    )
}

/// An entry and its record stand where they belong.
proof fn lemma_input_stands(inputs: Seq<ArchiveInput>, i: int)
    requires
        can_finish(archive_records(inputs), archive_body(inputs, inputs.len() as int).len() as u64),
        archive_body(inputs, inputs.len() as int).len() <= u64::MAX,
        0 <= i < inputs.len() <= u64::MAX,
    ensures
        entry_stands(archive(inputs), local_place(inputs, i), inputs[i]),
        record_stands(
            archive(inputs),
            record_places(inputs)[i],
            record_places(inputs)[i + 1],
            inputs[i],
            local_place(inputs, i),
            record_places(inputs)[inputs.len() as int] + 68,
        ),
{
    let n = inputs.len() as int;
    let file = archive(inputs);
    let body = archive_body(inputs, n);
    let offset = body.len() as u64;
    let records = archive_records(inputs);
    let directory = central_directory(records, n);
    let end = record_places(inputs)[n];
    let at = archive_body(inputs, i).len() as int;
    let entry = input_bytes(inputs[i]);
    lemma_laid_out(body, records);
    lemma_tail_len(records, offset);
    lemma_body_holds(inputs, i, n);
    lemma_local_place(inputs, i);
    assert(file.subrange(at, at + entry.len()) =~= body.subrange(at, at + entry.len()));
    assert(records[i].name.len() <= 0xffff);
    lemma_entry_stands(file, at, inputs[i]);
    lemma_directory(records, i, n);
    let from = central_directory(records, i).len() as int;
    let record = central_entry(records, i);
    assert(central_directory(records, i + 1) == central_directory(records, i) + record);
    assert(file.subrange(offset + from, offset + from + record.len()) =~= directory.subrange(
        from,
        from + record.len(),
    )) by {
        assert(file.subrange(offset + from, offset + from + record.len()) =~= file.subrange(
            offset as int,
            offset + directory.len(),
        ).subrange(from, from + record.len()));
    }
    if is_large(records[i].blob) {
        lemma_blob_area(records, i, n);
        lemma_zip64_end_stands(
            file,
            end,
            n as u64,
            directory.len() as u64,
            offset,
            zip64_extension(records),
        );
        lemma_area_stands(file, end + 56, blob_area(records, n));
    }
    lemma_record_stands(file, offset + from, records, i, inputs[i], at, end + 68);
}

/// The end records make the end of an archive.
proof fn lemma_parts_of_end(
    file: Seq<u8>,
    start: u64,
    end: u64,
    count: u64,
    extension: Seq<u8>,
    area: Seq<u8>,
)
    requires
        start <= end,
        holds_at(file, end as int, zip64_eocd(count, (end - start) as u64, start, extension)),
        holds_at(file, file.len() - 42, zip64_locator(end)),
        holds_at(file, file.len() - 22, eocd(count, (end - start) as u64, start)),
        file.len() == end + 98 + extension.len(),
        file.len() <= u64::MAX,
        extension.len() > 0 ==> extension == czdi_area_record(area) && area.len() <= u32::MAX,
    ensures
        end_stands(file, start as int, end as int, count as int),
{
    reveal(end_stands);
    let size = (end - start) as u64;
    lemma_zip64_end_stands(file, end as int, count, size, start, extension);
    lemma_locator_stands(file, file.len() - 42, end);
    lemma_eocd_stands(file, file.len() - 22, count, size, start);
    if extension.len() > 0 {
        lemma_area_stands(file, end + 56, area);
    }
}

/// The end of an archive stands where it belongs.
proof fn lemma_end_stands(inputs: Seq<ArchiveInput>)
    requires
        can_finish(archive_records(inputs), archive_body(inputs, inputs.len() as int).len() as u64),
        archive_body(inputs, inputs.len() as int).len() <= u64::MAX,
        inputs.len() <= u64::MAX,
    ensures
        end_stands(
            archive(inputs),
            record_places(inputs)[0],
            record_places(inputs)[inputs.len() as int],
            inputs.len() as int,
        ),
{
    let n = inputs.len() as int;
    let body = archive_body(inputs, n);
    let offset = body.len() as u64;
    let records = archive_records(inputs);
    lemma_laid_out(body, records);
    lemma_tail_len(records, offset);
    assert(central_directory(records, 0).len() == 0);
    lemma_parts_of_end(
        archive(inputs),
        offset,
        record_places(inputs)[n] as u64,
        n as u64,
        zip64_extension(records),
        blob_area(records, n),
    );
}

proof fn lemma_is_archive_of(inputs: Seq<ArchiveInput>)
    requires
        can_finish(archive_records(inputs), archive_body(inputs, inputs.len() as int).len() as u64),
        archive_body(inputs, inputs.len() as int).len() <= u64::MAX,
        inputs.len() <= u64::MAX,
    ensures
        is_archive_of(archive(inputs), inputs, record_places(inputs)),
{
    assert forall|i: int| 0 <= i < inputs.len() implies entry_stands(
        archive(inputs),
        local_place(inputs, i),
        #[trigger] inputs[i],
    ) && record_stands(
        archive(inputs),
        record_places(inputs)[i],
        record_places(inputs)[i + 1],
        inputs[i],
        local_place(inputs, i),
        record_places(inputs)[inputs.len() as int] + 68,
    ) by {
        lemma_input_stands(inputs, i);
    }
    lemma_end_stands(inputs);
    lemma_local_place(inputs, inputs.len() as int);
    assert(central_directory(archive_records(inputs), 0).len() == 0);
}

/// What was handed over for an archive.
pub open spec fn entries_given(prepared: Seq<PreparedPayload>) -> Seq<ArchiveInput> {
    Seq::new(
        prepared.len(),
        |i: int|
            ArchiveInput {
                name: encode_utf8(prepared[i].entry.name@),
                payload: prepared[i].payload@,
                crc: prepared[i].entry.crc,
                uncompressed_size: prepared[i].entry.uncompressed_size,
                blob: match prepared[i].entry.czdi_blob {
                    Some(blob) => Some(blob@),
                    None => None,
                },
            },
    )
}

/// The sum of numbers.
pub open spec fn sum(numbers: Seq<int>) -> int
    decreases numbers.len(),
{
    if numbers.len() == 0 {
        0
    } else {
        numbers[0] + sum(numbers.drop_first())
    }
}

/// How long the files are.
pub open spec fn sizes_given(prepared: Seq<PreparedPayload>) -> Seq<int> {
    Seq::new(prepared.len(), |i: int| prepared[i].entry.uncompressed_size as int)
}

proof fn lemma_sum_last(numbers: Seq<int>)
    requires
        numbers.len() > 0,
    ensures
        sum(numbers) == sum(numbers.drop_last()) + numbers.last(),
    decreases numbers.len(),
{
    if numbers.len() == 1 {
        assert(numbers.drop_last() =~= Seq::<int>::empty());
        assert(numbers.drop_first() =~= Seq::<int>::empty());
    } else {
        lemma_sum_last(numbers.drop_first());
        assert(numbers.drop_first().drop_last() =~= numbers.drop_last().drop_first());
    }
}

proof fn lemma_sizes_add_up(prepared: Seq<PreparedPayload>)
    ensures
        uncompressed_total(prepared) == sum(sizes_given(prepared)),
    decreases prepared.len(),
{
    if prepared.len() > 0 {
        lemma_sizes_add_up(prepared.drop_last());
        lemma_sum_last(sizes_given(prepared));
        assert(sizes_given(prepared.drop_last()) =~= sizes_given(prepared).drop_last());
    }
}

/// An archive that is put together follows the ZIP format, whatever is put into it: a
/// tool that goes by the local headers and one that goes by the directory find the same
/// entries, with the same names, flags and method, and the bytes, sizes and checksums
/// that were handed over. Its totals are the number of entries, their bytes, and its
/// own length.
pub proof fn law_written_archive_follows_the_format(
    prepared: VecDeque<PreparedPayload>,
    bytes: Vec<u8>,
    stats: CoZipStats,
)
    requires
        prepared@.len() <= usize::MAX,
        call_ensures(assemble_archive, (prepared,), Ok((bytes, stats))),
    ensures
        exists|places: Seq<int>| #[trigger]
            is_archive_of(bytes@, entries_given(prepared@), places),
        stats.entries == prepared@.len(),
        stats.input_bytes == sum(sizes_given(prepared@)),
        stats.output_bytes == bytes@.len(),
{
    lemma_sizes_add_up(prepared@);
    let inputs = prepared_inputs(prepared@);
    let places = record_places(inputs);
    lemma_is_archive_of(inputs);
    assert(entries_given(prepared@) =~= inputs);
    assert(is_archive_of(bytes@, entries_given(prepared@), places));
}

/// More bytes than an entry takes up in an archive, with its record and its index.
pub open spec fn room(input: ArchiveInput) -> int {
    let index: int = match input.blob {
        Some(blob) => blob.len() as int,
        None => 0,
    };
    input.payload.len() + 2 * input.name.len() + index + 200
}

/// More bytes than each entry takes up.
pub open spec fn rooms(inputs: Seq<ArchiveInput>) -> Seq<int> {
    Seq::new(inputs.len(), |i: int| room(inputs[i]))
}

/// The lengths of the indexes.
pub open spec fn index_lens(inputs: Seq<ArchiveInput>) -> Seq<int> {
    Seq::new(
        inputs.len(),
        |i: int|
            match inputs[i].blob {
                Some(blob) => blob.len() as int,
                None => 0,
            },
    )
}

proof fn lemma_room(inputs: Seq<ArchiveInput>, n: int)
    requires
        0 <= n <= inputs.len(),
        inputs.len() <= u64::MAX,
    ensures
        archive_body(inputs, n).len() + central_directory(archive_records(inputs), n).len()
            + blob_area(archive_records(inputs), n).len() <= sum(rooms(inputs).take(n)),
        blob_area(archive_records(inputs), n).len() <= sum(index_lens(inputs).take(n)),
    decreases n,
{
    let records = archive_records(inputs);
    if n > 0 {
        let input = inputs[n - 1];
        lemma_room(inputs, n - 1);
        lemma_sum_last(rooms(inputs).take(n));
        lemma_sum_last(index_lens(inputs).take(n));
        assert(rooms(inputs).take(n).drop_last() =~= rooms(inputs).take(n - 1));
        assert(index_lens(inputs).take(n).drop_last() =~= index_lens(inputs).take(n - 1));
        lemma_central_extra_len(records, n - 1);
        lemma_fixed_lengths(
            records[n - 1],
            central_extra(records, n - 1).len() as u16,
            input.name,
        );
        assert(input_bytes(input).len() == 54 + input.name.len() + input.payload.len());
        reveal(central_entry);
        assert(central_entry(records, n - 1).len() == 78 + input.name.len() + czdi_payload(
            czdi_plan(records, n - 1),
        ).len());
    }
}

/// An archive is made wherever the names, the indexes and the whole fit: a name has no
/// more than 65535 bytes, the indexes together no more than 4294967295, and neither the
/// files nor the archive more than a number of 64 bits can say.
pub proof fn law_fitting_archives_are_made(
    prepared: VecDeque<PreparedPayload>,
    r: Result<(Vec<u8>, CoZipStats), CoZipError>,
)
    requires
        call_ensures(assemble_archive, (prepared,), r),
        prepared@.len() <= usize::MAX,
        forall|i: int|
            0 <= i < prepared@.len() ==> encode_utf8(
                (#[trigger] prepared@[i]).entry.name@,
            ).len() <= 65535,
        sum(sizes_given(prepared@)) <= u64::MAX,
        sum(index_lens(entries_given(prepared@))) <= u32::MAX,
        sum(rooms(entries_given(prepared@))) + 200 <= u64::MAX,
    ensures
        r is Ok,
{
    let inputs = prepared_inputs(prepared@);
    let n = inputs.len() as int;
    let records = archive_records(inputs);
    assert(entries_given(prepared@) =~= inputs);
    lemma_sizes_add_up(prepared@);
    lemma_room(inputs, n);
    assert(rooms(inputs).take(n) =~= rooms(inputs));
    assert(index_lens(inputs).take(n) =~= index_lens(inputs));
    lemma_tail_len(records, archive_body(inputs, n).len() as u64);
    assert forall|i: int| 0 <= i < n implies (#[trigger] inputs[i]).name.len() <= 0xffff by {
        assert(encode_utf8(prepared@[i].entry.name@).len() <= 65535);
    }
    assert(can_assemble(prepared@));
}

/// An archive is not made where a name has more than 65535 bytes.
pub proof fn law_long_names_are_refused(
    prepared: VecDeque<PreparedPayload>,
    i: int,
    r: Result<(Vec<u8>, CoZipStats), CoZipError>,
)
    requires
        call_ensures(assemble_archive, (prepared,), r),
        0 <= i < prepared@.len(),
        encode_utf8(prepared@[i].entry.name@).len() > 65535,
    ensures
        r is Err && r->Err_0 == CoZipError::DataTooLarge,
{
    assert(prepared_inputs(prepared@)[i].name.len() > 0xffff);
}

/// The archive of a directory holds its files in their order, whatever the order in
/// which their results came.
pub proof fn law_directory_archive_is_in_file_order(
    arrivals: VecDeque<(usize, FileResult)>,
    files: Seq<PreparedPayload>,
    bytes: Vec<u8>,
    stats: CoZipStats,
)
    requires
        call_ensures(assemble_directory, (arrivals,), Ok((bytes, stats))),
        arrivals@.len() == files.len() < usize::MAX,
        forall|i: int|
            0 <= i < files.len() ==> arrivals@.contains(
                (i as usize, Ok::<PreparedPayload, CoZipError>(#[trigger] files[i])),
            ),
        forall|a: int, b: int|
            0 <= a < b < arrivals@.len() ==> (#[trigger] arrivals@[a]).0
                != (#[trigger] arrivals@[b]).0,
    ensures
        exists|places: Seq<int>| #[trigger] is_archive_of(bytes@, entries_given(files), places),
        stats.entries == files.len(),
        stats.input_bytes == sum(sizes_given(files)),
        stats.output_bytes == bytes@.len(),
{
    let ordered = in_file_order(arrivals@);
    assert forall|i: int| 0 <= i < files.len() implies #[trigger] ordered[i] == Ok::<
        PreparedPayload,
        CoZipError,
    >(files[i]) by {
        let came = (i as usize, Ok::<PreparedPayload, CoZipError>(files[i]));
        let k = choose|k: int| 0 <= k < arrivals@.len() && arrivals@[k] == came;
        lemma_arrival_is_placed(arrivals@, k);
    }
    let entries = entries_up_to(ordered, ordered.len() as int);
    assert(entries =~= files);
    lemma_sizes_add_up(files);
    let inputs = prepared_inputs(files);
    lemma_is_archive_of(inputs);
    assert(entries_given(files) =~= inputs);
    assert(is_archive_of(bytes@, entries_given(files), record_places(inputs)));
}

/// A file that could not be read or compressed keeps the archive of its directory from
/// being made.
pub proof fn law_failed_files_fail_the_directory(
    arrivals: VecDeque<(usize, FileResult)>,
    k: int,
    r: Result<(Vec<u8>, CoZipStats), CoZipError>,
)
    requires
        call_ensures(assemble_directory, (arrivals,), r),
        0 <= k < arrivals@.len() < usize::MAX,
        arrivals@[k].1 is Err,
        arrivals@[k].0 < arrivals@.len(),
        forall|a: int, b: int|
            0 <= a < b < arrivals@.len() ==> (#[trigger] arrivals@[a]).0
                != (#[trigger] arrivals@[b]).0,
    ensures
        r is Err,
{
    lemma_arrival_is_placed(arrivals@, k);
    let ordered = in_file_order(arrivals@);
    assert(ordered[arrivals@[k].0 as int] is Err);
}

/// What was handed over for an archive of a single file.
pub open spec fn file_given(name: Seq<char>, deflated: DeflatedFile) -> ArchiveInput {
    ArchiveInput {
        name: encode_utf8(name),
        payload: deflated.payload@,
        crc: deflated.crc32,
        uncompressed_size: deflated.uncompressed_size,
        blob: match deflated.czdi_blob {
            Some(blob) => Some(blob@),
            None => None,
        },
    }
}

/// An archive of a single file follows the ZIP format.
pub proof fn law_written_file_follows_the_format(
    name: String,
    deflated: DeflatedFile,
    bytes: Vec<u8>,
    stats: CoZipStats,
)
    requires
        call_ensures(archive_deflated_file, (name, deflated), Ok((bytes, stats))),
    ensures
        exists|places: Seq<int>| #[trigger]
            is_archive_of(bytes@, seq![file_given(name@, deflated)], places),
        stats == (CoZipStats {
            entries: 1,
            input_bytes: deflated.uncompressed_size,
            output_bytes: bytes@.len() as u64,
        }),
{
    lemma_file_is_archive_of(name@, deflated);
}

/// The file is the ZIP archive of one entry, made in one go: a local header that knows
/// the checksum and refers to a ZIP64 field for the sizes, the compressed bytes, the
/// record of the directory with the same flags, method, checksum and name, and the end.
pub open spec fn is_single_archive(
    file: Seq<u8>,
    name: Seq<u8>,
    crc: u32,
    compressed: Seq<u8>,
    uncompressed_size: u64,
) -> bool {
    let n = name.len() as int;
    let data = 50 + n;
    let record = data + compressed.len();
    let extra = record + 46 + n;
    &&& signed(file, 0, 3, 4)
    &&& number_at(file, 4, 2) == 45
    &&& number_at(file, 6, 2) == 0x0800
    &&& number_at(file, 8, 2) == 8
    &&& number_at(file, 14, 4) == crc
    &&& number_at(file, 18, 4) == 0xFFFF_FFFF
    &&& number_at(file, 22, 4) == 0xFFFF_FFFF
    &&& number_at(file, 26, 2) == n
    &&& number_at(file, 28, 2) == 20
    &&& holds_at(file, 30, name)
    &&& number_at(file, 30 + n, 2) == 1
    &&& number_at(file, 32 + n, 2) == 16
    &&& number_at(file, 34 + n, 8) == uncompressed_size
    &&& number_at(file, 42 + n, 8) == compressed.len()
    &&& holds_at(file, data, compressed)
    &&& signed(file, record, 1, 2)
    &&& number_at(file, record + 6, 2) == 45
    &&& number_at(file, record + 8, 2) == number_at(file, 6, 2)
    &&& number_at(file, record + 10, 2) == number_at(file, 8, 2)
    &&& number_at(file, record + 16, 4) == crc
    &&& number_at(file, record + 20, 4) == 0xFFFF_FFFF
    &&& number_at(file, record + 24, 4) == 0xFFFF_FFFF
    &&& number_at(file, record + 28, 2) == n
    &&& number_at(file, record + 30, 2) == 28
    &&& number_at(file, record + 32, 2) == 0
    &&& number_at(file, record + 42, 4) == 0xFFFF_FFFF
    &&& holds_at(file, record + 46, name)
    &&& number_at(file, extra, 2) == 1
    &&& number_at(file, extra + 2, 2) == 24
    &&& number_at(file, extra + 4, 8) == uncompressed_size
    &&& number_at(file, extra + 12, 8) == compressed.len()
    &&& number_at(file, extra + 20, 8) == 0
    &&& end_stands(file, record, extra + 28, 1)
}

proof fn lemma_single_header_stands(file: Seq<u8>, record: CentralRecord)
    requires
        holds_at(file, 0, single_local_header(record)),
        record.name.len() <= 0xffff,
    ensures
        single_local_header(record).len() == 50 + record.name.len(),
        ({
            let n = record.name.len() as int;
            &&& signed(file, 0, 3, 4)
            &&& number_at(file, 4, 2) == 45
            &&& number_at(file, 6, 2) == 0x0800
            &&& number_at(file, 8, 2) == 8
            &&& number_at(file, 14, 4) == record.crc
            &&& number_at(file, 18, 4) == 0xFFFF_FFFF
            &&& number_at(file, 22, 4) == 0xFFFF_FFFF
            &&& number_at(file, 26, 2) == n
            &&& number_at(file, 28, 2) == 20
            &&& holds_at(file, 30, record.name)
            &&& number_at(file, 30 + n, 2) == 1
            &&& number_at(file, 32 + n, 2) == 16
            &&& number_at(file, 34 + n, 8) == record.uncompressed_size
            &&& number_at(file, 42 + n, 8) == record.compressed_size
        }),
{
    reveal(single_local_header);
    let s = single_local_header(record);
    let n = record.name.len() as int;
    law_numbers_are_written(45, record.crc, record.uncompressed_size);
    law_numbers_are_written(0x0800, 0xFFFF_FFFF, record.compressed_size);
    law_numbers_are_written(8, 0, 0);
    law_numbers_are_written(n as u16, 0, 0);
    law_numbers_are_written(20, 0, 0);
    law_numbers_are_written(1, 0, 0);
    law_numbers_are_written(16, 0, 0);
    assert(s.subrange(0, 4) =~= u32_le(0x0403_4b50));
    assert(s.subrange(4, 6) =~= u16_le(45));
    assert(s.subrange(6, 8) =~= u16_le(0x0800));
    assert(s.subrange(8, 10) =~= u16_le(8));
    assert(s.subrange(14, 18) =~= u32_le(record.crc));
    assert(s.subrange(18, 22) =~= u32_le(0xFFFF_FFFF));
    assert(s.subrange(22, 26) =~= u32_le(0xFFFF_FFFF));
    assert(s.subrange(26, 28) =~= u16_le(n as u16));
    assert(s.subrange(28, 30) =~= u16_le(20));
    assert(s.subrange(30, 30 + n) =~= record.name);
    assert(s.subrange(30 + n, 32 + n) =~= u16_le(1));
    assert(s.subrange(32 + n, 34 + n) =~= u16_le(16));
    assert(s.subrange(34 + n, 42 + n) =~= u64_le(record.uncompressed_size));
    assert(s.subrange(42 + n, 50 + n) =~= u64_le(record.compressed_size));
    lemma_part(file, 0, s, 0, u32_le(0x0403_4b50));
    lemma_signed(file, 0, 0x0403_4b50);
    lemma_part(file, 0, s, 4, u16_le(45));
    lemma_part(file, 0, s, 6, u16_le(0x0800));
    lemma_part(file, 0, s, 8, u16_le(8));
    lemma_part(file, 0, s, 14, u32_le(record.crc));
    lemma_part(file, 0, s, 18, u32_le(0xFFFF_FFFF));
    lemma_part(file, 0, s, 22, u32_le(0xFFFF_FFFF));
    lemma_part(file, 0, s, 26, u16_le(n as u16));
    lemma_part(file, 0, s, 28, u16_le(20));
    lemma_part(file, 0, s, 30, record.name);
    lemma_part(file, 0, s, 30 + n, u16_le(1));
    lemma_part(file, 0, s, 32 + n, u16_le(16));
    lemma_part(file, 0, s, 34 + n, u64_le(record.uncompressed_size));
    lemma_part(file, 0, s, 42 + n, u64_le(record.compressed_size));
}

/// Where the parts of an archive of one file stand.
proof fn lemma_single_parts(record: CentralRecord, compressed: Seq<u8>)
    requires
        single_local_header(record).len() == 50 + record.name.len(),
    ensures
        ({
            let file = single_archive(record, compressed);
            let n = record.name.len() as int;
            let at = 50 + n + compressed.len();
            let end = at + 74 + n;
            &&& file.len() == end + 98
            &&& holds_at(file, 0, single_local_header(record))
            &&& holds_at(file, 50 + n, compressed)
            &&& holds_at(file, at, central_fixed(record, 28))
            &&& holds_at(file, at + 46, record.name)
            &&& holds_at(file, at + 46 + n, zip64_field(record))
            &&& holds_at(
                file,
                end,
                zip64_eocd(1, (end - at) as u64, at as u64, Seq::empty()),
            )
            &&& holds_at(file, file.len() - 42, zip64_locator(end as u64))
            &&& holds_at(file, file.len() - 22, eocd(1, (end - at) as u64, at as u64))
        }),
{
    reveal(central_fixed);
    let file = single_archive(record, compressed);
    let n = record.name.len() as int;
    let at = 50 + n + compressed.len();
    let end = at + 74 + n;
    let header = single_local_header(record);
    let fixed = central_fixed(record, 28);
    let end64 = zip64_eocd(1, (end - at) as u64, at as u64, Seq::empty());
    let locator = zip64_locator(end as u64);
    let last = eocd(1, (end - at) as u64, at as u64);
    assert(end64.len() == 56) by {
        reveal(zip64_eocd);
    }
    assert(locator.len() == 20) by {
        reveal(zip64_locator);
    }
    assert(last.len() == 22) by {
        reveal(eocd);
    }
    assert(file.subrange(0, header.len() as int) =~= header);
    assert(file.subrange(50 + n, at) =~= compressed);
    assert(file.subrange(at, at + 46) =~= fixed);
    assert(file.subrange(at + 46, at + 46 + n) =~= record.name);
    assert(file.subrange(at + 46 + n, end) =~= zip64_field(record));
    assert(file.subrange(end, end + 56) =~= end64);
    assert(file.subrange(end + 56, end + 76) =~= locator);
    assert(file.subrange(end + 76, end + 98) =~= last);
}

/// An archive of one file that is made in one go follows the ZIP format.
pub proof fn law_single_archive_follows_the_format(
    name: String,
    crc: u32,
    compressed: &[u8],
    uncompressed_size: u64,
    bytes: Vec<u8>,
)
    requires
        call_ensures(
            build_single_archive,
            (name, crc, compressed, uncompressed_size),
            Ok::<Vec<u8>, CoZipError>(bytes),
        ),
        bytes@.len() <= u64::MAX,
    ensures
        is_single_archive(bytes@, encode_utf8(name@), crc, compressed@, uncompressed_size),
{
    lemma_single_archive(encode_utf8(name@), crc, compressed@, uncompressed_size);
}

/// The archive of one entry follows the format.
pub proof fn lemma_single_archive(
    name: Seq<u8>,
    crc: u32,
    compressed: Seq<u8>,
    uncompressed_size: u64,
)
    requires
        name.len() <= 0xffff,
        single_archive(
            single_record(name, crc, compressed.len() as u64, uncompressed_size),
            compressed,
        ).len() <= u64::MAX,
    ensures
        is_single_archive(
            single_archive(
                single_record(name, crc, compressed.len() as u64, uncompressed_size),
                compressed,
            ),
            name,
            crc,
            compressed,
            uncompressed_size,
        ),
{
    let record = single_record(name, crc, compressed.len() as u64, uncompressed_size);
    let file = single_archive(record, compressed);
    let n = record.name.len() as int;
    let at = 50 + n + compressed.len();
    let end = at + 74 + n;
    assert(single_local_header(record).len() == 50 + n) by {
        reveal(single_local_header);
    }
    lemma_single_parts(record, compressed);
    lemma_single_header_stands(file, record);
    lemma_fixed_stands(file, at, record, 28);
    lemma_zip64_stands(file, at + 46 + n, record);
    lemma_parts_of_end(file, at as u64, end as u64, 1, Seq::empty(), Seq::empty());
}

/// The archive of one file follows the format.
pub proof fn lemma_file_is_archive_of(name: Seq<char>, deflated: DeflatedFile)
    requires
        file_fits(file_input(name, deflated)),
    ensures
        exists|places: Seq<int>| #[trigger]
            is_archive_of(
                archive(seq![file_input(name, deflated)]),
                seq![file_given(name, deflated)],
                places,
            ),
{
    let inputs = seq![file_input(name, deflated)];
    assert(inputs[0] == file_given(name, deflated));
    lemma_is_archive_of(inputs);
    assert(is_archive_of(archive(inputs), inputs, record_places(inputs)));
}

} // verus!
