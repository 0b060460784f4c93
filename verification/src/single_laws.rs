//! What unpacking an archive of one file gives back of what went into it.

use vstd::prelude::*;
use vstd::utf8::{
    decode_utf8, encode_utf8, encode_utf8_decode_utf8, encode_utf8_valid_utf8, valid_utf8,
};

use crate::error::CoZipError;
use crate::extra::{
    find_field, zip64_extra_result, FieldSpan, Zip64ExtraField, ZIP64_EXTRA_FIELD_TAG,
};
use crate::le::{
    le16, le32, le64, lemma_le16, lemma_le32, lemma_le64, u16_le, u32_le, u64_le,
};
use crate::paths::{normalized_name, PathStyle};
use crate::trusted::crc32;
use crate::types::ZipEntry;
use crate::zip_entry::gives;
use crate::zip_laws::{lemma_central_header, lemma_eocd_found, lemma_zip64_locator};
use crate::zip_single::{
    compressed_archive, inflates_to, packed_single, single_archive, single_directory,
    single_entry, single_header, single_local_header, single_payload, single_record,
    single_verdict, unpacked_payload, unpacked_single, unpacks, DeflatedPayload, SingleRecord,
};
use crate::zip_write::{
    central_fixed, clamp_u16, clamp_u32, eocd, lemma_fixed_lengths, zip64_eocd, zip64_field,
    zip64_locator, CentralRecord, DEFLATE_METHOD, LOCAL_FILE_HEADER_SIG, ZIP64_EOCD_SIG,
};

verus! {

broadcast use crate::le::group_le_len;

/// The parts of an archive of one file, and where they stand.
pub open spec fn single_laid_out(
    file: Seq<u8>,
    record: CentralRecord,
    compressed: Seq<u8>,
    front_len: int,
    size: int,
) -> bool {
    let n = record.name.len() as int;
    let at = front_len;
    &&& front_len == 50 + n + compressed.len()
    &&& size == 74 + n
    &&& file.len() == front_len + size + 98
    &&& file.subrange(0, 50 + n) == single_local_header(record)
    &&& file.subrange(50 + n, front_len) == compressed
    &&& file.subrange(at, at + 46) == central_fixed(record, 28)
    &&& file.subrange(at + 46, at + 46 + n) == record.name
    &&& file.subrange(at + 46 + n, at + size) == zip64_field(record)
    &&& file.subrange(at + size, at + size + 56) == zip64_eocd(
        1,
        size as u64,
        front_len as u64,
        Seq::empty(),
    )
    &&& file.subrange(at + size + 56, at + size + 76) == zip64_locator((front_len + size) as u64)
    &&& file.subrange(at + size + 76, at + size + 98) == eocd(1, size as u64, front_len as u64)
}

proof fn lemma_single_laid_out(record: CentralRecord, compressed: Seq<u8>)
    ensures
        single_laid_out(
            single_archive(record, compressed),
            record,
            compressed,
            (50 + record.name.len() + compressed.len()) as int,
            (74 + record.name.len()) as int,
        ),
{
    let n = record.name.len() as int;
    let local = single_local_header(record);
    let fixed = central_fixed(record, 28);
    let front = local + compressed;
    let directory = fixed + record.name + zip64_field(record);
    let end64 = zip64_eocd(1, directory.len() as u64, front.len() as u64, Seq::empty());
    let locator = zip64_locator((front.len() + directory.len()) as u64);
    let end = eocd(1, directory.len() as u64, front.len() as u64);
    let file = single_archive(record, compressed);
    assert(local.len() == 50 + n) by {
        reveal(single_local_header);
    }
    lemma_fixed_lengths(record, 28, record.name);
    assert(end64.len() == 56) by {
        reveal(zip64_eocd);
    }
    assert(locator.len() == 20) by {
        reveal(zip64_locator);
    }
    assert(end.len() == 22) by {
        reveal(eocd);
    }
    let at = front.len() as int;
    let size = directory.len() as int;
    assert(file.subrange(0, 50 + n) =~= local);
    assert(file.subrange(50 + n, at) =~= compressed);
    assert(file.subrange(at, at + 46) =~= fixed);
    assert(file.subrange(at + 46, at + 46 + n) =~= record.name);
    assert(file.subrange(at + 46 + n, at + size) =~= zip64_field(record));
    assert(file.subrange(at + size, at + size + 56) =~= end64);
    assert(file.subrange(at + size + 56, at + size + 76) =~= locator);
    assert(file.subrange(at + size + 76, at + size + 98) =~= end);
}

/// Integers inside a range of a file are those of the range.
proof fn lemma_le_in(file: Seq<u8>, start: int, end: int, at: int)
    requires
        0 <= start <= end <= file.len(),
        0 <= at,
    ensures
        start + at + 2 <= end ==> le16(file, start + at) == le16(file.subrange(start, end), at),
        start + at + 4 <= end ==> le32(file, start + at) == le32(file.subrange(start, end), at),
        start + at + 8 <= end ==> le64(file, start + at) == le64(file.subrange(start, end), at),
{
}

/// The values of the end record.
proof fn lemma_eocd_values(count: u64, size: u64, offset: u64)
    ensures
        eocd(count, size, offset).len() == 22,
        le16(eocd(count, size, offset), 10) == clamp_u16(count),
        le32(eocd(count, size, offset), 12) == clamp_u32(size),
        le32(eocd(count, size, offset), 16) == clamp_u32(offset),
{
    reveal(eocd);
    let s = eocd(count, size, offset);
    assert(le16(s, 10) == clamp_u16(count)) by {
        assert(s.subrange(10, 12) =~= u16_le(clamp_u16(count)));
        lemma_le16(s, 10, clamp_u16(count));
    }
    assert(le32(s, 12) == clamp_u32(size)) by {
        assert(s.subrange(12, 16) =~= u32_le(clamp_u32(size)));
        lemma_le32(s, 12, clamp_u32(size));
    }
    assert(le32(s, 16) == clamp_u32(offset)) by {
        assert(s.subrange(16, 20) =~= u32_le(clamp_u32(offset)));
        lemma_le32(s, 16, clamp_u32(offset));
    }
}

/// The values of the ZIP64 end record.
proof fn lemma_zip64_eocd_values(count: u64, size: u64, offset: u64)
    ensures
        ({
            let s = zip64_eocd(count, size, offset, Seq::empty());
            &&& s.len() == 56
            &&& le32(s, 0) == ZIP64_EOCD_SIG
            &&& le64(s, 32) == count
            &&& le64(s, 40) == size
            &&& le64(s, 48) == offset
        }),
{
    reveal(zip64_eocd);
    let s = zip64_eocd(count, size, offset, Seq::empty());
    assert(le32(s, 0) == ZIP64_EOCD_SIG) by {
        assert(s.subrange(0, 4) =~= u32_le(ZIP64_EOCD_SIG));
        lemma_le32(s, 0, ZIP64_EOCD_SIG);
    }
    assert(le64(s, 32) == count) by {
        assert(s.subrange(32, 40) =~= u64_le(count));
        lemma_le64(s, 32, count);
    }
    assert(le64(s, 40) == size) by {
        assert(s.subrange(40, 48) =~= u64_le(size));
        lemma_le64(s, 40, size);
    }
    assert(le64(s, 48) == offset) by {
        assert(s.subrange(48, 56) =~= u64_le(offset));
        lemma_le64(s, 48, offset);
    }
}

/// The directory of an archive of one file is found.
#[verifier::spinoff_prover]
#[verifier::rlimit(40)]
proof fn lemma_single_directory(
    file: Seq<u8>,
    record: CentralRecord,
    compressed: Seq<u8>,
    front_len: int,
    size: int,
)
    requires
        single_laid_out(file, record, compressed, front_len, size),
        file.len() <= usize::MAX,
        record.name.len() <= 0xffff,
    ensures
        single_directory(file) == Ok::<(u64, usize, usize), CoZipError>(
            (1u64, size as usize, front_len as usize),
        ),
{
    let len = file.len() as int;
    let end_at = len - 22;
    let end = eocd(1, size as u64, front_len as u64);
    assert(file.subrange(file.len() - 22, file.len() as int) == end);
    lemma_eocd_found(file, 1, size as u64, front_len as u64);
    lemma_eocd_values(1, size as u64, front_len as u64);
    lemma_le_in(file, end_at, len, 10);
    lemma_le_in(file, end_at, len, 12);
    lemma_le_in(file, end_at, len, 16);
    let at64 = front_len + size;
    lemma_zip64_locator(at64 as u64);
    lemma_le_in(file, end_at - 20, end_at, 0);
    lemma_le_in(file, end_at - 20, end_at, 8);
    lemma_zip64_eocd_values(1, size as u64, front_len as u64);
    lemma_le_in(file, at64, at64 + 56, 0);
    lemma_le_in(file, at64, at64 + 56, 32);
    lemma_le_in(file, at64, at64 + 56, 40);
    lemma_le_in(file, at64, at64 + 56, 48);
    assert(end_at == at64 + 76);
}

/// The ZIP64 field of the one file gives its values back.
proof fn lemma_single_field(record: CentralRecord)
    ensures
        zip64_field(record).len() == 28,
        zip64_extra_result(zip64_field(record), true, true, true) == Ok::<
            Option<Zip64ExtraField>,
            CoZipError,
        >(
            Some(
                Zip64ExtraField {
                    uncompressed_size: Some(record.uncompressed_size),
                    compressed_size: Some(record.compressed_size),
                    local_header_offset: Some(record.local_header_offset),
                },
            ),
        ),
{
    let extra = zip64_field(record);
    assert(le16(extra, 0) == ZIP64_EXTRA_FIELD_TAG) by {
        assert(extra.subrange(0, 2) =~= u16_le(ZIP64_EXTRA_FIELD_TAG));
        lemma_le16(extra, 0, ZIP64_EXTRA_FIELD_TAG);
    }
    assert(le16(extra, 2) == 24) by {
        assert(extra.subrange(2, 4) =~= u16_le(24));
        lemma_le16(extra, 2, 24);
    }
    assert(find_field(extra, 0, ZIP64_EXTRA_FIELD_TAG) == (FieldSpan::Found { start: 4, end: 28 }));
    let data = extra.subrange(4, 28);
    assert(le64(data, 0) == record.uncompressed_size) by {
        assert(data.subrange(0, 8) =~= u64_le(record.uncompressed_size));
        lemma_le64(data, 0, record.uncompressed_size);
    }
    assert(le64(data, 8) == record.compressed_size) by {
        assert(data.subrange(8, 16) =~= u64_le(record.compressed_size));
        lemma_le64(data, 8, record.compressed_size);
    }
    assert(le64(data, 16) == record.local_header_offset) by {
        assert(data.subrange(16, 24) =~= u64_le(record.local_header_offset));
        lemma_le64(data, 16, record.local_header_offset);
    }
}

/// What is found of the one file.
pub open spec fn single_read_back(record: CentralRecord) -> SingleRecord {
    SingleRecord {
        name: decode_utf8(record.name),
        method: DEFLATE_METHOD,
        crc: record.crc,
        compressed_size: record.compressed_size as usize,
        uncompressed_size: record.uncompressed_size as usize,
        local_header_offset: record.local_header_offset as usize,
        record_len: (74 + record.name.len()) as int,
        directory_len: (74 + record.name.len()) as int,
    }
}

/// The header of the one file is read back.
proof fn lemma_single_header(
    file: Seq<u8>,
    record: CentralRecord,
    compressed: Seq<u8>,
    front_len: int,
    size: int,
)
    requires
        single_laid_out(file, record, compressed, front_len, size),
        record.name.len() <= 0xffff,
        record.gp_flags % 2 == 0,
        valid_utf8(record.name),
        record.compressed_size <= usize::MAX,
        record.uncompressed_size <= usize::MAX,
        record.local_header_offset <= usize::MAX,
    ensures
        single_header(file, size, front_len) == Ok::<SingleRecord, CoZipError>(
            single_read_back(record),
        ),
{
    let at = front_len;
    let fixed = central_fixed(record, 28);
    lemma_central_header(record, 28);
    lemma_fixed_lengths(record, 28, record.name);
    lemma_le_in(file, at, at + 46, 0);
    lemma_le_in(file, at, at + 46, 10);
    lemma_le_in(file, at, at + 46, 16);
    lemma_le_in(file, at, at + 46, 20);
    lemma_le_in(file, at, at + 46, 24);
    lemma_le_in(file, at, at + 46, 28);
    lemma_le_in(file, at, at + 46, 30);
    lemma_le_in(file, at, at + 46, 32);
    lemma_le_in(file, at, at + 46, 42);
    assert(file.subrange(at, at + 46) == fixed);
    lemma_single_field(record);
}

/// The compressed bytes of the one file are found.
proof fn lemma_single_payload(
    file: Seq<u8>,
    record: CentralRecord,
    compressed: Seq<u8>,
    front_len: int,
    size: int,
)
    requires
        single_laid_out(file, record, compressed, front_len, size),
        file.len() <= usize::MAX,
        record.name.len() <= 0xffff,
        record.compressed_size == compressed.len(),
        record.local_header_offset == 0,
    ensures
        single_payload(file, single_read_back(record)) == Ok::<Seq<u8>, CoZipError>(compressed),
{
    let local = single_local_header(record);
    let n = record.name.len() as int;
    assert(le32(local, 0) == LOCAL_FILE_HEADER_SIG && le16(local, 26) == n && le16(local, 28)
        == 20) by {
        reveal(single_local_header);
        assert(local.subrange(0, 4) =~= u32_le(LOCAL_FILE_HEADER_SIG));
        lemma_le32(local, 0, LOCAL_FILE_HEADER_SIG);
        assert(local.subrange(26, 28) =~= u16_le(n as u16));
        lemma_le16(local, 26, n as u16);
        assert(local.subrange(28, 30) =~= u16_le(20));
        lemma_le16(local, 28, 20);
    }
    lemma_le_in(file, 0, 50 + n, 0);
    lemma_le_in(file, 0, 50 + n, 26);
    lemma_le_in(file, 0, 50 + n, 28);
}

/// An archive of one file gives it back: the name, the compressed bytes, and a
/// verdict that accepts exactly the data whose size and checksum were written.
pub proof fn law_single_roundtrip(
    name: Seq<u8>,
    crc: u32,
    compressed: Seq<u8>,
    uncompressed_size: u64,
    data: Seq<u8>,
)
    requires
        valid_utf8(name),
        name.len() <= 0xffff,
        uncompressed_size <= usize::MAX,
        single_archive(
            single_record(name, crc, compressed.len() as u64, uncompressed_size),
            compressed,
        ).len() <= usize::MAX,
    ensures
        ({
            let record = single_record(name, crc, compressed.len() as u64, uncompressed_size);
            let file = single_archive(record, compressed);
            &&& single_entry(file) == Ok::<SingleRecord, CoZipError>(single_read_back(record))
            &&& single_payload(file, single_read_back(record)) == Ok::<Seq<u8>, CoZipError>(
                compressed,
            )
            &&& single_verdict(single_read_back(record), data) is Ok <==> data.len()
                == uncompressed_size && crc32(data) == crc
        }),
{
    let record = single_record(name, crc, compressed.len() as u64, uncompressed_size);
    let file = single_archive(record, compressed);
    let front_len = (50 + name.len() + compressed.len()) as int;
    let size = (74 + name.len()) as int;
    lemma_single_laid_out(record, compressed);
    lemma_single_directory(file, record, compressed, front_len, size);
    lemma_single_header(file, record, compressed, front_len, size);
    lemma_single_payload(file, record, compressed, front_len, size);
}

/// The decoder gives back what the compressor was given, and the compressor tells
/// the checksum of it.
pub open spec fn codec_gives_back<
    C: Fn(&[u8]) -> Result<DeflatedPayload, String>,
    F: Fn(&[u8]) -> Result<Vec<u8>, String>,
>(deflate: C, inflate: F, data: &[u8]) -> bool {
    forall|deflated: DeflatedPayload, inflated: Result<Vec<u8>, String>|
        call_ensures(deflate, (data,), Ok(deflated)) && #[trigger] inflates_to(
            inflate,
            deflated.compressed@,
            inflated,
        ) ==> {
            &&& deflated.input_crc32 == crc32(data@)
            &&& inflated matches Ok(out) && out@ == data@
        }
}

/// What was packed comes out again, for every name and all data: where packing
/// gave an archive and the codec gives back what it is given, unpacking gives the
/// cleaned name and the data.
pub proof fn law_packed_file_comes_back<
    C: Fn(&[u8]) -> Result<DeflatedPayload, String>,
    F: Fn(&[u8]) -> Result<Vec<u8>, String>,
>(
    file_name: Seq<char>,
    data: &[u8],
    style: PathStyle,
    deflate: C,
    zip: Vec<u8>,
    inflate: F,
    r: Result<ZipEntry, CoZipError>,
)
    requires
        packed_single(Ok(zip), file_name, data, style, deflate),
        unpacked_single(r, zip@, inflate),
        codec_gives_back(deflate, inflate, data),
        data@.len() <= usize::MAX,
        zip@.len() <= usize::MAX,
    ensures
        ({
            &&& normalized_name(file_name, style) matches Ok(name)
            &&& r matches Ok(entry)
            &&& entry.name@ == name
            &&& entry.data@ == data@
        }),
{
    let name = normalized_name(file_name, style)->Ok_0;
    let packed = Ok::<Vec<u8>, CoZipError>(zip);
    let deflated = choose|deflated: Result<DeflatedPayload, String>|
        #![trigger call_ensures(deflate, (data,), deflated)]
        call_ensures(deflate, (data,), deflated) && gives(
            packed,
            compressed_archive(name, data@.len() as u64, deflated),
        );
    let made = deflated->Ok_0;
    let compressed = made.compressed@;
    encode_utf8_valid_utf8(name);
    encode_utf8_decode_utf8(name);
    law_single_roundtrip(
        encode_utf8(name),
        made.input_crc32,
        compressed,
        data@.len() as u64,
        data@,
    );
    let record = single_read_back(
        single_record(
            encode_utf8(name),
            made.input_crc32,
            compressed.len() as u64,
            data@.len() as u64,
        ),
    );
    assert(unpacked_payload(r, record, compressed, inflate));
    let inflated = choose|inflated: Result<Vec<u8>, String>|
        {
            &&& #[trigger] inflates_to(inflate, compressed, inflated)
            &&& match inflated {
                Ok(data) => unpacks(r, record, data@),
                Err(message) => r == Err::<ZipEntry, CoZipError>(CoZipError::Deflate(message)),
            }
        };
    assert(inflates_to(inflate, made.compressed@, inflated));
}

} // verus!
