//! Writing ZIP archives: local headers, data descriptors, and the central
//! directory with its ZIP64 end records.

use vstd::prelude::*;
use vstd::utf8::encode_utf8;

use crate::czdi::{
    czdi_area_record, czdi_extra, czdi_field, czdi_payload, encode_czdi_eocd64_blob,
    encode_czdi_extra_field, opt_bytes, CzdiExtraKind, CzdiResolvedPlan, CZDI_MAX_INLINE_BLOB_LEN,
};
use crate::error::CoZipError;
use crate::extra::ZIP64_EXTRA_FIELD_TAG;
use crate::le::{copy_range, u16_le, u32_le, u64_le, write_bytes, write_u16, write_u32, write_u64};
use crate::trusted::crc32;
use crate::types::CoZipStats;

verus! {

broadcast use crate::le::group_le_len;

pub const LOCAL_FILE_HEADER_SIG: u32 = 0x0403_4b50;

pub const CENTRAL_DIR_HEADER_SIG: u32 = 0x0201_4b50;

pub const EOCD_SIG: u32 = 0x0605_4b50;

pub const DATA_DESCRIPTOR_SIG: u32 = 0x0807_4b50;

pub const ZIP64_EOCD_SIG: u32 = 0x0606_4b50;

pub const ZIP64_EOCD_LOCATOR_SIG: u32 = 0x0706_4b50;

/// Sizes and checksum stand behind the data.
pub const GP_FLAG_DATA_DESCRIPTOR: u16 = 0x0008;

/// The name is UTF-8.
pub const GP_FLAG_UTF8: u16 = 0x0800;

/// The flags of the entries that are written: a data descriptor and a UTF-8 name.
pub const GP_FLAGS_WRITTEN: u16 = 0x0808;

pub const DEFLATE_METHOD: u16 = 8;

pub const STORED_METHOD: u16 = 0;

pub const ZIP_VERSION_ZIP64: u16 = 45;

/// An entry of the central directory that is to be written.
#[derive(Debug, Clone)]
pub struct ZipCentralWriteEntry {
    pub name: String,
    pub gp_flags: u16,
    pub crc: u32,
    pub compressed_size: u64,
    pub uncompressed_size: u64,
    pub local_header_offset: u64,
    pub czdi_blob: Option<Vec<u8>>,
}

/// What the central directory says of an entry.
pub struct CentralRecord {
    pub name: Seq<u8>,
    pub gp_flags: u16,
    pub crc: u32,
    pub compressed_size: u64,
    pub uncompressed_size: u64,
    pub local_header_offset: u64,
    pub blob: Option<Seq<u8>>,
}

impl View for ZipCentralWriteEntry {
    type V = CentralRecord;

    open spec fn view(&self) -> CentralRecord {
        CentralRecord {
            name: encode_utf8(self.name@),
            gp_flags: self.gp_flags,
            crc: self.crc,
            compressed_size: self.compressed_size,
            uncompressed_size: self.uncompressed_size,
            local_header_offset: self.local_header_offset,
            blob: opt_bytes(self.czdi_blob),
        }
    }
}

/// The records of a list of entries.
pub open spec fn records_of(entries: Seq<ZipCentralWriteEntry>) -> Seq<CentralRecord> {
    Seq::new(entries.len(), |i: int| entries[i]@)
}

/// The index is too large for the extra field.
pub open spec fn is_large(blob: Option<Seq<u8>>) -> bool {
    blob matches Some(bytes) && bytes.len() > CZDI_MAX_INLINE_BLOB_LEN
}

/// The indexes of the first `n` records that are too large for the extra field,
/// one after the other.
pub open spec fn blob_area(records: Seq<CentralRecord>, n: int) -> Seq<u8>
    decreases n,
{
    if n <= 0 {
        Seq::empty()
    } else if is_large(records[n - 1].blob) {
        blob_area(records, n - 1) + records[n - 1].blob.unwrap()
    } else {
        blob_area(records, n - 1)
    }
}

/// Where the index of record `i` is kept.
pub open spec fn czdi_plan(records: Seq<CentralRecord>, i: int) -> (
    CzdiExtraKind,
    Option<Seq<u8>>,
) {
    match records[i].blob {
        None => (CzdiExtraKind::Absent, None),
        Some(blob) => if blob.len() <= CZDI_MAX_INLINE_BLOB_LEN {
            (
                CzdiExtraKind::Inline { blob_len: blob.len() as u32, blob_crc32: crc32(blob) },
                Some(blob),
            )
        } else {
            (
                CzdiExtraKind::Eocd64Ref {
                    blob_offset: blob_area(records, i).len() as u32,
                    blob_len: blob.len() as u32,
                    blob_crc32: crc32(blob),
                },
                None,
            )
        },
    }
}

/// What stands behind the ZIP64 end record.
pub open spec fn zip64_extension(records: Seq<CentralRecord>) -> Seq<u8> {
    let area = blob_area(records, records.len() as int);
    if area.len() == 0 {
        Seq::empty()
    } else {
        czdi_area_record(area)
    }
}

/// The area only grows with the number of records, and holds each large index
/// at the offset that its record's plan names.
pub proof fn lemma_blob_area(records: Seq<CentralRecord>, i: int, n: int)
    requires
        0 <= i <= n <= records.len(),
    ensures
        blob_area(records, i).len() <= blob_area(records, n).len(),
        blob_area(records, n).subrange(0, blob_area(records, i).len() as int) == blob_area(
            records,
            i,
        ),
        i < n && is_large(records[i].blob) ==> {
            let at = blob_area(records, i).len() as int;
            let blob = records[i].blob.unwrap();
            at + blob.len() <= blob_area(records, n).len() && blob_area(records, n).subrange(
                at,
                at + blob.len(),
            ) == blob
        },
    decreases n - i,
{
    let whole = blob_area(records, n);
    if i < n {
        let first = blob_area(records, i);
        let next = blob_area(records, i + 1);
        lemma_blob_area(records, i + 1, n);
        assert(whole.subrange(0, first.len() as int) =~= whole.subrange(
            0,
            next.len() as int,
        ).subrange(0, first.len() as int));
        assert(next.subrange(0, first.len() as int) =~= first);
        if is_large(records[i].blob) {
            let at = first.len() as int;
            let blob = records[i].blob.unwrap();
            assert(whole.subrange(at, at + blob.len()) =~= whole.subrange(
                0,
                next.len() as int,
            ).subrange(at, at + blob.len()));
            assert(next.subrange(at, at + blob.len()) =~= blob);
        }
    } else {
        assert(whole.subrange(0, whole.len() as int) =~= whole);
    }
}

/// Copies an optional vector.
fn copy_opt_bytes(bytes: &Option<Vec<u8>>) -> (copy: Option<Vec<u8>>)
    ensures
        opt_bytes(copy) == opt_bytes(*bytes),
{
    match bytes {
        None => None,
        Some(bytes) => {
            let copied = copy_range(bytes.as_slice(), 0, bytes.len());
            assert(copied@ =~= bytes@);
            Some(copied)
        },
    }
}

/// Decides for each entry where its index is kept, and builds what stands
/// behind the ZIP64 end record. Fails where the large indexes together do not
/// fit 32-bit offsets.
pub fn resolve_czdi_write_plan(entries: &[ZipCentralWriteEntry]) -> (r: Result<
    (Vec<CzdiResolvedPlan>, Vec<u8>),
    CoZipError,
>)
    ensures
        match r {
            Ok((plans, extension)) => {
                let records = records_of(entries@);
                &&& blob_area(records, records.len() as int).len() <= u32::MAX
                &&& plans@.len() == records.len()
                &&& forall|i: int|
                    0 <= i < records.len() ==> (#[trigger] plans@[i])@ == czdi_plan(records, i)
                &&& extension@ == zip64_extension(records)
            },
            Err(error) => {
                &&& error == CoZipError::DataTooLarge
                &&& blob_area(records_of(entries@), entries@.len() as int).len() > u32::MAX
            },
        },
{
    let ghost records = records_of(entries@);
    let mut plans: Vec<CzdiResolvedPlan> = Vec::with_capacity(entries.len());
    let mut area: Vec<u8> = Vec::new();
    let mut i: usize = 0;
    while i < entries.len()
        invariant
            i <= entries@.len(),
            records == records_of(entries@),
            area@ == blob_area(records, i as int),
            plans@.len() == i,
            forall|j: int| 0 <= j < i ==> (#[trigger] plans@[j])@ == czdi_plan(records, j),
        decreases entries@.len() - i,
    {
        let entry = &entries[i];
        proof {
            assert(records[i as int] == entry@);
            lemma_blob_area(records, i as int, records.len() as int);
        }
        match &entry.czdi_blob {
            None => {
                plans.push(CzdiResolvedPlan { kind: CzdiExtraKind::Absent, inline_blob: None });
            },
            Some(blob) => {
                if blob.len() <= CZDI_MAX_INLINE_BLOB_LEN {
                    plans.push(
                        CzdiResolvedPlan {
                            kind: CzdiExtraKind::Inline {
                                blob_len: blob.len() as u32,
                                blob_crc32: crc32fast::hash(blob.as_slice()),
                            },
                            inline_blob: copy_opt_bytes(&entry.czdi_blob),
                        },
                    );
                } else {
                    if area.len() as u64 > u32::MAX as u64 || blob.len() as u64 > u32::MAX as u64 {
                        return Err(CoZipError::DataTooLarge);
                    }
                    plans.push(
                        CzdiResolvedPlan {
                            kind: CzdiExtraKind::Eocd64Ref {
                                blob_offset: area.len() as u32,
                                blob_len: blob.len() as u32,
                                blob_crc32: crc32fast::hash(blob.as_slice()),
                            },
                            inline_blob: None,
                        },
                    );
                    write_bytes(&mut area, blob.as_slice());
                }
            },
        }
        i = i + 1;
    }
    if area.len() == 0 {
        let extension: Vec<u8> = Vec::new();
        assert(extension@ =~= zip64_extension(records));
        return Ok((plans, extension));
    }
    match encode_czdi_eocd64_blob(area.as_slice()) {
        Ok(extension) => Ok((plans, extension)),
        Err(error) => Err(error),
    }
}

/// The header in front of an entry's data. Checksum and sizes are left open:
/// they stand in the data descriptor.
pub open spec fn local_header(name: Seq<u8>) -> Seq<u8> {
    u32_le(LOCAL_FILE_HEADER_SIG) + u16_le(ZIP_VERSION_ZIP64) + u16_le(GP_FLAGS_WRITTEN) + u16_le(
        DEFLATE_METHOD,
    ) + u16_le(0) + u16_le(0) + u32_le(0) + u32_le(0) + u32_le(0) + u16_le(name.len() as u16)
        + u16_le(0) + name
}

/// Checksum and sizes behind an entry's data.
pub open spec fn data_descriptor(crc: u32, compressed_size: u64, uncompressed_size: u64) -> Seq<
    u8,
> {
    u32_le(DATA_DESCRIPTOR_SIG) + u32_le(crc) + u64_le(compressed_size) + u64_le(uncompressed_size)
}

/// The ZIP64 field of a record.
pub open spec fn zip64_field(record: CentralRecord) -> Seq<u8> {
    u16_le(ZIP64_EXTRA_FIELD_TAG) + u16_le(24) + u64_le(record.uncompressed_size) + u64_le(
        record.compressed_size,
    ) + u64_le(record.local_header_offset)
}

/// The extra data of record `i`.
pub open spec fn central_extra(records: Seq<CentralRecord>, i: int) -> Seq<u8> {
    zip64_field(records[i]) + czdi_field(czdi_payload(czdi_plan(records, i)))
}

/// The fixed part of a record in the central directory. Sizes and offset hold
/// their largest value: the real ones stand in the ZIP64 field.
#[verifier::opaque]
pub open spec fn central_fixed(record: CentralRecord, extra_len: u16) -> Seq<u8> {
    u32_le(CENTRAL_DIR_HEADER_SIG) + u16_le(ZIP_VERSION_ZIP64) + u16_le(ZIP_VERSION_ZIP64) + u16_le(
        record.gp_flags,
    ) + u16_le(DEFLATE_METHOD) + u16_le(0) + u16_le(0) + u32_le(record.crc) + u32_le(0xFFFF_FFFF)
        + u32_le(0xFFFF_FFFF) + u16_le(record.name.len() as u16) + u16_le(extra_len) + u16_le(0)
        + u16_le(0) + u16_le(0) + u32_le(0) + u32_le(0xFFFF_FFFF)
}

/// Record `i` of the central directory.
#[verifier::opaque]
pub open spec fn central_entry(records: Seq<CentralRecord>, i: int) -> Seq<u8> {
    let extra = central_extra(records, i);
    central_fixed(records[i], extra.len() as u16) + records[i].name + extra
}

/// The first `n` records of the central directory.
pub open spec fn central_directory(records: Seq<CentralRecord>, n: int) -> Seq<u8>
    decreases n,
{
    if n <= 0 {
        Seq::empty()
    } else {
        central_directory(records, n - 1) + central_entry(records, n - 1)
    }
}

/// The ZIP64 end record, with what stands behind it.
#[verifier::opaque]
pub open spec fn zip64_eocd(count: u64, size: u64, offset: u64, extension: Seq<u8>) -> Seq<u8> {
    u32_le(ZIP64_EOCD_SIG) + u64_le((44 + extension.len()) as u64) + u16_le(ZIP_VERSION_ZIP64)
        + u16_le(ZIP_VERSION_ZIP64) + u32_le(0) + u32_le(0) + u64_le(count) + u64_le(count)
        + u64_le(size) + u64_le(offset) + extension
}

/// The record that says where the ZIP64 end record stands.
#[verifier::opaque]
pub open spec fn zip64_locator(eocd_offset: u64) -> Seq<u8> {
    u32_le(ZIP64_EOCD_LOCATOR_SIG) + u32_le(0) + u64_le(eocd_offset) + u32_le(1)
}

/// The number of entries as the end record holds it.
pub open spec fn clamp_u16(value: u64) -> u16 {
    if value > 0xFFFE {
        0xFFFF
    } else {
        value as u16
    }
}

/// A size or an offset as the end record holds it.
pub open spec fn clamp_u32(value: u64) -> u32 {
    if value > u32::MAX {
        0xFFFF_FFFF
    } else {
        value as u32
    }
}

/// The end record.
#[verifier::opaque]
pub open spec fn eocd(count: u64, size: u64, offset: u64) -> Seq<u8> {
    u32_le(EOCD_SIG) + u16_le(0) + u16_le(0) + u16_le(clamp_u16(count)) + u16_le(clamp_u16(count))
        + u32_le(clamp_u32(size)) + u32_le(clamp_u32(offset)) + u16_le(0)
}

/// Everything behind the entries of an archive: the central directory, which
/// starts at `offset`, and the three end records.
pub open spec fn archive_tail(records: Seq<CentralRecord>, offset: u64) -> Seq<u8> {
    let directory = central_directory(records, records.len() as int);
    let count = records.len() as u64;
    let size = directory.len() as u64;
    directory + zip64_eocd(count, size, offset, zip64_extension(records)) + zip64_locator(
        (offset + directory.len()) as u64,
    ) + eocd(count, size, offset)
}

/// The archive can be finished: names, indexes and the whole length fit their fields.
pub open spec fn can_finish(records: Seq<CentralRecord>, offset: u64) -> bool {
    &&& blob_area(records, records.len() as int).len() <= u32::MAX
    &&& forall|i: int| 0 <= i < records.len() ==> (#[trigger] records[i]).name.len() <= 0xffff
    &&& offset + archive_tail(records, offset).len() <= u64::MAX
}

/// What is written of the first `n` records where one of them fails: its name does
/// not fit, or, once it is written, the offset behind it does not. `None` where none
/// fails.
pub open spec fn directory_until_failure(
    records: Seq<CentralRecord>,
    offset: u64,
    n: int,
) -> Option<Seq<u8>>
    decreases n,
{
    if n <= 0 {
        None
    } else {
        match directory_until_failure(records, offset, n - 1) {
            Some(written) => Some(written),
            None => if records[n - 1].name.len() > 0xffff {
                Some(central_directory(records, n - 1))
            } else if offset + central_directory(records, n).len() > u64::MAX {
                Some(central_directory(records, n))
            } else {
                None
            },
        }
    }
}

/// What is written behind the entries where the archive cannot be finished: all
/// that comes before the failure.
pub open spec fn tail_until_failure(records: Seq<CentralRecord>, offset: u64) -> Seq<u8> {
    let n = records.len() as int;
    let directory = central_directory(records, n);
    let extension = zip64_extension(records);
    let end64 = zip64_eocd(records.len() as u64, directory.len() as u64, offset, extension);
    let locator = zip64_locator((offset + directory.len()) as u64);
    if blob_area(records, n).len() > u32::MAX {
        Seq::empty()
    } else {
        match directory_until_failure(records, offset, n) {
            Some(written) => written,
            None => if offset + directory.len() + 56 + extension.len() > u64::MAX {
                directory + end64
            } else if offset + directory.len() + 76 + extension.len() > u64::MAX {
                directory + end64 + locator
            } else {
                archive_tail(records, offset)
            },
        }
    }
}

/// A failure among the first records is one among more of them.
proof fn lemma_failure_stays(records: Seq<CentralRecord>, offset: u64, n: int, m: int)
    requires
        n <= m,
    ensures
        directory_until_failure(records, offset, n) is Some ==> directory_until_failure(
            records,
            offset,
            m,
        ) == directory_until_failure(records, offset, n),
    decreases m - n,
{
    if n < m {
        lemma_failure_stays(records, offset, n, m - 1);
    }
}

/// The directory only grows with the number of records.
proof fn lemma_directory_grows(records: Seq<CentralRecord>, n: int, m: int)
    requires
        0 <= n <= m,
    ensures
        central_directory(records, n).len() <= central_directory(records, m).len(),
    decreases m - n,
{
    if n < m {
        lemma_directory_grows(records, n, m - 1);
    }
}

/// The extra data that is planned for a record fits its 16-bit length.
pub proof fn lemma_central_extra_len(records: Seq<CentralRecord>, i: int)
    ensures
        czdi_payload(czdi_plan(records, i)).len() <= 0xffff - 32,
        czdi_extra(czdi_plan(records, i)) == Ok::<Seq<u8>, CoZipError>(
            czdi_field(czdi_payload(czdi_plan(records, i))),
        ),
        zip64_field(records[i]).len() == 28,
        central_extra(records, i).len() <= 0xffff,
        central_extra(records, i).len() == 32 + czdi_payload(czdi_plan(records, i)).len(),
{
}

/// The lengths of the records of fixed length.
pub proof fn lemma_fixed_lengths(record: CentralRecord, extra_len: u16, name: Seq<u8>)
    ensures
        central_fixed(record, extra_len).len() == 46,
        local_header(name).len() == 30 + name.len(),
{
    reveal(central_fixed);
}

/// The length of what stands behind the entries.
pub proof fn lemma_tail_len(records: Seq<CentralRecord>, offset: u64)
    ensures
        archive_tail(records, offset).len() == central_directory(
            records,
            records.len() as int,
        ).len() + zip64_extension(records).len() + 98,
{
    reveal(zip64_eocd);
    reveal(zip64_locator);
    reveal(eocd);
}

/// The state of an archive that is being written: what the central directory
/// will say, how many bytes were written, and the totals so far.
#[derive(Debug)]
pub struct ZipWriteState {
    pub central_entries: Vec<ZipCentralWriteEntry>,
    pub offset: u64,
    pub stats: CoZipStats,
}

/// An entry whose compressed bytes are ready to be copied into an archive.
#[derive(Debug, Clone)]
pub struct ZipPreparedEntry {
    pub name: String,
    pub crc: u32,
    pub compressed_size: u64,
    pub uncompressed_size: u64,
    pub czdi_blob: Option<Vec<u8>>,
}

impl ZipPreparedEntry {
    /// The record of the entry, once its local header stands at `offset`.
    pub open spec fn record_at(self, offset: u64) -> CentralRecord {
        CentralRecord {
            name: encode_utf8(self.name@),
            gp_flags: GP_FLAGS_WRITTEN,
            crc: self.crc,
            compressed_size: self.compressed_size,
            uncompressed_size: self.uncompressed_size,
            local_header_offset: offset,
            blob: opt_bytes(self.czdi_blob),
        }
    }

    /// The data descriptor behind the compressed bytes.
    pub open spec fn descriptor(self) -> Seq<u8> {
        data_descriptor(self.crc, self.compressed_size, self.uncompressed_size)
    }
}

/// A count of one more, which stops at the largest number.
pub open spec fn next_count(count: usize) -> usize {
    if count < usize::MAX {
        (count + 1) as usize
    } else {
        usize::MAX
    }
}

/// What is left where an offset or the total behind the data of an entry leaves 64
/// bits. The descriptor is written before the offset behind it is found too large,
/// and the entry is taken into the directory before the total is.
pub open spec fn end_stops(
    before: ZipWriteState,
    written: Seq<u8>,
    prepared: ZipPreparedEntry,
    local_header_offset: u64,
    after: ZipWriteState,
    now: Seq<u8>,
) -> bool {
    let end = before.offset + prepared.compressed_size;
    if end > u64::MAX {
        &&& after == before
        &&& now == written
    } else if end + 24 > u64::MAX {
        &&& after == (ZipWriteState { offset: end as u64, ..before })
        &&& now == written + prepared.descriptor()
    } else {
        &&& before.stats.input_bytes + prepared.uncompressed_size > u64::MAX
        &&& after.offset == end + 24
        &&& after.records() == before.records().push(prepared.record_at(local_header_offset))
        &&& after.stats == (CoZipStats {
            entries: next_count(before.stats.entries),
            ..before.stats
        })
        &&& now == written + prepared.descriptor()
    }
}

/// What is left where an entry cannot be written, and why it cannot be.
pub open spec fn entry_stops(
    before: ZipWriteState,
    written: Seq<u8>,
    prepared: ZipPreparedEntry,
    payload: Seq<u8>,
    error: CoZipError,
    after: ZipWriteState,
    now: Seq<u8>,
) -> bool {
    let name = encode_utf8(prepared.name@);
    let data_at = before.offset + 30 + name.len();
    let begun = ZipWriteState { offset: data_at as u64, ..before };
    if name.len() > 0xffff {
        &&& error == CoZipError::DataTooLarge
        &&& after == before
        &&& now == written
    } else if data_at > u64::MAX {
        &&& error == CoZipError::DataTooLarge
        &&& after == before
        &&& now == written + local_header(name)
    } else if payload.len() != prepared.compressed_size {
        &&& error == CoZipError::InvalidZip("prepared compressed size mismatch")
        &&& after == begun
        &&& now == written + local_header(name) + payload
    } else {
        &&& error == CoZipError::DataTooLarge
        &&& end_stops(
            begun,
            written + local_header(name) + payload,
            prepared,
            before.offset,
            after,
            now,
        )
    }
}

impl Default for ZipWriteState {
    fn default() -> (state: Self)
        ensures
            state.central_entries@.len() == 0,
            state.offset == 0,
            state.stats == (CoZipStats { entries: 0, input_bytes: 0, output_bytes: 0 }),
    {
        ZipWriteState { central_entries: Vec::new(), offset: 0, stats: CoZipStats::default() }
    }
}

impl ZipWriteState {
    /// The records of the entries so far.
    pub open spec fn records(self) -> Seq<CentralRecord> {
        records_of(self.central_entries@)
    }

    /// Appends the local header of an entry. Returns the offset at which it
    /// starts. Fails where the name does not fit its field, or, once the header is
    /// written, where the offset does not.
    pub fn begin_entry(&mut self, writer: &mut Vec<u8>, name: &str) -> (r: Result<u64, CoZipError>)
        ensures
            final(self).central_entries == old(self).central_entries,
            final(self).stats == old(self).stats,
            match r {
                Ok(local_header_offset) => {
                    &&& encode_utf8(name@).len() <= 0xffff
                    &&& local_header_offset == old(self).offset
                    &&& final(self).offset == old(self).offset + 30 + encode_utf8(name@).len()
                    &&& final(writer)@ == old(writer)@ + local_header(encode_utf8(name@))
                },
                Err(error) => {
                    &&& error == CoZipError::DataTooLarge
                    &&& *final(self) == *old(self)
                    &&& if encode_utf8(name@).len() > 0xffff {
                        final(writer)@ == old(writer)@
                    } else {
                        &&& old(self).offset + 30 + encode_utf8(name@).len() > u64::MAX
                        &&& final(writer)@ == old(writer)@ + local_header(encode_utf8(name@))
                    }
                },
            },
    {
        let name_bytes = name.as_bytes();
        if name_bytes.len() > 0xffff {
            return Err(CoZipError::DataTooLarge);
        }
        let local_header_offset: u64 = self.offset;
        write_u32(writer, LOCAL_FILE_HEADER_SIG);
        write_u16(writer, ZIP_VERSION_ZIP64);
        write_u16(writer, GP_FLAGS_WRITTEN);
        write_u16(writer, DEFLATE_METHOD);
        write_u16(writer, 0);
        write_u16(writer, 0);
        write_u32(writer, 0);
        write_u32(writer, 0);
        write_u32(writer, 0);
        write_u16(writer, name_bytes.len() as u16);
        write_u16(writer, 0);
        write_bytes(writer, name_bytes);
        assert(writer@ =~= old(writer)@ + local_header(encode_utf8(name@)));
        self.offset = match self.offset.checked_add(30 + name_bytes.len() as u64) {
            Some(offset) => offset,
            None => {
                return Err(CoZipError::DataTooLarge);
            },
        };
        Ok(local_header_offset)
    }

    /// Appends the data descriptor of an entry whose header stands at
    /// `local_header_offset` and of which `copied` bytes of data were written,
    /// and takes the entry into the directory.
    pub fn end_entry(
        &mut self,
        writer: &mut Vec<u8>,
        prepared: &ZipPreparedEntry,
        local_header_offset: u64,
        copied: u64,
    ) -> (r: Result<(), CoZipError>)
        ensures
            match r {
                Ok(_) => {
                    &&& copied == prepared.compressed_size
                    &&& final(self).offset == old(self).offset + prepared.compressed_size + 24
                    &&& final(self).records() == old(self).records().push(
                        prepared.record_at(local_header_offset),
                    )
                    &&& final(self).stats.input_bytes == old(self).stats.input_bytes
                        + prepared.uncompressed_size
                    &&& final(self).stats.entries == next_count(old(self).stats.entries)
                    &&& final(self).stats.output_bytes == old(self).stats.output_bytes
                    &&& final(writer)@ == old(writer)@ + prepared.descriptor()
                },
                Err(error) => if copied != prepared.compressed_size {
                    &&& error == CoZipError::InvalidZip("prepared compressed size mismatch")
                    &&& *final(self) == *old(self)
                    &&& final(writer)@ == old(writer)@
                } else {
                    &&& error == CoZipError::DataTooLarge
                    &&& end_stops(
                        *old(self),
                        old(writer)@,
                        *prepared,
                        local_header_offset,
                        *final(self),
                        final(writer)@,
                    )
                },
            },
    {
        if copied != prepared.compressed_size {
            return Err(CoZipError::InvalidZip("prepared compressed size mismatch"));
        }
        let ghost before = writer@;
        self.offset = match self.offset.checked_add(prepared.compressed_size) {
            Some(offset) => offset,
            None => {
                return Err(CoZipError::DataTooLarge);
            },
        };
        write_u32(writer, DATA_DESCRIPTOR_SIG);
        write_u32(writer, prepared.crc);
        write_u64(writer, prepared.compressed_size);
        write_u64(writer, prepared.uncompressed_size);
        assert(writer@ =~= before + prepared.descriptor());
        self.offset = match self.offset.checked_add(24) {
            Some(offset) => offset,
            None => {
                return Err(CoZipError::DataTooLarge);
            },
        };
        self.central_entries.push(
            ZipCentralWriteEntry {
                name: prepared.name.clone(),
                gp_flags: GP_FLAGS_WRITTEN,
                crc: prepared.crc,
                compressed_size: prepared.compressed_size,
                uncompressed_size: prepared.uncompressed_size,
                local_header_offset,
                czdi_blob: copy_opt_bytes(&prepared.czdi_blob),
            },
        );
        assert(self.records() =~= old(self).records().push(
            prepared.record_at(local_header_offset),
        ));
        self.stats.entries = self.stats.entries.saturating_add(1);
        self.stats.input_bytes = match self.stats.input_bytes.checked_add(
            prepared.uncompressed_size,
        ) {
            Some(total) => total,
            None => {
                return Err(CoZipError::DataTooLarge);
            },
        };
        Ok(())
    }

    /// Appends a whole entry: header, compressed bytes and data descriptor.
    pub fn write_precompressed_entry(
        &mut self,
        writer: &mut Vec<u8>,
        prepared: &ZipPreparedEntry,
        payload: &[u8],
    ) -> (r: Result<(), CoZipError>)
        ensures
            match r {
                Ok(_) => {
                    let name = encode_utf8(prepared.name@);
                    &&& name.len() <= 0xffff
                    &&& payload@.len() == prepared.compressed_size
                    &&& final(self).offset == old(self).offset + 54 + name.len() + payload@.len()
                    &&& final(self).records() == old(self).records().push(
                        prepared.record_at(old(self).offset),
                    )
                    &&& final(self).stats.input_bytes == old(self).stats.input_bytes
                        + prepared.uncompressed_size
                    &&& final(self).stats.entries == next_count(old(self).stats.entries)
                    &&& final(self).stats.output_bytes == old(self).stats.output_bytes
                    &&& final(writer)@ == old(writer)@ + local_header(name) + payload@
                        + prepared.descriptor()
                },
                Err(error) => entry_stops(
                    *old(self),
                    old(writer)@,
                    *prepared,
                    payload@,
                    error,
                    *final(self),
                    final(writer)@,
                ),
            },
    {
        let local_header_offset: u64 = match self.begin_entry(writer, prepared.name.as_str()) {
            Ok(offset) => offset,
            Err(error) => {
                return Err(error);
            },
        };
        write_bytes(writer, payload);
        self.end_entry(writer, prepared, local_header_offset, payload.len() as u64)
    }

    /// Appends the central directory and the end records. Returns the totals. On a
    /// failure, what came before it stays written.
    pub fn finish(self, writer: &mut Vec<u8>) -> (r: Result<CoZipStats, CoZipError>)
        ensures
            match r {
                Ok(stats) => {
                    &&& can_finish(self.records(), self.offset)
                    &&& final(writer)@ == old(writer)@ + archive_tail(self.records(), self.offset)
                    &&& stats == (CoZipStats {
                        entries: self.stats.entries,
                        input_bytes: self.stats.input_bytes,
                        output_bytes: (self.offset + archive_tail(
                            self.records(),
                            self.offset,
                        ).len()) as u64,
                    })
                },
                Err(error) => {
                    &&& error == CoZipError::DataTooLarge
                    &&& !can_finish(self.records(), self.offset)
                    &&& final(writer)@ == old(writer)@ + tail_until_failure(
                        self.records(),
                        self.offset,
                    )
                },
            },
    {
        let ghost records = self.records();
        let ghost before = writer@;
        let (plans, extension) = match resolve_czdi_write_plan(self.central_entries.as_slice()) {
            Ok(planned) => planned,
            Err(error) => {
                assert(before + Seq::<u8>::empty() =~= before);
                return Err(error);
            },
        };
        let central_dir_offset: u64 = self.offset;
        let mut at: u64 = self.offset;
        let mut i: usize = 0;
        assert(before + central_directory(records, 0) =~= before);
        while i < self.central_entries.len()
            invariant
                i <= self.central_entries@.len(),
                records == self.records(),
                before == old(writer)@,
                plans@.len() == records.len(),
                forall|j: int|
                    0 <= j < records.len() ==> (#[trigger] plans@[j])@ == czdi_plan(records, j),
                blob_area(records, records.len() as int).len() <= u32::MAX,
                writer@ == before + central_directory(records, i as int),
                at == self.offset + central_directory(records, i as int).len(),
                directory_until_failure(records, self.offset, i as int) is None,
                forall|j: int| 0 <= j < i ==> (#[trigger] records[j]).name.len() <= 0xffff,
            decreases self.central_entries@.len() - i,
        {
            let entry = &self.central_entries[i];
            assert(records[i as int] == entry@);
            proof {
                lemma_central_extra_len(records, i as int);
                lemma_failure_stays(records, self.offset, i + 1, records.len() as int);
                lemma_directory_grows(records, i + 1, records.len() as int);
                lemma_tail_len(records, self.offset);
            }
            let name_bytes = entry.name.as_str().as_bytes();
            if name_bytes.len() > 0xffff {
                return Err(CoZipError::DataTooLarge);
            }
            assert(plans@[i as int]@ == czdi_plan(records, i as int));
            let czdi_bytes = match encode_czdi_extra_field(&plans[i]) {
                Ok(bytes) => bytes,
                Err(error) => {
                    return Err(error);
                },
            };
            let ghost sofar = writer@;
            write_central_entry(writer, entry, name_bytes, czdi_bytes.as_slice());
            proof {
                reveal(central_entry);
                assert(writer@ =~= sofar + central_entry(records, i as int));
                assert(writer@ =~= before + central_directory(records, i + 1));
                lemma_fixed_lengths(
                    records[i as int],
                    (28 + czdi_bytes@.len()) as u16,
                    Seq::empty(),
                );
            }
            let entry_len: u64 = 74 + name_bytes.len() as u64 + czdi_bytes.len() as u64;
            at = match at.checked_add(entry_len) {
                Some(offset) => offset,
                None => {
                    return Err(CoZipError::DataTooLarge);
                },
            };
            i = i + 1;
        }
        proof {
            lemma_tail_len(records, self.offset);
        }
        let ghost directory = central_directory(records, records.len() as int);
        let central_dir_size: u64 = at - central_dir_offset;
        let zip64_ext_len: u64 = extension.len() as u64;
        let zip64_eocd_offset: u64 = at;
        let entry_count: u64 = self.central_entries.len() as u64;
        write_zip64_eocd(
            writer,
            entry_count,
            central_dir_size,
            central_dir_offset,
            extension.as_slice(),
        );
        let ghost end64 = zip64_eocd(
            entry_count,
            central_dir_size,
            central_dir_offset,
            zip64_extension(records),
        );
        assert(writer@ =~= before + (directory + end64));
        at = match end_after(at, 56, zip64_ext_len) {
            Some(offset) => offset,
            None => {
                return Err(CoZipError::DataTooLarge);
            },
        };
        write_zip64_locator(writer, zip64_eocd_offset);
        assert(writer@ =~= before + (directory + end64 + zip64_locator(zip64_eocd_offset)));
        at = match at.checked_add(20) {
            Some(offset) => offset,
            None => {
                return Err(CoZipError::DataTooLarge);
            },
        };
        write_eocd(writer, entry_count, central_dir_size, central_dir_offset);
        assert(writer@ =~= before + archive_tail(records, self.offset));
        at = match at.checked_add(22) {
            Some(offset) => offset,
            None => {
                return Err(CoZipError::DataTooLarge);
            },
        };
        Ok(
            CoZipStats {
                entries: self.stats.entries,
                input_bytes: self.stats.input_bytes,
                output_bytes: at,
            },
        )
    }
}

/// The offset behind a record of that length with an extension behind it. `None`
/// where it leaves 64 bits.
fn end_after(at: u64, len: u64, extension_len: u64) -> (end: Option<u64>)
    ensures
        end == if at + len + extension_len <= u64::MAX {
            Some((at + len + extension_len) as u64)
        } else {
            None
        },
{
    match at.checked_add(len) {
        Some(end) => end.checked_add(extension_len),
        None => None,
    }
}

/// Appends a record of the central directory.
fn write_central_entry(
    out: &mut Vec<u8>,
    entry: &ZipCentralWriteEntry,
    name_bytes: &[u8],
    czdi_bytes: &[u8],
)
    requires
        name_bytes@ == encode_utf8(entry.name@),
        name_bytes@.len() <= 0xffff,
        czdi_bytes@.len() <= 0xffff - 28,
    ensures
        final(out)@ == old(out)@ + (central_fixed(entry@, (28 + czdi_bytes@.len()) as u16)
            + name_bytes@ + (zip64_field(entry@) + czdi_bytes@)),
{
    write_central_fixed(out, entry, name_bytes.len() as u16, (28 + czdi_bytes.len()) as u16);
    write_bytes(out, name_bytes);
    let ghost before = out@;
    write_u16(out, ZIP64_EXTRA_FIELD_TAG);
    write_u16(out, 24);
    write_u64(out, entry.uncompressed_size);
    write_u64(out, entry.compressed_size);
    write_u64(out, entry.local_header_offset);
    assert(out@ =~= before + zip64_field(entry@));
    write_bytes(out, czdi_bytes);
    assert(out@ =~= old(out)@ + (central_fixed(entry@, (28 + czdi_bytes@.len()) as u16)
        + name_bytes@ + (zip64_field(entry@) + czdi_bytes@)));
}

/// Appends the ZIP64 end record.
pub(crate) fn write_zip64_eocd(out: &mut Vec<u8>, count: u64, size: u64, offset: u64, extension: &[u8])
    requires
        44 + extension@.len() <= u64::MAX,
    ensures
        final(out)@ == old(out)@ + zip64_eocd(count, size, offset, extension@),
{
    write_u32(out, ZIP64_EOCD_SIG);
    write_u64(out, 44 + extension.len() as u64);
    write_u16(out, ZIP_VERSION_ZIP64);
    write_u16(out, ZIP_VERSION_ZIP64);
    write_u32(out, 0);
    write_u32(out, 0);
    write_u64(out, count);
    write_u64(out, count);
    write_u64(out, size);
    write_u64(out, offset);
    write_bytes(out, extension);
    reveal(zip64_eocd);
    assert(out@ =~= old(out)@ + zip64_eocd(count, size, offset, extension@));
}

/// Appends the record that says where the ZIP64 end record stands.
pub(crate) fn write_zip64_locator(out: &mut Vec<u8>, eocd_offset: u64)
    ensures
        final(out)@ == old(out)@ + zip64_locator(eocd_offset),
{
    write_u32(out, ZIP64_EOCD_LOCATOR_SIG);
    write_u32(out, 0);
    write_u64(out, eocd_offset);
    write_u32(out, 1);
    reveal(zip64_locator);
    assert(out@ =~= old(out)@ + zip64_locator(eocd_offset));
}

/// Appends the end record. Values that do not fit hold the largest value.
pub(crate) fn write_eocd(out: &mut Vec<u8>, count: u64, size: u64, offset: u64)
    ensures
        final(out)@ == old(out)@ + eocd(count, size, offset),
{
    let entries_u16: u16 = if count > 0xFFFE {
        0xFFFF
    } else {
        count as u16
    };
    let size_u32: u32 = if size > u32::MAX as u64 {
        0xFFFF_FFFF
    } else {
        size as u32
    };
    let offset_u32: u32 = if offset > u32::MAX as u64 {
        0xFFFF_FFFF
    } else {
        offset as u32
    };
    write_u32(out, EOCD_SIG);
    write_u16(out, 0);
    write_u16(out, 0);
    write_u16(out, entries_u16);
    write_u16(out, entries_u16);
    write_u32(out, size_u32);
    write_u32(out, offset_u32);
    write_u16(out, 0);
    reveal(eocd);
    assert(out@ =~= old(out)@ + eocd(count, size, offset));
}

/// Appends the fixed part of a record.
pub(crate) fn write_central_fixed(
    out: &mut Vec<u8>,
    entry: &ZipCentralWriteEntry,
    name_len: u16,
    extra_len: u16,
)
    requires
        name_len == encode_utf8(entry.name@).len(),
    ensures
        final(out)@ == old(out)@ + central_fixed(entry@, extra_len),
{
    write_u32(out, CENTRAL_DIR_HEADER_SIG);
    write_u16(out, ZIP_VERSION_ZIP64);
    write_u16(out, ZIP_VERSION_ZIP64);
    write_u16(out, entry.gp_flags);
    write_u16(out, DEFLATE_METHOD);
    write_u16(out, 0);
    write_u16(out, 0);
    write_u32(out, entry.crc);
    write_u32(out, 0xFFFF_FFFF);
    write_u32(out, 0xFFFF_FFFF);
    write_u16(out, name_len);
    write_u16(out, extra_len);
    write_u16(out, 0);
    write_u16(out, 0);
    write_u16(out, 0);
    write_u32(out, 0);
    write_u32(out, 0xFFFF_FFFF);
    reveal(central_fixed);
    assert(out@ =~= old(out)@ + central_fixed(entry@, extra_len));
}

} // verus!
