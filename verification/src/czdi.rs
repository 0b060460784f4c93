//! The chunk index of a compressed entry (CZDI): how its bytes are kept in the
//! extra fields of the central directory, or behind the ZIP64 end record where
//! they are too large for that.

use vstd::prelude::*;

use crate::error::CoZipError;
use crate::extra::{find_field, search_field, FieldSearch, FieldSpan};
use crate::le::{
    copy_range, get_u32, law_four_bytes_are_read, law_numbers_are_written, law_two_bytes_are_read,
    le16, le32, number_at, u16_le, u32_le, write_bytes, write_u16, write_u32,
};
use crate::trusted::crc32;

verus! {

broadcast use crate::le::group_le_len;

/// Tag of the extra field that holds the chunk index.
pub const CZDI_EXTRA_FIELD_TAG: u16 = 0x435A;

/// The one version of the format.
pub const CZDI_EXTRA_VERSION_V1: u8 = 1;

/// The index stands in the field itself.
pub const CZDI_STORAGE_INLINE: u8 = 0;

/// The index stands behind the ZIP64 end record.
pub const CZDI_STORAGE_EOCD64: u8 = 1;

/// The entry has no index.
pub const CZDI_STORAGE_NONE: u8 = 2;

/// The largest index that stands in the extra field: what is left of its 65535
/// bytes beside the ZIP64 field, the tag and length, and the fixed bytes.
pub const CZDI_MAX_INLINE_BLOB_LEN: usize = 65491;

/// Where the index of an entry is kept.
#[derive(Debug, Clone, Copy, PartialEq, Eq)]
pub enum CzdiExtraKind {
    /// In the extra field.
    Inline { blob_len: u32, blob_crc32: u32 },
    /// Behind the ZIP64 end record.
    Eocd64Ref { blob_offset: u32, blob_len: u32, blob_crc32: u32 },
    /// Nowhere.
    Absent,
}

/// The bytes of an optional vector.
pub open spec fn opt_bytes(bytes: Option<Vec<u8>>) -> Option<Seq<u8>> {
    match bytes {
        Some(bytes) => Some(bytes@),
        None => None,
    }
}

/// The bytes of an optional slice.
pub open spec fn opt_slice(bytes: Option<&[u8]>) -> Option<Seq<u8>> {
    match bytes {
        Some(bytes) => Some(bytes@),
        None => None,
    }
}

/// What is to be written for an entry.
#[derive(Debug, Clone)]
pub struct CzdiResolvedPlan {
    pub kind: CzdiExtraKind,
    pub inline_blob: Option<Vec<u8>>,
}

impl View for CzdiResolvedPlan {
    type V = (CzdiExtraKind, Option<Seq<u8>>);

    open spec fn view(&self) -> (CzdiExtraKind, Option<Seq<u8>>) {
        (self.kind, opt_bytes(self.inline_blob))
    }
}

/// What was read for an entry.
#[derive(Debug, Clone)]
pub struct CzdiParsedExtra {
    pub kind: CzdiExtraKind,
    pub inline_blob: Option<Vec<u8>>,
}

impl View for CzdiParsedExtra {
    type V = (CzdiExtraKind, Option<Seq<u8>>);

    open spec fn view(&self) -> (CzdiExtraKind, Option<Seq<u8>>) {
        (self.kind, opt_bytes(self.inline_blob))
    }
}

/// The fixed bytes at the start of a field: version, storage kind, two reserved bytes.
pub open spec fn czdi_head(storage: u8) -> Seq<u8> {
    seq![CZDI_EXTRA_VERSION_V1, storage, 0u8, 0u8]
}

/// The data of the extra field for a plan. An inline plan must hold its bytes.
pub open spec fn czdi_payload(plan: (CzdiExtraKind, Option<Seq<u8>>)) -> Seq<u8> {
    match plan.0 {
        CzdiExtraKind::Inline { blob_len, blob_crc32 } => czdi_head(CZDI_STORAGE_INLINE) + u32_le(
            blob_len,
        ) + u32_le(blob_crc32) + plan.1.unwrap(),
        CzdiExtraKind::Eocd64Ref { blob_offset, blob_len, blob_crc32 } => czdi_head(
            CZDI_STORAGE_EOCD64,
        ) + u32_le(blob_offset) + u32_le(blob_len) + u32_le(blob_crc32),
        CzdiExtraKind::Absent => czdi_head(CZDI_STORAGE_NONE),
    }
}

/// A field with its tag and length.
pub open spec fn czdi_field(payload: Seq<u8>) -> Seq<u8> {
    u16_le(CZDI_EXTRA_FIELD_TAG) + u16_le(payload.len() as u16) + payload
}

/// The whole extra field for a plan, or why it cannot be written.
pub open spec fn czdi_extra(plan: (CzdiExtraKind, Option<Seq<u8>>)) -> Result<
    Seq<u8>,
    CoZipError,
> {
    if plan.0 is Inline && plan.1 is None {
        Err(CoZipError::InvalidZip("missing inline czdi payload"))
    } else if czdi_payload(plan).len() > 0xffff {
        Err(CoZipError::DataTooLarge)
    } else {
        Ok(czdi_field(czdi_payload(plan)))
    }
}

/// Encodes the extra field for a plan.
pub fn encode_czdi_extra_field(plan: &CzdiResolvedPlan) -> (r: Result<Vec<u8>, CoZipError>)
    ensures
        match r {
            Ok(out) => czdi_extra(plan@) == Ok::<Seq<u8>, CoZipError>(out@),
            Err(error) => czdi_extra(plan@) == Err::<Seq<u8>, CoZipError>(error),
        },
{
    let mut payload: Vec<u8> = Vec::new();
    payload.push(CZDI_EXTRA_VERSION_V1);
    match plan.kind {
        CzdiExtraKind::Inline { blob_len, blob_crc32 } => {
            payload.push(CZDI_STORAGE_INLINE);
            payload.push(0);
            payload.push(0);
            assert(payload@ =~= czdi_head(CZDI_STORAGE_INLINE));
            write_u32(&mut payload, blob_len);
            write_u32(&mut payload, blob_crc32);
            match &plan.inline_blob {
                None => {
                    return Err(CoZipError::InvalidZip("missing inline czdi payload"));
                },
                Some(inline) => {
                    write_bytes(&mut payload, inline.as_slice());
                },
            }
        },
        CzdiExtraKind::Eocd64Ref { blob_offset, blob_len, blob_crc32 } => {
            payload.push(CZDI_STORAGE_EOCD64);
            payload.push(0);
            payload.push(0);
            assert(payload@ =~= czdi_head(CZDI_STORAGE_EOCD64));
            write_u32(&mut payload, blob_offset);
            write_u32(&mut payload, blob_len);
            write_u32(&mut payload, blob_crc32);
        },
        CzdiExtraKind::Absent => {
            payload.push(CZDI_STORAGE_NONE);
            payload.push(0);
            payload.push(0);
            assert(payload@ =~= czdi_head(CZDI_STORAGE_NONE));
        },
    }
    assert(payload@ == czdi_payload(plan@));
    if payload.len() > 0xffff {
        return Err(CoZipError::DataTooLarge);
    }
    let mut out: Vec<u8> = Vec::with_capacity(4 + payload.len());
    write_u16(&mut out, CZDI_EXTRA_FIELD_TAG);
    write_u16(&mut out, payload.len() as u16);
    write_bytes(&mut out, payload.as_slice());
    assert(out@ =~= czdi_field(payload@));
    Ok(out)
}

/// The bytes that mark the area behind the ZIP64 end record.
pub open spec fn czdi_magic() -> Seq<u8> {
    seq![0x43u8, 0x5A, 0x44, 0x47]
}

/// The area behind the ZIP64 end record, with its header.
pub open spec fn czdi_area_record(area: Seq<u8>) -> Seq<u8> {
    czdi_magic() + seq![CZDI_EXTRA_VERSION_V1, 0u8, 0u8, 0u8] + u32_le(area.len() as u32) + area
}

/// Encodes the area behind the ZIP64 end record.
pub fn encode_czdi_eocd64_blob(blob_area: &[u8]) -> (r: Result<Vec<u8>, CoZipError>)
    ensures
        match r {
            Ok(out) => blob_area@.len() <= u32::MAX && out@ == czdi_area_record(blob_area@),
            Err(error) => blob_area@.len() > u32::MAX && error == CoZipError::DataTooLarge,
        },
{
    if blob_area.len() as u64 > u32::MAX as u64 {
        return Err(CoZipError::DataTooLarge);
    }
    let mut out: Vec<u8> = Vec::new();
    out.push(0x43);
    out.push(0x5A);
    out.push(0x44);
    out.push(0x47);
    out.push(CZDI_EXTRA_VERSION_V1);
    out.push(0);
    out.push(0);
    out.push(0);
    assert(out@ =~= czdi_magic() + seq![CZDI_EXTRA_VERSION_V1, 0u8, 0u8, 0u8]);
    write_u32(&mut out, blob_area.len() as u32);
    write_bytes(&mut out, blob_area);
    Ok(out)
}

/// What the data behind the ZIP64 end record holds. Data with another mark is
/// not the library's and is passed over.
pub open spec fn czdi_area(data: Seq<u8>) -> Result<Option<Seq<u8>>, CoZipError> {
    if data.len() == 0 {
        Ok(None)
    } else if data.len() < 12 {
        Err(CoZipError::InvalidZip("czdi eocd64 blob truncated"))
    } else if data.subrange(0, 4) != czdi_magic() {
        Ok(None)
    } else if data[4] != CZDI_EXTRA_VERSION_V1 {
        Err(CoZipError::InvalidZip("unsupported czdi eocd64 blob version"))
    } else if 12 + le32(data, 8) > usize::MAX {
        Err(CoZipError::InvalidZip("czdi eocd64 length overflow"))
    } else if 12 + le32(data, 8) > data.len() {
        Err(CoZipError::InvalidZip("czdi eocd64 payload truncated"))
    } else {
        Ok(Some(data.subrange(12, 12 + le32(data, 8))))
    }
}

/// Reads the area behind the ZIP64 end record.
pub fn decode_czdi_eocd64_blob(blob: &[u8]) -> (r: Result<Option<Vec<u8>>, CoZipError>)
    ensures
        match r {
            Ok(area) => czdi_area(blob@) == Ok::<Option<Seq<u8>>, CoZipError>(opt_bytes(area)),
            Err(error) => czdi_area(blob@) == Err::<Option<Seq<u8>>, CoZipError>(error),
        },
{
    if blob.len() == 0 {
        return Ok(None);
    }
    if blob.len() < 12 {
        return Err(CoZipError::InvalidZip("czdi eocd64 blob truncated"));
    }
    let marked = blob[0] == 0x43 && blob[1] == 0x5A && blob[2] == 0x44 && blob[3] == 0x47;
    proof {
        let head = blob@.subrange(0, 4);
        assert(head[0] == blob@[0] && head[1] == blob@[1] && head[2] == blob@[2] && head[3]
            == blob@[3]);
        if marked {
            assert(head =~= czdi_magic());
        }
    }
    if !marked {
        return Ok(None);
    }
    if blob[4] != CZDI_EXTRA_VERSION_V1 {
        return Err(CoZipError::InvalidZip("unsupported czdi eocd64 blob version"));
    }
    let area_len = get_u32(blob, 8) as usize;
    match area_len.checked_add(12) {
        None => Err(CoZipError::InvalidZip("czdi eocd64 length overflow")),
        Some(area_end) => {
            if area_end > blob.len() {
                Err(CoZipError::InvalidZip("czdi eocd64 payload truncated"))
            } else {
                Ok(Some(copy_range(blob, 12, area_end)))
            }
        },
    }
}

/// What the data of an index field says.
pub open spec fn czdi_values(data: Seq<u8>) -> Result<
    (CzdiExtraKind, Option<Seq<u8>>),
    CoZipError,
> {
    if data.len() < 4 {
        Err(CoZipError::InvalidZip("czdi payload too short"))
    } else if data[0] != CZDI_EXTRA_VERSION_V1 {
        Err(CoZipError::InvalidZip("unsupported czdi extra version"))
    } else if data[1] == CZDI_STORAGE_INLINE {
        if data.len() < 12 {
            Err(CoZipError::InvalidZip("czdi inline header truncated"))
        } else if 12 + le32(data, 4) > usize::MAX {
            Err(CoZipError::InvalidZip("czdi inline length overflow"))
        } else if 12 + le32(data, 4) > data.len() {
            Err(CoZipError::InvalidZip("czdi inline payload truncated"))
        } else if crc32(data.subrange(12, 12 + le32(data, 4))) != le32(data, 8) {
            Err(CoZipError::InvalidZip("czdi inline crc mismatch"))
        } else {
            Ok(
                (
                    CzdiExtraKind::Inline { blob_len: le32(data, 4), blob_crc32: le32(data, 8) },
                    Some(data.subrange(12, 12 + le32(data, 4))),
                ),
            )
        }
    } else if data[1] == CZDI_STORAGE_EOCD64 {
        if data.len() < 16 {
            Err(CoZipError::InvalidZip("czdi eocd64 ref truncated"))
        } else {
            Ok(
                (
                    CzdiExtraKind::Eocd64Ref {
                        blob_offset: le32(data, 4),
                        blob_len: le32(data, 8),
                        blob_crc32: le32(data, 12),
                    },
                    None,
                ),
            )
        }
    } else if data[1] == CZDI_STORAGE_NONE {
        Ok((CzdiExtraKind::Absent, None))
    } else {
        Err(CoZipError::InvalidZip("unknown czdi storage kind"))
    }
}

/// What the extra data of a header says of the index.
pub open spec fn czdi_extra_result(extra: Seq<u8>) -> Result<
    Option<(CzdiExtraKind, Option<Seq<u8>>)>,
    CoZipError,
> {
    match find_field(extra, 0, CZDI_EXTRA_FIELD_TAG) {
        FieldSpan::Truncated => Err(CoZipError::InvalidZip("czdi field truncated")),
        FieldSpan::Absent => Ok(None),
        FieldSpan::Found { start, end } => match czdi_values(extra.subrange(start, end)) {
            Ok(found) => Ok(Some(found)),
            Err(error) => Err(error),
        },
    }
}

/// Reads the data of an index field.
fn parse_czdi_values(data: &[u8]) -> (r: Result<CzdiParsedExtra, CoZipError>)
    ensures
        match r {
            Ok(found) => czdi_values(data@) == Ok::<
                (CzdiExtraKind, Option<Seq<u8>>),
                CoZipError,
            >(found@),
            Err(error) => czdi_values(data@) == Err::<
                (CzdiExtraKind, Option<Seq<u8>>),
                CoZipError,
            >(error),
        },
{
    if data.len() < 4 {
        return Err(CoZipError::InvalidZip("czdi payload too short"));
    }
    if data[0] != CZDI_EXTRA_VERSION_V1 {
        return Err(CoZipError::InvalidZip("unsupported czdi extra version"));
    }
    let storage: u8 = data[1];
    if storage == CZDI_STORAGE_INLINE {
        if data.len() < 12 {
            return Err(CoZipError::InvalidZip("czdi inline header truncated"));
        }
        let blob_len: u32 = get_u32(data, 4);
        let blob_crc32: u32 = get_u32(data, 8);
        let blob_end: usize = match (blob_len as usize).checked_add(12) {
            None => {
                return Err(CoZipError::InvalidZip("czdi inline length overflow"));
            },
            Some(end) => end,
        };
        if blob_end > data.len() {
            return Err(CoZipError::InvalidZip("czdi inline payload truncated"));
        }
        let blob = &data[12..blob_end];
        if crc32fast::hash(blob) != blob_crc32 {
            return Err(CoZipError::InvalidZip("czdi inline crc mismatch"));
        }
        Ok(
            CzdiParsedExtra {
                kind: CzdiExtraKind::Inline { blob_len, blob_crc32 },
                inline_blob: Some(copy_range(data, 12, blob_end)),
            },
        )
    } else if storage == CZDI_STORAGE_EOCD64 {
        if data.len() < 16 {
            return Err(CoZipError::InvalidZip("czdi eocd64 ref truncated"));
        }
        Ok(
            CzdiParsedExtra {
                kind: CzdiExtraKind::Eocd64Ref {
                    blob_offset: get_u32(data, 4),
                    blob_len: get_u32(data, 8),
                    blob_crc32: get_u32(data, 12),
                },
                inline_blob: None,
            },
        )
    } else if storage == CZDI_STORAGE_NONE {
        Ok(CzdiParsedExtra { kind: CzdiExtraKind::Absent, inline_blob: None })
    } else {
        Err(CoZipError::InvalidZip("unknown czdi storage kind"))
    }
}

/// Reads the index field of the extra data.
pub fn parse_czdi_extra_field(extra: &[u8]) -> (r: Result<Option<CzdiParsedExtra>, CoZipError>)
    ensures
        match r {
            Ok(Some(found)) => czdi_extra_result(extra@) == Ok::<
                Option<(CzdiExtraKind, Option<Seq<u8>>)>,
                CoZipError,
            >(Some(found@)),
            Ok(None) => czdi_extra_result(extra@) == Ok::<
                Option<(CzdiExtraKind, Option<Seq<u8>>)>,
                CoZipError,
            >(None),
            Err(error) => czdi_extra_result(extra@) == Err::<
                Option<(CzdiExtraKind, Option<Seq<u8>>)>,
                CoZipError,
            >(error),
        },
{
    match search_field(extra, CZDI_EXTRA_FIELD_TAG) {
        FieldSearch::Truncated => Err(CoZipError::InvalidZip("czdi field truncated")),
        FieldSearch::Absent => Ok(None),
        FieldSearch::Found { start, end } => match parse_czdi_values(&extra[start..end]) {
            Ok(found) => Ok(Some(found)),
            Err(error) => Err(error),
        },
    }
}

/// The index bytes that an entry's extra data leads to, in the field or in the
/// area behind the ZIP64 end record. Whatever does not fit together counts as
/// no index.
pub open spec fn czdi_blob(extra: Seq<u8>, area: Option<Seq<u8>>) -> Option<Seq<u8>> {
    match czdi_extra_result(extra) {
        Ok(Some((CzdiExtraKind::Inline { .. }, inline))) => inline,
        Ok(Some((CzdiExtraKind::Eocd64Ref { blob_offset, blob_len, blob_crc32 }, _))) => match area {
            None => None,
            Some(area) => if blob_offset + blob_len <= area.len() && crc32(
                area.subrange(blob_offset as int, blob_offset + blob_len),
            ) == blob_crc32 {
                Some(area.subrange(blob_offset as int, blob_offset + blob_len))
            } else {
                None
            },
        },
        _ => None,
    }
}

/// Finds the index bytes that an entry's extra data leads to.
pub fn select_czdi_blob(extra_data: &[u8], czdi_eocd_blob: Option<&[u8]>) -> (blob: Option<Vec<u8>>)
    ensures
        opt_bytes(blob) == czdi_blob(extra_data@, opt_slice(czdi_eocd_blob)),
{
    match parse_czdi_extra_field(extra_data) {
        Err(_) => None,
        Ok(None) => None,
        Ok(Some(found)) => match found.kind {
            CzdiExtraKind::Inline { blob_len: _, blob_crc32: _ } => found.inline_blob,
            CzdiExtraKind::Eocd64Ref { blob_offset, blob_len, blob_crc32 } => {
                match czdi_eocd_blob {
                    None => None,
                    Some(area) => {
                        let area_len: usize = area.len();
                        let start = blob_offset as usize;
                        match start.checked_add(blob_len as usize) {
                            None => None,
                            Some(end) => {
                                if end > area_len || crc32fast::hash(&area[start..end])
                                    != blob_crc32 {
                                    None
                                } else {
                                    Some(copy_range(area, start, end))
                                }
                            },
                        }
                    },
                }
            },
            CzdiExtraKind::Absent => None,
        },
    }
}

/// Reads the blob of an index with `decode`, where there is one that can be read.
pub fn decode_czdi_blob<I, E, F: Fn(&[u8]) -> Result<I, E>>(
    blob: Option<&[u8]>,
    decode: F,
) -> (index: Option<I>)
    requires
        forall|bytes: &[u8]| call_requires(decode, (bytes,)),
    ensures
        match blob {
            None => index is None,
            Some(bytes) => exists|read: Result<I, E>| #[trigger]
                call_ensures(decode, (bytes,), read) && index == (match read {
                    Ok(index) => Some(index),
                    Err(_) => None,
                }),
        },
{
    match blob {
        None => None,
        Some(bytes) => match decode(bytes) {
            Ok(index) => Some(index),
            Err(_) => None,
        },
    }
}

/// Reads the index of an entry with `decode`, where there is one that can be read.
pub fn read_czdi_index_best_effort<I, E, F: Fn(&[u8]) -> Result<I, E>>(
    extra_data: &[u8],
    czdi_eocd_blob: Option<&[u8]>,
    decode: F,
) -> (index: Option<I>)
    requires
        forall|blob: &[u8]| call_requires(decode, (blob,)),
    ensures
        match czdi_blob(extra_data@, opt_slice(czdi_eocd_blob)) {
            None => index is None,
            Some(bytes) => exists|blob: &[u8], read: Result<I, E>|
                blob@ == bytes && #[trigger] call_ensures(decode, (blob,), read) && index == (
                match read {
                    Ok(index) => Some(index),
                    Err(_) => None,
                }),
        },
{
    match select_czdi_blob(extra_data, czdi_eocd_blob) {
        None => None,
        Some(blob) => decode_czdi_blob(Some(blob.as_slice()), decode),
    }
}

/// The field of an index stands as it is meant to be read: tag, length, version, where
/// the index is kept, two bytes of zero, and behind them the numbers of the plan, lowest
/// byte first. A plan that keeps the index in the field has its bytes at the end.
pub proof fn law_index_field_is_laid_out(plan: &CzdiResolvedPlan, out: Vec<u8>)
    requires
        call_ensures(encode_czdi_extra_field, (plan,), Ok::<Vec<u8>, CoZipError>(out)),
    ensures
        number_at(out@, 0, 2) == 0x435A,
        number_at(out@, 2, 2) == out@.len() - 4,
        out@[4] == 1,
        out@[6] == 0,
        out@[7] == 0,
        match plan.kind {
            CzdiExtraKind::Inline { blob_len, blob_crc32 } => {
                &&& out@[5] == 0
                &&& number_at(out@, 8, 4) == blob_len
                &&& number_at(out@, 12, 4) == blob_crc32
                &&& plan.inline_blob matches Some(blob) && out@.skip(16) == blob@
            },
            CzdiExtraKind::Eocd64Ref { blob_offset, blob_len, blob_crc32 } => {
                &&& out@[5] == 1
                &&& out@.len() == 20
                &&& number_at(out@, 8, 4) == blob_offset
                &&& number_at(out@, 12, 4) == blob_len
                &&& number_at(out@, 16, 4) == blob_crc32
            },
            CzdiExtraKind::Absent => out@[5] == 2 && out@.len() == 8,
        },
{
    let payload = czdi_payload(plan@);
    law_numbers_are_written(0x435A, 0, 0);
    law_numbers_are_written(payload.len() as u16, 0, 0);
    assert(out@.subrange(0, 2) =~= u16_le(0x435A));
    assert(out@.subrange(2, 4) =~= u16_le(payload.len() as u16));
    match plan.kind {
        CzdiExtraKind::Inline { blob_len, blob_crc32 } => {
            law_numbers_are_written(0, blob_len, 0);
            law_numbers_are_written(0, blob_crc32, 0);
            assert(out@.subrange(8, 12) =~= u32_le(blob_len));
            assert(out@.subrange(12, 16) =~= u32_le(blob_crc32));
            assert(out@.skip(16) =~= plan.inline_blob->Some_0@);
        },
        CzdiExtraKind::Eocd64Ref { blob_offset, blob_len, blob_crc32 } => {
            law_numbers_are_written(0, blob_offset, 0);
            law_numbers_are_written(0, blob_len, 0);
            law_numbers_are_written(0, blob_crc32, 0);
            assert(out@.subrange(8, 12) =~= u32_le(blob_offset));
            assert(out@.subrange(12, 16) =~= u32_le(blob_len));
            assert(out@.subrange(16, 20) =~= u32_le(blob_crc32));
        },
        CzdiExtraKind::Absent => {},
    }
}

/// A field is written unless the index that stands in it is missing or leaves no room
/// for the twelve bytes before it.
pub proof fn law_index_field_is_written(plan: &CzdiResolvedPlan, r: Result<Vec<u8>, CoZipError>)
    requires
        call_ensures(encode_czdi_extra_field, (plan,), r),
    ensures
        r is Err <==> plan.kind is Inline && (match plan.inline_blob {
            Some(blob) => blob@.len() > 65523,
            None => true,
        }),
        r matches Err(error) ==> (error == CoZipError::DataTooLarge <==> plan.inline_blob is Some),
{
}

/// The area behind the ZIP64 end record stands as it is meant to be read: the letters
/// `CZDG`, the version, three bytes of zero, the length and the indexes.
pub proof fn law_index_area_is_laid_out(area: &[u8], out: Vec<u8>)
    requires
        call_ensures(encode_czdi_eocd64_blob, (area,), Ok::<Vec<u8>, CoZipError>(out)),
    ensures
        seq![0x43u8, 0x5A, 0x44, 0x47, 1, 0, 0, 0].is_prefix_of(out@),
        number_at(out@, 8, 4) == area@.len(),
        out@.skip(12) == area@,
{
    let head = seq![0x43u8, 0x5A, 0x44, 0x47, 1, 0, 0, 0];
    law_numbers_are_written(0, area@.len() as u32, 0);
    assert(out@.subrange(8, 12) =~= u32_le(area@.len() as u32));
    assert(out@.skip(12) =~= area@);
    assert(head =~= out@.subrange(0, 8));
}

/// The area behind the ZIP64 end record is told by its letters, and is as long as it
/// says. What has other letters belongs to somebody else.
pub proof fn law_index_area_is_told_by_its_mark(
    data: &[u8],
    r: Result<Option<Vec<u8>>, CoZipError>,
)
    requires
        call_ensures(decode_czdi_eocd64_blob, (data,), r),
        data@.len() <= usize::MAX,
    ensures
        data@.len() == 0 ==> (r matches Ok(area) && area is None),
        0 < data@.len() < 12 ==> r is Err,
        data@.len() >= 12 ==> ({
            let len = number_at(data@, 8, 4) as int;
            if !seq![0x43u8, 0x5A, 0x44, 0x47].is_prefix_of(data@) {
                r matches Ok(area) && area is None
            } else if data@[4] == 1 && 12 + len <= data@.len() {
                r matches Ok(Some(area)) && area@ == data@.subrange(12, 12 + len)
            } else {
                r is Err
            }
        }),
{
    if data@.len() >= 12 {
        law_four_bytes_are_read(data@, 8);
        let mark = seq![0x43u8, 0x5A, 0x44, 0x47];
        assert(mark.is_prefix_of(data@) <==> data@.subrange(0, 4) == mark) by {
            if data@.subrange(0, 4) == mark {
                assert(mark =~= data@.subrange(0, 4));
            }
        }
    }
}

/// An index is found where the field says, and only where it has the length and the
/// checksum that the field says: in the field itself, or in the area behind the ZIP64
/// end record.
pub proof fn law_index_is_known_by_its_checksum(
    extra: &[u8],
    area: Option<&[u8]>,
    blob: Option<Vec<u8>>,
)
    requires
        call_ensures(select_czdi_blob, (extra, area), blob),
        extra@.len() >= 8,
        extra@.len() <= usize::MAX,
        number_at(extra@, 0, 2) == 0x435A,
        4 <= number_at(extra@, 2, 2) <= extra@.len() - 4,
    ensures
        ({
            let size = number_at(extra@, 2, 2);
            if extra@[4] == 1 && extra@[5] == 0 && size >= 12 {
                let len = number_at(extra@, 8, 4) as int;
                if 12 + len <= size && crc32(extra@.subrange(16, 16 + len)) == number_at(
                    extra@,
                    12,
                    4,
                ) {
                    blob matches Some(found) && found@ == extra@.subrange(16, 16 + len)
                } else {
                    blob is None
                }
            } else if extra@[4] == 1 && extra@[5] == 1 && size >= 16 && area is Some {
                let kept = area->Some_0@;
                let from = number_at(extra@, 8, 4) as int;
                let len = number_at(extra@, 12, 4) as int;
                if from + len <= kept.len() && crc32(kept.subrange(from, from + len))
                    == number_at(extra@, 16, 4) {
                    blob matches Some(found) && found@ == kept.subrange(from, from + len)
                } else {
                    blob is None
                }
            } else {
                blob is None
            }
        }),
{
    law_two_bytes_are_read(extra@, 0);
    law_two_bytes_are_read(extra@, 2);
    let size = number_at(extra@, 2, 2) as int;
    let data = extra@.subrange(4, 4 + size);
    assert(data[0] == extra@[4] && data[1] == extra@[5]);
    if size >= 12 {
        law_four_bytes_are_read(data, 4);
        law_four_bytes_are_read(data, 8);
        assert(data.subrange(4, 8) =~= extra@.subrange(8, 12));
        assert(data.subrange(8, 12) =~= extra@.subrange(12, 16));
        let len = number_at(extra@, 8, 4) as int;
        if 12 + len <= size {
            assert(data.subrange(12, 12 + len) =~= extra@.subrange(16, 16 + len));
        }
    }
    if size >= 16 {
        law_four_bytes_are_read(data, 12);
        assert(data.subrange(12, 16) =~= extra@.subrange(16, 20));
    }
}

/// A field further back is found there.
pub proof fn lemma_field_behind(extra: Seq<u8>, by: int, pos: int, tag: u16)
    requires
        0 <= by <= pos <= extra.len(),
    ensures
        find_field(extra.skip(by), pos - by, tag) == (match find_field(extra, pos, tag) {
            FieldSpan::Found { start, end } => FieldSpan::Found {
                start: start - by,
                end: end - by,
            },
            FieldSpan::Absent => FieldSpan::Absent,
            FieldSpan::Truncated => FieldSpan::Truncated,
        }),
        find_field(extra, pos, tag) matches FieldSpan::Found { start, end } ==> pos <= start <= end
            <= extra.len(),
    decreases extra.len() - pos,
{
    let rest = extra.skip(by);
    if pos + 4 <= extra.len() {
        assert(rest[pos - by] == extra[pos] && rest[pos - by + 1] == extra[pos + 1]);
        assert(rest[pos - by + 2] == extra[pos + 2] && rest[pos - by + 3] == extra[pos + 3]);
        let end = pos + 4 + le16(extra, pos + 2);
        if end <= extra.len() && le16(extra, pos) != tag {
            lemma_field_behind(extra, by, end, tag);
        }
    }
}

/// Fields of others are passed over: an index is found behind them as if they were not
/// there.
pub proof fn law_other_fields_are_passed_over(
    extra: &[u8],
    rest: &[u8],
    area: Option<&[u8]>,
    blob: Option<Vec<u8>>,
    blob_of_rest: Option<Vec<u8>>,
)
    requires
        call_ensures(select_czdi_blob, (extra, area), blob),
        call_ensures(select_czdi_blob, (rest, area), blob_of_rest),
        extra@.len() >= 4,
        number_at(extra@, 0, 2) != 0x435A,
        4 + number_at(extra@, 2, 2) <= extra@.len(),
        rest@ == extra@.skip(4 + number_at(extra@, 2, 2) as int),
    ensures
        opt_bytes(blob) == opt_bytes(blob_of_rest),
{
    law_two_bytes_are_read(extra@, 0);
    law_two_bytes_are_read(extra@, 2);
    let by = 4 + number_at(extra@, 2, 2) as int;
    lemma_field_behind(extra@, by, by, 0x435A);
    if let FieldSpan::Found { start, end } = find_field(extra@, by, 0x435A) {
        assert(rest@.subrange(start - by, end - by) =~= extra@.subrange(start, end));
    }
}

/// Without a field there is no index.
pub proof fn law_no_field_no_index(extra: &[u8], area: Option<&[u8]>, blob: Option<Vec<u8>>)
    requires
        call_ensures(select_czdi_blob, (extra, area), blob),
        extra@.len() < 4,
    ensures
        blob is None,
{
}

} // verus!
