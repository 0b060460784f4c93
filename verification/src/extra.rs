//! The extra fields of a ZIP header: a list of tagged fields, each with its length.

use vstd::prelude::*;

use crate::error::CoZipError;
use crate::le::{get_u16, get_u64, le16, le64};

verus! {

/// Tag of the field that holds the 64-bit sizes and offset of an entry.
pub const ZIP64_EXTRA_FIELD_TAG: u16 = 0x0001;

/// Where a search through the extra fields ends.
pub enum FieldSpan {
    /// The data of the first field with the tag.
    Found { start: int, end: int },
    /// Every field was walked, and none had the tag.
    Absent,
    /// A field reaches beyond the end before one with the tag was met.
    Truncated,
}

/// The first field with `tag` at or after `pos`. Fewer than four bytes at the
/// end hold no field.
pub open spec fn find_field(extra: Seq<u8>, pos: int, tag: u16) -> FieldSpan
    decreases extra.len() - pos,
{
    if pos + 4 > extra.len() {
        FieldSpan::Absent
    } else {
        let end = pos + 4 + le16(extra, pos + 2);
        if end > extra.len() {
            FieldSpan::Truncated
        } else if le16(extra, pos) == tag {
            FieldSpan::Found { start: pos + 4, end }
        } else {
            find_field(extra, end, tag)
        }
    }
}

/// Where the search for an extra field ended.
#[derive(Debug, Clone, Copy, PartialEq, Eq)]
pub enum FieldSearch {
    /// The data of the field.
    Found { start: usize, end: usize },
    /// No field has the tag.
    Absent,
    /// The fields are cut off.
    Truncated,
}

impl View for FieldSearch {
    type V = FieldSpan;

    open spec fn view(&self) -> FieldSpan {
        match *self {
            FieldSearch::Found { start, end } => FieldSpan::Found {
                start: start as int,
                end: end as int,
            },
            FieldSearch::Absent => FieldSpan::Absent,
            FieldSearch::Truncated => FieldSpan::Truncated,
        }
    }
}

/// Searches the extra fields for the first one with `tag`.
pub fn search_field(extra: &[u8], tag: u16) -> (found: FieldSearch)
    ensures
        found@ == find_field(extra@, 0, tag),
        found matches FieldSearch::Found { start, end } ==> start <= end <= extra@.len() && end
            - start <= 0xffff,
{
    let mut pos: usize = 0;
    while extra.len() - pos >= 4
        invariant
            pos <= extra@.len(),
            find_field(extra@, 0, tag) == find_field(extra@, pos as int, tag),
        decreases extra@.len() - pos,
    {
        let size = get_u16(extra, pos + 2) as usize;
        let start: usize = pos + 4;
        if extra.len() - start < size {
            return FieldSearch::Truncated;
        }
        let end: usize = start + size;
        if get_u16(extra, pos) == tag {
            return FieldSearch::Found { start, end };
        }
        pos = end;
    }
    FieldSearch::Absent
}

/// What a ZIP64 extra field holds: only the values that the header leaves open.
#[derive(Debug, Clone, Copy, PartialEq, Eq)]
pub struct Zip64ExtraField {
    pub uncompressed_size: Option<u64>,
    pub compressed_size: Option<u64>,
    pub local_header_offset: Option<u64>,
}

/// The values in the data of a ZIP64 field: those that are needed stand one
/// after the other, in the order uncompressed size, compressed size, offset.
pub open spec fn zip64_values(
    data: Seq<u8>,
    needs_uncompressed_size: bool,
    needs_compressed_size: bool,
    needs_local_header_offset: bool,
) -> Result<Zip64ExtraField, CoZipError> {
    let compressed_at: int = if needs_uncompressed_size { 8 } else { 0 };
    let offset_at: int = compressed_at + if needs_compressed_size { 8int } else { 0 };
    if needs_uncompressed_size && data.len() < 8 {
        Err(CoZipError::InvalidZip("zip64 uncompressed size missing"))
    } else if needs_compressed_size && data.len() < compressed_at + 8 {
        Err(CoZipError::InvalidZip("zip64 compressed size missing"))
    } else if needs_local_header_offset && data.len() < offset_at + 8 {
        Err(CoZipError::InvalidZip("zip64 local offset missing"))
    } else {
        Ok(
            Zip64ExtraField {
                uncompressed_size: if needs_uncompressed_size {
                    Some(le64(data, 0))
                } else {
                    None
                },
                compressed_size: if needs_compressed_size {
                    Some(le64(data, compressed_at))
                } else {
                    None
                },
                local_header_offset: if needs_local_header_offset {
                    Some(le64(data, offset_at))
                } else {
                    None
                },
            },
        )
    }
}

/// What the extra data of a header says of the 64-bit values.
pub open spec fn zip64_extra_result(
    extra: Seq<u8>,
    needs_uncompressed_size: bool,
    needs_compressed_size: bool,
    needs_local_header_offset: bool,
) -> Result<Option<Zip64ExtraField>, CoZipError> {
    match find_field(extra, 0, ZIP64_EXTRA_FIELD_TAG) {
        FieldSpan::Truncated => Err(CoZipError::InvalidZip("zip64 extra field truncated")),
        FieldSpan::Absent => Ok(None),
        FieldSpan::Found { start, end } => match zip64_values(
            extra.subrange(start, end),
            needs_uncompressed_size,
            needs_compressed_size,
            needs_local_header_offset,
        ) {
            Ok(field) => Ok(Some(field)),
            Err(error) => Err(error),
        },
    }
}

/// Reads the ZIP64 field of the extra data, of which only the needed values are there.
pub fn parse_zip64_extra_field(
    extra: &[u8],
    needs_uncompressed_size: bool,
    needs_compressed_size: bool,
    needs_local_header_offset: bool,
) -> (r: Result<Option<Zip64ExtraField>, CoZipError>)
    ensures
        r == zip64_extra_result(
            extra@,
            needs_uncompressed_size,
            needs_compressed_size,
            needs_local_header_offset,
        ),
{
    match search_field(extra, ZIP64_EXTRA_FIELD_TAG) {
        FieldSearch::Truncated => Err(CoZipError::InvalidZip("zip64 extra field truncated")),
        FieldSearch::Absent => Ok(None),
        FieldSearch::Found { start, end } => {
            let data = &extra[start..end];
            let mut offset: usize = 0;
            let mut uncompressed_size: Option<u64> = None;
            let mut compressed_size: Option<u64> = None;
            let mut local_header_offset: Option<u64> = None;
            if needs_uncompressed_size {
                if data.len() < 8 {
                    return Err(CoZipError::InvalidZip("zip64 uncompressed size missing"));
                }
                uncompressed_size = Some(get_u64(data, 0));
                offset = 8;
            }
            if needs_compressed_size {
                if data.len() < offset + 8 {
                    return Err(CoZipError::InvalidZip("zip64 compressed size missing"));
                }
                compressed_size = Some(get_u64(data, offset));
                offset = offset + 8;
            }
            if needs_local_header_offset {
                if data.len() < offset + 8 {
                    return Err(CoZipError::InvalidZip("zip64 local offset missing"));
                }
                local_header_offset = Some(get_u64(data, offset));
            }
            Ok(Some(Zip64ExtraField { uncompressed_size, compressed_size, local_header_offset }))
        },
    }
}

} // verus!
