use cozip::czdi::{
    decode_czdi_blob, decode_czdi_eocd64_blob, encode_czdi_eocd64_blob, encode_czdi_extra_field,
    parse_czdi_extra_field, read_czdi_index_best_effort, select_czdi_blob, CzdiExtraKind,
    CzdiResolvedPlan,
};
use cozip::types::CoZipStats;
use cozip::zip_read::read_central_directory_entries;
use cozip::zip_write::{
    resolve_czdi_write_plan, ZipCentralWriteEntry, ZipWriteState, GP_FLAG_DATA_DESCRIPTOR,
    GP_FLAG_UTF8,
};

fn decode_index(blob: &[u8]) -> Result<usize, String> {
    if blob.starts_with(b"CZDI") {
        Ok(blob.len())
    } else {
        Err("not an index".to_string())
    }
}

#[test]
fn czdi_inline_extra_roundtrip() {
    let mut blob = b"CZDI".to_vec();
    blob.extend_from_slice(&(4_u32 * 1024 * 1024).to_le_bytes());
    blob.extend_from_slice(&1_u32.to_le_bytes());
    blob.extend_from_slice(&1234_u64.to_le_bytes());
    blob.extend_from_slice(&567_u64.to_le_bytes());
    let plan = CzdiResolvedPlan {
        kind: CzdiExtraKind::Inline {
            blob_len: u32::try_from(blob.len()).expect("blob len"),
            blob_crc32: crc32fast::hash(&blob),
        },
        inline_blob: Some(blob.clone()),
    };
    let extra = encode_czdi_extra_field(&plan).expect("encode extra");
    let parsed = parse_czdi_extra_field(&extra)
        .expect("parse extra")
        .expect("czdi extra exists");
    let inline = parsed.inline_blob.expect("inline payload");
    assert_eq!(inline, blob);
    assert_eq!(select_czdi_blob(&extra, None), Some(blob.clone()));
    assert_eq!(
        read_czdi_index_best_effort(&extra, None, decode_index),
        Some(blob.len())
    );
}

#[test]
fn czdi_overflow_uses_eocd64_blob_storage() {
    let large_blob = vec![0xAB; 70_000];
    let entries = vec![ZipCentralWriteEntry {
        name: "big.bin".to_string(),
        gp_flags: GP_FLAG_DATA_DESCRIPTOR | GP_FLAG_UTF8,
        crc: 0,
        compressed_size: 0,
        uncompressed_size: 0,
        local_header_offset: 0,
        czdi_blob: Some(large_blob.clone()),
    }];
    let (plans, eocd_blob) = resolve_czdi_write_plan(&entries).expect("resolve plan");
    assert_eq!(plans.len(), 1);
    let CzdiExtraKind::Eocd64Ref {
        blob_offset,
        blob_len,
        blob_crc32,
    } = plans[0].kind
    else {
        panic!("expected eocd64 ref plan");
    };
    let area = decode_czdi_eocd64_blob(&eocd_blob)
        .expect("decode eocd blob")
        .expect("eocd area");
    let start = usize::try_from(blob_offset).expect("offset");
    let len = usize::try_from(blob_len).expect("len");
    let end = start + len;
    let slice = &area[start..end];
    assert_eq!(crc32fast::hash(slice), blob_crc32);
    assert_eq!(slice, large_blob.as_slice());
}

#[test]
fn read_central_directory_entries_ignores_invalid_large_czdi_blob() {
    let large_blob = vec![0xAB_u8; usize::from(u16::MAX)];
    let state = ZipWriteState {
        central_entries: vec![ZipCentralWriteEntry {
            name: "payload.bin".to_string(),
            gp_flags: GP_FLAG_UTF8,
            crc: 0,
            compressed_size: 1,
            uncompressed_size: 1,
            local_header_offset: 0,
            czdi_blob: Some(large_blob),
        }],
        offset: 0,
        stats: CoZipStats::default(),
    };

    let mut bytes = Vec::new();
    state.finish(&mut bytes).expect("write synthetic zip");

    let (entries, _) = read_central_directory_entries(&bytes).expect("read central dir");
    assert_eq!(entries.len(), 1);
    let index = entries[0]
        .czdi_blob
        .as_deref()
        .and_then(|blob| decode_index(blob).ok());
    assert!(index.is_none());
    assert_eq!(entries[0].name, "payload.bin");
}

#[test]
fn damaged_blob_is_ignored() {
    let blob = b"CZDI0123".to_vec();
    let plan = CzdiResolvedPlan {
        kind: CzdiExtraKind::Inline {
            blob_len: 8,
            blob_crc32: crc32fast::hash(&blob) ^ 1,
        },
        inline_blob: Some(blob),
    };
    let extra = encode_czdi_extra_field(&plan).expect("encode extra");
    assert_eq!(select_czdi_blob(&extra, None), None);
    assert_eq!(read_czdi_index_best_effort(&extra, None, decode_index), None);
    assert_eq!(select_czdi_blob(&[], None), None);
}

#[test]
fn eocd64_area_roundtrip() {
    let empty = encode_czdi_eocd64_blob(&[]).expect("encode");
    assert_eq!(decode_czdi_eocd64_blob(&empty).expect("decode"), Some(Vec::new()));
    let encoded = encode_czdi_eocd64_blob(b"area").expect("encode");
    assert_eq!(
        decode_czdi_eocd64_blob(&encoded).expect("decode"),
        Some(b"area".to_vec())
    );
    assert!(decode_czdi_eocd64_blob(&encoded[..encoded.len() - 1]).is_err());
}

#[test]
fn index_blobs_are_decoded_where_they_can_be() {
    assert_eq!(decode_czdi_blob(Some(&b"CZDI."[..]), decode_index), Some(5));
    assert_eq!(decode_czdi_blob(Some(&b"other"[..]), decode_index), None);
    assert_eq!(decode_czdi_blob(None, decode_index), None);
}
