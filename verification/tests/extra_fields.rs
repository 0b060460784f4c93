use cozip::error::CoZipError;
use cozip::extra::{parse_zip64_extra_field, ZIP64_EXTRA_FIELD_TAG};

#[test]
fn zip64_extra_field_parses_offset_only_layout() {
    let offset_value = 0x0102_0304_0506_0708_u64;
    let mut extra = Vec::new();
    extra.extend_from_slice(&ZIP64_EXTRA_FIELD_TAG.to_le_bytes());
    extra.extend_from_slice(&8_u16.to_le_bytes());
    extra.extend_from_slice(&offset_value.to_le_bytes());

    let parsed = parse_zip64_extra_field(&extra, false, false, true)
        .expect("zip64 extra parse should succeed")
        .expect("zip64 extra should be found");
    assert_eq!(parsed.local_header_offset, Some(offset_value));
    assert_eq!(parsed.uncompressed_size, None);
    assert_eq!(parsed.compressed_size, None);
}

#[test]
fn zip64_extra_field_errors_when_required_value_is_missing() {
    let mut extra = Vec::new();
    extra.extend_from_slice(&ZIP64_EXTRA_FIELD_TAG.to_le_bytes());
    extra.extend_from_slice(&8_u16.to_le_bytes());
    extra.extend_from_slice(&123_u64.to_le_bytes());

    let err = parse_zip64_extra_field(&extra, true, true, false)
        .expect_err("missing required compressed size should fail");
    assert!(matches!(err, CoZipError::InvalidZip(_)));
}
