use std::io::Read;

use cozip::error::{CoZipError, IoFailure};
use cozip::formats::{
    decode_hint_by_magic, detect_archive_format, detect_by_content, detect_by_name,
    format_with_name, pdeflate_archive_info, zip_archive_info, zip_decode_hint,
    CoZipArchiveDecodeHint, CoZipArchiveFormat, CoZipArchiveInfo, CoZipArchiveKind,
};
use cozip::foreign::{foreign_entry_path, ForeignFormat, ForeignTotals};
use cozip::options::{
    compression_mode_from_level, resolve_zip_backend, CompressionMode, ZipDeflateMode, ZipOptions,
};
use cozip::paths::{PathComponent, PathStyle};
use cozip::routes::{
    after_indexed_attempt, extract_route, foreign_archive_info, pdeflate_file_target,
    require_format, zip_auto_target, AutoTarget, DeflateFailure, ExtractRoute, IndexedStep,
    PDeflateDecode, PDeflateFailure, StreamStats, TarLayer,
};
use cozip::types::CoZipStats;
use cozip::zip_entry::DecodeReport;
use cozip::zip_read::ZipCentralReadEntry;

fn entry(name: &str, method: u16, blob: Option<Vec<u8>>) -> ZipCentralReadEntry {
    ZipCentralReadEntry {
        name: name.to_string(),
        gp_flags: 0x0800,
        method,
        crc: 0,
        compressed_size: 0,
        uncompressed_size: 0,
        local_header_offset: 0,
        czdi_blob: blob,
    }
}

#[test]
fn test_inspect_archive_multi_format() {
    let mut gz = flate2::write::GzEncoder::new(Vec::new(), flate2::Compression::default());
    {
        let mut tar = tar::Builder::new(&mut gz);
        let mut header = tar::Header::new_gnu();
        header.set_size(12);
        header.set_mode(0o644);
        header.set_cksum();
        tar.append_data(&mut header, "hello.txt", &b"hello tar.gz"[..])
            .unwrap();
        tar.finish().unwrap();
    }
    let bytes = gz.finish().unwrap();

    let format = require_format(detect_archive_format(&bytes, None, Some("test_sample.tar.gz")))
        .expect("inspect tar.gz");
    let info = foreign_archive_info(format);
    assert_eq!(info.format, CoZipArchiveFormat::TarGz);
    assert_eq!(extract_route(&info), ExtractRoute::Tar(TarLayer::Gzip));

    let mut archive = tar::Archive::new(flate2::read::GzDecoder::new(&bytes[..]));
    let mut totals = ForeignTotals::new();
    let mut restored = Vec::new();
    for item in archive.entries().expect("entries") {
        let mut item = item.expect("extract tar.gz");
        let name = item.path_bytes().to_vec();
        let path = foreign_entry_path(
            ForeignFormat::Tar,
            &[PathComponent::Normal(name)],
            "hello.txt",
        )
        .expect("path");
        let mut text = String::new();
        item.read_to_string(&mut text).expect("read");
        totals.add_file(text.len() as u64);
        restored.push((path, text));
    }
    let stats = totals.stats();
    assert!(stats.entries >= 1);
    assert_eq!(restored[0].0, vec![b"hello.txt".to_vec()]);
    assert_eq!(restored[0].1, "hello tar.gz");
}

#[test]
fn formats_are_known_by_their_content() {
    assert_eq!(detect_by_content(b"PK\x03\x04rest"), Some(CoZipArchiveFormat::Zip));
    assert_eq!(detect_by_content(b"PDS0rest"), Some(CoZipArchiveFormat::PDeflate));
    assert_eq!(
        detect_by_content(&[0x37, 0x7a, 0xbc, 0xaf, 0x27, 0x1c, 0, 4]),
        Some(CoZipArchiveFormat::SevenZip)
    );
    assert_eq!(detect_by_content(b"Rar!\x1a\x07\x00"), Some(CoZipArchiveFormat::Rar));
    assert_eq!(
        detect_by_content(&[0xfd, b'7', b'z', b'X', b'Z', 0]),
        Some(CoZipArchiveFormat::TarXz)
    );
    assert_eq!(detect_by_content(b"BZh9"), Some(CoZipArchiveFormat::TarBz2));
    assert_eq!(detect_by_content(&[0x1f, 0x8b, 8]), Some(CoZipArchiveFormat::TarGz));
    let mut tar = vec![0; 512];
    tar[257..262].copy_from_slice(b"ustar");
    assert_eq!(detect_by_content(&tar), Some(CoZipArchiveFormat::Tar));
    assert_eq!(detect_by_content(b"nothing"), None);
    assert_eq!(detect_by_content(b"PK\x05\x06"), Some(CoZipArchiveFormat::Zip));
    assert_eq!(detect_by_content(b"PK\x01\x02"), None);
    assert_eq!(detect_by_content(b"CZPD\x02"), Some(CoZipArchiveFormat::PDeflate));
    assert_eq!(detect_by_content(b"CZAR\x01"), Some(CoZipArchiveFormat::PDeflate));
}

#[test]
fn compressed_files_are_archives_only_with_a_tar_in_them() {
    let mut tar = vec![0; 512];
    tar[257..262].copy_from_slice(b"ustar");
    let gz: &[u8] = &[0x1f, 0x8b, 8];
    let xz: &[u8] = &[0xfd, b'7', b'z', b'X', b'Z', 0];
    let cases: [(&[u8], &str, &str, &str, CoZipArchiveFormat); 3] = [
        (gz, "a.gz", "A.TAR.GZ", "a.tgz", CoZipArchiveFormat::TarGz),
        (b"BZh9", "a.bz2", "a.tar.bz2", "a.tbz2", CoZipArchiveFormat::TarBz2),
        (xz, "a.xz", "a.tar.xz", "a.txz", CoZipArchiveFormat::TarXz),
    ];
    for (header, bare, long, short, format) in cases {
        assert_eq!(detect_archive_format(header, None, Some(bare)), None);
        assert_eq!(detect_archive_format(header, Some(b"text"), Some(bare)), None);
        assert_eq!(detect_archive_format(header, Some(&tar), Some(bare)), Some(format));
        assert_eq!(detect_archive_format(header, Some(&tar), None), Some(format));
        assert_eq!(detect_archive_format(header, None, Some(long)), Some(format));
        assert_eq!(detect_archive_format(header, None, Some(short)), Some(format));
    }
    assert_eq!(detect_archive_format(gz, None, Some("a.tar.bz2")), None);
    assert_eq!(detect_archive_format(gz, None, Some("a.7z")), None);
    assert_eq!(detect_archive_format(gz, None, Some("a.tar")), Some(CoZipArchiveFormat::Tar));
    assert_eq!(format_with_name(gz, None, "a.tgz"), Some(CoZipArchiveFormat::TarGz));
}

#[test]
fn a_pdeflate_file_goes_below_a_directory() {
    match pdeflate_file_target("./note.txt", true, PathStyle::Unix).expect("target") {
        AutoTarget::FileBelow { name } => assert_eq!(name, "note.txt"),
        other => panic!("unexpected target {other:?}"),
    }
    assert!(matches!(pdeflate_file_target("../note.txt", false, PathStyle::Unix), Ok(AutoTarget::File)));
    assert!(matches!(
        pdeflate_file_target("../note.txt", true, PathStyle::Unix),
        Err(CoZipError::InvalidEntryName(_))
    ));
}

#[test]
fn entries_of_other_formats_stay_below_the_directory() {
    for (format, message) in [
        (ForeignFormat::Tar, "illegal path component in tar: ../x"),
        (ForeignFormat::Rar, "illegal path in rar: ../x"),
        (ForeignFormat::SevenZip, "illegal path in 7z: ../x"),
    ] {
        let components = [PathComponent::ParentDir, PathComponent::Normal(b"x".to_vec())];
        assert_eq!(
            foreign_entry_path(format, &components, "../x").unwrap_err(),
            CoZipError::Io(IoFailure::Other(message.to_string()))
        );
        assert!(foreign_entry_path(format, &[PathComponent::RootDir], "/").is_err());
    }
}

#[test]
fn formats_are_known_by_their_name() {
    assert_eq!(detect_by_name("x.tar"), Some(CoZipArchiveFormat::Tar));
    assert_eq!(detect_by_name("x.tgz"), Some(CoZipArchiveFormat::TarGz));
    assert_eq!(detect_by_name("x.txt"), None);
    assert_eq!(
        detect_archive_format(b"", None, Some("X.TAR.BZ2")),
        Some(CoZipArchiveFormat::TarBz2)
    );
    assert_eq!(detect_archive_format(b"", None, None), None);
    assert_eq!(
        require_format(None),
        Err(CoZipError::InvalidZip("unsupported archive signature"))
    );
}

#[test]
fn zip_archives_are_classified() {
    let single = vec![entry("a.txt", 8, None)];
    assert_eq!(
        zip_archive_info(&single, PathStyle::Unix).expect("info"),
        CoZipArchiveInfo {
            format: CoZipArchiveFormat::Zip,
            kind: CoZipArchiveKind::SingleFile { suggested_name: "a.txt".to_string() },
        }
    );
    let nested = vec![entry("d/a.txt", 8, None)];
    assert_eq!(
        zip_archive_info(&nested, PathStyle::Unix).expect("info").kind,
        CoZipArchiveKind::Directory
    );
    assert!(matches!(zip_auto_target(&single, false, PathStyle::Unix), Ok(AutoTarget::File)));
    assert!(matches!(
        zip_auto_target(&single, true, PathStyle::Unix),
        Ok(AutoTarget::FileBelow { name }) if name == "a.txt"
    ));
    assert!(matches!(zip_auto_target(&nested, true, PathStyle::Unix), Ok(AutoTarget::Directory)));
    assert!(matches!(
        zip_auto_target(&[entry("..", 8, None)], true, PathStyle::Unix),
        Err(CoZipError::InvalidEntryName(_))
    ));
}

#[test]
fn streams_are_named() {
    let info = pdeflate_archive_info(false, Some("inner".to_string()), Some("stem"));
    assert_eq!(
        info.kind,
        CoZipArchiveKind::SingleFile { suggested_name: "inner".to_string() }
    );
    let info = pdeflate_archive_info(false, None, Some("stem"));
    assert_eq!(
        info.kind,
        CoZipArchiveKind::SingleFile { suggested_name: "stem".to_string() }
    );
    assert_eq!(extract_route(&info), ExtractRoute::PDeflateFile);
    let info = pdeflate_archive_info(false, None, Some(""));
    assert_eq!(
        info.kind,
        CoZipArchiveKind::SingleFile { suggested_name: "payload.bin".to_string() }
    );
    let info = pdeflate_archive_info(true, None, None);
    assert_eq!(info.kind, CoZipArchiveKind::Directory);
    assert_eq!(extract_route(&info), ExtractRoute::PDeflateDirectory);
}

#[test]
fn decode_hints() {
    let readable = |_: &[u8]| true;
    let unreadable = |_: &[u8]| false;
    let two = vec![entry("a", 8, None), entry("b", 8, None)];
    assert_eq!(zip_decode_hint(&two, readable), CoZipArchiveDecodeHint::Parallel);
    let stored = vec![entry("d/", 8, None), entry("d/a", 0, None)];
    assert_eq!(zip_decode_hint(&stored, unreadable), CoZipArchiveDecodeHint::Parallel);
    let indexed = vec![entry("a", 8, Some(vec![1]))];
    assert_eq!(zip_decode_hint(&indexed, readable), CoZipArchiveDecodeHint::Parallel);
    assert_eq!(zip_decode_hint(&indexed, unreadable), CoZipArchiveDecodeHint::SingleThread);
    assert_eq!(zip_decode_hint(&[], readable), CoZipArchiveDecodeHint::SingleThread);
    assert_eq!(decode_hint_by_magic(b"PK\x03\x04").expect("zip"), None);
    assert_eq!(
        decode_hint_by_magic(b"PDS0").expect("stream"),
        Some(CoZipArchiveDecodeHint::Parallel)
    );
    assert_eq!(
        decode_hint_by_magic(b"none"),
        Err(CoZipError::InvalidZip("unsupported archive signature"))
    );
}

#[test]
fn compression_mode_mapping_matches_level_ranges() {
    assert_eq!(compression_mode_from_level(0), CompressionMode::Speed);
    assert_eq!(compression_mode_from_level(3), CompressionMode::Speed);
    assert_eq!(compression_mode_from_level(4), CompressionMode::Balanced);
    assert_eq!(compression_mode_from_level(6), CompressionMode::Balanced);
    assert_eq!(compression_mode_from_level(7), CompressionMode::Ratio);
    assert_eq!(compression_mode_from_level(9), CompressionMode::Ratio);
    assert_eq!(
        compression_mode_from_level(ZipOptions::with_parallelism(4).compression_level),
        CompressionMode::Balanced
    );
}

#[test]
fn backend_settings_are_bounded() {
    let settings = resolve_zip_backend(ZipOptions {
        compression_level: 40,
        deflate_mode: ZipDeflateMode::Cpu,
        parallel_read_threads: 0,
        parallel_write_threads: 3,
    });
    assert_eq!(settings.compression_level, 9);
    assert_eq!(settings.compression_mode, CompressionMode::Ratio);
    assert!(!settings.prefer_gpu);
    assert_eq!(settings.parallel_read_threads, 1);
    assert_eq!(settings.parallel_write_threads, 3);
    assert!(resolve_zip_backend(ZipOptions::with_parallelism(2)).prefer_gpu);
}

#[test]
fn pdeflate_decoding_falls_back_to_a_stream() {
    let decode = PDeflateDecode::start(None);
    assert!(matches!(decode, PDeflateDecode::Probe));
    let decode = decode.probed(Ok(Some(10)));
    assert!(matches!(decode, PDeflateDecode::Parallel { expected: 10 }));
    let decode = decode.attempted(Err(PDeflateFailure::PermissionDenied("no".to_string())));
    assert!(matches!(decode, PDeflateDecode::Stream { expected: Some(10) }));
    let decode = decode.attempted(Ok(StreamStats { input_bytes: 4, output_bytes: 10 }));
    match decode {
        PDeflateDecode::Done { stats } => assert_eq!(
            stats,
            CoZipStats { entries: 1, input_bytes: 4, output_bytes: 10 }
        ),
        _ => panic!("done expected"),
    }
    let decode = PDeflateDecode::start(None).probed(Ok(None));
    assert!(matches!(decode, PDeflateDecode::Stream { expected: None }));
    let decode = decode.attempted(Err(PDeflateFailure::PermissionDenied("no".to_string())));
    assert!(matches!(
        decode,
        PDeflateDecode::Failed { error: CoZipError::PDeflate(_) }
    ));
    let decode = PDeflateDecode::start(Some(3))
        .attempted(Err(PDeflateFailure::Other("bad".to_string())));
    assert!(matches!(
        decode,
        PDeflateDecode::Failed { error: CoZipError::PDeflate(text) } if text == "bad"
    ));
    let decode = PDeflateDecode::start(None).probed(Err("io".to_string()));
    assert!(matches!(decode, PDeflateDecode::Failed { .. }));
}

#[test]
fn gpu_failures_are_retried_on_the_cpu() {
    let report = DecodeReport { output_bytes: 1, output_crc32: 2, leftover: 0 };
    assert!(matches!(
        after_indexed_attempt(Ok(report)),
        IndexedStep::Check(checked) if checked == report
    ));
    assert!(matches!(
        after_indexed_attempt(Err(DeflateFailure::GpuExecution("x".to_string()))),
        IndexedStep::RetryOnCpu
    ));
    assert!(matches!(
        after_indexed_attempt(Err(DeflateFailure::GpuUnavailable("x".to_string()))),
        IndexedStep::RetryOnCpu
    ));
    assert!(matches!(
        after_indexed_attempt(Err(DeflateFailure::Other("x".to_string()))),
        IndexedStep::Fail(CoZipError::Deflate(text)) if text == "x"
    ));
}
