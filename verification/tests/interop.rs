use std::collections::VecDeque;
use std::io::{Cursor, Read, Write};

use cozip::error::CoZipError;
use cozip::paths::PathStyle;
use cozip::pipeline::{assemble_directory, PreparedPayload};
use cozip::formats::{detect_archive_format, CoZipArchiveFormat};
use cozip::zip_dir::{extract_directory, verify_written_zip_archive};
use cozip::zip_entry::InflatedPayload;
use cozip::zip_file::{compress_named_file, decompress_single_file, DeflatedFile};
use cozip::zip_read::read_central_directory_entries;
use cozip::zip_single::{zip_compress_single, zip_decompress_single, DeflatedPayload};
use cozip::zip_write::ZipPreparedEntry;

fn deflate(data: &[u8]) -> Vec<u8> {
    let mut encoder =
        flate2::write::DeflateEncoder::new(Vec::new(), flate2::Compression::default());
    encoder.write_all(data).expect("write deflate");
    encoder.finish().expect("finish deflate")
}

fn inflate(payload: &[u8]) -> Result<InflatedPayload, String> {
    let mut decoder = flate2::bufread::DeflateDecoder::new(payload);
    let mut data = Vec::new();
    decoder
        .read_to_end(&mut data)
        .map_err(|error| error.to_string())?;
    let leftover = payload.len() as u64 - decoder.total_in();
    let crc32 = crc32fast::hash(&data);
    Ok(InflatedPayload { data, crc32, leftover })
}

fn prepared(name: &str, data: &[u8], czdi_blob: Option<Vec<u8>>) -> PreparedPayload {
    let payload = deflate(data);
    PreparedPayload {
        entry: ZipPreparedEntry {
            name: name.to_string(),
            crc: crc32fast::hash(data),
            compressed_size: payload.len() as u64,
            uncompressed_size: data.len() as u64,
            czdi_blob,
        },
        payload,
    }
}

#[test]
fn other_readers_understand_written_archives() {
    let big = vec![7_u8; 100_000];
    let mut arrivals = VecDeque::new();
    arrivals.push_back((1, Ok(prepared("dir/日本.bin", &big, Some(vec![1; 80_000])))));
    arrivals.push_back((0, Ok(prepared("a.txt", b"hello", Some(vec![2; 50])))));
    let (bytes, _) = assemble_directory(arrivals).expect("assemble");
    let mut archive = zip::ZipArchive::new(Cursor::new(bytes)).expect("open");
    assert_eq!(archive.len(), 2);
    let mut text = String::new();
    archive
        .by_name("a.txt")
        .expect("entry")
        .read_to_string(&mut text)
        .expect("read");
    assert_eq!(text, "hello");
    let mut data = Vec::new();
    archive
        .by_name("dir/日本.bin")
        .expect("entry")
        .read_to_end(&mut data)
        .expect("read");
    assert_eq!(data, big);
}

#[test]
fn other_readers_understand_single_archives() {
    let bytes = zip_compress_single("one.txt", b"one", PathStyle::Unix, |data: &[u8]| {
        Ok(DeflatedPayload {
            compressed: deflate(data),
            input_crc32: crc32fast::hash(data),
        })
    })
    .expect("compress");
    let mut archive = zip::ZipArchive::new(Cursor::new(bytes)).expect("open");
    let mut text = String::new();
    archive
        .by_index(0)
        .expect("entry")
        .read_to_string(&mut text)
        .expect("read");
    assert_eq!(text, "one");
}

#[test]
fn archives_of_other_writers_are_read() {
    let mut writer = zip::ZipWriter::new(Cursor::new(Vec::new()));
    let deflated = zip::write::SimpleFileOptions::default()
        .compression_method(zip::CompressionMethod::Deflated);
    let stored = zip::write::SimpleFileOptions::default()
        .compression_method(zip::CompressionMethod::Stored);
    writer.add_directory("d/", stored).expect("directory");
    writer.start_file("d/x.txt", deflated).expect("file");
    writer.write_all(b"xxxxxxxxxxxxxxxx").expect("write");
    writer.start_file("y.txt", stored).expect("file");
    writer.write_all(b"y").expect("write");
    let bytes = writer.finish().expect("finish").into_inner();
    let (entries, _) = read_central_directory_entries(&bytes).expect("directory");
    assert_eq!(entries.len(), 3);
    let (items, stats) = extract_directory(
        &bytes,
        PathStyle::Unix,
        |_: &[u8]| false,
        |payload: &[u8], _: Option<&Vec<u8>>| inflate(payload),
    )
    .expect("extract");
    assert_eq!(stats.entries, 2);
    assert!(items[0].data.is_none());
    assert_eq!(items[1].path, vec!["d".to_string(), "x.txt".to_string()]);
    assert_eq!(items[1].data.as_deref(), Some(&b"xxxxxxxxxxxxxxxx"[..]));
    assert_eq!(items[2].data.as_deref(), Some(&b"y"[..]));
}

#[test]
fn single_files_of_other_writers_are_read() {
    let mut writer = zip::ZipWriter::new(Cursor::new(Vec::new()));
    let deflated = zip::write::SimpleFileOptions::default()
        .compression_method(zip::CompressionMethod::Deflated);
    writer.start_file("x.txt", deflated).expect("file");
    writer.write_all(b"content content content").expect("write");
    let bytes = writer.finish().expect("finish").into_inner();
    let entry = zip_decompress_single(&bytes, |payload: &[u8]| {
        inflate(payload).map(|inflated| inflated.data)
    })
    .expect("decompress");
    assert_eq!(entry.name, "x.txt");
    assert_eq!(entry.data, b"content content content");
}

#[test]
fn written_archives_are_found_right() {
    let mut arrivals = VecDeque::new();
    arrivals.push_back((0, Ok(prepared("a.txt", b"hello", None))));
    arrivals.push_back((1, Ok(prepared("b/c.txt", &[9; 5000], Some(vec![2; 50])))));
    let (mut bytes, _) = assemble_directory(arrivals).expect("assemble");
    let decode = |payload: &[u8], _: &Option<Vec<u8>>| inflate(payload);
    assert_eq!(verify_written_zip_archive(&bytes, decode), Ok(()));
    let drop_data = |payload: &[u8], _: &Option<Vec<u8>>| {
        inflate(payload).map(|inflated| InflatedPayload { crc32: 1, ..inflated })
    };
    assert_eq!(
        verify_written_zip_archive(&bytes, drop_data),
        Err(CoZipError::InvalidZip("crc32 mismatch"))
    );
    bytes[0] = 0;
    assert_eq!(
        verify_written_zip_archive(&bytes, decode),
        Err(CoZipError::InvalidZip("invalid local file header signature"))
    );
}

#[test]
fn a_compressed_file_comes_back() {
    let data = b"some data, some data".to_vec();
    let (zip, _) = compress_named_file("./dir/x.txt", PathStyle::Unix, || {
        Ok(DeflatedFile {
            payload: deflate(&data),
            crc32: crc32fast::hash(&data),
            uncompressed_size: data.len() as u64,
            czdi_blob: Some(vec![4; 20]),
        })
    })
    .expect("compress");
    for readable in [false, true] {
        let (restored, stats) = decompress_single_file(
            &zip,
            |_: &[u8]| readable,
            |payload: &[u8], index: Option<&Vec<u8>>| {
                assert_eq!(index.is_some(), readable);
                inflate(payload)
            },
        )
        .expect("decompress");
        assert_eq!(restored, data);
        assert_eq!(stats.output_bytes, 20);
    }
}

#[test]
fn a_tar_in_a_compressed_file_is_found() {
    let mut tar = tar::Builder::new(Vec::new());
    let mut header = tar::Header::new_gnu();
    header.set_size(2);
    header.set_cksum();
    tar.append_data(&mut header, "x", &b"xx"[..]).expect("append");
    let tar = tar.into_inner().expect("tar");
    for (content, expected) in [(tar, Some(CoZipArchiveFormat::TarGz)), (b"text".to_vec(), None)] {
        let mut gz = flate2::write::GzEncoder::new(Vec::new(), flate2::Compression::default());
        gz.write_all(&content).expect("write");
        let bytes = gz.finish().expect("gz");
        let mut inner = Vec::new();
        flate2::read::GzDecoder::new(&bytes[..])
            .take(512)
            .read_to_end(&mut inner)
            .expect("decode");
        assert_eq!(detect_archive_format(&bytes, Some(&inner), Some("data.gz")), expected);
    }
}
