use std::collections::VecDeque;
use std::io::{Read, Write};

use cozip::error::CoZipError;
use cozip::extract_dir::{
    plan_extraction, total_file_bytes, total_files, BacklogSlots, ExtractLedger, ExtractStep,
};
use cozip::order::order_by_keys;
use cozip::paths::{
    entry_path_from_zip_name, zip_name_from_relative_path, PathComponent, PathStyle,
};
use cozip::pipeline::{
    assemble_archive, assemble_directory, per_task_backlog, total_file_len, verify_prepared_entry,
    PreparedPayload, ReorderBuffer,
};
use cozip::types::CoZipStats;
use cozip::zip_dir::{extract_directory, verify_written_zip_archive};
use cozip::zip_entry::{
    check_extracted_entry, check_indexed_entry, data_start, decode_route, extract_entry_to_writer,
    read_entry_compressed_payload, DecodeReport, DecodeRoute, InflatedPayload, LocalLengths,
    StoredEntryCheck,
};
use cozip::zip_file::{
    archive_deflated_file, compress_named_file, decompress_single_file, DeflatedFile,
};
use cozip::zip_read::{
    find_eocd, read_central_directory_entries, ZipCentralReadEntry, ZipDirectoryReader,
};
use cozip::zip_single::{zip_compress_single, zip_decompress_single, DeflatedPayload};
use cozip::zip_write::{
    ZipCentralWriteEntry, ZipPreparedEntry, ZipWriteState, DEFLATE_METHOD, STORED_METHOD,
};

fn deflate(data: &[u8]) -> Vec<u8> {
    let mut encoder =
        flate2::write::DeflateEncoder::new(Vec::new(), flate2::Compression::default());
    encoder.write_all(data).expect("write deflate");
    encoder.finish().expect("finish deflate")
}

fn inflate(payload: &[u8]) -> Result<InflatedPayload, String> {
    let mut decoder = flate2::bufread::DeflateDecoder::new(payload);
    let mut data = Vec::new();
    decoder
        .read_to_end(&mut data)
        .map_err(|error| error.to_string())?;
    let leftover = payload.len() as u64 - decoder.total_in();
    let crc32 = crc32fast::hash(&data);
    Ok(InflatedPayload { data, crc32, leftover })
}

fn deflated_file(data: &[u8], czdi_blob: Option<Vec<u8>>) -> DeflatedFile {
    DeflatedFile {
        payload: deflate(data),
        crc32: crc32fast::hash(data),
        uncompressed_size: data.len() as u64,
        czdi_blob,
    }
}

fn prepared(name: &str, data: &[u8]) -> PreparedPayload {
    let payload = deflate(data);
    PreparedPayload {
        entry: ZipPreparedEntry {
            name: name.to_string(),
            crc: crc32fast::hash(data),
            compressed_size: payload.len() as u64,
            uncompressed_size: data.len() as u64,
            czdi_blob: None,
        },
        payload,
    }
}

fn entry_named(name: &str) -> ZipCentralReadEntry {
    ZipCentralReadEntry {
        name: name.to_string(),
        gp_flags: 0x0800,
        method: DEFLATE_METHOD,
        crc: 0,
        compressed_size: 0,
        uncompressed_size: 0,
        local_header_offset: 0,
        czdi_blob: None,
    }
}

#[test]
fn zip_single_roundtrip() {
    let input = b"cozip zip test cozip zip test cozip zip test".to_vec();
    let zip = zip_compress_single("message.txt", &input, PathStyle::Unix, |data: &[u8]| {
        Ok(DeflatedPayload {
            compressed: deflate(data),
            input_crc32: crc32fast::hash(data),
        })
    })
    .expect("zip compression should succeed");

    let entry = zip_decompress_single(&zip, |payload: &[u8]| inflate(payload).map(|out| out.data))
        .expect("zip decompression should succeed");
    assert_eq!(entry.name, "message.txt");
    assert_eq!(entry.data, input);
}

#[test]
fn zip_single_detects_changed_data() {
    let zip = zip_compress_single("a", b"hello", PathStyle::Unix, |data: &[u8]| {
        Ok(DeflatedPayload {
            compressed: deflate(data),
            input_crc32: crc32fast::hash(data),
        })
    })
    .expect("zip compression should succeed");
    let wrong_size = zip_decompress_single(&zip, |_: &[u8]| Ok(b"hell".to_vec()));
    assert!(matches!(wrong_size, Err(CoZipError::InvalidZip(_))));
    let wrong_crc = zip_decompress_single(&zip, |_: &[u8]| Ok(b"hallo".to_vec()));
    assert!(matches!(wrong_crc, Err(CoZipError::InvalidZip(_))));
    let failed = zip_decompress_single(&zip, |_: &[u8]| Err("broken".to_string()));
    assert_eq!(failed.unwrap_err(), CoZipError::Deflate("broken".to_string()));
    let refused = zip_compress_single("a", b"hello", PathStyle::Unix, |_: &[u8]| Err("full".to_string()));
    assert_eq!(refused.unwrap_err(), CoZipError::Deflate("full".to_string()));
}

#[test]
fn cozip_compress_file_roundtrip() {
    let (zip, packed) = compress_named_file("cozip-input.txt", PathStyle::Unix, || {
        Ok(deflated_file(b"hello cozip", None))
    })
    .expect("compress file");
    assert_eq!(packed.entries, 1);
    assert_eq!(packed.input_bytes, 11);
    assert_eq!(packed.output_bytes, zip.len() as u64);

    let (restored_data, unpacked) = decompress_single_file(
        &zip,
        |_: &[u8]| false,
        |payload: &[u8], _: Option<&Vec<u8>>| inflate(payload),
    )
    .expect("decompress file");
    assert_eq!(restored_data, b"hello cozip");
    assert_eq!(
        unpacked,
        CoZipStats { entries: 1, input_bytes: zip.len() as u64, output_bytes: 11 }
    );
}

#[test]
fn cozip_written_zip_contains_czdi_index_in_central_directory() {
    let (zip, _) = compress_named_file("payload.bin", PathStyle::Unix, || {
        Ok(deflated_file(&vec![1_u8; 128 * 1024], Some(vec![7, 8, 9])))
    })
    .expect("compress file");
    let (entries, file_len) = read_central_directory_entries(&zip).expect("read central dir");
    assert_eq!(entries.len(), 1);
    assert_eq!(entries[0].czdi_blob, Some(vec![7, 8, 9]));
    assert_eq!(file_len, zip.len() as u64);
}

#[test]
fn single_file_uses_the_index_it_can_read() {
    let (zip, _) = archive_deflated_file("f".to_string(), deflated_file(b"abc", Some(vec![5; 40])))
        .expect("archive");
    let (data, _) = decompress_single_file(
        &zip,
        |blob: &[u8]| blob == [5_u8; 40],
        |payload: &[u8], index: Option<&Vec<u8>>| {
            assert_eq!(index, Some(&vec![5; 40]));
            inflate(payload)
        },
    )
    .expect("decompress");
    assert_eq!(data, b"abc");
    let (data, _) = decompress_single_file(
        &zip,
        |_: &[u8]| false,
        |payload: &[u8], index: Option<&Vec<u8>>| {
            assert!(index.is_none());
            inflate(payload)
        },
    )
    .expect("decompress");
    assert_eq!(data, b"abc");
}

#[test]
fn compress_file_rejects_bad_names_before_compressing() {
    let refused = compress_named_file("../x", PathStyle::Unix, || panic!("must not be called"));
    assert!(matches!(refused, Err(CoZipError::InvalidEntryName(_))));
    let long = "n".repeat(65_536);
    let refused = compress_named_file(&long, PathStyle::Unix, || panic!("must not be called"));
    assert!(matches!(refused, Err(CoZipError::DataTooLarge)));
    let failed = compress_named_file("x", PathStyle::Unix, || Err(CoZipError::Deflate("no".to_string())));
    assert!(matches!(failed, Err(CoZipError::Deflate(_))));
}

#[test]
fn decompress_file_expects_one_entry() {
    let mut files = VecDeque::new();
    files.push_back(prepared("a", b"1"));
    files.push_back(prepared("b", b"2"));
    let (zip, stats) = assemble_archive(files).expect("assemble");
    assert_eq!(stats.entries, 2);
    assert_eq!(stats.input_bytes, 2);
    let refused = decompress_single_file(
        &zip,
        |_: &[u8]| false,
        |payload: &[u8], _: Option<&Vec<u8>>| inflate(payload),
    );
    assert_eq!(
        refused.unwrap_err(),
        CoZipError::Unsupported("decompress_file expects exactly one file in archive")
    );
}

#[test]
fn cozip_directory_roundtrip() {
    let name_a = zip_name_from_relative_path(&[PathComponent::Normal(b"a.txt".to_vec())])
        .expect("name a");
    let name_b = zip_name_from_relative_path(&[
        PathComponent::Normal(b"nested".to_vec()),
        PathComponent::Normal(b"b.txt".to_vec()),
    ])
    .expect("name b");
    let mut arrivals = VecDeque::new();
    arrivals.push_back((1, Ok(prepared(&name_b, b"bbb"))));
    arrivals.push_back((0, Ok(prepared(&name_a, b"aaa"))));
    let (zip, stats) = assemble_directory(arrivals).expect("compress directory");
    assert_eq!(stats.entries, 2);
    assert_eq!(stats.input_bytes, 6);
    assert_eq!(stats.output_bytes, zip.len() as u64);

    let (entries, input_len) = read_central_directory_entries(&zip).expect("read directory");
    assert_eq!(total_file_bytes(&entries), Some(6));
    let plan = plan_extraction(&entries, &[false, false], PathStyle::Unix);
    assert!(plan.failure.is_none());
    let mut ledger = ExtractLedger::new(plan);
    let mut restored = Vec::new();
    while let Some(task) = ledger.take() {
        let entry = &entries[task.entry_index];
        let result = extract_entry_to_writer(&zip, entry, |payload: &[u8], _: &Option<Vec<u8>>| {
            inflate(payload)
        });
        match result {
            Ok(data) => {
                ledger.report(Ok(data.len() as u64));
                restored.push((task.path.join("/"), data));
            }
            Err(error) => ledger.report(Err(error)),
        }
    }
    let stats = ledger.finish(input_len).expect("decompress directory");
    assert_eq!(
        stats,
        CoZipStats { entries: 2, input_bytes: zip.len() as u64, output_bytes: 6 }
    );
    assert_eq!(restored[0], ("a.txt".to_string(), b"aaa".to_vec()));
    assert_eq!(restored[1], ("nested/b.txt".to_string(), b"bbb".to_vec()));
}

#[test]
fn cozip_directory_roundtrip_many_files_self_verify() {
    let mut originals = Vec::new();
    for index in 0..48usize {
        let len = 256 * 1024 + (index * 8192);
        let mut data = vec![0_u8; len];
        for (offset, byte) in data.iter_mut().enumerate() {
            *byte = ((index * 31 + offset) % 251) as u8;
        }
        originals.push(data);
    }
    let mut arrivals = VecDeque::new();
    for index in (0..48usize).rev() {
        let name = format!("file-{index:03}.bin");
        arrivals.push_back((index, Ok(prepared(&name, &originals[index]))));
    }
    let (zip, _) = assemble_directory(arrivals).expect("compress directory");
    verify_written_zip_archive(&zip, |payload: &[u8], _: &Option<Vec<u8>>| inflate(payload))
        .expect("verify written zip");
    let (entries, _) = read_central_directory_entries(&zip).expect("read central dir");
    assert_eq!(entries.len(), 48);
    for index in 0..48usize {
        assert_eq!(entries[index].name, format!("file-{index:03}.bin"));
        let restored = extract_entry_to_writer(
            &zip,
            &entries[index],
            |payload: &[u8], _: &Option<Vec<u8>>| inflate(payload),
        )
        .expect("extract entry");
        assert_eq!(restored, originals[index]);
    }
}

#[test]
fn directory_fails_with_the_first_file_that_failed() {
    let mut arrivals = VecDeque::new();
    arrivals.push_back((2, Err(CoZipError::Deflate("second".to_string()))));
    arrivals.push_back((1, Err(CoZipError::Deflate("first".to_string()))));
    arrivals.push_back((0, Ok(prepared("a", b"1"))));
    assert_eq!(
        assemble_directory(arrivals).unwrap_err(),
        CoZipError::Deflate("first".to_string())
    );
    let mut arrivals = VecDeque::new();
    arrivals.push_back((1, Err(CoZipError::Deflate("late".to_string()))));
    arrivals.push_back((0, Ok(prepared(&"n".repeat(65_536), b"1"))));
    assert_eq!(assemble_directory(arrivals).unwrap_err(), CoZipError::DataTooLarge);
}

#[test]
fn empty_directory_gives_an_empty_archive() {
    let (zip, stats) = assemble_directory(VecDeque::new()).expect("assemble");
    assert_eq!(stats.entries, 0);
    assert_eq!(zip.len(), 56 + 20 + 22);
    let (entries, _) = read_central_directory_entries(&zip).expect("read");
    assert!(entries.is_empty());
}

#[test]
fn reorder_buffer_releases_in_order() {
    let mut buffer = ReorderBuffer::new();
    assert!(buffer.accept(2, 'c').is_empty());
    assert!(buffer.accept(1, 'b').is_empty());
    let ready: Vec<char> = buffer.accept(0, 'a').into_iter().collect();
    assert_eq!(ready, vec!['a', 'b', 'c']);
    let ready: Vec<char> = buffer.accept(3, 'd').into_iter().collect();
    assert_eq!(ready, vec!['d']);
}

#[test]
fn backlog_is_shared_between_tasks() {
    assert_eq!(per_task_backlog(0), 0x8000_0000);
    assert_eq!(per_task_backlog(4), 0x2000_0000);
    assert_eq!(per_task_backlog(100_000), 0x40_0000);
    assert_eq!(total_file_len(&[1, 2, 3]), 6);
    assert_eq!(total_file_len(&[u64::MAX, 2]), u64::MAX);
}

#[test]
fn prepared_entry_is_verified() {
    let item = prepared("a", b"hello");
    let good = DecodeReport {
        output_bytes: 5,
        output_crc32: crc32fast::hash(b"hello"),
        leftover: 0,
    };
    assert!(verify_prepared_entry(&item.entry, item.payload.len() as u64, good).is_ok());
    let bad = DecodeReport { output_crc32: 0, ..good };
    assert!(verify_prepared_entry(&item.entry, item.payload.len() as u64, bad).is_err());
    let short = DecodeReport { output_bytes: 4, ..good };
    assert!(verify_prepared_entry(&item.entry, item.payload.len() as u64, short).is_err());
    assert!(verify_prepared_entry(&item.entry, 1, good).is_err());
}

#[test]
fn extraction_plan_gives_slots_to_indexed_files() {
    let entries = vec![
        entry_named("dir/"),
        entry_named("dir/a"),
        entry_named("b"),
        entry_named("c"),
    ];
    let plan = plan_extraction(&entries, &[false, true, false, true], PathStyle::Unix);
    assert_eq!(plan.slots, 2);
    assert!(plan.failure.is_none());
    assert!(matches!(&plan.steps[0], ExtractStep::CreateDir { path } if path == &["dir"]));
    match &plan.steps[1] {
        ExtractStep::ExtractFile { task } => {
            assert_eq!(task.path, vec!["dir".to_string(), "a".to_string()]);
            assert_eq!(task.backlog_slot, Some(0));
            assert_eq!(task.entry_index, 1);
        }
        _ => panic!("file expected"),
    }
    match &plan.steps[3] {
        ExtractStep::ExtractFile { task } => assert_eq!(task.backlog_slot, Some(1)),
        _ => panic!("file expected"),
    }
}

#[test]
fn extraction_plan_ends_at_a_name_that_leads_out() {
    let entries = vec![entry_named("a"), entry_named("../b"), entry_named("c")];
    let plan = plan_extraction(&entries, &[false, false, false], PathStyle::Unix);
    assert_eq!(plan.steps.len(), 1);
    assert!(matches!(plan.failure, Some(CoZipError::InvalidEntryName(_))));
}

#[test]
fn extraction_reports_the_first_failure() {
    let entries = vec![entry_named("a"), entry_named("b"), entry_named("c")];
    let mut ledger = ExtractLedger::new(plan_extraction(&entries, &[false; 3], PathStyle::Unix));
    for outcome in [
        Ok(3),
        Err(CoZipError::InvalidZip("crc32 mismatch")),
        Err(CoZipError::DataTooLarge),
    ] {
        assert!(ledger.take().is_some());
        ledger.report(outcome);
    }
    assert!(ledger.take().is_none());
    assert_eq!(
        ledger.finish(10).unwrap_err(),
        CoZipError::InvalidZip("crc32 mismatch")
    );
}

#[test]
fn total_file_bytes_skips_directories_and_notices_overflow() {
    let mut big = entry_named("a");
    big.uncompressed_size = u64::MAX;
    let mut dir = entry_named("d/");
    dir.uncompressed_size = 5;
    let both = [big.clone(), dir];
    assert_eq!(total_file_bytes(&both), Some(u64::MAX));
    assert_eq!(total_files(&both), 1);
    let mut one = entry_named("b");
    one.uncompressed_size = 1;
    assert_eq!(total_file_bytes(&[big, one]), None);
}

#[test]
fn backlog_slots_add_up() {
    let mut backlog = BacklogSlots::new(2);
    assert_eq!(backlog.report(0, 10), Some(10));
    assert_eq!(backlog.report(1, 5), Some(15));
    assert_eq!(backlog.report(0, 0), Some(5));
    assert_eq!(backlog.report(7, 100), Some(5));
    assert_eq!(backlog.report(0, u64::MAX), None);
}

#[test]
fn stored_entries_are_copied_and_checked() {
    let mut zip = Vec::new();
    zip.extend_from_slice(&0x0403_4b50_u32.to_le_bytes());
    zip.extend_from_slice(&[0; 22]);
    zip.extend_from_slice(&1_u16.to_le_bytes());
    zip.extend_from_slice(&0_u16.to_le_bytes());
    zip.extend_from_slice(b"s");
    zip.extend_from_slice(b"stored");
    let mut entry = entry_named("s");
    entry.method = STORED_METHOD;
    entry.compressed_size = 6;
    entry.uncompressed_size = 6;
    entry.crc = crc32fast::hash(b"stored");
    let unused = |_: &[u8], _: &Option<Vec<u8>>| -> Result<InflatedPayload, String> {
        Err("not deflated".to_string())
    };
    assert_eq!(extract_entry_to_writer(&zip, &entry, unused).expect("stored"), b"stored");
    assert_eq!(read_entry_compressed_payload(&zip, &entry).expect("payload"), b"stored");

    let mut encrypted = entry.clone();
    encrypted.gp_flags = 1;
    assert_eq!(
        extract_entry_to_writer(&zip, &encrypted, unused).unwrap_err(),
        CoZipError::Unsupported("encrypted zip entries are unsupported")
    );
    let mut wrong = entry.clone();
    wrong.crc ^= 1;
    assert_eq!(
        extract_entry_to_writer(&zip, &wrong, unused).unwrap_err(),
        CoZipError::InvalidZip("crc32 mismatch")
    );
    let mut beyond = entry.clone();
    beyond.compressed_size = 7;
    assert_eq!(extract_entry_to_writer(&zip, &beyond, unused).expect("all there is"), b"stored");
    assert!(matches!(
        read_entry_compressed_payload(&zip, &beyond),
        Err(CoZipError::Io(_))
    ));
    beyond.uncompressed_size = 7;
    assert_eq!(
        extract_entry_to_writer(&zip, &beyond, unused).unwrap_err(),
        CoZipError::InvalidZip("decompressed size mismatch")
    );
    let mut other = entry;
    other.method = 12;
    assert_eq!(
        extract_entry_to_writer(&zip, &other, unused).unwrap_err(),
        CoZipError::Unsupported("only deflate/store methods are supported")
    );
}

#[test]
fn stored_entry_check_follows_the_bytes() {
    let mut check = StoredEntryCheck::new();
    check.update(b"sto").expect("update");
    check.update(b"red").expect("update");
    let report = check.report();
    assert_eq!(report.output_bytes, 6);
    assert_eq!(report.output_crc32, crc32fast::hash(b"stored"));
    assert_eq!(report.leftover, 0);
}

#[test]
fn decoded_entries_are_checked_in_order() {
    let mut entry = entry_named("a");
    entry.uncompressed_size = 3;
    entry.crc = 9;
    let report = DecodeReport { output_bytes: 3, output_crc32: 9, leftover: 0 };
    assert_eq!(check_extracted_entry(&entry, report), Ok(3));
    let wrong = DecodeReport { output_bytes: 2, output_crc32: 8, leftover: 1 };
    assert_eq!(
        check_extracted_entry(&entry, wrong),
        Err(CoZipError::InvalidZip("crc32 mismatch"))
    );
    assert_eq!(
        check_indexed_entry(&entry, wrong),
        Err(CoZipError::InvalidZip("compressed stream did not consume declared size"))
    );
    let short = DecodeReport { output_bytes: 2, output_crc32: 9, leftover: 0 };
    assert_eq!(
        check_extracted_entry(&entry, short),
        Err(CoZipError::InvalidZip("decompressed size mismatch"))
    );
    assert_eq!(decode_route(&entry, true), Ok(DecodeRoute::Indexed));
    assert_eq!(decode_route(&entry, false), Ok(DecodeRoute::Plain));
    entry.method = STORED_METHOD;
    assert_eq!(decode_route(&entry, true), Ok(DecodeRoute::Stored));
    entry.method = 99;
    assert!(decode_route(&entry, true).is_err());
}

#[test]
fn directory_is_read_through_requests() {
    let mut files = VecDeque::new();
    files.push_back(prepared("x/y", b"data"));
    let (zip, _) = assemble_archive(files).expect("assemble");
    let mut reader = ZipDirectoryReader::open(zip.len() as u64).expect("open");
    while let Some(request) = reader.request() {
        let start = request.offset as usize;
        reader = reader
            .supply(&zip[start..start + request.len])
            .expect("supply");
    }
    assert_eq!(reader.entries.len(), 1);
    assert_eq!(reader.entries[0].name, "x/y");
    assert_eq!(
        entry_path_from_zip_name(&reader.entries[0].name, PathStyle::Unix).expect("path"),
        vec!["x".to_string(), "y".to_string()]
    );
    assert_eq!(reader.entries[0].uncompressed_size, 4);
}

#[test]
fn broken_archives_are_refused() {
    assert!(matches!(
        read_central_directory_entries(b"short"),
        Err(CoZipError::InvalidZip(_))
    ));
    assert!(matches!(
        read_central_directory_entries(&[0; 100]),
        Err(CoZipError::InvalidZip(_))
    ));
    assert_eq!(find_eocd(&[0; 30]), None);
    let mut bytes = vec![0; 5];
    bytes.extend_from_slice(b"PK\x05\x06");
    bytes.extend_from_slice(&[0; 18]);
    assert_eq!(find_eocd(&bytes), Some(5));
}

#[test]
fn writer_state_counts_offsets() {
    let mut state = ZipWriteState::default();
    let mut out = Vec::new();
    let item = prepared("ab", b"hello");
    state
        .write_precompressed_entry(&mut out, &item.entry, &item.payload)
        .expect("write");
    assert_eq!(out.len(), 30 + 2 + item.payload.len() + 24);
    assert_eq!(state.offset, out.len() as u64);
    assert_eq!(&out[0..4], b"PK\x03\x04");
    let mismatch = state.write_precompressed_entry(&mut out, &item.entry, b"");
    assert_eq!(
        mismatch,
        Err(CoZipError::InvalidZip("prepared compressed size mismatch"))
    );
}

#[test]
fn files_are_ordered_by_their_components() {
    let keys = vec![
        vec![b"a-b".to_vec()],
        vec![b"a".to_vec(), b"z".to_vec()],
        vec![b"a".to_vec(), b"c".to_vec()],
        vec![b"A".to_vec()],
        vec![b"a".to_vec(), b"c".to_vec()],
    ];
    assert_eq!(order_by_keys(&keys), vec![3, 2, 4, 1, 0]);
    assert!(order_by_keys(&[]).is_empty());
}

#[test]
fn directory_comes_out_in_one_go() {
    let mut files = VecDeque::new();
    files.push_back(prepared("a.txt", b"aaa"));
    files.push_back(prepared("d/", b""));
    files.push_back(prepared("d/b.txt", b"bb"));
    let (zip, _) = assemble_archive(files).expect("assemble");
    let (items, stats) = extract_directory(
        &zip,
        PathStyle::Unix,
        |_: &[u8]| false,
        |payload: &[u8], _: Option<&Vec<u8>>| inflate(payload),
    )
    .expect("extract");
    assert_eq!(stats.entries, 2);
    assert_eq!(stats.input_bytes, zip.len() as u64);
    assert_eq!(stats.output_bytes, 5);
    assert_eq!(items[0].path, vec!["a.txt".to_string()]);
    assert_eq!(items[0].data.as_deref(), Some(&b"aaa"[..]));
    assert_eq!(items[1].path, vec!["d".to_string()]);
    assert!(items[1].data.is_none());
    assert_eq!(items[2].data.as_deref(), Some(&b"bb"[..]));
}

#[test]
fn directory_with_a_name_that_leads_out_is_refused() {
    let mut files = VecDeque::new();
    files.push_back(prepared("a.txt", b"aaa"));
    files.push_back(prepared("x/../../b.txt", b"bb"));
    let (zip, _) = assemble_archive(files).expect("assemble");
    let refused = extract_directory(
        &zip,
        PathStyle::Unix,
        |_: &[u8]| false,
        |_: &[u8], _: Option<&Vec<u8>>| panic!("must not be called"),
    );
    assert!(matches!(refused, Err(CoZipError::InvalidEntryName(_))));
}

#[test]
fn directory_with_a_damaged_file_is_refused() {
    let mut files = VecDeque::new();
    files.push_back(prepared("a.txt", b"aaa"));
    let (zip, _) = assemble_archive(files).expect("assemble");
    let refused = extract_directory(
        &zip,
        PathStyle::Unix,
        |_: &[u8]| false,
        |_: &[u8], _: Option<&Vec<u8>>| {
            Ok(InflatedPayload { data: b"aab".to_vec(), crc32: crc32fast::hash(b"aab"), leftover: 0 })
        },
    );
    assert!(matches!(refused, Err(CoZipError::InvalidZip("crc32 mismatch"))));
}

fn written_entry(name: &str) -> ZipCentralWriteEntry {
    ZipCentralWriteEntry {
        name: name.to_string(),
        gp_flags: 0x0808,
        crc: 1,
        compressed_size: 2,
        uncompressed_size: 3,
        local_header_offset: 0,
        czdi_blob: None,
    }
}

#[test]
fn failed_finish_leaves_the_records_before_the_failure() {
    let state = ZipWriteState {
        central_entries: vec![written_entry("ab"), written_entry(&"n".repeat(65_536))],
        offset: 100,
        stats: CoZipStats::default(),
    };
    let mut out = b"before".to_vec();
    assert_eq!(state.finish(&mut out), Err(CoZipError::DataTooLarge));
    assert_eq!(out.len(), 6 + 46 + 2 + 28 + 8);
    assert_eq!(&out[..10], b"beforePK\x01\x02");

    let state = ZipWriteState {
        central_entries: vec![written_entry("ab"), written_entry("cd")],
        offset: u64::MAX - 10,
        stats: CoZipStats::default(),
    };
    let mut out = Vec::new();
    assert_eq!(state.finish(&mut out), Err(CoZipError::DataTooLarge));
    assert_eq!(out.len(), 46 + 2 + 28 + 8);
    assert_eq!(&out[46..48], b"ab");
}

#[test]
fn failed_entry_leaves_what_was_written_of_it() {
    let mut state = ZipWriteState {
        central_entries: Vec::new(),
        offset: u64::MAX - 31,
        stats: CoZipStats::default(),
    };
    let mut out = Vec::new();
    assert_eq!(state.begin_entry(&mut out, "ab"), Err(CoZipError::DataTooLarge));
    assert_eq!(out.len(), 32);
    assert_eq!(state.offset, u64::MAX - 31);
    let mut out = Vec::new();
    let long = "n".repeat(65_536);
    assert_eq!(state.begin_entry(&mut out, &long), Err(CoZipError::DataTooLarge));
    assert!(out.is_empty());

    let item = prepared("ab", b"hello");
    let size = item.payload.len() as u64;
    let mut out = Vec::new();
    state.offset = u64::MAX - size;
    assert_eq!(
        state.end_entry(&mut out, &item.entry, 0, size),
        Err(CoZipError::DataTooLarge)
    );
    assert_eq!(out.len(), 24);
    assert_eq!(&out[..4], b"PK\x07\x08");
    assert!(state.central_entries.is_empty());
}

#[test]
fn data_starts_behind_name_and_extra_data() {
    let lengths = LocalLengths { name_len: 5, extra_len: 7 };
    assert_eq!(data_start(100, lengths), Some(142));
    assert_eq!(data_start(u64::MAX - 42, lengths), Some(u64::MAX));
    assert_eq!(data_start(u64::MAX - 41, lengths), None);
}

#[test]
fn names_of_drives_are_refused_where_there_are_drives() {
    let pack = |style: PathStyle| {
        zip_compress_single("C:/x", b"hello", style, |data: &[u8]| {
            Ok(DeflatedPayload {
                compressed: deflate(data),
                input_crc32: crc32fast::hash(data),
            })
        })
    };
    assert!(matches!(pack(PathStyle::Windows), Err(CoZipError::InvalidEntryName(_))));
    let zip = pack(PathStyle::Unix).expect("pack");
    let entry = zip_decompress_single(&zip, |payload: &[u8]| inflate(payload).map(|out| out.data))
        .expect("unpack");
    assert_eq!(entry.name, "C:/x");
    let refused = extract_directory(
        &zip,
        PathStyle::Windows,
        |_: &[u8]| false,
        |_: &[u8], _: Option<&Vec<u8>>| panic!("must not be called"),
    );
    assert!(matches!(refused, Err(CoZipError::InvalidEntryName(_))));
}
