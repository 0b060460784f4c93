use cozip::dir_encode::{
    encode_pdeflate_archive_header, encode_pdeflate_archive_record_header,
    encode_pdeflate_directory_header, inspect_pdeflate_directory_header,
    read_pdeflate_directory_header, PDeflateArchiveEntryKind, PDeflateArchiveEntrySource,
};
use cozip::dir_prefetch::ReaderAction;
use cozip::dir_read::{PDeflateArchiveReader, ReadOutcome};
use cozip::dir_stream::{ArchiveAction, PDeflateArchiveWriter};
use cozip::dispatch::{DispatchNext, PDeflateArchiveDispatchState};
use cozip::error::{CoZipError, IoFailure};
use cozip::order::{archive_entry_key, order_by_keys};
use cozip::paths::PathStyle;
use cozip::progress::{
    CoZipProgress, CoZipProgressOperation, CoZipProgressPhase, CoZipProgressTarget,
};
use cozip::routes::{
    max_inflight_ops, pdeflate_auto_target, pdeflate_directory_stats, pdeflate_extract_stats,
    AutoTarget,
};
use cozip::types::CoZipStats;

fn directory(name: &str) -> PDeflateArchiveEntrySource {
    PDeflateArchiveEntrySource {
        relative_name: name.to_string(),
        kind: PDeflateArchiveEntryKind::Directory,
        file_len: 0,
    }
}

fn file(name: &str, len: u64) -> PDeflateArchiveEntrySource {
    PDeflateArchiveEntrySource {
        relative_name: name.to_string(),
        kind: PDeflateArchiveEntryKind::File,
        file_len: len,
    }
}

fn compress(entries: Vec<PDeflateArchiveEntrySource>, contents: &[Vec<u8>], room: usize) -> Vec<u8> {
    let mut reader = PDeflateArchiveReader::new(entries);
    let mut out = encode_pdeflate_directory_header(reader.file_entries(), reader.total_file_bytes());
    let mut actions: Vec<ReaderAction> = Vec::new();
    loop {
        match reader.read(room, &mut out, &mut actions).expect("read") {
            ReadOutcome::Full => {}
            ReadOutcome::Ended => return out,
            ReadOutcome::NeedChunk { key, range } => {
                let start = range.offset as usize;
                let chunk = contents[key.entry_index][start..start + range.len].to_vec();
                reader.supply_chunk(chunk);
            }
        }
    }
}

struct Restored {
    dirs: Vec<String>,
    files: Vec<(String, Vec<u8>)>,
    finished: usize,
    stats: CoZipStats,
}

fn decompress(archive: &[u8], piece: usize) -> Result<Restored, CoZipError> {
    let (header, header_len) = read_pdeflate_directory_header(archive)?;
    let stream = &archive[header_len..];
    let mut writer = PDeflateArchiveWriter::new(PathStyle::Unix);
    let mut restored = Restored {
        dirs: Vec::new(),
        files: Vec::new(),
        finished: 0,
        stats: CoZipStats::default(),
    };
    for buf in stream.chunks(piece) {
        let mut actions = Vec::new();
        writer.write(buf, &mut actions)?;
        for action in actions {
            match action {
                ArchiveAction::CreateDir { path } => restored.dirs.push(path.join("/")),
                ArchiveAction::OpenFile { path, .. } => {
                    restored.files.push((path.join("/"), Vec::new()))
                }
                ArchiveAction::WriteFragment { file_id, offset, data } => {
                    let target = &mut restored.files[file_id].1;
                    assert_eq!(target.len() as u64, offset);
                    target.extend_from_slice(&data);
                }
                ArchiveAction::FinishEntry => restored.finished += 1,
            }
        }
    }
    writer.finish()?;
    restored.stats = pdeflate_extract_stats(
        header.version,
        writer.file_entries(),
        stream.len() as u64,
        writer.output_bytes(),
    );
    Ok(restored)
}

#[test]
fn cozip_pdeflate_directory_roundtrip() {
    let entries = vec![
        file("a.txt", 3),
        directory("empty"),
        directory("nested"),
        file("nested/b.txt", 3),
    ];
    let contents = vec![b"aaa".to_vec(), vec![], vec![], b"bbb".to_vec()];
    for room in [1, 7, 4096] {
        let archive = compress(entries.clone(), &contents, room);
        for piece in [1, 5, 4096] {
            let restored = decompress(&archive, piece).expect("decompress directory");
            assert_eq!(restored.dirs, vec!["empty".to_string(), "nested".to_string()]);
            assert_eq!(restored.files[0], ("a.txt".to_string(), b"aaa".to_vec()));
            assert_eq!(restored.files[1], ("nested/b.txt".to_string(), b"bbb".to_vec()));
            assert_eq!(restored.stats.entries, 2);
            assert_eq!(restored.stats.output_bytes, 6);
            assert_eq!(restored.stats.input_bytes, archive.len() as u64);
        }
    }
}

#[test]
fn cozip_pdeflate_decompress_auto_detects_directory_archive() {
    let archive = compress(
        vec![file("a.txt", 3), directory("nested"), file("nested/b.txt", 3)],
        &[b"aaa".to_vec(), vec![], b"bbb".to_vec()],
        64,
    );
    let header = inspect_pdeflate_directory_header(&archive);
    assert!(matches!(pdeflate_auto_target(header.is_some()), AutoTarget::Directory));
    let restored = decompress(&archive, 16).expect("decompress auto");
    assert_eq!(restored.files[0].1, b"aaa");
    assert_eq!(restored.files[1].1, b"bbb");
    assert!(inspect_pdeflate_directory_header(b"PDS0....").is_none());
    assert!(matches!(pdeflate_auto_target(false), AutoTarget::File));
}

#[test]
fn large_files_come_in_several_chunks() {
    let content: Vec<u8> = (0..9_000_000_u32).map(|i| (i % 253) as u8).collect();
    let archive = compress(vec![file("big", 9_000_000)], &[content.clone()], 100_000);
    let restored = decompress(&archive, 70_000).expect("decompress directory");
    assert_eq!(restored.files[0].1, content);
    assert_eq!(restored.finished, 1);
}

#[test]
fn cozip_progress_tracks_pdeflate_directory_decompress() {
    let archive = compress(
        vec![file("a.txt", 3), directory("nested"), file("nested/b.txt", 4)],
        &[b"aaa".to_vec(), vec![], b"bbbb".to_vec()],
        64,
    );
    let (header, _) = read_pdeflate_directory_header(&archive).expect("header");
    let mut progress = CoZipProgress::new();
    progress.start(
        5,
        CoZipProgressOperation::Decompress,
        CoZipProgressTarget::Directory,
        header.file_entries,
        header.total_file_bytes,
    );
    let restored = decompress(&archive, 8).expect("decompress directory");
    for (name, data) in &restored.files {
        progress.begin_entry(name.clone(), Some(data.len() as u64));
        progress.advance_bytes(data.len() as u64);
        assert_eq!(progress.snapshot().current_entry_processed_bytes, data.len() as u64);
        progress.finish_entry();
    }
    progress.set_pending_output_backlog_bytes(None);
    progress.finish();
    let snapshot = progress.snapshot();
    assert_eq!(snapshot.phase, CoZipProgressPhase::Finished);
    assert_eq!(snapshot.total_entries, Some(2));
    assert_eq!(snapshot.completed_entries, 2);
    assert_eq!(snapshot.total_bytes, Some(7));
    assert_eq!(snapshot.processed_bytes, 7);
}

#[test]
fn cozip_progress_tracks_zip_file_compress() {
    let input = b"hello progress";
    let mut progress = CoZipProgress::new();
    assert_eq!(progress.snapshot().phase, CoZipProgressPhase::Idle);
    progress.set_scanning(
        1,
        CoZipProgressOperation::Compress,
        CoZipProgressTarget::File,
    );
    assert_eq!(progress.snapshot().phase, CoZipProgressPhase::Scanning);
    progress.start(
        2,
        CoZipProgressOperation::Compress,
        CoZipProgressTarget::File,
        Some(1),
        Some(input.len() as u64),
    );
    progress.begin_entry("payload.bin".to_string(), Some(input.len() as u64));
    progress.advance_bytes(4);
    let running = progress.snapshot();
    assert_eq!(running.phase, CoZipProgressPhase::Running);
    assert_eq!(running.processed_bytes, 4);
    assert_eq!(running.current_entry.as_deref(), Some("payload.bin"));
    progress.finish_entry();
    progress.finish();

    let snapshot = progress.snapshot();
    assert_eq!(snapshot.phase, CoZipProgressPhase::Finished);
    assert_eq!(snapshot.total_entries, Some(1));
    assert_eq!(snapshot.completed_entries, 1);
    assert_eq!(snapshot.total_bytes, Some(b"hello progress".len() as u64));
    assert_eq!(snapshot.processed_bytes, b"hello progress".len() as u64);
}

#[test]
fn directory_header_roundtrip() {
    let bytes = encode_pdeflate_directory_header(3, 99);
    assert_eq!(bytes.len(), 21);
    let (header, len) = read_pdeflate_directory_header(&bytes).expect("header");
    assert_eq!(len, 21);
    assert_eq!(header.file_entries, Some(3));
    assert_eq!(header.total_file_bytes, Some(99));
    let mut old = bytes[..4].to_vec();
    old.push(1);
    let (header, len) = read_pdeflate_directory_header(&old).expect("old header");
    assert_eq!(len, 5);
    assert_eq!(header.file_entries, None);
    let mut unknown = bytes.clone();
    unknown[4] = 9;
    assert!(read_pdeflate_directory_header(&unknown).is_err());
    assert!(read_pdeflate_directory_header(b"nope!").is_err());
    assert!(read_pdeflate_directory_header(&bytes[..10]).is_err());
}

#[test]
fn stream_starts_with_its_header() {
    let header = encode_pdeflate_archive_header();
    let record = encode_pdeflate_archive_record_header(&file("ab", 258)).expect("record");
    assert_eq!(record, [1, 2, 0, 0, 0, b'a', b'b', 2, 1, 0, 0, 0, 0, 0, 0]);
    let record = encode_pdeflate_archive_record_header(&directory("d")).expect("record");
    assert_eq!(record, [2, 1, 0, 0, 0, b'd']);
    assert_eq!(header.len(), 5);
}

#[test]
fn damaged_streams_are_refused() {
    let header = encode_pdeflate_archive_header();
    let mut actions = Vec::new();
    let mut writer = PDeflateArchiveWriter::new(PathStyle::Unix);
    assert!(writer.write(b"wrong", &mut actions).is_err());

    let mut writer = PDeflateArchiveWriter::new(PathStyle::Unix);
    let mut actions = Vec::new();
    writer.write(&header, &mut actions).expect("header");
    assert!(writer.finish().is_err());
    assert!(writer.write(&[77], &mut actions).is_err());

    let mut writer = PDeflateArchiveWriter::new(PathStyle::Unix);
    let mut bytes = header.clone();
    bytes.extend_from_slice(&encode_pdeflate_archive_record_header(&file("f", 4)).expect("record"));
    bytes.extend_from_slice(b"xy");
    let mut actions = Vec::new();
    writer.write(&bytes, &mut actions).expect("part of a file");
    assert_eq!(
        writer.finish(),
        Err(CoZipError::InvalidZip("truncated file payload in directory archive"))
    );

    let mut writer = PDeflateArchiveWriter::new(PathStyle::Unix);
    let mut bytes = header.clone();
    bytes.push(0);
    let mut actions = Vec::new();
    writer.write(&bytes, &mut actions).expect("end");
    assert!(writer.finish().is_ok());

    let mut writer = PDeflateArchiveWriter::new(PathStyle::Unix);
    let mut bytes = header;
    bytes.extend_from_slice(&encode_pdeflate_archive_record_header(&file("../f", 1)).expect("record"));
    let mut actions = Vec::new();
    assert!(matches!(
        writer.write(&bytes, &mut actions),
        Err(CoZipError::InvalidEntryName(_))
    ));
}

#[test]
fn entries_are_ordered_by_name_and_kind() {
    let entries = vec![file("b", 1), file("a", 1), directory("a"), file("a/x", 1)];
    let keys: Vec<_> = entries.iter().map(archive_entry_key).collect();
    assert_eq!(order_by_keys(&keys), vec![2, 1, 3, 0]);
}

#[test]
fn dispatch_hands_fragments_to_writers() {
    let mut state = PDeflateArchiveDispatchState::new();
    let first = state.register_file();
    let second = state.register_file();
    state.enqueue(first, 0, vec![1, 2]).expect("enqueue");
    state.enqueue(second, 0, vec![3]).expect("enqueue");
    assert!(state.is_busy());
    assert!(!state.must_wait());
    for expected in [first, second] {
        match state.next() {
            DispatchNext::Write(fragment) => {
                assert_eq!(fragment.file_id, expected);
                state.complete(fragment.file_id, None);
            }
            _ => panic!("fragment expected"),
        }
    }
    assert!(!state.is_busy());
    assert!(matches!(state.next(), DispatchNext::Wait));
    state.close();
    assert!(matches!(state.next(), DispatchNext::Exit));
    assert!(state.take_error().is_ok());
    assert_eq!(
        state.enqueue(9, 0, vec![]),
        Err(CoZipError::InvalidZip("archive file writer missing"))
    );
}

#[test]
fn dispatch_keeps_the_first_failure() {
    let mut state = PDeflateArchiveDispatchState::new();
    let id = state.register_file();
    state.enqueue(id, 0, vec![1]).expect("enqueue");
    state.enqueue(id, 1, vec![2]).expect("enqueue");
    assert!(matches!(state.next(), DispatchNext::Write(_)));
    assert!(matches!(state.next(), DispatchNext::Write(_)));
    state.complete(id, Some("disk full".to_string()));
    state.complete(id, Some("later".to_string()));
    assert!(matches!(
        state.enqueue(id, 2, vec![3]),
        Err(CoZipError::Io(IoFailure::Other(text))) if text == "disk full"
    ));
}

#[test]
fn stats_count_the_header() {
    assert_eq!(
        pdeflate_directory_stats(2, 7, 100),
        CoZipStats { entries: 2, input_bytes: 7, output_bytes: 121 }
    );
    assert_eq!(pdeflate_extract_stats(1, 2, 100, 7).input_bytes, 105);
    assert_eq!(pdeflate_extract_stats(2, 2, u64::MAX, 7).input_bytes, u64::MAX);
    assert_eq!(max_inflight_ops(0), 8);
    assert_eq!(max_inflight_ops(3), 24);
    assert_eq!(max_inflight_ops(40), 128);
}

#[test]
fn progress_adds_up_in_pieces() {
    let mut whole = CoZipProgress::new();
    let mut pieces = CoZipProgress::new();
    for progress in [&mut whole, &mut pieces] {
        progress.start(
            0,
            CoZipProgressOperation::Compress,
            CoZipProgressTarget::File,
            Some(1),
            Some(100),
        );
        progress.begin_entry("x".to_string(), Some(100));
    }
    whole.advance_bytes(30);
    pieces.advance_bytes(10);
    pieces.advance_bytes(0);
    pieces.advance_bytes(20);
    assert_eq!(whole.snapshot().processed_bytes, pieces.snapshot().processed_bytes);
    assert_eq!(
        whole.snapshot().current_entry_processed_bytes,
        pieces.snapshot().current_entry_processed_bytes
    );
    whole.set_pending_output_backlog_bytes(Some(9));
    assert_eq!(whole.snapshot().pending_output_backlog_bytes, Some(9));
    whole.finish();
    assert_eq!(whole.snapshot().processed_bytes, 100);
    assert_eq!(whole.snapshot().completed_entries, 1);
    assert_eq!(whole.snapshot().pending_output_backlog_bytes, None);
}

#[test]
fn reader_stays_within_its_limit() {
    let entries: Vec<_> = (0..100)
        .map(|index| file(&format!("f{index:03}"), 1 << 30))
        .collect();
    let mut reader = PDeflateArchiveReader::new(entries);
    let mut out = Vec::new();
    let mut actions = Vec::new();
    let outcome = reader.read(1 << 20, &mut out, &mut actions).expect("read");
    assert!(matches!(outcome, ReadOutcome::NeedChunk { .. }));
    let mut submitted = 0_u64;
    let mut opened = 0;
    for action in actions {
        match action {
            ReaderAction::Submit { range, .. } => submitted += range.len as u64,
            ReaderAction::Open { .. } => opened += 1,
            _ => {}
        }
    }
    assert!(submitted <= 0x9000_0000);
    assert!(opened <= 65);
}

#[test]
fn reader_tells_of_every_file_once() {
    let entries = vec![directory("d"), file("d/a", 5), file("d/b", 0), file("e", 9)];
    let contents = [vec![], b"aaaaa".to_vec(), vec![], b"eeeeeeeee".to_vec()];
    for room in [1, 4, 1000] {
        let mut reader = PDeflateArchiveReader::new(entries.clone());
        let mut out = Vec::new();
        let mut actions = Vec::new();
        loop {
            match reader.read(room, &mut out, &mut actions).expect("read") {
                ReadOutcome::Full => {}
                ReadOutcome::Ended => break,
                ReadOutcome::NeedChunk { key, range } => {
                    let start = range.offset as usize;
                    reader.supply_chunk(
                        contents[key.entry_index][start..start + range.len].to_vec(),
                    );
                }
            }
        }
        let mut begun = Vec::new();
        let mut bytes = 0;
        let mut open = false;
        let mut finished = 0;
        for action in actions {
            match action {
                ReaderAction::BeginEntry { entry_index } => {
                    assert!(!open);
                    open = true;
                    begun.push(entry_index);
                }
                ReaderAction::Advance { bytes: more } => {
                    assert!(open);
                    bytes += more;
                }
                ReaderAction::FinishEntry => {
                    assert!(open);
                    open = false;
                    finished += 1;
                }
                _ => {}
            }
        }
        assert_eq!(begun, vec![1, 2, 3]);
        assert_eq!(bytes, 14);
        assert_eq!(finished, 3);
    }
}

#[test]
fn every_file_of_a_stream_is_finished_once() {
    let entries = vec![file("a", 3), directory("d"), file("d/empty", 0), file("z", 4)];
    let contents = [b"aaa".to_vec(), vec![], vec![], b"zzzz".to_vec()];
    let archive = compress(entries, &contents, 1000);
    for piece in [1, 2, 1000] {
        let restored = decompress(&archive, piece).expect("decompress");
        assert_eq!(restored.finished, 3);
        assert_eq!(restored.files.len(), 3);
        assert_eq!(restored.files[2], ("z".to_string(), b"zzzz".to_vec()));
    }
}

#[test]
fn reader_keeps_few_files_open() {
    let entries: Vec<PDeflateArchiveEntrySource> =
        (0..200).map(|i| file(&format!("f{i}"), 2)).collect();
    let mut reader = PDeflateArchiveReader::new(entries);
    let mut out = Vec::new();
    let mut open: usize = 0;
    let mut most: usize = 0;
    loop {
        let mut actions: Vec<ReaderAction> = Vec::new();
        let outcome = reader.read(1, &mut out, &mut actions).expect("read");
        for action in actions {
            match action {
                ReaderAction::Open { .. } => open += 1,
                ReaderAction::Close { .. } => open -= 1,
                _ => {}
            }
            most = most.max(open);
        }
        match outcome {
            ReadOutcome::Full => {}
            ReadOutcome::Ended => break,
            ReadOutcome::NeedChunk { range, .. } => reader.supply_chunk(vec![7; range.len]),
        }
    }
    assert!(most >= 64 && most <= 65);
}

#[test]
fn stream_names_of_drives_are_refused_where_there_are_drives() {
    let archive = compress(vec![file("c:/a", 1)], &[b"a".to_vec()], 64);
    let (_, header_len) = read_pdeflate_directory_header(&archive).expect("header");
    let mut actions = Vec::new();
    let mut writer = PDeflateArchiveWriter::new(PathStyle::Windows);
    assert!(writer.write(&archive[header_len..], &mut actions).is_err());
    let mut writer = PDeflateArchiveWriter::new(PathStyle::Unix);
    assert!(writer.write(&archive[header_len..], &mut actions).is_ok());
}
