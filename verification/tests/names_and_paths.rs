use cozip::error::{CoZipError, IoFailure};
use cozip::foreign::{foreign_entry_path, ForeignFormat, ForeignTotals};
use cozip::names::{
    contains_probably_japanese_text, decode_cp437, decode_unix_filename_bytes,
    decode_zip_entry_name, zip_name_part_from_os_str,
};
use cozip::paths::{
    contained_path, entry_path_from_zip_name, file_name_from_path, normalize_zip_entry_name,
    zip_name_from_relative_path, PathComponent, PathStyle,
};

const SHIFT_JIS_NAME: [u8; 10] = [
    0x83, 0x65, 0x83, 0x58, 0x83, 0x67, b'.', b't', b'x', b't',
];

#[test]
fn shift_jis_unix_filename_bytes_become_utf8_zip_name() {
    assert_eq!(
        file_name_from_path(Some(&SHIFT_JIS_NAME), PathStyle::Unix).expect("decode shift jis path"),
        "テスト.txt"
    );
}

#[test]
fn entry_names_are_decoded_by_their_flags() {
    assert_eq!(decode_zip_entry_name("é".as_bytes(), 0x0800).expect("utf-8"), "é");
    assert!(decode_zip_entry_name(&[0xff, 0xfe], 0x0800).is_err());
    assert_eq!(decode_zip_entry_name(b"plain", 0).expect("ascii"), "plain");
    assert_eq!(
        decode_zip_entry_name(&SHIFT_JIS_NAME, 0).expect("shift jis"),
        "テスト.txt"
    );
    assert_eq!(decode_zip_entry_name(&[0x80, b'a'], 0).expect("cp437"), "Ça");
    assert_eq!(decode_cp437(&[0x41, 0xff, 0xe1]), "A\u{a0}ß");
}

#[test]
fn file_names_on_disk_are_decoded() {
    assert_eq!(decode_unix_filename_bytes("あ.txt".as_bytes()).expect("utf-8"), "あ.txt");
    assert_eq!(
        decode_unix_filename_bytes(&SHIFT_JIS_NAME).expect("shift jis"),
        "テスト.txt"
    );
    assert_eq!(
        decode_unix_filename_bytes(&[0xff, b'A']).expect("lossy"),
        "\u{fffd}A"
    );
    assert_eq!(
        decode_unix_filename_bytes(&[]),
        Err(CoZipError::InvalidEntryName("entry name is empty"))
    );
    assert_eq!(zip_name_part_from_os_str(b"x").expect("part"), "x");
    assert!(contains_probably_japanese_text("abcテ"));
    assert!(!contains_probably_japanese_text("abc"));
}

#[test]
fn names_are_cleaned() {
    assert_eq!(normalize_zip_entry_name("a\\b", PathStyle::Unix).expect("clean"), "a/b");
    assert_eq!(normalize_zip_entry_name("./a//b/", PathStyle::Unix).expect("clean"), "a/b");
    assert!(matches!(
        normalize_zip_entry_name("/a", PathStyle::Unix),
        Err(CoZipError::InvalidEntryName(_))
    ));
    assert!(matches!(
        normalize_zip_entry_name("a/../b", PathStyle::Unix),
        Err(CoZipError::InvalidEntryName(_))
    ));
    assert!(matches!(
        normalize_zip_entry_name("", PathStyle::Unix),
        Err(CoZipError::InvalidEntryName(_))
    ));
    let once = normalize_zip_entry_name("x\\.\\y", PathStyle::Unix).expect("clean");
    assert_eq!(normalize_zip_entry_name(&once, PathStyle::Unix).expect("clean again"), once);
    assert_eq!(
        entry_path_from_zip_name("dir/sub/", PathStyle::Unix).expect("path"),
        vec!["dir".to_string(), "sub".to_string()]
    );
}

#[test]
fn relative_paths_become_names() {
    let name = zip_name_from_relative_path(&[
        PathComponent::CurDir,
        PathComponent::Normal(b"a".to_vec()),
        PathComponent::Normal(SHIFT_JIS_NAME.to_vec()),
    ]);
    assert_eq!(name.expect("name"), "a/テスト.txt");
    assert!(zip_name_from_relative_path(&[PathComponent::ParentDir]).is_err());
    assert!(zip_name_from_relative_path(&[PathComponent::RootDir]).is_err());
    assert!(zip_name_from_relative_path(&[]).is_err());
    assert!(file_name_from_path(None, PathStyle::Unix).is_err());
}

#[test]
fn foreign_entries_stay_inside() {
    let inside = [
        PathComponent::CurDir,
        PathComponent::Normal(b"a".to_vec()),
        PathComponent::Normal(b"b".to_vec()),
    ];
    assert_eq!(
        contained_path(&inside),
        Some(vec![b"a".to_vec(), b"b".to_vec()])
    );
    let outside = [PathComponent::Normal(b"a".to_vec()), PathComponent::ParentDir];
    assert_eq!(contained_path(&outside), None);
    assert_eq!(
        foreign_entry_path(ForeignFormat::Tar, &outside, "a/.."),
        Err(CoZipError::Io(IoFailure::Other(
            "illegal path component in tar: a/..".to_string()
        )))
    );
    assert_eq!(
        foreign_entry_path(ForeignFormat::Rar, &outside, "a/.."),
        Err(CoZipError::Io(IoFailure::Other(
            "illegal path in rar: a/..".to_string()
        )))
    );
    assert_eq!(
        foreign_entry_path(ForeignFormat::Tar, &inside, "a/b"),
        Ok(vec![b"a".to_vec(), b"b".to_vec()])
    );
    let mut totals = ForeignTotals::new();
    totals.add_directory();
    totals.add_file(12);
    let stats = totals.stats();
    assert_eq!(stats.entries, 2);
    assert_eq!(stats.input_bytes, 12);
    assert_eq!(stats.output_bytes, 12);
}

#[test]
fn errors_have_messages() {
    assert_eq!(CoZipError::InvalidZip("x").message(), "invalid zip: x");
    assert_eq!(CoZipError::Unsupported("x").message(), "unsupported zip: x");
    assert_eq!(CoZipError::InvalidEntryName("x").message(), "invalid entry name: x");
    assert_eq!(CoZipError::Deflate("x".to_string()).message(), "deflate error: x");
    assert_eq!(CoZipError::PDeflate("x".to_string()).message(), "pdeflate error: x");
    assert_eq!(
        CoZipError::Io(IoFailure::Other("x".to_string())).message(),
        "I/O error: x"
    );
    assert_eq!(CoZipError::NonUtf8Name.message(), "path contains non-utf8 bytes");
    assert_eq!(CoZipError::DataTooLarge.message(), "data too large for zip32");
    assert_eq!(CoZipError::Join("x".to_string()).message(), "async task join error: x");
}

#[test]
fn cleaned_names_split_into_their_parts() {
    for name in ["a/b/c", "./x\\y", "one"] {
        let clean = normalize_zip_entry_name(name, PathStyle::Unix).expect("clean");
        let parts = entry_path_from_zip_name(name, PathStyle::Unix).expect("parts");
        let split: Vec<&str> = clean.split('/').collect();
        assert_eq!(parts, split);
        for part in &parts {
            assert!(!part.is_empty() && part != "." && part != ".." && !part.contains('/'));
        }
    }
}

#[test]
fn drives_are_no_relative_names_on_windows() {
    for name in ["C:/x", "c:x", "z:", "C:\\x"] {
        assert!(matches!(
            normalize_zip_entry_name(name, PathStyle::Windows),
            Err(CoZipError::InvalidEntryName(_))
        ));
        assert!(entry_path_from_zip_name(name, PathStyle::Windows).is_err());
        assert!(normalize_zip_entry_name(name, PathStyle::Unix).is_ok());
    }
    assert_eq!(normalize_zip_entry_name("C:/x", PathStyle::Unix).expect("clean"), "C:/x");
    assert_eq!(normalize_zip_entry_name("1:/x", PathStyle::Windows).expect("clean"), "1:/x");
    assert_eq!(normalize_zip_entry_name("ab:/x", PathStyle::Windows).expect("clean"), "ab:/x");
    let dotted = normalize_zip_entry_name("./c:", PathStyle::Windows).expect("clean");
    assert_eq!(dotted, "c:");
    assert!(normalize_zip_entry_name(&dotted, PathStyle::Windows).is_err());
}

#[test]
fn relative_names_split_into_their_components() {
    let components = [
        PathComponent::CurDir,
        PathComponent::Normal(b"dir".to_vec()),
        PathComponent::Normal(SHIFT_JIS_NAME.to_vec()),
    ];
    let name = zip_name_from_relative_path(&components).expect("name");
    for style in [PathStyle::Unix, PathStyle::Windows] {
        assert_eq!(
            entry_path_from_zip_name(&name, style).expect("parts"),
            vec!["dir".to_string(), "テスト.txt".to_string()]
        );
        assert_eq!(normalize_zip_entry_name(&name, style).expect("clean"), name);
    }
}
