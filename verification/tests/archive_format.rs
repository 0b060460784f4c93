use cozip::formats::CoZipArchiveFormat;

#[test]
fn test_archive_format_variants() {
    assert_eq!(CoZipArchiveFormat::Zip.as_str(), "zip");
    assert_eq!(CoZipArchiveFormat::PDeflate.as_str(), "cozip");
    assert_eq!(CoZipArchiveFormat::Tar.as_str(), "tar");
    assert_eq!(CoZipArchiveFormat::TarGz.as_str(), "tar.gz");
    assert_eq!(CoZipArchiveFormat::TarBz2.as_str(), "tar.bz2");
    assert_eq!(CoZipArchiveFormat::TarXz.as_str(), "tar.xz");
    assert_eq!(CoZipArchiveFormat::Rar.as_str(), "rar");
    assert_eq!(CoZipArchiveFormat::SevenZip.as_str(), "7z");
}
