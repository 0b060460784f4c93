//! The decisions between steps: which decoder comes next, what is extracted by
//! whom, and where a file goes.

use vstd::prelude::*;

use crate::dir_encode::{encode_pdeflate_directory_header, PDEFLATE_DIR_FILE_VERSION_V2};
use crate::error::CoZipError;
use crate::formats::{
    carries_7z, carries_pdeflate, carries_rar, carries_stream_of, carries_tar, carries_zip,
    classify_zip_archive_kind, detect_archive_format, holds_single_file, lemma_signatures,
    lemma_tar_mark, CoZipArchiveFormat, CoZipArchiveInfo, CoZipArchiveKind, ZipArchiveKind,
};
use crate::paths::{
    is_plain, lemma_joined_names_split, names_drive, normalize_zip_entry_name, normalized_name,
    PathStyle,
};
use crate::progress::capped_sum;
use crate::types::CoZipStats;
use crate::zip_entry::DecodeReport;
use crate::zip_read::{read_records, ZipCentralReadEntry};

verus! {

/// The format of an archive, where it was recognised.
pub fn require_format(format: Option<CoZipArchiveFormat>) -> (r: Result<
    CoZipArchiveFormat,
    CoZipError,
>)
    ensures
        r == match format {
            Some(format) => Ok::<CoZipArchiveFormat, CoZipError>(format),
            None => Err(CoZipError::InvalidZip("unsupported archive signature")),
        },
{
    match format {
        Some(format) => Ok(format),
        None => Err(CoZipError::InvalidZip("unsupported archive signature")),
    }
}

/// What is known of an archive of another format: it is extracted into a
/// directory.
pub fn foreign_archive_info(format: CoZipArchiveFormat) -> (info: CoZipArchiveInfo)
    ensures
        info == (CoZipArchiveInfo { format, kind: CoZipArchiveKind::Directory }),
{
    CoZipArchiveInfo { format, kind: CoZipArchiveKind::Directory }
}

/// The layer around a tar archive.
#[derive(Debug, Clone, Copy, PartialEq, Eq, Structural)]
pub enum TarLayer {
    Bare,
    Gzip,
    Bzip2,
    Xz,
}

/// Who extracts an archive.
#[derive(Debug, Clone, Copy, PartialEq, Eq, Structural)]
pub enum ExtractRoute {
    Zip,
    PDeflateDirectory,
    PDeflateFile,
    Tar(TarLayer),
    SevenZip,
    Rar,
}

/// Who extracts an archive of that format and kind.
pub open spec fn route_of(info: CoZipArchiveInfo) -> ExtractRoute {
    match info.format {
        CoZipArchiveFormat::Zip => ExtractRoute::Zip,
        CoZipArchiveFormat::PDeflate => match info.kind {
            CoZipArchiveKind::Directory => ExtractRoute::PDeflateDirectory,
            CoZipArchiveKind::SingleFile { suggested_name: _ } => ExtractRoute::PDeflateFile,
        },
        CoZipArchiveFormat::Tar => ExtractRoute::Tar(TarLayer::Bare),
        CoZipArchiveFormat::TarGz => ExtractRoute::Tar(TarLayer::Gzip),
        CoZipArchiveFormat::TarBz2 => ExtractRoute::Tar(TarLayer::Bzip2),
        CoZipArchiveFormat::TarXz => ExtractRoute::Tar(TarLayer::Xz),
        CoZipArchiveFormat::SevenZip => ExtractRoute::SevenZip,
        CoZipArchiveFormat::Rar => ExtractRoute::Rar,
    }
}

/// Chooses who extracts an archive.
pub fn extract_route(info: &CoZipArchiveInfo) -> (route: ExtractRoute)
    ensures
        route == route_of(*info),
{
    match info.format {
        CoZipArchiveFormat::Zip => ExtractRoute::Zip,
        CoZipArchiveFormat::PDeflate => match &info.kind {
            CoZipArchiveKind::Directory => ExtractRoute::PDeflateDirectory,
            CoZipArchiveKind::SingleFile { suggested_name: _ } => ExtractRoute::PDeflateFile,
        },
        CoZipArchiveFormat::Tar => ExtractRoute::Tar(TarLayer::Bare),
        CoZipArchiveFormat::TarGz => ExtractRoute::Tar(TarLayer::Gzip),
        CoZipArchiveFormat::TarBz2 => ExtractRoute::Tar(TarLayer::Bzip2),
        CoZipArchiveFormat::TarXz => ExtractRoute::Tar(TarLayer::Xz),
        CoZipArchiveFormat::SevenZip => ExtractRoute::SevenZip,
        CoZipArchiveFormat::Rar => ExtractRoute::Rar,
    }
}

/// Where an archive goes that is extracted as what it holds.
#[derive(Debug, Clone)]
pub enum AutoTarget {
    /// To the output path, which is the file.
    File,
    /// To a file of that name below the output path.
    FileBelow { name: String },
    /// Into the output path, as a directory.
    Directory,
}

/// Chooses where a ZIP archive goes. A single file goes below the output path
/// where that is a directory.
pub fn zip_auto_target(
    entries: &[ZipCentralReadEntry],
    output_is_directory: bool,
    style: PathStyle,
) -> (r: Result<AutoTarget, CoZipError>)
    ensures
        if holds_single_file(read_records(entries@)) {
            match normalized_name(entries@[0].name@, style) {
                Err(error) => r == Err::<AutoTarget, CoZipError>(error),
                Ok(clean) => if output_is_directory {
                    r matches Ok(AutoTarget::FileBelow { name }) && name@ == clean
                } else {
                    r == Ok::<AutoTarget, CoZipError>(AutoTarget::File)
                },
            }
        } else {
            r == Ok::<AutoTarget, CoZipError>(AutoTarget::Directory)
        },
{
    match classify_zip_archive_kind(entries, style) {
        Err(error) => Err(error),
        Ok(ZipArchiveKind::Directory) => Ok(AutoTarget::Directory),
        Ok(ZipArchiveKind::SingleFile { entry_name }) => if output_is_directory {
            Ok(AutoTarget::FileBelow { name: entry_name })
        } else {
            Ok(AutoTarget::File)
        },
    }
}

/// Chooses where a PDeflate archive goes. `starts_with_directory_header` tells
/// what it holds.
pub fn pdeflate_auto_target(starts_with_directory_header: bool) -> (target: AutoTarget)
    ensures
        target == if starts_with_directory_header {
            AutoTarget::Directory
        } else {
            AutoTarget::File
        },
{
    if starts_with_directory_header {
        AutoTarget::Directory
    } else {
        AutoTarget::File
    }
}

/// Chooses where the file of a PDeflate archive goes. Where the output path is a
/// directory, it goes below it, under the name that is suggested for it; that
/// name must be one that can be cleaned.
pub fn pdeflate_file_target(
    suggested_name: &str,
    output_is_directory: bool,
    style: PathStyle,
) -> (r: Result<AutoTarget, CoZipError>)
    ensures
        if output_is_directory {
            match normalized_name(suggested_name@, style) {
                Ok(clean) => r matches Ok(AutoTarget::FileBelow { name }) && name@ == clean,
                Err(error) => r == Err::<AutoTarget, CoZipError>(error),
            }
        } else {
            r == Ok::<AutoTarget, CoZipError>(AutoTarget::File)
        },
{
    if !output_is_directory {
        return Ok(AutoTarget::File);
    }
    match normalize_zip_entry_name(suggested_name, style) {
        Ok(name) => Ok(AutoTarget::FileBelow { name }),
        Err(error) => Err(error),
    }
}

/// How a decoder of indexed DEFLATE data failed.
#[derive(Debug, Clone)]
pub enum DeflateFailure {
    GpuExecution(String),
    GpuUnavailable(String),
    Other(String),
}

/// What follows on an attempt to decode an entry by its index.
#[derive(Debug, Clone)]
pub enum IndexedStep {
    /// The report is checked.
    Check(DecodeReport),
    /// The entry is decoded again, on the CPU.
    RetryOnCpu,
    /// The entry cannot be decoded.
    Fail(CoZipError),
}

/// Chooses what follows on an attempt to decode an entry by its index: where the
/// GPU let it down, the CPU takes over.
pub fn after_indexed_attempt(attempt: Result<DecodeReport, DeflateFailure>) -> (step: IndexedStep)
    ensures
        step == match attempt {
            Ok(report) => IndexedStep::Check(report),
            Err(DeflateFailure::GpuExecution(_)) => IndexedStep::RetryOnCpu,
            Err(DeflateFailure::GpuUnavailable(_)) => IndexedStep::RetryOnCpu,
            Err(DeflateFailure::Other(message)) => IndexedStep::Fail(CoZipError::Deflate(message)),
        },
{
    match attempt {
        Ok(report) => IndexedStep::Check(report),
        Err(DeflateFailure::GpuExecution(_)) => IndexedStep::RetryOnCpu,
        Err(DeflateFailure::GpuUnavailable(_)) => IndexedStep::RetryOnCpu,
        Err(DeflateFailure::Other(message)) => IndexedStep::Fail(CoZipError::Deflate(message)),
    }
}

/// The bytes that a stream decoder took and gave.
#[derive(Debug, Clone, Copy, PartialEq, Eq, Structural)]
pub struct StreamStats {
    pub input_bytes: u64,
    pub output_bytes: u64,
}

/// How a PDeflate decoder failed.
#[derive(Debug, Clone)]
pub enum PDeflateFailure {
    /// A file could not be opened for reading and writing at once.
    PermissionDenied(String),
    Other(String),
}

/// What is to be done next to decode a PDeflate stream into a file.
#[derive(Debug)]
pub enum PDeflateDecode {
    /// Ask the stream for its decoded size.
    Probe,
    /// Decode it with parallel writes; it comes to `expected` bytes.
    Parallel { expected: u64 },
    /// Decode it from start to end.
    Stream { expected: Option<u64> },
    /// Nothing: it is decoded.
    Done { stats: CoZipStats },
    /// Nothing: it cannot be decoded.
    Failed { error: CoZipError },
}

/// The counts of a stream that was decoded into one file.
pub open spec fn one_file(stats: StreamStats) -> CoZipStats {
    CoZipStats { entries: 1, input_bytes: stats.input_bytes, output_bytes: stats.output_bytes }
}

impl PDeflateDecode {
    /// How many steps are left at most.
    pub open spec fn steps_left(self) -> nat {
        match self {
            PDeflateDecode::Probe => 3,
            PDeflateDecode::Parallel { expected: _ } => 2,
            PDeflateDecode::Stream { expected: _ } => 1,
            PDeflateDecode::Done { stats: _ } => 0,
            PDeflateDecode::Failed { error: _ } => 0,
        }
    }

    /// Starts: the size is asked for where the caller does not know it.
    pub fn start(expected: Option<u64>) -> (decode: Self)
        ensures
            decode == match expected {
                Some(expected) => PDeflateDecode::Parallel { expected },
                None => PDeflateDecode::Probe,
            },
    {
        match expected {
            Some(expected) => PDeflateDecode::Parallel { expected },
            None => PDeflateDecode::Probe,
        }
    }

    /// Goes on from what the stream said of its size. Writes go in parallel where
    /// the size is known.
    pub fn probed(self, size: Result<Option<u64>, String>) -> (next: Self)
        requires
            self is Probe,
        ensures
            next.steps_left() < self.steps_left(),
            next == match size {
                Ok(Some(expected)) => PDeflateDecode::Parallel { expected },
                Ok(None) => PDeflateDecode::Stream { expected: None },
                Err(message) => PDeflateDecode::Failed { error: CoZipError::PDeflate(message) },
            },
    {
        match size {
            Ok(Some(expected)) => PDeflateDecode::Parallel { expected },
            Ok(None) => PDeflateDecode::Stream { expected: None },
            Err(message) => PDeflateDecode::Failed { error: CoZipError::PDeflate(message) },
        }
    }

    /// Goes on from what came of an attempt to decode. Where parallel writes were
    /// not permitted, the stream is decoded from start to end.
    pub fn attempted(self, outcome: Result<StreamStats, PDeflateFailure>) -> (next: Self)
        requires
            self is Parallel || self is Stream,
        ensures
            next.steps_left() < self.steps_left(),
            next == match outcome {
                Ok(stats) => PDeflateDecode::Done { stats: one_file(stats) },
                Err(PDeflateFailure::PermissionDenied(message)) => match self {
                    PDeflateDecode::Parallel { expected } => PDeflateDecode::Stream {
                        expected: Some(expected),
                    },
                    _ => PDeflateDecode::Failed { error: CoZipError::PDeflate(message) },
                },
                Err(PDeflateFailure::Other(message)) => PDeflateDecode::Failed {
                    error: CoZipError::PDeflate(message),
                },
            },
    {
        match outcome {
            Ok(stats) => PDeflateDecode::Done {
                stats: CoZipStats {
                    entries: 1,
                    input_bytes: stats.input_bytes,
                    output_bytes: stats.output_bytes,
                },
            },
            Err(PDeflateFailure::PermissionDenied(message)) => match self {
                PDeflateDecode::Parallel { expected } => PDeflateDecode::Stream {
                    expected: Some(expected),
                },
                _ => PDeflateDecode::Failed { error: CoZipError::PDeflate(message) },
            },
            Err(PDeflateFailure::Other(message)) => PDeflateDecode::Failed {
                error: CoZipError::PDeflate(message),
            },
        }
    }
}

/// The counts of a directory that was compressed into a PDeflate archive: its
/// header comes on top of the stream.
pub fn pdeflate_directory_stats(
    file_entries: usize,
    total_file_bytes: u64,
    stream_output_bytes: u64,
) -> (stats: CoZipStats)
    ensures
        stats == (CoZipStats {
            entries: file_entries,
            input_bytes: total_file_bytes,
            output_bytes: capped_sum(stream_output_bytes, 21),
        }),
{
    CoZipStats {
        entries: file_entries,
        input_bytes: total_file_bytes,
        output_bytes: stream_output_bytes.saturating_add(21),
    }
}

/// The length of the header of a PDeflate archive of a directory.
pub open spec fn directory_header_len(version: u8) -> u64 {
    if version == PDEFLATE_DIR_FILE_VERSION_V2 {
        21
    } else {
        5
    }
}

/// The counts of a directory that was extracted from a PDeflate archive.
pub fn pdeflate_extract_stats(
    version: u8,
    file_entries: usize,
    stream_input_bytes: u64,
    output_bytes: u64,
) -> (stats: CoZipStats)
    ensures
        stats == (CoZipStats {
            entries: file_entries,
            input_bytes: capped_sum(stream_input_bytes, directory_header_len(version)),
            output_bytes,
        }),
{
    let header_len: u64 = if version == PDEFLATE_DIR_FILE_VERSION_V2 {
        21
    } else {
        5
    };
    CoZipStats {
        entries: file_entries,
        input_bytes: stream_input_bytes.saturating_add(header_len),
        output_bytes,
    }
}

/// How many reads of one file may be under way: eight for each thread, no fewer
/// than eight and no more than 128.
pub fn max_inflight_ops(threads: usize) -> (ops: usize)
    ensures
        ops == if threads <= 1 {
            8
        } else if threads >= 16 {
            128
        } else {
            (threads * 8) as usize
        },
{
    if threads <= 1 {
        8
    } else if threads >= 16 {
        128
    } else {
        threads * 8
    }
}

/// An archive goes to the extractor of the format that its first bytes were told to be:
/// a compressed tar archive with the layer of its stream, and a PDeflate archive by what
/// it holds.
pub proof fn law_bytes_lead_to_their_extractor(
    header: &[u8],
    inner: Option<&[u8]>,
    file_name: Option<&str>,
    info: &CoZipArchiveInfo,
    route: ExtractRoute,
)
    requires
        call_ensures(detect_archive_format, (header, inner, file_name), Some(info.format)),
        call_ensures(extract_route, (info,), route),
    ensures
        carries_zip(header@) <==> route == ExtractRoute::Zip,
        carries_pdeflate(header@) ==> route == if info.kind is Directory {
            ExtractRoute::PDeflateDirectory
        } else {
            ExtractRoute::PDeflateFile
        },
        carries_7z(header@) ==> route == ExtractRoute::SevenZip,
        carries_rar(header@) ==> route == ExtractRoute::Rar,
        carries_stream_of(header@, CoZipArchiveFormat::TarGz) ==> route == ExtractRoute::Tar(
            TarLayer::Gzip,
        ) || route == ExtractRoute::Tar(TarLayer::Bare),
        carries_stream_of(header@, CoZipArchiveFormat::TarBz2) ==> route == ExtractRoute::Tar(
            TarLayer::Bzip2,
        ) || route == ExtractRoute::Tar(TarLayer::Bare),
        carries_stream_of(header@, CoZipArchiveFormat::TarXz) ==> route == ExtractRoute::Tar(
            TarLayer::Xz,
        ) || route == ExtractRoute::Tar(TarLayer::Bare),
        inner matches Some(bytes) ==> carries_tar(bytes@) ==> {
            &&& carries_stream_of(header@, CoZipArchiveFormat::TarGz) ==> route
                == ExtractRoute::Tar(TarLayer::Gzip)
            &&& carries_stream_of(header@, CoZipArchiveFormat::TarBz2) ==> route
                == ExtractRoute::Tar(TarLayer::Bzip2)
            &&& carries_stream_of(header@, CoZipArchiveFormat::TarXz) ==> route
                == ExtractRoute::Tar(TarLayer::Xz)
        },
        info.format == CoZipArchiveFormat::Tar ==> route == ExtractRoute::Tar(TarLayer::Bare),
{
    lemma_signatures(header@);
    if let Some(bytes) = inner {
        lemma_tar_mark(bytes@);
    }
}

/// A file that is told to be no archive is refused, and any other goes on as what it is
/// told to be.
pub proof fn law_unknown_files_are_refused(
    format: Option<CoZipArchiveFormat>,
    r: Result<CoZipArchiveFormat, CoZipError>,
)
    requires
        call_ensures(require_format, (format,), r),
    ensures
        r is Ok <==> format is Some,
        r matches Ok(known) ==> format == Some(known),
        r is Err ==> r->Err_0 is InvalidZip,
{
}

/// A ZIP archive of one file at its top goes to the output path itself, or below it
/// where that is a directory, under its own name; any other archive goes into the output
/// path as a directory.
pub proof fn law_single_files_go_where_they_are_wanted(
    entries: &[ZipCentralReadEntry],
    output_is_directory: bool,
    style: PathStyle,
    r: Result<AutoTarget, CoZipError>,
)
    requires
        call_ensures(zip_auto_target, (entries, output_is_directory, style), r),
    ensures
        entries@.len() != 1 ==> r == Ok::<AutoTarget, CoZipError>(AutoTarget::Directory),
        entries@.len() == 1 && entries@[0].name@.contains('/') ==> r == Ok::<
            AutoTarget,
            CoZipError,
        >(AutoTarget::Directory),
        entries@.len() == 1 && is_plain(entries@[0].name@) && !names_drive(
            entries@[0].name@,
            style,
        ) ==> if output_is_directory {
            r matches Ok(AutoTarget::FileBelow { name }) && name@ == entries@[0].name@
        } else {
            r == Ok::<AutoTarget, CoZipError>(AutoTarget::File)
        },
        entries@.len() == 1 && !entries@[0].name@.contains('/') && r is Ok ==> !(
        r->Ok_0 is Directory),
{
    if entries@.len() == 1 {
        let name = entries@[0].name@;
        assert(read_records(entries@)[0].name == name);
        if is_plain(name) && !names_drive(name, style) {
            lemma_joined_names_split(seq![name], style);
        }
    }
}

/// A decoder that the GPU let down is tried again on the CPU, and only that one is; what
/// was decoded is checked.
pub proof fn law_only_gpu_failures_are_retried(
    attempt: Result<DecodeReport, DeflateFailure>,
    step: IndexedStep,
)
    requires
        call_ensures(after_indexed_attempt, (attempt,), step),
    ensures
        attempt matches Ok(report) ==> step == IndexedStep::Check(report),
        step is RetryOnCpu <==> attempt is Err && !(attempt->Err_0 is Other),
        attempt matches Err(DeflateFailure::Other(message)) ==> step == IndexedStep::Fail(
            CoZipError::Deflate(message),
        ),
{
}

/// A stream is decoded with parallel writes wherever its size is known, and from start
/// to end where it is not.
pub proof fn law_known_sizes_are_written_in_parallel(
    told: Option<u64>,
    probed: Result<Option<u64>, String>,
    first: PDeflateDecode,
    second: PDeflateDecode,
)
    requires
        call_ensures(PDeflateDecode::start, (told,), first),
        first is Probe ==> call_ensures(PDeflateDecode::probed, (first, probed), second),
    ensures
        told matches Some(size) ==> first == (PDeflateDecode::Parallel { expected: size }),
        told is None ==> first is Probe,
        told is None ==> match probed {
            Ok(Some(size)) => second == (PDeflateDecode::Parallel { expected: size }),
            Ok(None) => second == (PDeflateDecode::Stream { expected: None }),
            Err(message) => second == (PDeflateDecode::Failed {
                error: CoZipError::PDeflate(message),
            }),
        },
{
}

/// A stream that was decoded counts as one file, with the bytes that the decoder took
/// and gave. Where parallel writes are not permitted it is decoded from start to end,
/// and any other failure is the end of it.
pub proof fn law_refused_parallel_writes_fall_back(
    decode: PDeflateDecode,
    outcome: Result<StreamStats, PDeflateFailure>,
    next: PDeflateDecode,
)
    requires
        decode is Parallel || decode is Stream,
        call_ensures(PDeflateDecode::attempted, (decode, outcome), next),
    ensures
        outcome matches Ok(done) ==> (next matches PDeflateDecode::Done { stats } && stats.entries
            == 1 && stats.input_bytes == done.input_bytes && stats.output_bytes
            == done.output_bytes),
        next is Done <==> outcome is Ok,
        next is Stream <==> outcome is Err && outcome->Err_0 is PermissionDenied && decode is Parallel,
        next matches PDeflateDecode::Stream { expected: kept } ==> (
        decode matches PDeflateDecode::Parallel { expected } && kept == Some(expected)),
        next matches PDeflateDecode::Failed { error } ==> error is PDeflate,
{
}

/// The counts of a directory archive cover its header: what is written of it when it is
/// made, and what is read of it when it is extracted.
pub proof fn law_directory_counts_cover_the_header(
    file_entries: usize,
    file_bytes: u64,
    stream_bytes: u64,
    header: Vec<u8>,
    made: CoZipStats,
    extracted: CoZipStats,
)
    requires
        call_ensures(encode_pdeflate_directory_header, (file_entries, file_bytes), header),
        call_ensures(pdeflate_directory_stats, (file_entries, file_bytes, stream_bytes), made),
        call_ensures(
            pdeflate_extract_stats,
            (header@[4], file_entries, stream_bytes, file_bytes),
            extracted,
        ),
        stream_bytes + header@.len() <= u64::MAX,
    ensures
        made.entries == file_entries,
        made.input_bytes == file_bytes,
        made.output_bytes == stream_bytes + header@.len(),
        extracted.entries == made.entries,
        extracted.input_bytes == made.output_bytes,
        extracted.output_bytes == made.input_bytes,
{
    broadcast use crate::le::group_le_len;

    assert(header@[4] == 2);
}

/// More threads never get fewer reads under way: eight for each of them, as long as that
/// stays from 8 to 128.
pub proof fn law_reads_grow_with_the_threads(threads: usize, ops: usize)
    requires
        call_ensures(max_inflight_ops, (threads,), ops),
    ensures
        8 <= ops <= 128,
        8 <= 8 * threads <= 128 ==> ops == 8 * threads,
        8 * threads < 8 ==> ops == 8,
        8 * threads > 128 ==> ops == 128,
{
}

/// A PDeflate archive goes into a directory exactly where it is one, and a single file
/// in it goes to the output path, or, where that is a directory, below it under its
/// cleaned name.
pub proof fn law_pdeflate_archives_go_where_they_are_wanted(
    is_directory: bool,
    target: AutoTarget,
    name: &str,
    below: bool,
    style: PathStyle,
    r: Result<AutoTarget, CoZipError>,
    cleaned: Result<String, CoZipError>,
)
    requires
        call_ensures(pdeflate_auto_target, (is_directory,), target),
        call_ensures(pdeflate_file_target, (name, below, style), r),
        call_ensures(normalize_zip_entry_name, (name, style), cleaned),
    ensures
        target is Directory <==> is_directory,
        target is File <==> !is_directory,
        !below ==> r == Ok::<AutoTarget, CoZipError>(AutoTarget::File),
        below ==> match cleaned {
            Ok(clean) => r matches Ok(AutoTarget::FileBelow { name: given }) && given@ == clean@,
            Err(error) => r == Err::<AutoTarget, CoZipError>(error),
        },
{
}

/// An archive of another format is extracted into a directory, by the extractor of its
/// own format.
pub proof fn law_other_archives_are_directories(
    format: CoZipArchiveFormat,
    info: CoZipArchiveInfo,
    route: ExtractRoute,
)
    requires
        call_ensures(foreign_archive_info, (format,), info),
        call_ensures(extract_route, (&info,), route),
    ensures
        info.kind is Directory,
        info.format == format,
        route is PDeflateFile ==> false,
        route is Zip <==> format is Zip,
        route is SevenZip <==> format is SevenZip,
        route is Rar <==> format is Rar,
        route == ExtractRoute::Tar(TarLayer::Bare) <==> format is Tar,
        route == ExtractRoute::Tar(TarLayer::Gzip) <==> format is TarGz,
        route == ExtractRoute::Tar(TarLayer::Bzip2) <==> format is TarBz2,
        route == ExtractRoute::Tar(TarLayer::Xz) <==> format is TarXz,
{
}

} // verus!
