//! The options of an archive, and what they are made into.

use vstd::prelude::*;

verus! {

/// Where DEFLATE runs.
#[derive(Debug, Clone, Copy, PartialEq, Eq, Structural)]
pub enum ZipDeflateMode {
    Hybrid,
    Cpu,
}

/// The options of a ZIP archive.
#[derive(Debug, Clone, Copy, PartialEq, Eq, Structural)]
pub struct ZipOptions {
    pub compression_level: u32,
    pub deflate_mode: ZipDeflateMode,
    pub parallel_read_threads: usize,
    pub parallel_write_threads: usize,
}

impl ZipOptions {
    /// The default options on a machine that runs `parallelism` threads at once.
    pub fn with_parallelism(parallelism: usize) -> (options: Self)
        ensures
            options == (ZipOptions {
                compression_level: 6,
                deflate_mode: ZipDeflateMode::Hybrid,
                parallel_read_threads: if parallelism == 0 {
                    1
                } else {
                    parallelism
                },
                parallel_write_threads: if parallelism == 0 {
                    1
                } else {
                    parallelism
                },
            }),
    {
        let threads: usize = if parallelism == 0 {
            1
        } else {
            parallelism
        };
        ZipOptions {
            compression_level: 6,
            deflate_mode: ZipDeflateMode::Hybrid,
            parallel_read_threads: threads,
            parallel_write_threads: threads,
        }
    }
}

/// What the compressor strives for.
#[derive(Debug, Clone, Copy, PartialEq, Eq, Structural)]
pub enum CompressionMode {
    Speed,
    Balanced,
    Ratio,
}

/// What the compressor strives for at a level.
pub open spec fn mode_of_level(level: u32) -> CompressionMode {
    if level <= 3 {
        CompressionMode::Speed
    } else if level <= 6 {
        CompressionMode::Balanced
    } else {
        CompressionMode::Ratio
    }
}

/// Chooses what the compressor strives for at a level.
pub fn compression_mode_from_level(level: u32) -> (mode: CompressionMode)
    ensures
        mode == mode_of_level(level),
{
    if level <= 3 {
        CompressionMode::Speed
    } else if level <= 6 {
        CompressionMode::Balanced
    } else {
        CompressionMode::Ratio
    }
}

/// What the ZIP backend is set up with.
#[derive(Debug, Clone, Copy, PartialEq, Eq, Structural)]
pub struct ZipBackendSettings {
    pub compression_level: u32,
    pub compression_mode: CompressionMode,
    pub prefer_gpu: bool,
    pub parallel_read_threads: usize,
    pub parallel_write_threads: usize,
}

/// The settings that options lead to: a level of at most nine, and at least one
/// thread each way.
pub open spec fn backend_settings(options: ZipOptions) -> ZipBackendSettings {
    let level = if options.compression_level > 9 {
        9
    } else {
        options.compression_level
    };
    ZipBackendSettings {
        compression_level: level,
        compression_mode: mode_of_level(level),
        prefer_gpu: options.deflate_mode == ZipDeflateMode::Hybrid,
        parallel_read_threads: if options.parallel_read_threads == 0 {
            1
        } else {
            options.parallel_read_threads
        },
        parallel_write_threads: if options.parallel_write_threads == 0 {
            1
        } else {
            options.parallel_write_threads
        },
    }
}

/// Works out what the ZIP backend is set up with.
pub fn resolve_zip_backend(options: ZipOptions) -> (settings: ZipBackendSettings)
    ensures
        settings == backend_settings(options),
{
    let compression_level: u32 = if options.compression_level > 9 {
        9
    } else {
        options.compression_level
    };
    ZipBackendSettings {
        compression_level,
        compression_mode: compression_mode_from_level(compression_level),
        prefer_gpu: options.deflate_mode == ZipDeflateMode::Hybrid,
        parallel_read_threads: if options.parallel_read_threads == 0 {
            1
        } else {
            options.parallel_read_threads
        },
        parallel_write_threads: if options.parallel_write_threads == 0 {
            1
        } else {
            options.parallel_write_threads
        },
    }
}

/// Options lead to settings that a compressor can run with: the level as it is, up to
/// nine, what it stands for, the GPU exactly in the hybrid mode, and the threads as they
/// are but for none at all, which means one.
pub proof fn law_options_lead_to_settings(options: ZipOptions, settings: ZipBackendSettings)
    requires
        call_ensures(resolve_zip_backend, (options,), settings),
    ensures
        settings.compression_level <= 9,
        options.compression_level <= 9 ==> settings.compression_level == options.compression_level,
        options.compression_level > 9 ==> settings.compression_level == 9,
        settings.compression_mode == CompressionMode::Speed <==> options.compression_level < 4,
        settings.compression_mode == CompressionMode::Ratio <==> options.compression_level >= 7,
        settings.prefer_gpu <==> options.deflate_mode == ZipDeflateMode::Hybrid,
        settings.parallel_read_threads >= 1,
        settings.parallel_write_threads >= 1,
        options.parallel_read_threads >= 1 ==> settings.parallel_read_threads
            == options.parallel_read_threads,
        options.parallel_write_threads >= 1 ==> settings.parallel_write_threads
            == options.parallel_write_threads,
        options.parallel_read_threads == 0 ==> settings.parallel_read_threads == 1,
        options.parallel_write_threads == 0 ==> settings.parallel_write_threads == 1,
{
}

/// The default options use every thread that the machine runs at once, in the hybrid
/// mode, and strive for a balance.
pub proof fn law_default_options_use_the_machine(
    parallelism: usize,
    options: ZipOptions,
    settings: ZipBackendSettings,
)
    requires
        call_ensures(ZipOptions::with_parallelism, (parallelism,), options),
        call_ensures(resolve_zip_backend, (options,), settings),
    ensures
        settings.compression_mode == CompressionMode::Balanced,
        settings.prefer_gpu,
        parallelism >= 1 ==> settings.parallel_read_threads == parallelism
            && settings.parallel_write_threads == parallelism,
        parallelism == 0 ==> settings.parallel_read_threads == 1 && settings.parallel_write_threads
            == 1,
{
}

/// A higher level never strives for less compression.
pub proof fn law_higher_levels_compress_more(
    low: u32,
    high: u32,
    at_low: CompressionMode,
    at_high: CompressionMode,
)
    requires
        call_ensures(compression_mode_from_level, (low,), at_low),
        call_ensures(compression_mode_from_level, (high,), at_high),
        low <= high,
    ensures
        at_low == CompressionMode::Ratio ==> at_high == CompressionMode::Ratio,
        at_high == CompressionMode::Speed ==> at_low == CompressionMode::Speed,
{
}

} // verus!
