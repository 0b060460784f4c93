//! The plain types of the public interface.

use vstd::prelude::*;

verus! {

/// What an operation has read and written.
#[derive(Debug, Clone, Copy, PartialEq, Eq, Structural)]
pub struct CoZipStats {
    pub entries: usize,
    pub input_bytes: u64,
    pub output_bytes: u64,
}

impl Default for CoZipStats {
    fn default() -> (stats: Self)
        ensures
            stats == (CoZipStats { entries: 0, input_bytes: 0, output_bytes: 0 }),
    {
        CoZipStats { entries: 0, input_bytes: 0, output_bytes: 0 }
    }
}

/// A file with its name, in memory.
#[derive(Debug, Clone)]
pub struct ZipEntry {
    pub name: String,
    pub data: Vec<u8>,
}

} // verus!
