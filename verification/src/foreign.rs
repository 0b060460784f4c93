//! Extracting archives of other formats: where their entries go, and what is
//! counted.

use vstd::prelude::*;

use crate::error::{CoZipError, IoFailure};
use crate::paths::{byte_texts, contained_path, normal_names, stays_inside, PathComponent};
use crate::types::CoZipStats;

verus! {

/// A format whose entries are placed one by one.
#[derive(Debug, Clone, Copy, PartialEq, Eq, Structural)]
pub enum ForeignFormat {
    Tar,
    Rar,
    SevenZip,
}

/// What is said of an entry that would leave the output directory.
pub open spec fn escape_message(format: ForeignFormat, shown: Seq<char>) -> Seq<char> {
    match format {
        ForeignFormat::Tar => "illegal path component in tar: "@ + shown,
        ForeignFormat::Rar => "illegal path in rar: "@ + shown,
        ForeignFormat::SevenZip => "illegal path in 7z: "@ + shown,
    }
}

/// Finds where an entry goes below the output directory. `shown` is its path as
/// it is shown to people. An entry that would leave the directory is refused.
pub fn foreign_entry_path(format: ForeignFormat, components: &[PathComponent], shown: &str) -> (r:
    Result<Vec<Vec<u8>>, CoZipError>)
    ensures
        if forall|i: int|
            0 <= i < components@.len() ==> stays_inside(#[trigger] components@[i]) {
            r matches Ok(names) && byte_texts(names@) == normal_names(components@)
        } else {
            r matches Err(CoZipError::Io(IoFailure::Other(message))) && message@
                == escape_message(format, shown@)
        },
{
    match contained_path(components) {
        Some(names) => Ok(names),
        None => {
            let mut message = match format {
                ForeignFormat::Tar => "illegal path component in tar: ".to_string(),
                ForeignFormat::Rar => "illegal path in rar: ".to_string(),
                ForeignFormat::SevenZip => "illegal path in 7z: ".to_string(),
            };
            message.append(shown);
            Err(CoZipError::Io(IoFailure::Other(message)))
        },
    }
}

/// What was extracted so far.
#[derive(Debug, Clone, Copy, PartialEq, Eq, Structural)]
pub struct ForeignTotals {
    pub entries: usize,
    pub bytes: u64,
}

impl ForeignTotals {
    /// Nothing yet.
    pub fn new() -> (totals: Self)
        ensures
            totals == (ForeignTotals { entries: 0, bytes: 0 }),
    {
        ForeignTotals { entries: 0, bytes: 0 }
    }

    /// Counts a directory.
    pub fn add_directory(&mut self)
        requires
            old(self).entries < usize::MAX,
        ensures
            *final(self) == (ForeignTotals {
                entries: (old(self).entries + 1) as usize,
                bytes: old(self).bytes,
            }),
    {
        self.entries = self.entries + 1;
    }

    /// Counts a file and its bytes.
    pub fn add_file(&mut self, bytes: u64)
        requires
            old(self).entries < usize::MAX,
            old(self).bytes + bytes <= u64::MAX,
        ensures
            *final(self) == (ForeignTotals {
                entries: (old(self).entries + 1) as usize,
                bytes: (old(self).bytes + bytes) as u64,
            }),
    {
        self.entries = self.entries + 1;
        self.bytes = self.bytes + bytes;
    }

    /// The counts of the extraction: what came out stands for what went in.
    pub fn stats(&self) -> (stats: CoZipStats)
        ensures
            stats == (CoZipStats {
                entries: self.entries,
                input_bytes: self.bytes,
                output_bytes: self.bytes,
            }),
    {
        CoZipStats { entries: self.entries, input_bytes: self.bytes, output_bytes: self.bytes }
    }
}

/// Directories and files count as one entry each, a file with its bytes, and nothing
/// else is counted.
pub proof fn law_extracted_entries_are_counted(
    totals: &mut ForeignTotals,
    bytes: u64,
    before: CoZipStats,
    after: CoZipStats,
)
    requires
        call_ensures(ForeignTotals::stats, (&*old(totals),), before),
        call_ensures(ForeignTotals::stats, (&*final(totals),), after),
        before.entries < usize::MAX,
        before.output_bytes + bytes <= u64::MAX,
        call_ensures(ForeignTotals::add_file, (totals, bytes), ()) || bytes == 0 && call_ensures(
            ForeignTotals::add_directory,
            (totals,),
            (),
        ),
    ensures
        after.entries == before.entries + 1,
        after.input_bytes == before.input_bytes + bytes,
        after.output_bytes == before.output_bytes + bytes,
{
}

/// Nothing is counted at first.
pub proof fn law_nothing_is_counted_at_first(totals: ForeignTotals, stats: CoZipStats)
    requires
        call_ensures(ForeignTotals::new, (), totals),
        call_ensures(ForeignTotals::stats, (&totals,), stats),
    ensures
        stats.entries == 0,
        stats.input_bytes == 0,
        stats.output_bytes == 0,
{
}

/// A refusal shows the path, and each format is told from the others.
pub proof fn law_refusals_show_the_path(
    format: ForeignFormat,
    other: ForeignFormat,
    components: &[PathComponent],
    shown: &str,
    error: CoZipError,
    other_error: CoZipError,
)
    requires
        call_ensures(
            foreign_entry_path,
            (format, components, shown),
            Err::<Vec<Vec<u8>>, CoZipError>(error),
        ),
        call_ensures(
            foreign_entry_path,
            (other, components, shown),
            Err::<Vec<Vec<u8>>, CoZipError>(other_error),
        ),
    ensures
        error matches CoZipError::Io(IoFailure::Other(message)) && shown@.is_suffix_of(message@),
        format != other ==> error != other_error,
{
    reveal_strlit("illegal path component in tar: ");
    reveal_strlit("illegal path in rar: ");
    reveal_strlit("illegal path in 7z: ");
    let a = escape_message(format, shown@);
    let b = escape_message(other, shown@);
    assert(shown@ =~= a.subrange(a.len() - shown@.len(), a.len() as int));
    if format != other {
        assert(a.len() != b.len());
    }
}

} // verus!
