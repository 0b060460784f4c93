//! The progress of an operation, as its observers see it.

use vstd::prelude::*;

verus! {

/// Where an operation is.
#[derive(Debug, Clone, Copy, PartialEq, Eq, Structural)]
pub enum CoZipProgressPhase {
    Idle,
    Scanning,
    Running,
    Finished,
}

impl Default for CoZipProgressPhase {
    fn default() -> (phase: Self)
        ensures
            phase == CoZipProgressPhase::Idle,
    {
        CoZipProgressPhase::Idle
    }
}

/// What is being done.
#[derive(Debug, Clone, Copy, PartialEq, Eq, Structural)]
pub enum CoZipProgressOperation {
    Compress,
    Decompress,
}

/// What it is done to.
#[derive(Debug, Clone, Copy, PartialEq, Eq, Structural)]
pub enum CoZipProgressTarget {
    File,
    Directory,
}

/// A copy of the progress at one moment. `started_at` is the tick at which the
/// operation started.
#[derive(Debug, Clone)]
pub struct CoZipProgressSnapshot {
    pub phase: CoZipProgressPhase,
    pub operation: Option<CoZipProgressOperation>,
    pub target: Option<CoZipProgressTarget>,
    pub total_entries: Option<usize>,
    pub completed_entries: usize,
    pub total_bytes: Option<u64>,
    pub processed_bytes: u64,
    pub current_entry: Option<String>,
    pub current_entry_total_bytes: Option<u64>,
    pub current_entry_processed_bytes: u64,
    pub pending_output_backlog_bytes: Option<u64>,
    pub started_at: Option<u64>,
}

/// The progress of an operation. Times are ticks of the caller's clock.
#[derive(Debug)]
pub struct CoZipProgress {
    pub phase: CoZipProgressPhase,
    pub operation: Option<CoZipProgressOperation>,
    pub target: Option<CoZipProgressTarget>,
    pub total_entries: Option<usize>,
    pub completed_entries: usize,
    pub total_bytes: Option<u64>,
    pub processed_bytes: u64,
    pub current_entry: Option<String>,
    pub current_entry_total_bytes: Option<u64>,
    pub current_entry_processed_bytes: u64,
    pub pending_output_backlog_bytes: Option<u64>,
    pub started_at: Option<u64>,
}

/// The sum, or the largest number where it does not fit.
pub open spec fn capped_sum(a: u64, b: u64) -> u64 {
    if a + b > u64::MAX {
        u64::MAX
    } else {
        (a + b) as u64
    }
}

/// The next number, or the largest where there is none.
pub open spec fn capped_next(n: usize) -> usize {
    if n == usize::MAX {
        usize::MAX
    } else {
        (n + 1) as usize
    }
}

/// The progress after some bytes went through.
pub open spec fn advanced(progress: CoZipProgress, bytes: u64) -> CoZipProgress {
    CoZipProgress {
        processed_bytes: capped_sum(progress.processed_bytes, bytes),
        current_entry_processed_bytes: capped_sum(progress.current_entry_processed_bytes, bytes),
        ..progress
    }
}

/// The progress after an entry is done.
pub open spec fn entry_finished(progress: CoZipProgress) -> CoZipProgress {
    CoZipProgress {
        completed_entries: capped_next(progress.completed_entries),
        current_entry: None,
        current_entry_total_bytes: None,
        current_entry_processed_bytes: 0,
        pending_output_backlog_bytes: None,
        ..progress
    }
}

/// The progress at the end: no entry is open, and known totals are reached.
pub open spec fn finished(progress: CoZipProgress) -> CoZipProgress {
    CoZipProgress {
        phase: CoZipProgressPhase::Finished,
        completed_entries: match progress.total_entries {
            Some(total) => total,
            None => progress.completed_entries,
        },
        processed_bytes: match progress.total_bytes {
            Some(total) => total,
            None => progress.processed_bytes,
        },
        current_entry: None,
        current_entry_total_bytes: None,
        current_entry_processed_bytes: 0,
        pending_output_backlog_bytes: None,
        ..progress
    }
}

/// The progress of an operation that has just started.
pub open spec fn started(
    now: u64,
    operation: CoZipProgressOperation,
    target: CoZipProgressTarget,
    total_entries: Option<usize>,
    total_bytes: Option<u64>,
) -> CoZipProgress {
    CoZipProgress {
        phase: CoZipProgressPhase::Running,
        operation: Some(operation),
        target: Some(target),
        total_entries,
        completed_entries: 0,
        total_bytes,
        processed_bytes: 0,
        current_entry: None,
        current_entry_total_bytes: None,
        current_entry_processed_bytes: 0,
        pending_output_backlog_bytes: None,
        started_at: Some(now),
    }
}

/// The progress while the input is being scanned. A start that was noted stays.
pub open spec fn scanning(
    progress: CoZipProgress,
    now: u64,
    operation: CoZipProgressOperation,
    target: CoZipProgressTarget,
) -> CoZipProgress {
    CoZipProgress {
        phase: CoZipProgressPhase::Scanning,
        operation: Some(operation),
        target: Some(target),
        started_at: match progress.started_at {
            Some(at) => Some(at),
            None => Some(now),
        },
        ..progress
    }
}

impl CoZipProgress {
    /// Nothing has happened yet.
    pub fn new() -> (progress: Self)
        ensures
            progress.phase == CoZipProgressPhase::Idle,
            progress.operation is None,
            progress.target is None,
            progress.total_entries is None,
            progress.completed_entries == 0,
            progress.total_bytes is None,
            progress.processed_bytes == 0,
            progress.current_entry is None,
            progress.current_entry_total_bytes is None,
            progress.current_entry_processed_bytes == 0,
            progress.pending_output_backlog_bytes is None,
            progress.started_at is None,
    {
        CoZipProgress {
            phase: CoZipProgressPhase::Idle,
            operation: None,
            target: None,
            total_entries: None,
            completed_entries: 0,
            total_bytes: None,
            processed_bytes: 0,
            current_entry: None,
            current_entry_total_bytes: None,
            current_entry_processed_bytes: 0,
            pending_output_backlog_bytes: None,
            started_at: None,
        }
    }

    /// Copies the progress.
    pub fn snapshot(&self) -> (copy: CoZipProgressSnapshot)
        ensures
            copy == (CoZipProgressSnapshot {
                phase: self.phase,
                operation: self.operation,
                target: self.target,
                total_entries: self.total_entries,
                completed_entries: self.completed_entries,
                total_bytes: self.total_bytes,
                processed_bytes: self.processed_bytes,
                current_entry: copy.current_entry,
                current_entry_total_bytes: self.current_entry_total_bytes,
                current_entry_processed_bytes: self.current_entry_processed_bytes,
                pending_output_backlog_bytes: self.pending_output_backlog_bytes,
                started_at: self.started_at,
            }),
            match self.current_entry {
                Some(name) => copy.current_entry matches Some(copied) && copied@ == name@,
                None => copy.current_entry is None,
            },
    {
        let current_entry: Option<String> = match &self.current_entry {
            Some(name) => Some(name.clone()),
            None => None,
        };
        CoZipProgressSnapshot {
            phase: self.phase,
            operation: self.operation,
            target: self.target,
            total_entries: self.total_entries,
            completed_entries: self.completed_entries,
            total_bytes: self.total_bytes,
            processed_bytes: self.processed_bytes,
            current_entry,
            current_entry_total_bytes: self.current_entry_total_bytes,
            current_entry_processed_bytes: self.current_entry_processed_bytes,
            pending_output_backlog_bytes: self.pending_output_backlog_bytes,
            started_at: self.started_at,
        }
    }

    /// Starts an operation. Whatever was noted before is dropped.
    pub fn start(
        &mut self,
        now: u64,
        operation: CoZipProgressOperation,
        target: CoZipProgressTarget,
        total_entries: Option<usize>,
        total_bytes: Option<u64>,
    )
        ensures
            *final(self) == started(now, operation, target, total_entries, total_bytes),
    {
        *self = CoZipProgress {
            phase: CoZipProgressPhase::Running,
            operation: Some(operation),
            target: Some(target),
            total_entries,
            completed_entries: 0,
            total_bytes,
            processed_bytes: 0,
            current_entry: None,
            current_entry_total_bytes: None,
            current_entry_processed_bytes: 0,
            pending_output_backlog_bytes: None,
            started_at: Some(now),
        };
    }

    /// Notes that the input is being scanned.
    pub fn set_scanning(
        &mut self,
        now: u64,
        operation: CoZipProgressOperation,
        target: CoZipProgressTarget,
    )
        ensures
            *final(self) == scanning(*old(self), now, operation, target),
    {
        if self.started_at.is_none() {
            self.started_at = Some(now);
        }
        self.phase = CoZipProgressPhase::Scanning;
        self.operation = Some(operation);
        self.target = Some(target);
    }

    /// Opens an entry.
    pub fn begin_entry(&mut self, entry_name: String, entry_total_bytes: Option<u64>)
        ensures
            *final(self) == (CoZipProgress {
                current_entry: Some(entry_name),
                current_entry_total_bytes: entry_total_bytes,
                current_entry_processed_bytes: 0,
                ..*old(self)
            }),
    {
        self.current_entry = Some(entry_name);
        self.current_entry_total_bytes = entry_total_bytes;
        self.current_entry_processed_bytes = 0;
    }

    /// Notes how many bytes wait to be written.
    pub fn set_pending_output_backlog_bytes(&mut self, bytes: Option<u64>)
        ensures
            *final(self) == (CoZipProgress { pending_output_backlog_bytes: bytes, ..*old(self) }),
    {
        self.pending_output_backlog_bytes = bytes;
    }

    /// Notes that bytes went through.
    pub fn advance_bytes(&mut self, bytes: u64)
        ensures
            *final(self) == advanced(*old(self), bytes),
    {
        self.processed_bytes = self.processed_bytes.saturating_add(bytes);
        self.current_entry_processed_bytes = self.current_entry_processed_bytes.saturating_add(
            bytes,
        );
    }

    /// Closes the entry.
    pub fn finish_entry(&mut self)
        ensures
            *final(self) == entry_finished(*old(self)),
    {
        self.completed_entries = self.completed_entries.saturating_add(1);
        self.current_entry = None;
        self.current_entry_total_bytes = None;
        self.current_entry_processed_bytes = 0;
        self.pending_output_backlog_bytes = None;
    }

    /// Ends the operation.
    pub fn finish(&mut self)
        ensures
            *final(self) == finished(*old(self)),
    {
        self.phase = CoZipProgressPhase::Finished;
        self.current_entry = None;
        self.current_entry_total_bytes = None;
        self.current_entry_processed_bytes = 0;
        self.pending_output_backlog_bytes = None;
        if let Some(total_entries) = self.total_entries {
            self.completed_entries = total_entries;
        }
        if let Some(total_bytes) = self.total_bytes {
            self.processed_bytes = total_bytes;
        }
    }
}

impl Default for CoZipProgress {
    fn default() -> (progress: Self)
        ensures
            progress.phase == CoZipProgressPhase::Idle,
            progress.operation is None,
            progress.target is None,
            progress.total_entries is None,
            progress.completed_entries == 0,
            progress.total_bytes is None,
            progress.processed_bytes == 0,
            progress.current_entry is None,
            progress.current_entry_total_bytes is None,
            progress.current_entry_processed_bytes == 0,
            progress.pending_output_backlog_bytes is None,
            progress.started_at is None,
    {
        CoZipProgress::new()
    }
}

/// It does not matter in how many pieces bytes go through.
pub proof fn law_advance_in_pieces(progress: CoZipProgress, a: u64, b: u64)
    ensures
        advanced(advanced(progress, a), b) == advanced(progress, capped_sum(a, b)),
{
}

/// Bytes that go through and entries that are done never take the counts back.
pub proof fn law_progress_grows(progress: CoZipProgress, bytes: u64)
    ensures
        advanced(progress, bytes).processed_bytes >= progress.processed_bytes,
        entry_finished(progress).processed_bytes == progress.processed_bytes,
        entry_finished(progress).completed_entries >= progress.completed_entries,
        advanced(progress, bytes).completed_entries == progress.completed_entries,
{
}

/// Ending twice is ending once, and an operation that ended has reached its totals.
pub proof fn law_finish_reaches_totals(progress: CoZipProgress)
    ensures
        finished(finished(progress)) == finished(progress),
        progress.total_entries matches Some(total) ==> finished(progress).completed_entries == total,
        progress.total_bytes matches Some(total) ==> finished(progress).processed_bytes == total,
{
}

/// An operation starts from nothing: no entry and no byte is done, none is open, and the
/// totals are those that were told.
pub proof fn law_start_counts_from_nothing(
    progress: &mut CoZipProgress,
    now: u64,
    operation: CoZipProgressOperation,
    target: CoZipProgressTarget,
    entries: Option<usize>,
    bytes: Option<u64>,
)
    requires
        call_ensures(
            CoZipProgress::start,
            (progress, now, operation, target, entries, bytes),
            (),
        ),
    ensures
        final(progress).phase == CoZipProgressPhase::Running,
        final(progress).operation == Some(operation),
        final(progress).target == Some(target),
        final(progress).total_entries == entries,
        final(progress).total_bytes == bytes,
        final(progress).completed_entries == 0,
        final(progress).processed_bytes == 0,
        final(progress).current_entry is None,
        final(progress).current_entry_total_bytes is None,
        final(progress).current_entry_processed_bytes == 0,
        final(progress).pending_output_backlog_bytes is None,
        final(progress).started_at == Some(now),
{
}

/// Bytes that go through count for the operation and for the open entry alike, each of
/// them once, as far as the numbers go, and change nothing else.
pub proof fn law_bytes_are_counted(progress: &mut CoZipProgress, bytes: u64)
    requires
        call_ensures(CoZipProgress::advance_bytes, (progress, bytes), ()),
    ensures
        final(progress).processed_bytes == if old(progress).processed_bytes + bytes < u64::MAX {
            old(progress).processed_bytes + bytes
        } else {
            u64::MAX as int
        },
        final(progress).current_entry_processed_bytes == if old(
            progress).current_entry_processed_bytes + bytes < u64::MAX {
            old(progress).current_entry_processed_bytes + bytes
        } else {
            u64::MAX as int
        },
        final(progress).phase == old(progress).phase,
        final(progress).completed_entries == old(progress).completed_entries,
        final(progress).total_entries == old(progress).total_entries,
        final(progress).total_bytes == old(progress).total_bytes,
        final(progress).current_entry == old(progress).current_entry,
        final(progress).current_entry_total_bytes == old(progress).current_entry_total_bytes,
        final(progress).started_at == old(progress).started_at,
{
}

/// An entry that is opened and closed again counts once; while it is open it is shown
/// with its size and none of its bytes, and once it is closed none is shown. The bytes
/// of the operation stay.
pub proof fn law_entries_are_counted(
    opened: &mut CoZipProgress,
    closed: &mut CoZipProgress,
    name: String,
    size: Option<u64>,
)
    requires
        call_ensures(CoZipProgress::begin_entry, (opened, name, size), ()),
        *old(closed) == *final(opened),
        call_ensures(CoZipProgress::finish_entry, (closed,), ()),
    ensures
        final(opened).current_entry == Some(name),
        final(opened).current_entry_total_bytes == size,
        final(opened).current_entry_processed_bytes == 0,
        final(opened).completed_entries == old(opened).completed_entries,
        final(opened).processed_bytes == old(opened).processed_bytes,
        old(opened).completed_entries < usize::MAX ==> final(closed).completed_entries == old(
            opened).completed_entries + 1,
        final(closed).current_entry is None,
        final(closed).current_entry_total_bytes is None,
        final(closed).current_entry_processed_bytes == 0,
        final(closed).pending_output_backlog_bytes is None,
        final(closed).processed_bytes == old(opened).processed_bytes,
        final(closed).total_entries == old(opened).total_entries,
        final(closed).total_bytes == old(opened).total_bytes,
        final(closed).phase == old(opened).phase,
{
}

/// The end of an operation shows it as finished, with its totals reached where they were
/// told and its counts as they are where not, and with no entry open.
pub proof fn law_end_shows_all_done(progress: &mut CoZipProgress)
    requires
        call_ensures(CoZipProgress::finish, (progress,), ()),
    ensures
        final(progress).phase == CoZipProgressPhase::Finished,
        old(progress).total_entries matches Some(total) ==> final(progress).completed_entries
            == total,
        old(progress).total_entries is None ==> final(progress).completed_entries == old(
            progress).completed_entries,
        old(progress).total_bytes matches Some(total) ==> final(progress).processed_bytes == total,
        old(progress).total_bytes is None ==> final(progress).processed_bytes == old(
            progress).processed_bytes,
        final(progress).current_entry is None,
        final(progress).current_entry_processed_bytes == 0,
        final(progress).pending_output_backlog_bytes is None,
        final(progress).operation == old(progress).operation,
        final(progress).started_at == old(progress).started_at,
{
}

/// While the input is scanned, the operation and its target are shown and nothing is
/// counted; the first moment that was noted stays the start.
pub proof fn law_scanning_counts_nothing(
    progress: &mut CoZipProgress,
    now: u64,
    operation: CoZipProgressOperation,
    target: CoZipProgressTarget,
)
    requires
        call_ensures(CoZipProgress::set_scanning, (progress, now, operation, target), ()),
    ensures
        final(progress).phase == CoZipProgressPhase::Scanning,
        final(progress).operation == Some(operation),
        final(progress).target == Some(target),
        old(progress).started_at is None ==> final(progress).started_at == Some(now),
        old(progress).started_at is Some ==> final(progress).started_at == old(progress).started_at,
        final(progress).completed_entries == old(progress).completed_entries,
        final(progress).processed_bytes == old(progress).processed_bytes,
        final(progress).total_entries == old(progress).total_entries,
        final(progress).total_bytes == old(progress).total_bytes,
{
}

/// A snapshot shows the progress as it is.
pub proof fn law_snapshot_shows_the_progress(progress: &CoZipProgress, copy: CoZipProgressSnapshot)
    requires
        call_ensures(CoZipProgress::snapshot, (progress,), copy),
    ensures
        copy.phase == progress.phase,
        copy.operation == progress.operation,
        copy.target == progress.target,
        copy.total_entries == progress.total_entries,
        copy.completed_entries == progress.completed_entries,
        copy.total_bytes == progress.total_bytes,
        copy.processed_bytes == progress.processed_bytes,
        copy.current_entry is Some <==> progress.current_entry is Some,
        progress.current_entry is Some ==> copy.current_entry->Some_0@
            == progress.current_entry->Some_0@,
        copy.current_entry_total_bytes == progress.current_entry_total_bytes,
        copy.current_entry_processed_bytes == progress.current_entry_processed_bytes,
        copy.pending_output_backlog_bytes == progress.pending_output_backlog_bytes,
        copy.started_at == progress.started_at,
{
}

/// The bytes that wait to be written are shown as they were set, and nothing else
/// changes.
pub proof fn law_backlog_is_shown(
    progress: &mut CoZipProgress,
    bytes: Option<u64>,
    before: CoZipProgressSnapshot,
    after: CoZipProgressSnapshot,
)
    requires
        call_ensures(CoZipProgress::snapshot, (&*old(progress),), before),
        call_ensures(CoZipProgress::set_pending_output_backlog_bytes, (progress, bytes), ()),
        call_ensures(CoZipProgress::snapshot, (&*final(progress),), after),
    ensures
        after.pending_output_backlog_bytes == bytes,
        after.phase == before.phase,
        after.completed_entries == before.completed_entries,
        after.total_entries == before.total_entries,
        after.processed_bytes == before.processed_bytes,
        after.total_bytes == before.total_bytes,
        after.current_entry_processed_bytes == before.current_entry_processed_bytes,
        after.current_entry_total_bytes == before.current_entry_total_bytes,
        after.started_at == before.started_at,
{
}

} // verus!
