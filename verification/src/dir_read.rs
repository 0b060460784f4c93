//! Producing the stream of a directory archive from the files of a directory.
//!
//! The reader plans which files are opened and which ranges of them are read
//! ahead; the caller does the reading and hands the bytes over. Whatever the
//! order in which files are read ahead, the stream that comes out is the one of
//! the entries in their order.

use vstd::prelude::*;
use vstd::utf8::{encode_utf8, encode_utf8_decode_utf8, encode_utf8_valid_utf8};

use crate::dir_encode::{
    can_encode, decoded_items, encode_pdeflate_archive_header,
    encode_pdeflate_archive_record_header, encoded_entries, encoded_entry, encoded_stream,
    law_stream_roundtrip, record_header, PDeflateArchiveEntryKind, PDeflateArchiveEntrySource,
    StreamEntry,
};
use crate::dir_prefetch::{
    range_total, submits, FileKey, PDeflatePrefetchedFile, ReadRange, ReaderAction,
    CURRENT_FILE_READ_LIMIT, MAX_INFLIGHT_OPS_PER_FILE, PDEFLATE_DIR_MAX_OPEN_FILES,
    PDEFLATE_DIR_PARALLEL_READ_BACKLOG_BYTES,
};
use crate::dir_stream::{
    count_bytes, count_files, goes_on, run, stream_end, stream_header, stream_start, ArchiveItem,
    StreamModel, StreamState, PDEFLATE_DIR_ARCHIVE_RECORD_END,
};
use crate::error::{CoZipError, IoFailure};
use crate::le::write_bytes;
use crate::paths::{name_parts, PathStyle};

verus! {

/// The number of bytes that files hold.
pub open spec fn total_held(files: Seq<PDeflatePrefetchedFile>) -> int
    decreases files.len(),
{
    if files.len() == 0 {
        0
    } else {
        total_held(files.drop_last()) + files.last().held()
    }
}

/// The ranges that are on their way, by file.
pub open spec fn table(files: Seq<PDeflatePrefetchedFile>) -> Map<FileKey, Seq<ReadRange>>
    decreases files.len(),
{
    if files.len() == 0 {
        Map::empty()
    } else {
        table(files.drop_last()).insert(files.last().key, files.last().inflight@)
    }
}

/// No file is there twice.
pub open spec fn unique_keys(files: Seq<PDeflatePrefetchedFile>) -> bool {
    forall|i: int, j: int|
        0 <= i < j < files.len() ==> (#[trigger] files[i]).key != (#[trigger] files[j]).key
}

/// What an action makes of the ranges that are on their way.
pub open spec fn replay(
    ranges: Map<FileKey, Seq<ReadRange>>,
    action: ReaderAction,
) -> Map<FileKey, Seq<ReadRange>> {
    match action {
        ReaderAction::Open { key } => ranges.insert(key, Seq::empty()),
        ReaderAction::Submit { key, range } => ranges.insert(key, ranges[key].push(range)),
        ReaderAction::Close { key } => ranges.remove(key),
        _ => ranges,
    }
}

/// What actions make of the ranges that are on their way.
pub open spec fn replay_all(
    ranges: Map<FileKey, Seq<ReadRange>>,
    actions: Seq<ReaderAction>,
) -> Map<FileKey, Seq<ReadRange>>
    decreases actions.len(),
{
    if actions.len() == 0 {
        ranges
    } else {
        replay(replay_all(ranges, actions.drop_last()), actions.last())
    }
}

/// How far a reader is, as those see it who watch: the entries whose bytes have
/// begun, whether the last of them is still open, and how many bytes of files
/// were put out.
pub struct ReadProgress {
    pub begun: Seq<usize>,
    pub open: bool,
    pub bytes: int,
}

/// What an action makes of the progress, where it is in order: one entry is open
/// at a time, and bytes go to the open one.
pub open spec fn note(progress: ReadProgress, action: ReaderAction) -> Option<ReadProgress> {
    match action {
        ReaderAction::BeginEntry { entry_index } => if progress.open {
            None
        } else {
            Some(
                ReadProgress { begun: progress.begun.push(entry_index), open: true, ..progress },
            )
        },
        ReaderAction::Advance { bytes } => if progress.open {
            Some(ReadProgress { bytes: progress.bytes + bytes, ..progress })
        } else {
            None
        },
        ReaderAction::FinishEntry => if progress.open {
            Some(ReadProgress { open: false, ..progress })
        } else {
            None
        },
        _ => Some(progress),
    }
}

/// What actions make of the progress, where all are in order.
pub open spec fn note_all(progress: ReadProgress, actions: Seq<ReaderAction>) -> Option<
    ReadProgress,
>
    decreases actions.len(),
{
    if actions.len() == 0 {
        Some(progress)
    } else {
        match note_all(progress, actions.drop_last()) {
            None => None,
            Some(progress) => note(progress, actions.last()),
        }
    }
}

/// The action opens, reads or closes a file.
pub open spec fn handles_file(action: ReaderAction) -> bool {
    action is Open || action is Submit || action is Close
}

/// The actions only open, read and close files.
pub open spec fn quiet(actions: Seq<ReaderAction>) -> bool {
    forall|i: int| 0 <= i < actions.len() ==> handles_file(#[trigger] actions[i])
}

/// Actions that only open, read and close files leave the progress as it is.
proof fn lemma_quiet_notes(progress: ReadProgress, actions: Seq<ReaderAction>)
    requires
        quiet(actions),
    ensures
        note_all(progress, actions) == Some(progress),
    decreases actions.len(),
{
    if actions.len() > 0 {
        assert(handles_file(actions[actions.len() - 1]));
        assert forall|i: int| 0 <= i < actions.len() - 1 implies handles_file(
            #[trigger] actions.drop_last()[i],
        ) by {
            assert(handles_file(actions[i]));
        }
        lemma_quiet_notes(progress, actions.drop_last());
    }
}

/// Actions behind actions.
proof fn lemma_note_concat(progress: ReadProgress, a: Seq<ReaderAction>, b: Seq<ReaderAction>)
    ensures
        note_all(progress, a + b) == (match note_all(progress, a) {
            None => None,
            Some(progress) => note_all(progress, b),
        }),
    decreases b.len(),
{
    if b.len() == 0 {
        assert(a + b =~= a);
    } else {
        lemma_note_concat(progress, a, b.drop_last());
        assert((a + b).drop_last() =~= a + b.drop_last());
    }
}

/// An action with only reads of files behind it.
proof fn lemma_note_then_quiet(
    progress: ReadProgress,
    first: Seq<ReaderAction>,
    second: Seq<ReaderAction>,
    n: int,
)
    requires
        0 <= n <= first.len() <= second.len(),
        second.take(first.len() as int) == first,
        quiet(second.skip(first.len() as int)),
    ensures
        note_all(progress, second.skip(n)) == note_all(progress, first.skip(n)),
{
    let tail = second.skip(first.len() as int);
    assert forall|i: int| 0 <= i < first.len() implies first[i] == second[i] by {
        assert(second.take(first.len() as int)[i] == first[i]);
    }
    assert(first.skip(n) + tail =~= second.skip(n));
    lemma_note_concat(progress, first.skip(n), tail);
    if let Some(noted) = note_all(progress, first.skip(n)) {
        lemma_quiet_notes(noted, tail);
    }
}

/// The first file of an entry.
pub open spec fn is_first(files: Seq<PDeflatePrefetchedFile>, entry_index: usize, p: int) -> bool {
    &&& 0 <= p < files.len()
    &&& files[p].key.entry_index == entry_index
    &&& forall|j: int| 0 <= j < p ==> (#[trigger] files[j]).key.entry_index != entry_index
}

proof fn lemma_first_is_one(
    files: Seq<PDeflatePrefetchedFile>,
    entry_index: usize,
    p: int,
    q: int,
)
    requires
        is_first(files, entry_index, p),
        is_first(files, entry_index, q),
    ensures
        p == q,
{
    if p < q {
        assert(files[p].key.entry_index != entry_index);
    }
    if q < p {
        assert(files[q].key.entry_index != entry_index);
    }
}

proof fn lemma_total_update(files: Seq<PDeflatePrefetchedFile>, i: int, file: PDeflatePrefetchedFile)
    requires
        0 <= i < files.len(),
    ensures
        total_held(files.update(i, file)) == total_held(files) - files[i].held() + file.held(),
    decreases files.len(),
{
    let after = files.update(i, file);
    if i == files.len() - 1 {
        assert(after.drop_last() =~= files.drop_last());
    } else {
        lemma_total_update(files.drop_last(), i, file);
        assert(after.drop_last() =~= files.drop_last().update(i, file));
    }
}

proof fn lemma_total_insert(files: Seq<PDeflatePrefetchedFile>, file: PDeflatePrefetchedFile)
    ensures
        total_held(files.insert(0, file)) == total_held(files) + file.held(),
    decreases files.len(),
{
    let after = files.insert(0, file);
    if files.len() == 0 {
        assert(after.drop_last() =~= files);
        reveal_with_fuel(total_held, 2);
    } else {
        lemma_total_insert(files.drop_last(), file);
        assert(after.drop_last() =~= files.drop_last().insert(0, file));
    }
}

proof fn lemma_total_remove(files: Seq<PDeflatePrefetchedFile>, i: int)
    requires
        0 <= i < files.len(),
    ensures
        total_held(files.remove(i)) == total_held(files) - files[i].held(),
    decreases files.len(),
{
    let after = files.remove(i);
    if i == files.len() - 1 {
        assert(after =~= files.drop_last());
    } else {
        lemma_total_remove(files.drop_last(), i);
        assert(after.drop_last() =~= files.drop_last().remove(i));
    }
}

proof fn lemma_total_bound(files: Seq<PDeflatePrefetchedFile>, p: int)
    requires
        forall|i: int| 0 <= i < files.len() ==> (#[trigger] files[i]).held() >= 0,
        0 <= p < files.len(),
    ensures
        0 <= files[p].held() <= total_held(files),
    decreases files.len(),
{
    let front = files.drop_last();
    assert forall|i: int| 0 <= i < front.len() implies (#[trigger] front[i]).held() >= 0 by {
        assert(files[i].held() >= 0);
    }
    assert(files[files.len() - 1].held() >= 0);
    assert(files[p].held() >= 0);
    if p < files.len() - 1 {
        lemma_total_bound(front, p);
        assert(front[p] == files[p]);
    } else if front.len() > 0 {
        lemma_total_bound(front, 0);
    } else {
        assert(total_held(front) == 0);
    }
}

proof fn lemma_table_dom(files: Seq<PDeflatePrefetchedFile>, key: FileKey)
    ensures
        table(files).contains_key(key) <==> exists|i: int|
            0 <= i < files.len() && (#[trigger] files[i]).key == key,
    decreases files.len(),
{
    if files.len() > 0 {
        let front = files.drop_last();
        lemma_table_dom(front, key);
        if table(files).contains_key(key) {
            if files.last().key == key {
                assert(files[files.len() - 1].key == key);
            } else {
                let i = choose|i: int| 0 <= i < front.len() && (#[trigger] front[i]).key == key;
                assert(files[i].key == key);
            }
        }
        if exists|i: int| 0 <= i < files.len() && (#[trigger] files[i]).key == key {
            let i = choose|i: int| 0 <= i < files.len() && (#[trigger] files[i]).key == key;
            if i < front.len() {
                assert(front[i].key == key);
            }
        }
    }
}

proof fn lemma_unique_front(files: Seq<PDeflatePrefetchedFile>)
    requires
        unique_keys(files),
        files.len() > 0,
    ensures
        unique_keys(files.drop_last()),
{
    let front = files.drop_last();
    assert forall|i: int, j: int| 0 <= i < j < front.len() implies (#[trigger] front[i]).key != (
    #[trigger] front[j]).key by {
        assert(files[i].key != files[j].key);
    }
}

proof fn lemma_table_update(files: Seq<PDeflatePrefetchedFile>, i: int, file: PDeflatePrefetchedFile)
    requires
        0 <= i < files.len(),
        unique_keys(files),
        file.key == files[i].key,
    ensures
        table(files.update(i, file)) == table(files).insert(file.key, file.inflight@),
        table(files).contains_key(file.key),
        table(files)[file.key] == files[i].inflight@,
    decreases files.len(),
{
    let after = files.update(i, file);
    let front = files.drop_last();
    lemma_unique_front(files);
    if i == files.len() - 1 {
        assert(after.drop_last() =~= front);
        assert(table(after) =~= table(files).insert(file.key, file.inflight@));
    } else {
        lemma_table_update(front, i, file);
        assert(after.drop_last() =~= front.update(i, file));
        assert(files[i].key != files[files.len() - 1].key);
        assert(table(after) =~= table(files).insert(file.key, file.inflight@));
    }
}

proof fn lemma_table_insert(files: Seq<PDeflatePrefetchedFile>, file: PDeflatePrefetchedFile)
    requires
        forall|i: int| 0 <= i < files.len() ==> (#[trigger] files[i]).key != file.key,
    ensures
        table(files.insert(0, file)) == table(files).insert(file.key, file.inflight@),
    decreases files.len(),
{
    let after = files.insert(0, file);
    if files.len() == 0 {
        assert(after.drop_last() =~= files);
        reveal_with_fuel(table, 2);
    } else {
        let front = files.drop_last();
        assert forall|i: int| 0 <= i < front.len() implies (#[trigger] front[i]).key != file.key by {
            assert(files[i].key != file.key);
        }
        lemma_table_insert(front, file);
        assert(after.drop_last() =~= front.insert(0, file));
        assert(files[files.len() - 1].key != file.key);
        assert(table(after) =~= table(files).insert(file.key, file.inflight@));
    }
}

proof fn lemma_table_remove(files: Seq<PDeflatePrefetchedFile>, i: int)
    requires
        0 <= i < files.len(),
        unique_keys(files),
    ensures
        table(files.remove(i)) == table(files).remove(files[i].key),
    decreases files.len(),
{
    let after = files.remove(i);
    let front = files.drop_last();
    lemma_unique_front(files);
    if i == files.len() - 1 {
        assert(after =~= front);
        lemma_table_dom(front, files[i].key);
        assert(!table(front).contains_key(files[i].key)) by {
            if table(front).contains_key(files[i].key) {
                let j = choose|j: int|
                    0 <= j < front.len() && (#[trigger] front[j]).key == files[i].key;
                assert(files[j].key != files[i].key);
            }
        }
        assert(table(after) =~= table(files).remove(files[i].key));
    } else {
        lemma_table_remove(front, i);
        assert(after.drop_last() =~= front.remove(i));
        assert(files[i].key != files[files.len() - 1].key);
        assert(table(after) =~= table(files).remove(files[i].key));
    }
}

/// Actions behind actions.
proof fn lemma_replay_concat(
    ranges: Map<FileKey, Seq<ReadRange>>,
    a: Seq<ReaderAction>,
    b: Seq<ReaderAction>,
)
    ensures
        replay_all(ranges, a + b) == replay_all(replay_all(ranges, a), b),
    decreases b.len(),
{
    if b.len() == 0 {
        assert(a + b =~= a);
    } else {
        lemma_replay_concat(ranges, a, b.drop_last());
        assert((a + b).drop_last() =~= a + b.drop_last());
    }
}

/// Asking for ranges of a file adds them to those on their way.
proof fn lemma_replay_submits(
    ranges: Map<FileKey, Seq<ReadRange>>,
    key: FileKey,
    more: Seq<ReadRange>,
)
    requires
        ranges.contains_key(key),
    ensures
        replay_all(ranges, submits(key, more)) == ranges.insert(key, ranges[key] + more),
    decreases more.len(),
{
    let actions = submits(key, more);
    if more.len() == 0 {
        assert(ranges[key] + more =~= ranges[key]);
        assert(ranges.insert(key, ranges[key]) =~= ranges);
    } else {
        let front = more.drop_last();
        lemma_replay_submits(ranges, key, front);
        assert(actions.drop_last() =~= submits(key, front));
        assert((ranges[key] + front).push(more.last()) =~= ranges[key] + more);
        assert(replay_all(ranges, actions) =~= ranges.insert(key, ranges[key] + more));
    }
}

/// Produces the stream of a directory archive.
#[derive(Debug)]
pub struct PDeflateArchiveReader {
    pub entries: Vec<PDeflateArchiveEntrySource>,
    pub current_index: usize,
    pub pending: Vec<u8>,
    pub pending_pos: usize,
    pub current_file: Option<usize>,
    pub files: Vec<PDeflatePrefetchedFile>,
    pub prefetch_index: usize,
    pub prefetched_bytes: usize,
}

/// The file belongs to a file entry, and is one that was opened by now.
pub open spec fn file_fits(
    file: PDeflatePrefetchedFile,
    entries: Seq<PDeflateArchiveEntrySource>,
    current_index: usize,
    prefetch_index: usize,
) -> bool {
    &&& file.wf()
    &&& file.key.entry_index < entries.len()
    &&& entries[file.key.entry_index as int].kind == PDeflateArchiveEntryKind::File
    &&& file.file_len == entries[file.key.entry_index as int].file_len
    &&& if file.key.ahead {
        file.key.entry_index < prefetch_index
    } else {
        file.key.entry_index < current_index
    }
}

/// Nothing of the file has come.
pub open spec fn untouched(file: PDeflatePrefetchedFile) -> bool {
    file.current_chunk@.len() == 0 && file.current_chunk_pos == 0 && file.received() == 0
}

/// The file is the same, except that more of it may have been asked for.
pub open spec fn same_file(before: PDeflatePrefetchedFile, after: PDeflatePrefetchedFile) -> bool {
    &&& after.key == before.key
    &&& after.file_len == before.file_len
    &&& after.current_chunk@ == before.current_chunk@
    &&& after.current_chunk_pos == before.current_chunk_pos
    &&& after.received() == before.received()
}

/// The files are the same, with untouched ones behind them.
pub open spec fn files_extend(
    before: Seq<PDeflatePrefetchedFile>,
    after: Seq<PDeflatePrefetchedFile>,
) -> bool {
    &&& before.len() <= after.len()
    &&& forall|i: int| 0 <= i < before.len() ==> same_file(before[i], #[trigger] after[i])
    &&& forall|i: int| before.len() <= i < after.len() ==> untouched(#[trigger] after[i])
}

proof fn lemma_extend_transitive(
    a: Seq<PDeflatePrefetchedFile>,
    b: Seq<PDeflatePrefetchedFile>,
    c: Seq<PDeflatePrefetchedFile>,
)
    requires
        files_extend(a, b),
        files_extend(b, c),
    ensures
        files_extend(a, c),
{
    assert forall|i: int| 0 <= i < a.len() implies same_file(a[i], #[trigger] c[i]) by {
        assert(same_file(a[i], b[i]));
    }
    assert forall|i: int| a.len() <= i < c.len() implies untouched(#[trigger] c[i]) by {
        if i < b.len() {
            assert(untouched(b[i]));
        }
    }
}

/// The file at `p` is the one of the entry whose turn it is, and the bytes that are
/// held stay within bounds: those of the others within the backlog, and all within
/// the limit of a turn.
pub open spec fn turn_at(files: Seq<PDeflatePrefetchedFile>, entry_index: usize, p: int) -> bool {
    &&& is_first(files, entry_index, p)
    &&& total_held(files) - files[p].held() <= PDEFLATE_DIR_PARALLEL_READ_BACKLOG_BYTES
    &&& total_held(files) <= CURRENT_FILE_READ_LIMIT
}

/// The bytes that are held stay within bounds in the turn of an entry.
pub open spec fn turn_within_bounds(
    files: Seq<PDeflatePrefetchedFile>,
    entry_index: usize,
) -> bool {
    exists|p: int| #[trigger] turn_at(files, entry_index, p)
}

/// Where the file of the entry whose turn it is stands.
proof fn lemma_turn_place(files: Seq<PDeflatePrefetchedFile>, entry_index: usize) -> (p: int)
    requires
        turn_within_bounds(files, entry_index),
    ensures
        turn_at(files, entry_index, p),
        files[p].key.entry_index == entry_index,
{
    choose|p: int| #[trigger] turn_at(files, entry_index, p)
}

/// The bytes that are held stay within bounds: the files whose turn has not come
/// hold no more than the backlog, and the file whose turn it is may hold the
/// reserve on top of it.
pub open spec fn within_bounds(
    files: Seq<PDeflatePrefetchedFile>,
    current: Option<usize>,
) -> bool {
    match current {
        None => total_held(files) <= PDEFLATE_DIR_PARALLEL_READ_BACKLOG_BYTES,
        Some(entry_index) => turn_within_bounds(files, entry_index),
    }
}

/// Only the file whose turn it is has been touched.
pub open spec fn others_untouched(
    files: Seq<PDeflatePrefetchedFile>,
    current: Option<usize>,
) -> bool {
    forall|i: int|
        0 <= i < files.len() && !(current matches Some(entry_index) && is_first(
            files,
            entry_index,
            i,
        )) ==> untouched(#[trigger] files[i])
}

impl PDeflateArchiveReader {
    /// The counters lie in range, every file fits its entry and is there once,
    /// and the bytes that are held are counted.
    pub open spec fn base_wf(self) -> bool {
        &&& self.entries@.len() < usize::MAX
        &&& self.current_index <= self.entries@.len() + 1
        &&& self.pending_pos <= self.pending@.len()
        &&& self.prefetch_index <= self.entries@.len()
        &&& forall|i: int|
            0 <= i < self.files@.len() ==> file_fits(
                #[trigger] self.files@[i],
                self.entries@,
                self.current_index,
                self.prefetch_index,
            )
        &&& unique_keys(self.files@)
        &&& self.prefetched_bytes == total_held(self.files@)
    }

    /// No more files are open than may be: those that were opened ahead, and the one
    /// whose turn it is on top of them.
    pub open spec fn few_open(self) -> bool {
        self.files@.len() <= PDEFLATE_DIR_MAX_OPEN_FILES + if self.current_file is Some {
            1int
        } else {
            0int
        }
    }

    /// Files are read ahead as far as may be: the backlog is full, every entry was
    /// opened, or no more files may be.
    pub open spec fn reads_ahead(self) -> bool {
        ||| self.prefetched_bytes >= PDEFLATE_DIR_PARALLEL_READ_BACKLOG_BYTES
        ||| self.prefetch_index >= self.entries@.len()
        ||| self.files@.len() >= PDEFLATE_DIR_MAX_OPEN_FILES
    }

    /// In the turn of a file the others are read ahead as far as may be.
    pub open spec fn turn_reads_ahead(self) -> bool {
        self.current_file is Some ==> self.reads_ahead()
    }

    /// The reader is in order, and the file whose turn it is has bytes there or
    /// on their way until all of it was asked for.
    pub open spec fn wf(self) -> bool {
        &&& self.base_wf()
        &&& self.few_open()
        &&& within_bounds(self.files@, self.current_file)
        &&& others_untouched(self.files@, self.current_file)
        &&& self.current_file matches Some(entry_index) ==> {
            &&& self.current_index == entry_index + 1
            &&& self.current_index <= self.entries@.len()
            &&& forall|p: int| #[trigger]
                is_first(self.files@, entry_index, p) ==> self.files@[p].moves()
        }
    }

    /// The first file of an entry.
    fn find_prefetched_file_pos(&self, entry_index: usize) -> (found: Option<usize>)
        ensures
            match found {
                Some(p) => is_first(self.files@, entry_index, p as int),
                None => forall|i: int|
                    0 <= i < self.files@.len() ==> (#[trigger] self.files@[i]).key.entry_index
                        != entry_index,
            },
    {
        let mut i: usize = 0;
        while i < self.files.len()
            invariant
                i <= self.files@.len(),
                forall|j: int|
                    0 <= j < i ==> (#[trigger] self.files@[j]).key.entry_index != entry_index,
            decreases self.files@.len() - i,
        {
            if self.files[i].key.entry_index == entry_index {
                return Some(i);
            }
            i = i + 1;
        }
        None
    }

    /// Asks for ranges of one file, up to a limit on the bytes that all files hold.
    fn fill_prefetch_queue(
        &mut self,
        file_pos: usize,
        limit: usize,
        actions: &mut Vec<ReaderAction>,
    )
        requires
            old(self).base_wf(),
            file_pos < old(self).files@.len(),
        ensures
            final(self).base_wf(),
            final(self).entries == old(self).entries,
            final(self).current_index == old(self).current_index,
            final(self).pending == old(self).pending,
            final(self).pending_pos == old(self).pending_pos,
            final(self).current_file == old(self).current_file,
            final(self).prefetch_index == old(self).prefetch_index,
            final(self).files@.len() == old(self).files@.len(),
            same_file(old(self).files@[file_pos as int], final(self).files@[file_pos as int]),
            final(self).files@ == old(self).files@.update(
                file_pos as int,
                final(self).files@[file_pos as int],
            ),
            final(self).prefetched_bytes >= old(self).prefetched_bytes,
            final(self).prefetched_bytes > old(self).prefetched_bytes
                ==> final(self).prefetched_bytes <= limit,
            final(self).prefetched_bytes - old(self).prefetched_bytes
                == final(self).files@[file_pos as int].held()
                - old(self).files@[file_pos as int].held(),
            ({
                let file = final(self).files@[file_pos as int];
                file.inflight@.len() >= MAX_INFLIGHT_OPS_PER_FILE || file.next_submit_offset
                    >= file.file_len || final(self).prefetched_bytes >= limit
            }),
            final(actions)@.len() >= old(actions)@.len(),
            final(actions)@.take(old(actions)@.len() as int) == old(actions)@,
            table(final(self).files@) == replay_all(
                table(old(self).files@),
                final(actions)@.skip(old(actions)@.len() as int),
            ),
            quiet(final(actions)@.skip(old(actions)@.len() as int)),
    {
        let ghost before = self.files@;
        let held: usize = self.prefetched_bytes;
        let total = self.files[file_pos].submit_ahead(held, limit, actions);
        self.prefetched_bytes = total;
        proof {
            let p = file_pos as int;
            let after = self.files@;
            assert(after =~= before.update(p, after[p]));
            lemma_total_update(before, p, after[p]);
            lemma_table_update(before, p, after[p]);
            let more = choose|more: Seq<ReadRange>|
                {
                    &&& after[p].inflight@ == before[p].inflight@ + more
                    &&& #[trigger] submits(before[p].key, more) == actions@.skip(
                        old(actions)@.len() as int,
                    )
                };
            lemma_replay_submits(table(before), before[p].key, more);
            assert forall|i: int| 0 <= i < after.len() implies file_fits(
                #[trigger] after[i],
                self.entries@,
                self.current_index,
                self.prefetch_index,
            ) by {
                assert(file_fits(
                    before[i],
                    self.entries@,
                    self.current_index,
                    self.prefetch_index,
                ));
            }
            assert forall|i: int, j: int| 0 <= i < j < after.len() implies (
            #[trigger] after[i]).key != (#[trigger] after[j]).key by {
                assert(before[i].key != before[j].key);
            }
        }
    }
}

/// The file at `i` is the one whose turn it is.
pub open spec fn is_current(
    files: Seq<PDeflatePrefetchedFile>,
    current: Option<usize>,
    i: int,
) -> bool {
    current matches Some(entry_index) && is_first(files, entry_index, i)
}

/// Where files only were asked for more, the same ones come first.
proof fn lemma_first_same(
    before: Seq<PDeflatePrefetchedFile>,
    after: Seq<PDeflatePrefetchedFile>,
    entry_index: usize,
    p: int,
)
    requires
        files_extend(before, after),
        0 <= p < before.len(),
    ensures
        is_first(before, entry_index, p) <==> is_first(after, entry_index, p),
{
    assert(same_file(before[p], after[p]));
    if is_first(before, entry_index, p) {
        assert forall|j: int| 0 <= j < p implies (#[trigger] after[j]).key.entry_index
            != entry_index by {
            assert(same_file(before[j], after[j]));
        }
    }
    if is_first(after, entry_index, p) {
        assert forall|j: int| 0 <= j < p implies (#[trigger] before[j]).key.entry_index
            != entry_index by {
            assert(same_file(before[j], after[j]));
        }
    }
}

/// Only the file whose turn it is stays touched where files only were asked for
/// more, or were opened behind the others.
proof fn lemma_extend_untouched(
    before: Seq<PDeflatePrefetchedFile>,
    after: Seq<PDeflatePrefetchedFile>,
    current: Option<usize>,
)
    requires
        files_extend(before, after),
        others_untouched(before, current),
        current matches Some(entry_index) ==> exists|p: int| is_first(before, entry_index, p),
    ensures
        others_untouched(after, current),
{
    assert forall|i: int|
        0 <= i < after.len() && !(current matches Some(entry_index) && is_first(
            after,
            entry_index,
            i,
        )) implies untouched(#[trigger] after[i]) by {
        if i < before.len() {
            assert(same_file(before[i], after[i]));
            if let Some(entry_index) = current {
                lemma_first_same(before, after, entry_index, i);
            }
            assert(untouched(before[i]));
        }
    }
}

/// A file whose turn has not come and that is asked for more leaves the bounds kept.
proof fn lemma_bounds_other(
    before: Seq<PDeflatePrefetchedFile>,
    after: Seq<PDeflatePrefetchedFile>,
    current: Option<usize>,
    pos: int,
)
    requires
        0 <= pos < before.len(),
        after == before.update(pos, after[pos]),
        same_file(before[pos], after[pos]),
        within_bounds(before, current),
        !is_current(before, current, pos),
        forall|i: int| 0 <= i < after.len() ==> (#[trigger] after[i]).wf(),
        total_held(after) >= total_held(before),
        total_held(after) > total_held(before) ==> total_held(after)
            <= PDEFLATE_DIR_PARALLEL_READ_BACKLOG_BYTES,
    ensures
        within_bounds(after, current),
{
    assert(files_extend(before, after));
    if let Some(entry_index) = current {
        let p = lemma_turn_place(before, entry_index);
        lemma_first_same(before, after, entry_index, p);
        assert(p != pos);
        assert(after[p] == before[p]);
        assert forall|i: int| 0 <= i < after.len() implies (#[trigger] after[i]).held() >= 0 by {
            assert(after[i].wf());
        }
        lemma_total_bound(after, p);
        assert(turn_at(after, entry_index, p));
    }
}

/// The file whose turn it is may be asked for more, up to the higher limit.
proof fn lemma_bounds_current(
    before: Seq<PDeflatePrefetchedFile>,
    after: Seq<PDeflatePrefetchedFile>,
    entry_index: usize,
    pos: int,
)
    requires
        0 <= pos < before.len(),
        after == before.update(pos, after[pos]),
        same_file(before[pos], after[pos]),
        within_bounds(before, Some(entry_index)),
        is_first(before, entry_index, pos),
        total_held(after) - after[pos].held() == total_held(before) - before[pos].held(),
        total_held(after) >= total_held(before),
        total_held(after) > total_held(before) ==> total_held(after) <= CURRENT_FILE_READ_LIMIT,
    ensures
        within_bounds(after, Some(entry_index)),
        is_first(after, entry_index, pos),
{
    assert(files_extend(before, after));
    let p = lemma_turn_place(before, entry_index);
    lemma_first_is_one(before, entry_index, p, pos);
    lemma_first_same(before, after, entry_index, pos);
    assert(turn_at(after, entry_index, pos));
}

/// A file that is opened behind the others holds nothing.
proof fn lemma_bounds_push(
    before: Seq<PDeflatePrefetchedFile>,
    file: PDeflatePrefetchedFile,
    current: Option<usize>,
)
    requires
        within_bounds(before, current),
        file.held() == 0,
        untouched(file),
    ensures
        files_extend(before, before.push(file)),
        total_held(before.push(file)) == total_held(before),
        within_bounds(before.push(file), current),
{
    let after = before.push(file);
    assert(after.drop_last() =~= before);
    assert(files_extend(before, after));
    if let Some(entry_index) = current {
        let p = lemma_turn_place(before, entry_index);
        lemma_first_same(before, after, entry_index, p);
        assert(after[p] == before[p]);
        assert(turn_at(after, entry_index, p));
    }
}

impl PDeflateArchiveReader {
    /// The reader is in order, but more may have to be asked for.
    pub open spec fn nearly_wf(self) -> bool {
        &&& self.base_wf()
        &&& self.few_open()
        &&& within_bounds(self.files@, self.current_file)
        &&& others_untouched(self.files@, self.current_file)
        &&& self.current_file matches Some(entry_index) ==> {
            &&& self.current_index == entry_index + 1
            &&& self.current_index <= self.entries@.len()
        }
    }

    /// The parts of the reader that reading ahead leaves alone.
    pub open spec fn same_place(self, other: Self) -> bool {
        &&& self.entries == other.entries
        &&& self.current_index == other.current_index
        &&& self.pending == other.pending
        &&& self.pending_pos == other.pending_pos
        &&& self.current_file == other.current_file
    }

}

/// What opening a file ahead of its turn leaves in order.
proof fn lemma_opened(
    before: Seq<PDeflatePrefetchedFile>,
    file: PDeflatePrefetchedFile,
    entries: Seq<PDeflateArchiveEntrySource>,
    current_index: usize,
    prefetch_index: usize,
    current: Option<usize>,
)
    requires
        forall|i: int|
            0 <= i < before.len() ==> file_fits(
                #[trigger] before[i],
                entries,
                current_index,
                prefetch_index,
            ),
        unique_keys(before),
        within_bounds(before, current),
        others_untouched(before, current),
        prefetch_index < entries.len() < usize::MAX,
        entries[prefetch_index as int].kind == PDeflateArchiveEntryKind::File,
        file.key == (FileKey { entry_index: prefetch_index, ahead: true }),
        file.file_len == entries[prefetch_index as int].file_len,
        file.wf(),
        file.inflight@.len() == 0,
        file.held() == 0,
        untouched(file),
    ensures
        ({
            let opened = before.push(file);
            &&& forall|i: int|
                0 <= i < opened.len() ==> file_fits(
                    #[trigger] opened[i],
                    entries,
                    current_index,
                    (prefetch_index + 1) as usize,
                )
            &&& unique_keys(opened)
            &&& within_bounds(opened, current)
            &&& others_untouched(opened, current)
            &&& files_extend(before, opened)
            &&& total_held(opened) == total_held(before)
            &&& table(opened) == table(before).insert(file.key, Seq::empty())
            &&& !is_current(opened, current, before.len() as int)
        }),
{
    let opened = before.push(file);
    lemma_bounds_push(before, file, current);
    assert(opened.drop_last() =~= before);
    assert(file.inflight@ =~= Seq::<ReadRange>::empty());
    assert forall|i: int, j: int| 0 <= i < j < opened.len() implies (#[trigger] opened[i]).key != (
    #[trigger] opened[j]).key by {
        assert(file_fits(before[i], entries, current_index, prefetch_index));
        if j < before.len() {
            assert(before[i].key != before[j].key);
        }
    }
    assert forall|i: int| 0 <= i < opened.len() implies file_fits(
        #[trigger] opened[i],
        entries,
        current_index,
        (prefetch_index + 1) as usize,
    ) by {
        if i < before.len() {
            assert(file_fits(before[i], entries, current_index, prefetch_index));
        }
    }
    lemma_extend_untouched(before, opened, current);
    if let Some(entry_index) = current {
        let p = lemma_turn_place(before, entry_index);
        assert(opened[p].key.entry_index == entry_index);
    }
}

/// What asking for more of a file whose turn has not come leaves in order.
proof fn lemma_filled_other(
    before: Seq<PDeflatePrefetchedFile>,
    after: Seq<PDeflatePrefetchedFile>,
    current: Option<usize>,
    pos: int,
)
    requires
        0 <= pos < before.len(),
        after == before.update(pos, after[pos]),
        same_file(before[pos], after[pos]),
        within_bounds(before, current),
        others_untouched(before, current),
        !is_current(before, current, pos),
        forall|i: int| 0 <= i < after.len() ==> (#[trigger] after[i]).wf(),
        total_held(after) >= total_held(before),
        total_held(after) > total_held(before) ==> total_held(after)
            <= PDEFLATE_DIR_PARALLEL_READ_BACKLOG_BYTES,
    ensures
        within_bounds(after, current),
        others_untouched(after, current),
        files_extend(before, after),
{
    lemma_bounds_other(before, after, current, pos);
    assert(files_extend(before, after));
    if let Some(entry_index) = current {
        assert(exists|p: int| is_first(before, entry_index, p));
    }
    lemma_extend_untouched(before, after, current);
}

/// Two stretches of actions, one behind the other.
proof fn lemma_replay_since(
    ranges: Map<FileKey, Seq<ReadRange>>,
    first: Seq<ReaderAction>,
    second: Seq<ReaderAction>,
    n: int,
)
    requires
        0 <= n <= first.len() <= second.len(),
        second.take(first.len() as int) == first,
    ensures
        replay_all(ranges, second.skip(n)) == replay_all(
            replay_all(ranges, first.skip(n)),
            second.skip(first.len() as int),
        ),
        second.take(n) == first.take(n),
        quiet(first.skip(n)) && quiet(second.skip(first.len() as int)) ==> quiet(second.skip(n)),
{
    lemma_replay_concat(ranges, first.skip(n), second.skip(first.len() as int));
    assert(first.skip(n) + second.skip(first.len() as int) =~= second.skip(n)) by {
        assert forall|i: int| 0 <= i < first.len() implies first[i] == second[i] by {
            assert(second.take(first.len() as int)[i] == first[i]);
        }
    }
    assert(second.take(n) =~= first.take(n)) by {
        assert forall|i: int| 0 <= i < n implies first[i] == second[i] by {
            assert(second.take(first.len() as int)[i] == first[i]);
        }
    }
    let tail = second.skip(first.len() as int);
    if quiet(first.skip(n)) && quiet(tail) {
        assert forall|i: int| 0 <= i < second.skip(n).len() implies handles_file(
            #[trigger] second.skip(n)[i],
        ) by {
            if n + i < first.len() {
                assert(second.take(first.len() as int)[n + i] == first[n + i]);
                assert(handles_file(first.skip(n)[i]));
            } else {
                assert(handles_file(tail[n + i - first.len()]));
            }
        }
    }
}

impl PDeflateArchiveReader {
    /// Opens the next file entry ahead of its turn, and asks for its first ranges.
    fn open_ahead(&mut self, actions: &mut Vec<ReaderAction>)
        requires
            old(self).nearly_wf(),
            old(self).prefetch_index < old(self).entries@.len(),
            old(self).files@.len() < PDEFLATE_DIR_MAX_OPEN_FILES,
        ensures
            final(self).nearly_wf(),
            final(self).same_place(*old(self)),
            final(self).prefetch_index == old(self).prefetch_index + 1,
            files_extend(old(self).files@, final(self).files@),
            final(actions)@.len() >= old(actions)@.len(),
            final(actions)@.take(old(actions)@.len() as int) == old(actions)@,
            table(final(self).files@) == replay_all(
                table(old(self).files@),
                final(actions)@.skip(old(actions)@.len() as int),
            ),
            quiet(final(actions)@.skip(old(actions)@.len() as int)),
    {
        let ghost before = self.files@;
        let ghost done = actions@;
        let entry_index: usize = self.prefetch_index;
        self.prefetch_index = self.prefetch_index + 1;
        if self.entries[entry_index].kind != PDeflateArchiveEntryKind::File {
            proof {
                assert(actions@.skip(done.len() as int) =~= Seq::<ReaderAction>::empty());
                assert(actions@.take(done.len() as int) =~= done);
                assert forall|i: int| 0 <= i < before.len() implies file_fits(
                    #[trigger] before[i],
                    self.entries@,
                    self.current_index,
                    self.prefetch_index,
                ) by {}
            }
            return ;
        }
        let key = FileKey { entry_index, ahead: true };
        let file = PDeflatePrefetchedFile::new(key, self.entries[entry_index].file_len);
        proof {
            lemma_opened(before, file, self.entries@, self.current_index, entry_index, self.current_file);
        }
        actions.push(ReaderAction::Open { key });
        self.files.push(file);
        let ghost opened = self.files@;
        let ghost with_open = actions@;
        let last: usize = self.files.len() - 1;
        self.fill_prefetch_queue(last, PDEFLATE_DIR_PARALLEL_READ_BACKLOG_BYTES, actions);
        proof {
            let after = self.files@;
            lemma_filled_other(opened, after, self.current_file, last as int);
            lemma_extend_transitive(before, opened, after);
            assert(with_open.skip(done.len() as int) =~= seq![ReaderAction::Open { key }]);
            assert(with_open.take(done.len() as int) =~= done);
            lemma_replay_since(table(before), with_open, actions@, done.len() as int);
            assert(seq![ReaderAction::Open { key }].drop_last() =~= Seq::<ReaderAction>::empty());
            reveal_with_fuel(replay_all, 2);
        }
    }
}

impl PDeflateArchiveReader {
    /// Reads ahead: opens files while there is room, lets the file whose turn it
    /// is hold its reserve, and asks for more of the others while there is room.
    fn prime_prefetch(&mut self, actions: &mut Vec<ReaderAction>)
        requires
            old(self).nearly_wf(),
        ensures
            final(self).wf(),
            final(self).same_place(*old(self)),
            final(self).reads_ahead(),
            files_extend(old(self).files@, final(self).files@),
            final(actions)@.len() >= old(actions)@.len(),
            final(actions)@.take(old(actions)@.len() as int) == old(actions)@,
            table(final(self).files@) == replay_all(
                table(old(self).files@),
                final(actions)@.skip(old(actions)@.len() as int),
            ),
            quiet(final(actions)@.skip(old(actions)@.len() as int)),
    {
        let ghost start = self.files@;
        let ghost done = actions@;
        proof {
            assert(actions@.skip(done.len() as int) =~= Seq::<ReaderAction>::empty());
            assert(actions@.take(done.len() as int) =~= done);
        }
        while self.prefetched_bytes < PDEFLATE_DIR_PARALLEL_READ_BACKLOG_BYTES
            && self.prefetch_index < self.entries.len() && self.files.len()
            < PDEFLATE_DIR_MAX_OPEN_FILES
            invariant
                start == old(self).files@,
                done == old(actions)@,
                self.nearly_wf(),
                self.same_place(*old(self)),
                files_extend(start, self.files@),
                actions@.len() >= done.len(),
                actions@.take(done.len() as int) == done,
                table(self.files@) == replay_all(table(start), actions@.skip(done.len() as int)),
                quiet(actions@.skip(done.len() as int)),
            decreases self.entries@.len() - self.prefetch_index,
        {
            let ghost files = self.files@;
            let ghost sofar = actions@;
            self.open_ahead(actions);
            proof {
                lemma_extend_transitive(start, files, self.files@);
                lemma_replay_since(table(start), sofar, actions@, done.len() as int);
            }
        }
        if let Some(entry_index) = self.current_file {
            if let Some(pos) = self.find_prefetched_file_pos(entry_index) {
                let ghost files = self.files@;
                let ghost sofar = actions@;
                self.fill_prefetch_queue(pos, CURRENT_FILE_READ_LIMIT, actions);
                proof {
                    let after = self.files@;
                    assert(files_extend(files, after));
                    lemma_bounds_current(files, after, entry_index, pos as int);
                    lemma_extend_untouched(files, after, self.current_file);
                    lemma_extend_transitive(start, files, after);
                    lemma_replay_since(table(start), sofar, actions@, done.len() as int);
                    assert(after[pos as int].moves()) by {
                        let q = lemma_turn_place(after, entry_index);
                        lemma_first_is_one(after, entry_index, pos as int, q);
                        assert(after[q].wf());
                    }
                    assert forall|q: int| #[trigger]
                        is_first(after, entry_index, q) implies after[q].moves() by {
                        lemma_first_is_one(after, entry_index, pos as int, q);
                    }
                }
            } else {
                proof {
                    let p = lemma_turn_place(self.files@, entry_index);
                    assert(self.files@[p].key.entry_index == entry_index);
                }
            }
        }
        let mut index: usize = 0;
        while index < self.files.len() && self.prefetched_bytes
            < PDEFLATE_DIR_PARALLEL_READ_BACKLOG_BYTES
            invariant
                start == old(self).files@,
                done == old(actions)@,
                index <= self.files@.len(),
                self.wf(),
                self.reads_ahead(),
                self.same_place(*old(self)),
                files_extend(start, self.files@),
                actions@.len() >= done.len(),
                actions@.take(done.len() as int) == done,
                table(self.files@) == replay_all(table(start), actions@.skip(done.len() as int)),
                quiet(actions@.skip(done.len() as int)),
            decreases self.files@.len() - index,
        {
            let waits = match self.current_file {
                Some(entry_index) => self.files[index].key.entry_index != entry_index,
                None => true,
            };
            if waits {
                let ghost files = self.files@;
                let ghost sofar = actions@;
                self.fill_prefetch_queue(index, PDEFLATE_DIR_PARALLEL_READ_BACKLOG_BYTES, actions);
                proof {
                    let after = self.files@;
                    assert(files_extend(files, after));
                    lemma_bounds_other(files, after, self.current_file, index as int);
                    if let Some(entry_index) = self.current_file {
                        let p = lemma_turn_place(files, entry_index);
                        assert forall|q: int| #[trigger]
                            is_first(after, entry_index, q) implies after[q].moves() by {
                            lemma_first_same(files, after, entry_index, p);
                            lemma_first_is_one(after, entry_index, p, q);
                            assert(after[p] == files[p]);
                        }
                    }
                    lemma_extend_untouched(files, after, self.current_file);
                    lemma_extend_transitive(start, files, after);
                    lemma_replay_since(table(start), sofar, actions@, done.len() as int);
                }
            }
            index = index + 1;
        }
    }
}

/// There is a byte string for every entry: for a file as many bytes as it has,
/// for a directory none.
pub open spec fn contents_fit(
    entries: Seq<PDeflateArchiveEntrySource>,
    contents: Seq<Seq<u8>>,
) -> bool {
    &&& contents.len() == entries.len()
    &&& forall|i: int|
        0 <= i < entries.len() ==> (#[trigger] contents[i]).len() == (if entries[i].kind
            == PDeflateArchiveEntryKind::File {
            entries[i].file_len as int
        } else {
            0
        })
}

/// What the stream holds of one entry.
pub open spec fn entry_bytes(
    entries: Seq<PDeflateArchiveEntrySource>,
    contents: Seq<Seq<u8>>,
    i: int,
) -> Seq<u8> {
    record_header(
        encode_utf8(entries[i].relative_name@),
        entries[i].kind == PDeflateArchiveEntryKind::Directory,
        entries[i].file_len,
    ) + contents[i]
}

/// What the stream holds from an entry on.
pub open spec fn stream_from(
    entries: Seq<PDeflateArchiveEntrySource>,
    contents: Seq<Seq<u8>>,
    i: int,
) -> Seq<u8>
    decreases entries.len() - i,
{
    if i > entries.len() {
        Seq::empty()
    } else if i == entries.len() {
        seq![PDEFLATE_DIR_ARCHIVE_RECORD_END]
    } else {
        entry_bytes(entries, contents, i) + stream_from(entries, contents, i + 1)
    }
}

/// What is still to come of a file.
pub open spec fn file_rest(file: PDeflatePrefetchedFile, content: Seq<u8>) -> Seq<u8> {
    file.current_chunk@.skip(file.current_chunk_pos as int) + content.skip(file.received())
}

/// What is still to come of the file whose turn it is.
pub open spec fn current_rest(
    files: Seq<PDeflatePrefetchedFile>,
    current: Option<usize>,
    contents: Seq<Seq<u8>>,
) -> Seq<u8> {
    match current {
        None => Seq::empty(),
        Some(entry_index) => {
            let p = choose|p: int| is_first(files, entry_index, p);
            file_rest(files[p], contents[entry_index as int])
        },
    }
}

/// The number of bytes of a file that were put out.
pub open spec fn file_out(file: PDeflatePrefetchedFile) -> int {
    file.received() - (file.current_chunk@.len() - file.current_chunk_pos)
}

/// The number of bytes of files that were put out: those of the files before the
/// one whose turn it is, and what is out of that one.
pub open spec fn bytes_out(
    entries: Seq<PDeflateArchiveEntrySource>,
    files: Seq<PDeflatePrefetchedFile>,
    current: Option<usize>,
    begun: int,
) -> int {
    match current {
        None => file_bytes(entries, begun) as int,
        Some(entry_index) => {
            let p = choose|p: int| is_first(files, entry_index, p);
            file_bytes(entries, entry_index as int) + file_out(files[p])
        },
    }
}

/// The files among the first `n` entries.
pub open spec fn file_indices(entries: Seq<PDeflateArchiveEntrySource>, n: int) -> Seq<usize>
    decreases n,
{
    if n <= 0 {
        Seq::empty()
    } else if entries[n - 1].kind == PDeflateArchiveEntryKind::File {
        file_indices(entries, n - 1).push((n - 1) as usize)
    } else {
        file_indices(entries, n - 1)
    }
}

impl PDeflateArchiveReader {
    /// The number of entries whose records are out or pending.
    pub open spec fn entries_begun(self) -> int {
        if self.current_index <= self.entries@.len() {
            self.current_index as int
        } else {
            self.entries@.len() as int
        }
    }

    /// How far the reader is.
    pub open spec fn progress(self) -> ReadProgress {
        ReadProgress {
            begun: file_indices(self.entries@, self.entries_begun()),
            open: self.current_file is Some,
            bytes: bytes_out(
                self.entries@,
                self.files@,
                self.current_file,
                self.entries_begun(),
            ),
        }
    }

    /// The stream that is still to come, where the files have these bytes.
    pub open spec fn rest(self, contents: Seq<Seq<u8>>) -> Seq<u8> {
        self.pending@.skip(self.pending_pos as int) + current_rest(
            self.files@,
            self.current_file,
            contents,
        ) + stream_from(self.entries@, contents, self.current_index as int)
    }

    /// The bytes of this range are needed before more can be put out.
    pub open spec fn needs(self, key: FileKey, range: ReadRange) -> bool {
        exists|p: int| #[trigger] awaited(self.files@, self.current_file, p, key, range)
    }

    /// How far the reader is from the end of the stream.
    pub open spec fn entries_left(self) -> int {
        2 * (self.entries@.len() + 1 - self.current_index) + if self.current_file is Some {
            1int
        } else {
            0int
        }
    }
}

/// The reader has put these bytes out: they and what comes after them are what
/// was to come before, whatever the files hold.
pub open spec fn put_out(
    before: PDeflateArchiveReader,
    bytes: Seq<u8>,
    after: PDeflateArchiveReader,
) -> bool {
    forall|contents: Seq<Seq<u8>>|
        contents_fit(before.entries@, contents) ==> #[trigger] before.rest(contents) == bytes
            + after.rest(contents)
}

proof fn lemma_put_out_more(
    a: PDeflateArchiveReader,
    x: Seq<u8>,
    b: PDeflateArchiveReader,
    y: Seq<u8>,
    c: PDeflateArchiveReader,
)
    requires
        a.entries == b.entries,
        put_out(a, x, b),
        put_out(b, y, c),
    ensures
        put_out(a, x + y, c),
{
    assert forall|contents: Seq<Seq<u8>>| contents_fit(a.entries@, contents) implies #[trigger] a.rest(
        contents,
    ) == x + y + c.rest(contents) by {
        assert(b.rest(contents) == y + c.rest(contents));
        assert(x + (y + c.rest(contents)) =~= x + y + c.rest(contents));
    }
}

/// Reading ahead puts nothing out.
proof fn lemma_ahead_puts_nothing(before: PDeflateArchiveReader, after: PDeflateArchiveReader)
    requires
        after.same_place(before),
        files_extend(before.files@, after.files@),
        before.current_file matches Some(entry_index) ==> exists|p: int|
            is_first(before.files@, entry_index, p),
    ensures
        put_out(before, Seq::empty(), after),
        after.progress() == before.progress(),
{
    if let Some(entry_index) = before.current_file {
        let p = choose|p: int| is_first(before.files@, entry_index, p);
        lemma_first_same(before.files@, after.files@, entry_index, p);
        let q = choose|q: int| is_first(after.files@, entry_index, q);
        lemma_first_is_one(after.files@, entry_index, p, q);
        assert(same_file(before.files@[p], after.files@[p]));
    }
    assert forall|contents: Seq<Seq<u8>>|
        contents_fit(before.entries@, contents) implies #[trigger] before.rest(contents)
        == Seq::<u8>::empty() + after.rest(contents) by {
        if let Some(entry_index) = before.current_file {
            let p = choose|p: int| is_first(before.files@, entry_index, p);
            lemma_first_same(before.files@, after.files@, entry_index, p);
            let q = choose|q: int| is_first(after.files@, entry_index, q);
            lemma_first_is_one(after.files@, entry_index, p, q);
            assert(same_file(before.files@[p], after.files@[p]));
        }
        assert(Seq::<u8>::empty() + after.rest(contents) =~= after.rest(contents));
    }
}

/// What a call of a reader came to.
#[derive(Debug, Clone, Copy, PartialEq, Eq, Structural)]
pub enum ReadOutcome {
    /// As many bytes as there was room for were put out.
    Full,
    /// The stream has ended.
    Ended,
    /// The bytes of this range are needed first.
    NeedChunk { key: FileKey, range: ReadRange },
}

/// The range whose bytes are needed before more can be put out.
pub open spec fn awaited(
    files: Seq<PDeflatePrefetchedFile>,
    current: Option<usize>,
    p: int,
    key: FileKey,
    range: ReadRange,
) -> bool {
    &&& is_current(files, current, p)
    &&& files[p].current_chunk_pos >= files[p].current_chunk@.len()
    &&& files[p].inflight@.len() > 0
    &&& files[p].key == key
    &&& files[p].inflight@[0] == range
}

/// The number of bytes of the files among the first `n` entries.
pub open spec fn file_bytes(entries: Seq<PDeflateArchiveEntrySource>, n: int) -> nat
    decreases n,
{
    if n <= 0 {
        0
    } else {
        file_bytes(entries, n - 1) + if entries[n - 1].kind == PDeflateArchiveEntryKind::File {
            entries[n - 1].file_len as nat
        } else {
            0
        }
    }
}

/// The number of files among the first `n` entries.
pub open spec fn files_among(entries: Seq<PDeflateArchiveEntrySource>, n: int) -> nat
    decreases n,
{
    if n <= 0 {
        0
    } else {
        files_among(entries, n - 1) + if entries[n - 1].kind == PDeflateArchiveEntryKind::File {
            1nat
        } else {
            0
        }
    }
}

proof fn lemma_file_bytes_grow(entries: Seq<PDeflateArchiveEntrySource>, i: int, n: int)
    requires
        0 <= i <= n <= entries.len(),
    ensures
        file_bytes(entries, i) <= file_bytes(entries, n),
    decreases n - i,
{
    if i < n {
        lemma_file_bytes_grow(entries, i, n - 1);
    }
}

impl PDeflateArchiveReader {
    /// Starts the stream of these entries.
    pub fn new(entries: Vec<PDeflateArchiveEntrySource>) -> (reader: Self)
        requires
            entries@.len() < usize::MAX,
        ensures
            reader.wf(),
            reader.turn_reads_ahead(),
            reader.entries == entries,
            table(reader.files@) == Map::<FileKey, Seq<ReadRange>>::empty(),
            reader.progress() == (ReadProgress { begun: Seq::empty(), open: false, bytes: 0 }),
            forall|contents: Seq<Seq<u8>>|
                contents_fit(entries@, contents) ==> #[trigger] reader.rest(contents)
                    == stream_header() + stream_from(entries@, contents, 0),
    {
        let pending = encode_pdeflate_archive_header();
        let reader = PDeflateArchiveReader {
            entries,
            current_index: 0,
            pending,
            pending_pos: 0,
            current_file: None,
            files: Vec::new(),
            prefetch_index: 0,
            prefetched_bytes: 0,
        };
        proof {
            assert forall|contents: Seq<Seq<u8>>|
                contents_fit(entries@, contents) implies #[trigger] reader.rest(contents)
                == stream_header() + stream_from(entries@, contents, 0) by {
                assert(reader.pending@.skip(0) =~= stream_header());
                assert(stream_header() + Seq::<u8>::empty() =~= stream_header());
            }
        }
        reader
    }

    /// The number of bytes of all files.
    pub fn total_file_bytes(&self) -> (total: u64)
        requires
            file_bytes(self.entries@, self.entries@.len() as int) <= u64::MAX,
        ensures
            total == file_bytes(self.entries@, self.entries@.len() as int),
    {
        let mut total: u64 = 0;
        let mut i: usize = 0;
        while i < self.entries.len()
            invariant
                i <= self.entries@.len(),
                total == file_bytes(self.entries@, i as int),
                file_bytes(self.entries@, self.entries@.len() as int) <= u64::MAX,
            decreases self.entries@.len() - i,
        {
            proof {
                lemma_file_bytes_grow(self.entries@, i + 1, self.entries@.len() as int);
            }
            if self.entries[i].kind == PDeflateArchiveEntryKind::File {
                total = total + self.entries[i].file_len;
            }
            i = i + 1;
        }
        total
    }

    /// The number of files.
    pub fn file_entries(&self) -> (count: usize)
        ensures
            count == files_among(self.entries@, self.entries@.len() as int),
    {
        let mut count: usize = 0;
        let mut i: usize = 0;
        while i < self.entries.len()
            invariant
                i <= self.entries@.len(),
                count == files_among(self.entries@, i as int),
                count <= i,
            decreases self.entries@.len() - i,
        {
            if self.entries[i].kind == PDeflateArchiveEntryKind::File {
                count = count + 1;
            }
            i = i + 1;
        }
        count
    }

    /// Takes the bytes of the range that was needed.
    pub fn supply_chunk(&mut self, chunk: Vec<u8>)
        requires
            old(self).wf(),
            exists|key: FileKey, range: ReadRange| #[trigger]
                old(self).needs(key, range) && chunk@.len() == range.len,
        ensures
            final(self).wf(),
            final(self).entries == old(self).entries,
            old(self).turn_reads_ahead() ==> final(self).turn_reads_ahead(),
            final(self).progress() == old(self).progress(),
            forall|key: FileKey, range: ReadRange| #[trigger]
                old(self).needs(key, range) ==> {
                    &&& table(final(self).files@) == table(old(self).files@).insert(
                        key,
                        table(old(self).files@)[key].skip(1),
                    )
                    &&& forall|contents: Seq<Seq<u8>>|
                        contents_fit(old(self).entries@, contents)
                            && contents[key.entry_index as int].subrange(
                            range.offset as int,
                            range.offset + range.len,
                        ) == chunk@ ==> #[trigger] final(self).rest(contents) == old(self).rest(
                            contents,
                        )
                },
    {
        let ghost before = *self;
        let ghost (key0, range0) = choose|key: FileKey, range: ReadRange| #[trigger]
            self.needs(key, range) && chunk@.len() == range.len;
        let ghost p0 = choose|p: int| #[trigger]
            awaited(self.files@, self.current_file, p, key0, range0);
        if let Some(entry_index) = self.current_file {
            if let Some(pos) = self.find_prefetched_file_pos(entry_index) {
                proof {
                    lemma_first_is_one(self.files@, entry_index, pos as int, p0);
                }
                self.files[pos].receive(chunk);
                proof {
                    let after = self.files@;
                    let p = pos as int;
                    assert(after =~= before.files@.update(p, after[p]));
                    lemma_supplied(before, *self, entry_index, p, chunk@);
                    lemma_turn_progress(before, *self, entry_index, p);
                    assert forall|key: FileKey, range: ReadRange| #[trigger]
                        before.needs(key, range) implies exists|q: int| #[trigger]
                        awaited(before.files@, before.current_file, q, key, range) by {}
                }
            } else {
                proof {
                    assert(self.files@[p0].key.entry_index == entry_index);
                }
            }
        }
    }
}

/// What taking the bytes of a range leaves in order.
#[verifier::rlimit(40)]
proof fn lemma_supplied(
    before: PDeflateArchiveReader,
    after: PDeflateArchiveReader,
    entry_index: usize,
    p: int,
    chunk: Seq<u8>,
)
    requires
        before.wf(),
        before.current_file == Some(entry_index),
        is_first(before.files@, entry_index, p),
        after.same_place(before),
        after.prefetch_index == before.prefetch_index,
        after.prefetched_bytes == before.prefetched_bytes,
        after.files@ == before.files@.update(p, after.files@[p]),
        before.files@[p].inflight@.len() > 0,
        before.files@[p].current_chunk_pos >= before.files@[p].current_chunk@.len(),
        chunk.len() == before.files@[p].inflight@[0].len,
        after.files@[p].wf(),
        after.files@[p].key == before.files@[p].key,
        after.files@[p].file_len == before.files@[p].file_len,
        after.files@[p].inflight@ == before.files@[p].inflight@.skip(1),
        after.files@[p].current_chunk@ == chunk,
        after.files@[p].current_chunk_pos == 0,
        after.files@[p].received() == before.files@[p].received() + chunk.len(),
        after.files@[p].held() == before.files@[p].held(),
    ensures
        after.wf(),
        is_first(after.files@, entry_index, p),
        forall|q: int, key: FileKey, range: ReadRange| #[trigger]
            awaited(before.files@, before.current_file, q, key, range) ==> {
                &&& table(after.files@) == table(before.files@).insert(
                    key,
                    table(before.files@)[key].skip(1),
                )
                &&& forall|contents: Seq<Seq<u8>>|
                    contents_fit(before.entries@, contents)
                        && contents[key.entry_index as int].subrange(
                        range.offset as int,
                        range.offset + range.len,
                    ) == chunk ==> #[trigger] after.rest(contents) == before.rest(contents)
            },
{
    let old_files = before.files@;
    let new_files = after.files@;
    lemma_total_update(old_files, p, new_files[p]);
    lemma_table_update(old_files, p, new_files[p]);
    assert forall|i: int| 0 <= i < new_files.len() implies (#[trigger] new_files[i]).key
        == old_files[i].key by {}
    assert forall|q: int| is_first(new_files, entry_index, q) <==> is_first(
        old_files,
        entry_index,
        q,
    ) by {
        if is_first(new_files, entry_index, q) {
            assert forall|j: int| 0 <= j < q implies (#[trigger] old_files[j]).key.entry_index
                != entry_index by {
                assert(new_files[j].key == old_files[j].key);
            }
        }
        if is_first(old_files, entry_index, q) {
            assert forall|j: int| 0 <= j < q implies (#[trigger] new_files[j]).key.entry_index
                != entry_index by {
                assert(new_files[j].key == old_files[j].key);
            }
        }
    }
    assert(is_first(new_files, entry_index, p));
    assert forall|i: int| 0 <= i < new_files.len() implies file_fits(
        #[trigger] new_files[i],
        after.entries@,
        after.current_index,
        after.prefetch_index,
    ) by {
        assert(file_fits(
            old_files[i],
            before.entries@,
            before.current_index,
            before.prefetch_index,
        ));
    }
    assert forall|i: int, j: int| 0 <= i < j < new_files.len() implies (
    #[trigger] new_files[i]).key != (#[trigger] new_files[j]).key by {
        assert(old_files[i].key != old_files[j].key);
    }
    assert(within_bounds(new_files, after.current_file)) by {
        let q = lemma_turn_place(old_files, entry_index);
        lemma_first_is_one(old_files, entry_index, p, q);
        assert(turn_at(new_files, entry_index, p));
    }
    assert(others_untouched(new_files, after.current_file)) by {
        assert forall|i: int|
            0 <= i < new_files.len() && !(after.current_file matches Some(e) && is_first(
                new_files,
                e,
                i,
            )) implies untouched(#[trigger] new_files[i]) by {
            assert(i != p);
            assert(!is_first(old_files, entry_index, i));
            assert(untouched(old_files[i]));
        }
    }
    assert(old_files[p].wf());
    assert(old_files[p].inflight@[0].len > 0);
    assert forall|q: int| #[trigger] is_first(new_files, entry_index, q) implies new_files[q].moves()
        by {
        lemma_first_is_one(new_files, entry_index, p, q);
    }
    assert forall|q: int, key: FileKey, range: ReadRange| #[trigger]
        awaited(before.files@, before.current_file, q, key, range) implies {
        &&& table(after.files@) == table(before.files@).insert(
            key,
            table(before.files@)[key].skip(1),
        )
        &&& forall|contents: Seq<Seq<u8>>|
            contents_fit(before.entries@, contents) && contents[key.entry_index as int].subrange(
                range.offset as int,
                range.offset + range.len,
            ) == chunk ==> #[trigger] after.rest(contents) == before.rest(contents)
    } by {
        lemma_first_is_one(old_files, entry_index, p, q);
        assert forall|contents: Seq<Seq<u8>>|
            contents_fit(before.entries@, contents) && contents[key.entry_index as int].subrange(
                range.offset as int,
                range.offset + range.len,
            ) == chunk implies #[trigger] after.rest(contents) == before.rest(contents) by {
            let a = choose|a: int| is_first(old_files, entry_index, a);
            let b = choose|b: int| is_first(new_files, entry_index, b);
            lemma_first_is_one(old_files, entry_index, p, a);
            lemma_first_is_one(new_files, entry_index, p, b);
            let content = contents[entry_index as int];
            let from = old_files[p].received();
            assert(old_files[p].inflight@.take(0) =~= Seq::<ReadRange>::empty());
            assert(range.offset == from);
            assert(file_fits(
                old_files[p],
                before.entries@,
                before.current_index,
                before.prefetch_index,
            ));
            lemma_range_first(old_files[p].inflight@);
            assert(from + chunk.len() <= content.len());
            assert(content.skip(from) =~= chunk + content.skip(from + chunk.len()));
            assert(old_files[p].current_chunk@.skip(old_files[p].current_chunk_pos as int)
                =~= Seq::<u8>::empty());
            assert(file_rest(old_files[p], content) =~= file_rest(new_files[p], content));
        }
    }
}

/// The first of some ranges is no longer than all together.
proof fn lemma_range_first(ranges: Seq<ReadRange>)
    requires
        ranges.len() > 0,
    ensures
        ranges[0].len <= range_total(ranges),
    decreases ranges.len(),
{
    if ranges.len() > 1 {
        lemma_range_first(ranges.drop_last());
    }
}

/// What removing the file whose turn is over leaves in order.
#[verifier::rlimit(40)]
proof fn lemma_removed(
    files: Seq<PDeflatePrefetchedFile>,
    entries: Seq<PDeflateArchiveEntrySource>,
    current_index: usize,
    prefetch_index: usize,
    entry_index: usize,
    p: int,
)
    requires
        forall|i: int|
            0 <= i < files.len() ==> file_fits(
                #[trigger] files[i],
                entries,
                current_index,
                prefetch_index,
            ),
        unique_keys(files),
        within_bounds(files, Some(entry_index)),
        others_untouched(files, Some(entry_index)),
        is_first(files, entry_index, p),
    ensures
        ({
            let left = files.remove(p);
            &&& forall|i: int|
                0 <= i < left.len() ==> file_fits(
                    #[trigger] left[i],
                    entries,
                    current_index,
                    prefetch_index,
                )
            &&& unique_keys(left)
            &&& within_bounds(left, None)
            &&& others_untouched(left, None)
            &&& total_held(left) == total_held(files) - files[p].held()
            &&& table(left) == table(files).remove(files[p].key)
        }),
{
    let left = files.remove(p);
    lemma_total_remove(files, p);
    lemma_table_remove(files, p);
    assert forall|i: int| 0 <= i < left.len() implies left[i] == files[if i < p {
        i
    } else {
        i + 1
    }] by {}
    assert forall|i: int| 0 <= i < left.len() implies file_fits(
        #[trigger] left[i],
        entries,
        current_index,
        prefetch_index,
    ) by {
        let j = if i < p {
            i
        } else {
            i + 1
        };
        assert(file_fits(files[j], entries, current_index, prefetch_index));
    }
    assert forall|i: int, j: int| 0 <= i < j < left.len() implies (#[trigger] left[i]).key != (
    #[trigger] left[j]).key by {
        let a = if i < p {
            i
        } else {
            i + 1
        };
        let b = if j < p {
            j
        } else {
            j + 1
        };
        assert(files[a].key != files[b].key);
    }
    assert(within_bounds(left, None)) by {
        let q = lemma_turn_place(files, entry_index);
        lemma_first_is_one(files, entry_index, p, q);
    }
    assert forall|i: int| 0 <= i < left.len() implies untouched(#[trigger] left[i]) by {
        let j = if i < p {
            i
        } else {
            i + 1
        };
        if is_first(files, entry_index, j) {
            lemma_first_is_one(files, entry_index, p, j);
        }
        assert(untouched(files[j]));
    }
}

/// What one action more makes of the ranges and the progress.
proof fn lemma_action_pushed(
    ranges: Map<FileKey, Seq<ReadRange>>,
    progress: ReadProgress,
    done: Seq<ReaderAction>,
    action: ReaderAction,
)
    ensures
        ({
            let more = done.push(action).skip(done.len() as int);
            &&& more == seq![action]
            &&& replay_all(ranges, more) == replay(ranges, action)
            &&& note_all(progress, more) == note(progress, action)
            &&& done.push(action).take(done.len() as int) == done
        }),
{
    let more = done.push(action).skip(done.len() as int);
    assert(more =~= seq![action]);
    assert(more.drop_last() =~= Seq::<ReaderAction>::empty());
    assert(done.push(action).take(done.len() as int) =~= done);
    reveal_with_fuel(replay_all, 2);
    reveal_with_fuel(note_all, 2);
}

/// The progress follows the file whose turn it is.
proof fn lemma_turn_progress(
    before: PDeflateArchiveReader,
    after: PDeflateArchiveReader,
    entry_index: usize,
    p: int,
)
    requires
        before.current_file == Some(entry_index),
        after.same_place(before),
        is_first(before.files@, entry_index, p),
        is_first(after.files@, entry_index, p),
    ensures
        after.progress() == (ReadProgress {
            bytes: before.progress().bytes + file_out(after.files@[p]) - file_out(before.files@[p]),
            ..before.progress()
        }),
{
    let a = choose|a: int| is_first(before.files@, entry_index, a);
    let b = choose|b: int| is_first(after.files@, entry_index, b);
    lemma_first_is_one(before.files@, entry_index, p, a);
    lemma_first_is_one(after.files@, entry_index, p, b);
}

/// What taking bytes from the file whose turn it is leaves in order.
#[verifier::rlimit(40)]
proof fn lemma_taken(
    before: PDeflateArchiveReader,
    after: PDeflateArchiveReader,
    entry_index: usize,
    p: int,
    take: int,
)
    requires
        before.wf(),
        before.current_file == Some(entry_index),
        is_first(before.files@, entry_index, p),
        before.pending_pos >= before.pending@.len(),
        after.same_place(before),
        after.prefetch_index == before.prefetch_index,
        after.prefetched_bytes == before.prefetched_bytes - take,
        after.files@ == before.files@.update(p, after.files@[p]),
        0 < take,
        before.files@[p].current_chunk_pos + take <= before.files@[p].current_chunk@.len(),
        before.files@[p].current_chunk_pos + take <= usize::MAX,
        after.files@[p] == (PDeflatePrefetchedFile {
            current_chunk_pos: (before.files@[p].current_chunk_pos + take) as usize,
            ..before.files@[p]
        }),
    ensures
        after.nearly_wf(),
        table(after.files@) == table(before.files@),
        is_first(after.files@, entry_index, p),
        put_out(
            before,
            before.files@[p].current_chunk@.subrange(
                before.files@[p].current_chunk_pos as int,
                before.files@[p].current_chunk_pos + take,
            ),
            after,
        ),
{
    let old_files = before.files@;
    let new_files = after.files@;
    let bytes = old_files[p].current_chunk@.subrange(
        old_files[p].current_chunk_pos as int,
        old_files[p].current_chunk_pos + take,
    );
    lemma_total_update(old_files, p, new_files[p]);
    lemma_table_update(old_files, p, new_files[p]);
    assert(table(new_files) =~= table(old_files));
    assert forall|i: int| 0 <= i < new_files.len() implies (#[trigger] new_files[i]).key
        == old_files[i].key by {}
    assert(is_first(new_files, entry_index, p)) by {
        assert forall|j: int| 0 <= j < p implies (#[trigger] new_files[j]).key.entry_index
            != entry_index by {
            assert(old_files[j].key.entry_index != entry_index);
        }
    }
    assert forall|i: int| 0 <= i < new_files.len() implies file_fits(
        #[trigger] new_files[i],
        after.entries@,
        after.current_index,
        after.prefetch_index,
    ) by {
        assert(file_fits(
            old_files[i],
            before.entries@,
            before.current_index,
            before.prefetch_index,
        ));
    }
    assert forall|i: int, j: int| 0 <= i < j < new_files.len() implies (
    #[trigger] new_files[i]).key != (#[trigger] new_files[j]).key by {
        assert(old_files[i].key != old_files[j].key);
    }
    assert(within_bounds(new_files, after.current_file)) by {
        let q = lemma_turn_place(old_files, entry_index);
        lemma_first_is_one(old_files, entry_index, p, q);
        assert(turn_at(new_files, entry_index, p));
    }
    assert forall|i: int|
        0 <= i < new_files.len() && !(after.current_file matches Some(e) && is_first(
            new_files,
            e,
            i,
        )) implies untouched(#[trigger] new_files[i]) by {
        assert(i != p);
        if is_first(old_files, entry_index, i) {
            lemma_first_is_one(old_files, entry_index, p, i);
        }
        assert(untouched(old_files[i]));
    }
    assert forall|contents: Seq<Seq<u8>>|
        contents_fit(before.entries@, contents) implies #[trigger] before.rest(contents) == bytes
        + after.rest(contents) by {
        let a = choose|a: int| is_first(old_files, entry_index, a);
        let b = choose|b: int| is_first(new_files, entry_index, b);
        lemma_first_is_one(old_files, entry_index, p, a);
        lemma_first_is_one(new_files, entry_index, p, b);
        let content = contents[entry_index as int];
        assert(file_rest(old_files[p], content) =~= bytes + file_rest(new_files[p], content));
        lemma_pending_done(before, after, bytes, contents);
    }
}

/// Bytes of a file come out where nothing of a record is pending.
proof fn lemma_pending_done(
    before: PDeflateArchiveReader,
    after: PDeflateArchiveReader,
    bytes: Seq<u8>,
    contents: Seq<Seq<u8>>,
)
    requires
        after.same_place(before),
        before.pending_pos >= before.pending@.len(),
        before.pending_pos <= before.pending@.len(),
        current_rest(before.files@, before.current_file, contents) == bytes + current_rest(
            after.files@,
            after.current_file,
            contents,
        ),
    ensures
        before.rest(contents) == bytes + after.rest(contents),
{
    let empty = before.pending@.skip(before.pending_pos as int);
    let tail = stream_from(before.entries@, contents, before.current_index as int);
    let rest = current_rest(after.files@, after.current_file, contents);
    assert(empty =~= Seq::<u8>::empty());
    assert(empty + (bytes + rest) + tail =~= bytes + (empty + rest + tail));
}

/// The bounds that hold between two turns hold in the next one.
proof fn lemma_bounds_turn(files: Seq<PDeflatePrefetchedFile>, entry_index: usize, p: int)
    requires
        within_bounds(files, None),
        is_first(files, entry_index, p),
        files[p].held() >= 0,
    ensures
        within_bounds(files, Some(entry_index)),
{
    assert(turn_at(files, entry_index, p));
}

/// What opening the file whose turn has come leaves in order.
proof fn lemma_turn_opened(
    before: Seq<PDeflatePrefetchedFile>,
    file: PDeflatePrefetchedFile,
    entries: Seq<PDeflateArchiveEntrySource>,
    entry_index: usize,
    prefetch_index: usize,
)
    requires
        forall|i: int|
            0 <= i < before.len() ==> file_fits(
                #[trigger] before[i],
                entries,
                entry_index,
                prefetch_index,
            ),
        forall|i: int|
            0 <= i < before.len() ==> (#[trigger] before[i]).key.entry_index != entry_index,
        unique_keys(before),
        within_bounds(before, None),
        others_untouched(before, None),
        entry_index < entries.len() < usize::MAX,
        entries[entry_index as int].kind == PDeflateArchiveEntryKind::File,
        file.key == (FileKey { entry_index, ahead: false }),
        file.file_len == entries[entry_index as int].file_len,
        file.wf(),
        file.inflight@.len() == 0,
        file.held() == 0,
        untouched(file),
    ensures
        ({
            let opened = before.insert(0, file);
            &&& forall|i: int|
                0 <= i < opened.len() ==> file_fits(
                    #[trigger] opened[i],
                    entries,
                    (entry_index + 1) as usize,
                    prefetch_index,
                )
            &&& unique_keys(opened)
            &&& total_held(opened) == total_held(before)
            &&& table(opened) == table(before).insert(file.key, Seq::empty())
            &&& is_first(opened, entry_index, 0)
            &&& within_bounds(opened, Some(entry_index))
            &&& others_untouched(opened, Some(entry_index))
            &&& untouched(opened[0])
        }),
{
    let opened = before.insert(0, file);
    assert forall|i: int| 0 < i < opened.len() implies opened[i] == before[i - 1] by {}
    assert(opened[0] == file);
    assert forall|i: int| 0 <= i < before.len() implies (#[trigger] before[i]).key != file.key by {
        assert(before[i].key.entry_index != entry_index);
    }
    lemma_total_insert(before, file);
    lemma_table_insert(before, file);
    assert(file.inflight@ =~= Seq::<ReadRange>::empty());
    assert forall|i: int| 0 <= i < opened.len() implies file_fits(
        #[trigger] opened[i],
        entries,
        (entry_index + 1) as usize,
        prefetch_index,
    ) by {
        if i > 0 {
            assert(file_fits(before[i - 1], entries, entry_index, prefetch_index));
        }
    }
    assert forall|i: int, j: int| 0 <= i < j < opened.len() implies (#[trigger] opened[i]).key != (
    #[trigger] opened[j]).key by {
        if i > 0 {
            assert(before[i - 1].key != before[j - 1].key);
        } else {
            assert(before[j - 1].key != file.key);
        }
    }
    assert(is_first(opened, entry_index, 0));
    assert forall|i: int| 0 <= i < opened.len() implies untouched(#[trigger] opened[i]) by {
        if i > 0 {
            assert(untouched(before[i - 1]));
        }
    }
    assert(others_untouched(opened, Some(entry_index)));
    lemma_bounds_turn(opened, entry_index, 0);
}

/// The turn of an entry whose file is open comes.
proof fn lemma_turn_found(
    files: Seq<PDeflatePrefetchedFile>,
    entries: Seq<PDeflateArchiveEntrySource>,
    entry_index: usize,
    prefetch_index: usize,
    p: int,
)
    requires
        forall|i: int|
            0 <= i < files.len() ==> file_fits(
                #[trigger] files[i],
                entries,
                entry_index,
                prefetch_index,
            ),
        within_bounds(files, None),
        others_untouched(files, None),
        entry_index < usize::MAX,
        is_first(files, entry_index, p),
    ensures
        forall|i: int|
            0 <= i < files.len() ==> file_fits(
                #[trigger] files[i],
                entries,
                (entry_index + 1) as usize,
                prefetch_index,
            ),
        within_bounds(files, Some(entry_index)),
        others_untouched(files, Some(entry_index)),
        untouched(files[p]),
{
    assert forall|i: int| 0 <= i < files.len() implies (#[trigger] files[i]).held() >= 0 by {
        assert(file_fits(files[i], entries, entry_index, prefetch_index));
    }
    lemma_total_bound(files, p);
    assert forall|i: int| 0 <= i < files.len() implies untouched(#[trigger] files[i]) by {}
    assert(others_untouched(files, Some(entry_index)));
    lemma_bounds_turn(files, entry_index, p);
}

/// A file of which nothing has come is still to come as a whole.
proof fn lemma_untouched_rest(file: PDeflatePrefetchedFile, content: Seq<u8>)
    requires
        untouched(file),
    ensures
        file_rest(file, content) == content,
{
    assert(file_rest(file, content) =~= content);
}

impl PDeflateArchiveReader {
    /// Opens the file whose turn has come, unless it is open, and reads ahead.
    fn take_turn(&mut self, entry_index: usize, actions: &mut Vec<ReaderAction>)
        requires
            old(self).base_wf(),
            old(self).few_open(),
            within_bounds(old(self).files@, None),
            others_untouched(old(self).files@, None),
            forall|i: int|
                0 <= i < old(self).files@.len() ==> file_fits(
                    #[trigger] old(self).files@[i],
                    old(self).entries@,
                    entry_index,
                    old(self).prefetch_index,
                ),
            old(self).current_file is None,
            old(self).current_index == entry_index + 1,
            entry_index < old(self).entries@.len(),
            old(self).entries@[entry_index as int].kind == PDeflateArchiveEntryKind::File,
        ensures
            final(self).wf(),
            final(self).reads_ahead(),
            final(self).entries == old(self).entries,
            final(self).current_index == old(self).current_index,
            final(self).pending == old(self).pending,
            final(self).pending_pos == old(self).pending_pos,
            final(self).current_file == Some(entry_index),
            exists|p: int| #[trigger]
                is_first(final(self).files@, entry_index, p) && untouched(final(self).files@[p]),
            final(actions)@.len() >= old(actions)@.len(),
            final(actions)@.take(old(actions)@.len() as int) == old(actions)@,
            table(final(self).files@) == replay_all(
                table(old(self).files@),
                final(actions)@.skip(old(actions)@.len() as int),
            ),
            quiet(final(actions)@.skip(old(actions)@.len() as int)),
    {
        let ghost before = self.files@;
        let ghost done = actions@;
        let found = self.find_prefetched_file_pos(entry_index);
        let ghost mut turn: int = 0;
        match found {
            Some(p) => {
                proof {
                    turn = p as int;
                    lemma_turn_found(
                        before,
                        self.entries@,
                        entry_index,
                        self.prefetch_index,
                        p as int,
                    );
                    assert(actions@.skip(done.len() as int) =~= Seq::<ReaderAction>::empty());
                    assert(actions@.take(done.len() as int) =~= done);
                }
            },
            None => {
                let key = FileKey { entry_index, ahead: false };
                let file = PDeflatePrefetchedFile::new(key, self.entries[entry_index].file_len);
                proof {
                    lemma_turn_opened(
                        before,
                        file,
                        self.entries@,
                        entry_index,
                        self.prefetch_index,
                    );
                }
                actions.push(ReaderAction::Open { key });
                self.files.insert(0, file);
                let ghost opened = self.files@;
                let ghost with_open = actions@;
                self.fill_prefetch_queue(0, CURRENT_FILE_READ_LIMIT, actions);
                proof {
                    let after = self.files@;
                    lemma_bounds_current(opened, after, entry_index, 0);
                    assert(files_extend(opened, after));
                    assert(exists|p: int| is_first(opened, entry_index, p));
                    lemma_extend_untouched(opened, after, Some(entry_index));
                    assert(same_file(opened[0], after[0]));
                    assert(with_open.skip(done.len() as int) =~= seq![ReaderAction::Open { key }]);
                    assert(with_open.take(done.len() as int) =~= done);
                    lemma_replay_since(table(before), with_open, actions@, done.len() as int);
                    assert(seq![ReaderAction::Open { key }].drop_last() =~= Seq::<
                        ReaderAction,
                    >::empty());
                    reveal_with_fuel(replay_all, 2);
                }
            },
        }
        self.current_file = Some(entry_index);
        let ghost files = self.files@;
        let ghost sofar = actions@;
        assert(is_first(files, entry_index, turn) && untouched(files[turn]));
        self.prime_prefetch(actions);
        proof {
            lemma_first_same(files, self.files@, entry_index, turn);
            assert(same_file(files[turn], self.files@[turn]));
            lemma_replay_since(table(before), sofar, actions@, done.len() as int);
        }
    }

    /// Goes on to the next record of the stream.
    fn refill_pending_if_needed(&mut self, actions: &mut Vec<ReaderAction>) -> (r: Result<
        (),
        CoZipError,
    >)
        requires
            old(self).wf(),
            old(self).pending_pos >= old(self).pending@.len(),
            old(self).current_file is None,
        ensures
            match r {
                Ok(_) => {
                    &&& final(self).wf()
                    &&& final(self).turn_reads_ahead()
                    &&& final(self).entries == old(self).entries
                    &&& put_out(*old(self), Seq::empty(), *final(self))
                    &&& final(self).entries_left() < old(self).entries_left() || (
                    final(self).pending@.len() == 0 && final(self).current_file is None
                        && final(self).current_index > final(self).entries@.len())
                    &&& final(self).pending_pos == 0
                    &&& old(self).current_index <= old(self).entries@.len()
                        ==> final(self).pending@.len() > 0
                    &&& final(actions)@.len() >= old(actions)@.len()
                    &&& final(actions)@.take(old(actions)@.len() as int) == old(actions)@
                    &&& table(final(self).files@) == replay_all(
                        table(old(self).files@),
                        final(actions)@.skip(old(actions)@.len() as int),
                    )
                    &&& note_all(
                        old(self).progress(),
                        final(actions)@.skip(old(actions)@.len() as int),
                    ) == Some(final(self).progress())
                },
                Err(error) => {
                    &&& final(actions)@ == old(actions)@
                    &&& old(self).current_index < old(self).entries@.len()
                    &&& encode_utf8(
                        old(self).entries@[old(self).current_index as int].relative_name@,
                    ).len() > u32::MAX
                    &&& error matches CoZipError::Io(IoFailure::Other(text))
                    &&& text@ == "archive path too long"@
                },
            },
    {
        let ghost before = *self;
        let ghost done = actions@;
        proof {
            assert(actions@.skip(done.len() as int) =~= Seq::<ReaderAction>::empty());
            assert(actions@.take(done.len() as int) =~= done);
        }
        if self.current_index > self.entries.len() {
            self.pending = Vec::new();
            self.pending_pos = 0;
            proof {
                lemma_refilled(before, *self, Seq::empty());
            }
            return Ok(());
        }
        if self.current_index == self.entries.len() {
            let mut end: Vec<u8> = Vec::new();
            end.push(PDEFLATE_DIR_ARCHIVE_RECORD_END);
            assert(end@ =~= seq![PDEFLATE_DIR_ARCHIVE_RECORD_END]);
            self.pending = end;
            self.pending_pos = 0;
            self.current_index = self.current_index + 1;
            proof {
                lemma_fits_later(before, *self);
                lemma_refilled(before, *self, seq![PDEFLATE_DIR_ARCHIVE_RECORD_END]);
            }
            return Ok(());
        }
        let entry_index: usize = self.current_index;
        let header = match encode_pdeflate_archive_record_header(&self.entries[entry_index]) {
            Ok(header) => header,
            Err(error) => {
                return Err(error);
            },
        };
        let ghost record = header@;
        self.pending = header;
        self.pending_pos = 0;
        self.current_index = self.current_index + 1;
        proof {
            lemma_fits_later(before, *self);
        }
        if self.entries[entry_index].kind == PDeflateArchiveEntryKind::File {
            actions.push(ReaderAction::BeginEntry { entry_index });
            let ghost begun = actions@;
            self.take_turn(entry_index, actions);
            proof {
                lemma_action_pushed(
                    table(before.files@),
                    before.progress(),
                    done,
                    ReaderAction::BeginEntry { entry_index },
                );
                lemma_replay_since(table(before.files@), begun, actions@, done.len() as int);
                lemma_refilled_file(before, *self, entry_index, record);
                lemma_note_then_quiet(before.progress(), begun, actions@, done.len() as int);
            }
        } else {
            proof {
                lemma_refilled_dir(before, *self, entry_index, record);
            }
        }
        Ok(())
    }
}

/// Files that fit go on to fit when the turn moves on.
proof fn lemma_fits_later(before: PDeflateArchiveReader, after: PDeflateArchiveReader)
    requires
        before.wf(),
        after.entries == before.entries,
        after.files == before.files,
        after.prefetch_index == before.prefetch_index,
        after.current_index == before.current_index + 1,
    ensures
        forall|i: int|
            0 <= i < after.files@.len() ==> file_fits(
                #[trigger] after.files@[i],
                after.entries@,
                after.current_index,
                after.prefetch_index,
            ),
{
    assert forall|i: int| 0 <= i < after.files@.len() implies file_fits(
        #[trigger] after.files@[i],
        after.entries@,
        after.current_index,
        after.prefetch_index,
    ) by {
        assert(file_fits(
            before.files@[i],
            before.entries@,
            before.current_index,
            before.prefetch_index,
        ));
    }
}

/// The end of the stream is put up.
proof fn lemma_refilled(before: PDeflateArchiveReader, after: PDeflateArchiveReader, bytes: Seq<u8>)
    requires
        before.pending_pos == before.pending@.len(),
        before.current_file is None,
        after.current_file is None,
        after.entries == before.entries,
        after.pending@ == bytes,
        after.pending_pos == 0,
        after.current_index > before.entries@.len(),
        before.current_index > before.entries@.len() ==> bytes.len() == 0,
        before.current_index <= before.entries@.len() ==> before.current_index
            == before.entries@.len() && bytes == seq![PDEFLATE_DIR_ARCHIVE_RECORD_END],
    ensures
        put_out(before, Seq::empty(), after),
{
    assert forall|contents: Seq<Seq<u8>>|
        contents_fit(before.entries@, contents) implies #[trigger] before.rest(contents)
        == Seq::<u8>::empty() + after.rest(contents) by {
        assert(before.rest(contents) =~= Seq::<u8>::empty() + after.rest(contents));
    }
}

/// The record of a directory is put up.
proof fn lemma_refilled_dir(
    before: PDeflateArchiveReader,
    after: PDeflateArchiveReader,
    entry_index: usize,
    record: Seq<u8>,
)
    requires
        before.pending_pos == before.pending@.len(),
        before.current_file is None,
        after.current_file is None,
        after.entries == before.entries,
        after.pending@ == record,
        after.pending_pos == 0,
        before.current_index == entry_index < before.entries@.len(),
        after.current_index == entry_index + 1,
        before.entries@[entry_index as int].kind != PDeflateArchiveEntryKind::File,
        record == record_header(
            encode_utf8(before.entries@[entry_index as int].relative_name@),
            before.entries@[entry_index as int].kind == PDeflateArchiveEntryKind::Directory,
            before.entries@[entry_index as int].file_len,
        ),
    ensures
        put_out(before, Seq::empty(), after),
{
    assert forall|contents: Seq<Seq<u8>>|
        contents_fit(before.entries@, contents) implies #[trigger] before.rest(contents)
        == Seq::<u8>::empty() + after.rest(contents) by {
        assert(contents[entry_index as int] =~= Seq::<u8>::empty());
        assert(before.rest(contents) =~= Seq::<u8>::empty() + after.rest(contents));
    }
}

/// The record of a file is put up, and its turn has come.
proof fn lemma_refilled_file(
    before: PDeflateArchiveReader,
    after: PDeflateArchiveReader,
    entry_index: usize,
    record: Seq<u8>,
)
    requires
        before.pending_pos == before.pending@.len(),
        before.current_file is None,
        after.current_file == Some(entry_index),
        after.entries == before.entries,
        after.pending@ == record,
        after.pending_pos == 0,
        before.current_index == entry_index < before.entries@.len(),
        after.current_index == entry_index + 1,
        exists|p: int| #[trigger]
            is_first(after.files@, entry_index, p) && untouched(after.files@[p]),
        record == record_header(
            encode_utf8(before.entries@[entry_index as int].relative_name@),
            before.entries@[entry_index as int].kind == PDeflateArchiveEntryKind::Directory,
            before.entries@[entry_index as int].file_len,
        ),
        before.entries@[entry_index as int].kind == PDeflateArchiveEntryKind::File,
    ensures
        put_out(before, Seq::empty(), after),
        after.progress() == (ReadProgress {
            begun: before.progress().begun.push(entry_index),
            open: true,
            ..before.progress()
        }),
{
    assert(after.progress().bytes == before.progress().bytes) by {
        let p = choose|p: int| #[trigger]
            is_first(after.files@, entry_index, p) && untouched(after.files@[p]);
        let q = choose|q: int| is_first(after.files@, entry_index, q);
        lemma_first_is_one(after.files@, entry_index, p, q);
    }
    assert forall|contents: Seq<Seq<u8>>|
        contents_fit(before.entries@, contents) implies #[trigger] before.rest(contents)
        == Seq::<u8>::empty() + after.rest(contents) by {
        let p = choose|p: int| #[trigger]
            is_first(after.files@, entry_index, p) && untouched(after.files@[p]);
        let q = choose|q: int| is_first(after.files@, entry_index, q);
        lemma_first_is_one(after.files@, entry_index, p, q);
        lemma_untouched_rest(after.files@[p], contents[entry_index as int]);
        assert(before.rest(contents) =~= Seq::<u8>::empty() + after.rest(contents));
    }
}

/// One call of a reader: what it put out, and what it asked for.
pub open spec fn read_step(
    before: PDeflateArchiveReader,
    bytes: Seq<u8>,
    actions: Seq<ReaderAction>,
    after: PDeflateArchiveReader,
) -> bool {
    &&& after.wf()
    &&& after.entries == before.entries
    &&& put_out(before, bytes, after)
    &&& table(after.files@) == replay_all(table(before.files@), actions)
    &&& note_all(before.progress(), actions) == Some(after.progress())
}

/// Two steps, one behind the other.
proof fn lemma_read_steps(
    a: PDeflateArchiveReader,
    x: Seq<u8>,
    first: Seq<ReaderAction>,
    b: PDeflateArchiveReader,
    y: Seq<u8>,
    second: Seq<ReaderAction>,
    c: PDeflateArchiveReader,
    n: int,
)
    requires
        0 <= n <= first.len() <= second.len(),
        second.take(first.len() as int) == first,
        read_step(a, x, first.skip(n), b),
        read_step(b, y, second.skip(first.len() as int), c),
    ensures
        read_step(a, x + y, second.skip(n), c),
        second.take(n) == first.take(n),
{
    lemma_put_out_more(a, x, b, y, c);
    lemma_replay_since(table(a.files@), first, second, n);
    let tail = second.skip(first.len() as int);
    assert forall|i: int| 0 <= i < first.len() implies first[i] == second[i] by {
        assert(second.take(first.len() as int)[i] == first[i]);
    }
    assert(first.skip(n) + tail =~= second.skip(n));
    lemma_note_concat(a.progress(), first.skip(n), tail);
}

/// A step, and reading ahead behind it.
proof fn lemma_step_then_ahead(
    before: PDeflateArchiveReader,
    bytes: Seq<u8>,
    first: Seq<ReaderAction>,
    middle: PDeflateArchiveReader,
    second: Seq<ReaderAction>,
    after: PDeflateArchiveReader,
    n: int,
)
    requires
        0 <= n <= first.len() <= second.len(),
        second.take(first.len() as int) == first,
        middle.entries == before.entries,
        put_out(before, bytes, middle),
        table(middle.files@) == replay_all(table(before.files@), first.skip(n)),
        note_all(before.progress(), first.skip(n)) == Some(middle.progress()),
        middle.current_file matches Some(entry_index) ==> exists|p: int|
            is_first(middle.files@, entry_index, p),
        after.wf(),
        after.same_place(middle),
        files_extend(middle.files@, after.files@),
        quiet(second.skip(first.len() as int)),
        table(after.files@) == replay_all(
            table(middle.files@),
            second.skip(first.len() as int),
        ),
    ensures
        read_step(before, bytes, second.skip(n), after),
        second.take(n) == first.take(n),
{
    lemma_ahead_puts_nothing(middle, after);
    lemma_note_then_quiet(before.progress(), first, second, n);
    lemma_put_out_more(before, bytes, middle, Seq::empty(), after);
    assert(bytes + Seq::<u8>::empty() =~= bytes);
    lemma_replay_since(table(before.files@), first, second, n);
}

/// What it makes to close a file and end its entry.
proof fn lemma_close_and_finish(
    ranges: Map<FileKey, Seq<ReadRange>>,
    progress: ReadProgress,
    key: FileKey,
)
    requires
        progress.open,
    ensures
        ({
            let actions = seq![ReaderAction::Close { key }, ReaderAction::FinishEntry];
            &&& replay_all(ranges, actions) == ranges.remove(key)
            &&& note_all(progress, actions) == Some(ReadProgress { open: false, ..progress })
        }),
{
    let actions = seq![ReaderAction::Close { key }, ReaderAction::FinishEntry];
    assert(actions.drop_last() =~= seq![ReaderAction::Close { key }]);
    assert(seq![ReaderAction::Close { key }].drop_last() =~= Seq::<ReaderAction>::empty());
    reveal_with_fuel(replay_all, 3);
    reveal_with_fuel(note_all, 3);
}

impl PDeflateArchiveReader {
    /// Closes the file whose bytes are all out, and ends its turn.
    #[verifier::rlimit(30)]
    fn finish_turn(&mut self, pos: usize, actions: &mut Vec<ReaderAction>)
        requires
            old(self).wf(),
            old(self).pending_pos >= old(self).pending@.len(),
            is_current(old(self).files@, old(self).current_file, pos as int),
            old(self).files@[pos as int].inflight@.len() == 0,
            old(self).files@[pos as int].current_chunk_pos >= old(
                self,
            ).files@[pos as int].current_chunk@.len(),
            old(self).files@[pos as int].next_submit_offset >= old(
                self,
            ).files@[pos as int].file_len,
        ensures
            final(actions)@.len() >= old(actions)@.len(),
            final(actions)@.take(old(actions)@.len() as int) == old(actions)@,
            read_step(
                *old(self),
                Seq::empty(),
                final(actions)@.skip(old(actions)@.len() as int),
                *final(self),
            ),
            final(self).turn_reads_ahead(),
            final(self).entries_left() < old(self).entries_left(),
            final(self).pending_pos == old(self).pending_pos,
            final(self).pending == old(self).pending,
    {
        let ghost before = *self;
        let ghost done = actions@;
        let ghost p = pos as int;
        let ghost entry_index = self.current_file.unwrap();
        let ghost files = self.files@;
        proof {
            lemma_removed(
                files,
                self.entries@,
                self.current_index,
                self.prefetch_index,
                entry_index,
                p,
            );
        }
        let file = self.files.remove(pos);
        let key: FileKey = file.key;
        actions.push(ReaderAction::Close { key });
        actions.push(ReaderAction::FinishEntry);
        self.current_file = None;
        let ghost middle = *self;
        let ghost sofar = actions@;
        proof {
            assert(range_total(file.inflight@) == 0);
            assert(file.held() == 0);
            assert(before.prefetched_bytes == total_held(self.files@));
            lemma_turn_over(before, middle, entry_index, p);
            assert(sofar.skip(done.len() as int) =~= seq![
                ReaderAction::Close { key },
                ReaderAction::FinishEntry,
            ]);
            assert(sofar.take(done.len() as int) =~= done);
            lemma_close_and_finish(table(files), before.progress(), key);
            assert(self.nearly_wf());
        }
        self.prime_prefetch(actions);
        proof {
            lemma_step_then_ahead(
                before,
                Seq::empty(),
                sofar,
                middle,
                actions@,
                *self,
                done.len() as int,
            );
        }
    }

    /// Takes bytes that came of the file whose turn it is.
    fn take_from_chunk(&mut self, pos: usize, room: usize, out: &mut Vec<u8>) -> (taken: usize)
        requires
            old(self).wf(),
            old(self).pending_pos >= old(self).pending@.len(),
            is_current(old(self).files@, old(self).current_file, pos as int),
            old(self).files@[pos as int].current_chunk_pos < old(
                self,
            ).files@[pos as int].current_chunk@.len(),
            room > 0,
        ensures
            0 < taken <= room,
            final(out)@.len() == old(out)@.len() + taken,
            final(out)@.take(old(out)@.len() as int) == old(out)@,
            final(self).nearly_wf(),
            final(self).same_place(*old(self)),
            is_current(final(self).files@, final(self).current_file, pos as int),
            table(final(self).files@) == table(old(self).files@),
            put_out(*old(self), final(out)@.skip(old(out)@.len() as int), *final(self)),
            final(self).progress() == (ReadProgress {
                bytes: old(self).progress().bytes + taken,
                ..old(self).progress()
            }),
    {
        let ghost before = *self;
        let ghost start = out@;
        let ghost p = pos as int;
        let ghost entry_index = self.current_file.unwrap();
        let from: usize = self.files[pos].current_chunk_pos;
        let available: usize = self.files[pos].current_chunk.len() - from;
        let take: usize = if available < room {
            available
        } else {
            room
        };
        let end: usize = from + take;
        proof {
            assert forall|i: int| 0 <= i < self.files@.len() implies (
            #[trigger] self.files@[i]).held() >= 0 by {
                assert(file_fits(
                    self.files@[i],
                    self.entries@,
                    self.current_index,
                    self.prefetch_index,
                ));
            }
            lemma_total_bound(self.files@, p);
        }
        write_bytes(out, &self.files[pos].current_chunk.as_slice()[from..end]);
        self.files[pos].current_chunk_pos = end;
        self.prefetched_bytes = self.prefetched_bytes - take;
        let ghost bytes = before.files@[p].current_chunk@.subrange(from as int, end as int);
        proof {
            assert(self.files@ =~= before.files@.update(p, self.files@[p]));
            lemma_taken(before, *self, entry_index, p, take as int);
            lemma_turn_progress(before, *self, entry_index, p);
            assert(out@.skip(start.len() as int) =~= bytes);
            assert(out@.take(start.len() as int) =~= start);
        }
        take
    }

    /// Puts out bytes of the file whose turn it is.
    fn take_from_file(
        &mut self,
        pos: usize,
        room: usize,
        out: &mut Vec<u8>,
        actions: &mut Vec<ReaderAction>,
    ) -> (taken: usize)
        requires
            old(self).wf(),
            old(self).pending_pos >= old(self).pending@.len(),
            is_current(old(self).files@, old(self).current_file, pos as int),
            old(self).files@[pos as int].current_chunk_pos < old(
                self,
            ).files@[pos as int].current_chunk@.len(),
            room > 0,
        ensures
            0 < taken <= room,
            final(out)@.len() == old(out)@.len() + taken,
            final(out)@.take(old(out)@.len() as int) == old(out)@,
            final(actions)@.len() >= old(actions)@.len(),
            final(actions)@.take(old(actions)@.len() as int) == old(actions)@,
            read_step(
                *old(self),
                final(out)@.skip(old(out)@.len() as int),
                final(actions)@.skip(old(actions)@.len() as int),
                *final(self),
            ),
            final(self).turn_reads_ahead(),
            final(self).entries_left() == old(self).entries_left(),
    {
        let ghost before = *self;
        let ghost done = actions@;
        let ghost start = out@;
        let take: usize = self.take_from_chunk(pos, room, out);
        let ghost middle = *self;
        let action = ReaderAction::Advance { bytes: take };
        proof {
            lemma_action_pushed(table(before.files@), before.progress(), done, action);
        }
        actions.push(action);
        let ghost sofar = actions@;
        self.prime_prefetch(actions);
        proof {
            lemma_step_then_ahead(
                before,
                out@.skip(start.len() as int),
                sofar,
                middle,
                actions@,
                *self,
                done.len() as int,
            );
        }
        take
    }
}

/// The turn of a file whose bytes are all out is over.
proof fn lemma_turn_over(
    before: PDeflateArchiveReader,
    after: PDeflateArchiveReader,
    entry_index: usize,
    p: int,
)
    requires
        before.wf(),
        before.pending_pos == before.pending@.len(),
        before.current_file == Some(entry_index),
        is_first(before.files@, entry_index, p),
        before.files@[p].inflight@.len() == 0,
        before.files@[p].current_chunk_pos >= before.files@[p].current_chunk@.len(),
        before.files@[p].next_submit_offset >= before.files@[p].file_len,
        after.entries == before.entries,
        after.pending == before.pending,
        after.pending_pos == before.pending_pos,
        after.current_index == before.current_index,
        after.current_file is None,
    ensures
        put_out(before, Seq::empty(), after),
        after.progress() == (ReadProgress { open: false, ..before.progress() }),
{
    assert(after.progress().bytes == before.progress().bytes) by {
        let q = choose|q: int| is_first(before.files@, entry_index, q);
        lemma_first_is_one(before.files@, entry_index, p, q);
        assert(file_fits(
            before.files@[p],
            before.entries@,
            before.current_index,
            before.prefetch_index,
        ));
    }
    assert forall|contents: Seq<Seq<u8>>|
        contents_fit(before.entries@, contents) implies #[trigger] before.rest(contents)
        == Seq::<u8>::empty() + after.rest(contents) by {
        let q = choose|q: int| is_first(before.files@, entry_index, q);
        lemma_first_is_one(before.files@, entry_index, p, q);
        assert(file_fits(
            before.files@[p],
            before.entries@,
            before.current_index,
            before.prefetch_index,
        ));
        assert(file_rest(before.files@[p], contents[entry_index as int]) =~= Seq::<u8>::empty());
        assert(before.rest(contents) =~= Seq::<u8>::empty() + after.rest(contents));
    }
}

/// A record that is pending is put out.
proof fn lemma_pending_taken(
    before: PDeflateArchiveReader,
    after: PDeflateArchiveReader,
    bytes: Seq<u8>,
    take: int,
)
    requires
        after.entries == before.entries,
        after.files == before.files,
        after.current_file == before.current_file,
        after.current_index == before.current_index,
        after.pending == before.pending,
        0 <= take,
        after.pending_pos == before.pending_pos + take,
        after.pending_pos <= before.pending@.len(),
        bytes == before.pending@.subrange(before.pending_pos as int, before.pending_pos + take),
    ensures
        put_out(before, bytes, after),
{
    assert forall|contents: Seq<Seq<u8>>|
        contents_fit(before.entries@, contents) implies #[trigger] before.rest(contents) == bytes
        + after.rest(contents) by {
        assert(before.rest(contents) =~= bytes + after.rest(contents));
    }
}

impl PDeflateArchiveReader {
    /// Puts out bytes of the record that is pending.
    fn take_pending(&mut self, room: usize, out: &mut Vec<u8>) -> (taken: usize)
        requires
            old(self).wf(),
            old(self).pending_pos < old(self).pending@.len(),
            room > 0,
        ensures
            0 < taken <= room,
            final(out)@.len() == old(out)@.len() + taken,
            final(out)@.take(old(out)@.len() as int) == old(out)@,
            read_step(
                *old(self),
                final(out)@.skip(old(out)@.len() as int),
                Seq::empty(),
                *final(self),
            ),
            old(self).turn_reads_ahead() ==> final(self).turn_reads_ahead(),
            final(self).entries_left() == old(self).entries_left(),
    {
        let ghost before = *self;
        let ghost start = out@;
        let from: usize = self.pending_pos;
        let available: usize = self.pending.len() - from;
        let take: usize = if available < room {
            available
        } else {
            room
        };
        let end: usize = from + take;
        write_bytes(out, &self.pending.as_slice()[from..end]);
        self.pending_pos = end;
        proof {
            let bytes = before.pending@.subrange(from as int, end as int);
            lemma_pending_taken(before, *self, bytes, take as int);
            assert(out@.skip(start.len() as int) =~= bytes);
            assert(out@.take(start.len() as int) =~= start);
        }
        take
    }

    /// Puts out as much of the stream as there is room for, or as can be put out
    /// before bytes of a file are needed. What it takes to get there, the caller
    /// is told in `actions`.
    pub fn read(&mut self, room: usize, out: &mut Vec<u8>, actions: &mut Vec<ReaderAction>) -> (r:
        Result<ReadOutcome, CoZipError>)
        requires
            old(self).wf(),
        ensures
            final(out)@.len() >= old(out)@.len(),
            final(out)@.take(old(out)@.len() as int) == old(out)@,
            final(actions)@.len() >= old(actions)@.len(),
            final(actions)@.take(old(actions)@.len() as int) == old(actions)@,
            match r {
                Ok(outcome) => {
                    &&& read_step(
                        *old(self),
                        final(out)@.skip(old(out)@.len() as int),
                        final(actions)@.skip(old(actions)@.len() as int),
                        *final(self),
                    )
                    &&& old(self).turn_reads_ahead() ==> final(self).turn_reads_ahead()
                    &&& final(out)@.len() <= old(out)@.len() + room
                    &&& match outcome {
                        ReadOutcome::Full => final(out)@.len() == old(out)@.len() + room,
                        ReadOutcome::Ended => forall|contents: Seq<Seq<u8>>|
                            contents_fit(old(self).entries@, contents)
                                ==> #[trigger] final(self).rest(contents).len() == 0,
                        ReadOutcome::NeedChunk { key, range } => final(self).needs(key, range),
                    }
                },
                Err(error) => {
                    &&& exists|i: int|
                        0 <= i < old(self).entries@.len() && encode_utf8(
                            (#[trigger] old(self).entries@[i]).relative_name@,
                        ).len() > u32::MAX
                    &&& error matches CoZipError::Io(IoFailure::Other(text))
                    &&& text@ == "archive path too long"@
                },
            },
    {
        let ghost first = *self;
        let ghost base_out = out@;
        let ghost base_actions = actions@;
        let mut written: usize = 0;
        proof {
            assert(out@.skip(base_out.len() as int) =~= Seq::<u8>::empty());
            assert(out@.take(base_out.len() as int) =~= base_out);
            assert(actions@.skip(base_actions.len() as int) =~= Seq::<ReaderAction>::empty());
            assert(actions@.take(base_actions.len() as int) =~= base_actions);
            assert(put_out(first, Seq::empty(), first)) by {
                assert forall|contents: Seq<Seq<u8>>|
                    contents_fit(first.entries@, contents) implies #[trigger] first.rest(contents)
                    == Seq::<u8>::empty() + first.rest(contents) by {
                    assert(Seq::<u8>::empty() + first.rest(contents) =~= first.rest(contents));
                }
            }
        }
        while written < room
            invariant
                first == *old(self),
                base_out == old(out)@,
                base_actions == old(actions)@,
                written <= room,
                first.turn_reads_ahead() ==> self.turn_reads_ahead(),
                out@.len() == base_out.len() + written,
                out@.take(base_out.len() as int) == base_out,
                actions@.len() >= base_actions.len(),
                actions@.take(base_actions.len() as int) == base_actions,
                read_step(
                    first,
                    out@.skip(base_out.len() as int),
                    actions@.skip(base_actions.len() as int),
                    *self,
                ),
            decreases room - written, self.entries_left(),
        {
            let ghost before = *self;
            let ghost out_before = out@;
            let ghost actions_before = actions@;
            let ghost n = base_actions.len() as int;
            let ghost m = base_out.len() as int;
            if self.pending_pos < self.pending.len() {
                let taken: usize = self.take_pending(room - written, out);
                proof {
                    assert(actions@.skip(actions_before.len() as int) =~= Seq::<
                        ReaderAction,
                    >::empty());
                    assert(actions@.take(actions_before.len() as int) =~= actions_before);
                    lemma_read_steps(
                        first,
                        out_before.skip(m),
                        actions_before,
                        before,
                        out@.skip(out_before.len() as int),
                        actions@,
                        *self,
                        n,
                    );
                    lemma_out_pieces(out_before, out@, m);
                }
                written = written + taken;
                continue ;
            }
            if let Some(entry_index) = self.current_file {
                let pos: usize = match self.find_prefetched_file_pos(entry_index) {
                    Some(pos) => pos,
                    None => {
                        proof {
                            let p = lemma_turn_place(self.files@, entry_index);
                            assert(self.files@[p].key.entry_index == entry_index);
                        }
                        return Err(
                            CoZipError::Io(
                                IoFailure::Other("prefetched archive file missing".to_string()),
                            ),
                        );
                    },
                };
                assert(is_first(self.files@, entry_index, pos as int));
                if self.files[pos].current_chunk_pos < self.files[pos].current_chunk.len() {
                    let taken: usize = self.take_from_file(pos, room - written, out, actions);
                    proof {
                        lemma_read_steps(
                            first,
                            out_before.skip(m),
                            actions_before,
                            before,
                            out@.skip(out_before.len() as int),
                            actions@,
                            *self,
                            n,
                        );
                        lemma_out_pieces(out_before, out@, m);
                    }
                    written = written + taken;
                    continue ;
                }
                if self.files[pos].inflight.len() > 0 {
                    let key: FileKey = self.files[pos].key;
                    let range: ReadRange = self.files[pos].inflight[0];
                    assert(awaited(self.files@, self.current_file, pos as int, key, range));
                    assert(self.needs(key, range));
                    return Ok(ReadOutcome::NeedChunk { key, range });
                }
                self.finish_turn(pos, actions);
                proof {
                    lemma_read_steps(
                        first,
                        out_before.skip(m),
                        actions_before,
                        before,
                        Seq::empty(),
                        actions@,
                        *self,
                        n,
                    );
                    assert(out@.skip(m) + Seq::<u8>::empty() =~= out@.skip(m));
                }
                continue ;
            }
            if self.current_index > self.entries.len() {
                proof {
                    assert forall|contents: Seq<Seq<u8>>|
                        contents_fit(first.entries@, contents) implies #[trigger] self.rest(
                        contents,
                    ).len() == 0 by {}
                }
                return Ok(ReadOutcome::Ended);
            }
            match self.refill_pending_if_needed(actions) {
                Ok(_) => {},
                Err(error) => {
                    return Err(error);
                },
            }
            proof {
                lemma_read_steps(
                    first,
                    out_before.skip(m),
                    actions_before,
                    before,
                    Seq::empty(),
                    actions@,
                    *self,
                    n,
                );
                assert(out@.skip(m) + Seq::<u8>::empty() =~= out@.skip(m));
            }
        }
        Ok(ReadOutcome::Full)
    }
}

/// Bytes that were added in two pieces.
proof fn lemma_out_pieces(first: Seq<u8>, second: Seq<u8>, m: int)
    requires
        0 <= m <= first.len() <= second.len(),
        second.take(first.len() as int) == first,
    ensures
        first.skip(m) + second.skip(first.len() as int) == second.skip(m),
        second.take(m) == first.take(m),
{
    assert forall|i: int| 0 <= i < first.len() implies first[i] == second[i] by {
        assert(second.take(first.len() as int)[i] == first[i]);
    }
    assert(first.skip(m) + second.skip(first.len() as int) =~= second.skip(m));
    assert(second.take(m) =~= first.take(m));
}

/// The entries of a reader with their bytes.
pub open spec fn stream_entries(
    entries: Seq<PDeflateArchiveEntrySource>,
    contents: Seq<Seq<u8>>,
) -> Seq<StreamEntry> {
    Seq::new(
        entries.len(),
        |i: int|
            StreamEntry {
                name: encode_utf8(entries[i].relative_name@),
                is_dir: entries[i].kind == PDeflateArchiveEntryKind::Directory,
                content: contents[i],
            },
    )
}

proof fn lemma_stream_from(
    entries: Seq<PDeflateArchiveEntrySource>,
    contents: Seq<Seq<u8>>,
    i: int,
)
    requires
        contents_fit(entries, contents),
        0 <= i <= entries.len(),
    ensures
        encoded_entries(stream_entries(entries, contents), i) + stream_from(entries, contents, i)
            == encoded_stream(stream_entries(entries, contents)),
    decreases entries.len() - i,
{
    let all = stream_entries(entries, contents);
    if i < entries.len() {
        lemma_stream_from(entries, contents, i + 1);
        assert(encoded_entry(all[i]) == entry_bytes(entries, contents, i)) by {
            if entries[i].kind == PDeflateArchiveEntryKind::File {
                assert(contents[i].len() == entries[i].file_len);
            }
        }
        assert(encoded_entries(all, i) + (encoded_entry(all[i]) + stream_from(
            entries,
            contents,
            i + 1,
        )) =~= encoded_entries(all, i) + encoded_entry(all[i]) + stream_from(
            entries,
            contents,
            i + 1,
        ));
    }
}

/// The stream that a reader puts out from its start is the stream of its entries:
/// it holds every entry in its order, and every file with its bytes.
pub proof fn law_reader_puts_out_stream(
    entries: Seq<PDeflateArchiveEntrySource>,
    contents: Seq<Seq<u8>>,
)
    requires
        contents_fit(entries, contents),
    ensures
        stream_header() + stream_from(entries, contents, 0) == encoded_stream(
            stream_entries(entries, contents),
        ),
{
    lemma_stream_from(entries, contents, 0);
}

/// The entries of a directory that a stream can carry: every name stays inside
/// the directory, and its length fits.
pub open spec fn can_carry(entries: Seq<PDeflateArchiveEntrySource>, style: PathStyle) -> bool {
    forall|i: int|
        0 <= i < entries.len() ==> {
            &&& name_parts((#[trigger] entries[i]).relative_name@, style) is Ok
            &&& encode_utf8(entries[i].relative_name@).len() <= u32::MAX
        }
}

/// The item is what the entry and its bytes come to.
pub open spec fn restored(
    entry: PDeflateArchiveEntrySource,
    content: Seq<u8>,
    item: ArchiveItem,
    style: PathStyle,
) -> bool {
    &&& name_parts(entry.relative_name@, style) == Ok::<Seq<Seq<char>>, CoZipError>(item.path)
    &&& item.is_dir == (entry.kind == PDeflateArchiveEntryKind::Directory)
    &&& item.content == content
    &&& item.finished
}

/// The stream that a reader puts out decodes to the directory it was made from:
/// every directory, the empty ones too, and every file with its path and bytes,
/// nothing lost and nothing added.
pub proof fn law_directory_stream_restores(
    entries: Seq<PDeflateArchiveEntrySource>,
    contents: Seq<Seq<u8>>,
    style: PathStyle,
) -> (items: Seq<ArchiveItem>)
    requires
        contents_fit(entries, contents),
        can_carry(entries, style),
    ensures
        items.len() == entries.len(),
        forall|i: int|
            0 <= i < entries.len() ==> restored(
                entries[i],
                contents[i],
                #[trigger] items[i],
                style,
            ),
        run(stream_start(style), stream_header() + stream_from(entries, contents, 0)) == Ok::<
            StreamModel,
            CoZipError,
        >(goes_on(style, StreamState::Finished, items)),
        stream_end(goes_on(style, StreamState::Finished, items)) is Ok,
        count_files(items) == files_among(entries, entries.len() as int),
        count_bytes(items) == file_bytes(entries, entries.len() as int),
{
    let all = stream_entries(entries, contents);
    let n = entries.len() as int;
    assert forall|i: int| 0 <= i < all.len() implies can_encode(style, #[trigger] all[i]) by {
        encode_utf8_valid_utf8(entries[i].relative_name@);
        encode_utf8_decode_utf8(entries[i].relative_name@);
        assert(contents[i].len() <= u64::MAX);
    }
    law_reader_puts_out_stream(entries, contents);
    law_stream_roundtrip(style, all);
    let items = decoded_items(style, all, n);
    assert forall|i: int| 0 <= i < n implies restored(
        entries[i],
        contents[i],
        #[trigger] items[i],
        style,
    ) by {
        encode_utf8_decode_utf8(entries[i].relative_name@);
        assert(can_encode(style, all[i]));
    }
    lemma_restored_counts(entries, contents, items, style, n);
    assert(items.take(n) =~= items);
    items
}

/// The counts of restored items are those of the entries.
proof fn lemma_restored_counts(
    entries: Seq<PDeflateArchiveEntrySource>,
    contents: Seq<Seq<u8>>,
    items: Seq<ArchiveItem>,
    style: PathStyle,
    n: int,
)
    requires
        contents_fit(entries, contents),
        items.len() == entries.len(),
        forall|i: int|
            0 <= i < entries.len() ==> restored(
                entries[i],
                contents[i],
                #[trigger] items[i],
                style,
            ),
        0 <= n <= entries.len(),
    ensures
        count_files(items.take(n)) == files_among(entries, n),
        count_bytes(items.take(n)) == file_bytes(entries, n),
    decreases n,
{
    if n > 0 {
        lemma_restored_counts(entries, contents, items, style, n - 1);
        assert(items.take(n).drop_last() =~= items.take(n - 1));
        assert(items.take(n).last() == items[n - 1]);
        assert(restored(entries[n - 1], contents[n - 1], items[n - 1], style));
        assert(contents[n - 1].len() == items[n - 1].content.len());
    }
}

/// A reader that has put out its stream has begun and finished every file, and
/// has told of all their bytes.
pub proof fn law_reader_tells_of_every_file(reader: PDeflateArchiveReader)
    requires
        reader.wf(),
        forall|contents: Seq<Seq<u8>>|
            contents_fit(reader.entries@, contents) ==> #[trigger] reader.rest(contents).len() == 0,
    ensures
        reader.progress() == (ReadProgress {
            begun: file_indices(reader.entries@, reader.entries@.len() as int),
            open: false,
            bytes: file_bytes(reader.entries@, reader.entries@.len() as int) as int,
        }),
{
    let contents = Seq::new(
        reader.entries@.len(),
        |i: int|
            Seq::new(
                if reader.entries@[i].kind == PDeflateArchiveEntryKind::File {
                    reader.entries@[i].file_len as nat
                } else {
                    0
                },
                |j: int| 0u8,
            ),
    );
    assert(contents_fit(reader.entries@, contents));
    assert(reader.rest(contents).len() == 0);
    let tail = stream_from(reader.entries@, contents, reader.current_index as int);
    assert(tail.len() == 0);
    if reader.current_index < reader.entries@.len() {
        let bytes = entry_bytes(reader.entries@, contents, reader.current_index as int);
        assert(bytes.len() > 0);
    }
}

/// A reader that waits for bytes of a file has asked for as much of the files that
/// follow as may be: two gigabytes are held, every entry was opened, or 64 files are.
pub proof fn law_reader_reads_ahead(
    entries: Vec<PDeflateArchiveEntrySource>,
    start: PDeflateArchiveReader,
    reader: &mut PDeflateArchiveReader,
    room: usize,
    out: &mut Vec<u8>,
    actions: &mut Vec<ReaderAction>,
    key: FileKey,
    range: ReadRange,
)
    requires
        call_ensures(PDeflateArchiveReader::new, (entries,), start),
        *old(reader) == start,
        call_ensures(
            PDeflateArchiveReader::read,
            (reader, room, out, actions),
            Ok::<ReadOutcome, CoZipError>(ReadOutcome::NeedChunk { key, range }),
        ),
    ensures
        final(reader).prefetched_bytes >= 2 * 1024 * 1024 * 1024 || final(reader).prefetch_index
            >= entries@.len() || final(reader).files@.len() >= 64,
{
}

/// However far it reads ahead, a reader holds no more than two gigabytes, and a quarter
/// of a gigabyte more in the turn of a file, and keeps no more than 64 files open beside
/// the one whose turn it is.
pub proof fn law_reader_stays_within_limit(reader: PDeflateArchiveReader)
    requires
        reader.wf(),
    ensures
        reader.prefetched_bytes == total_held(reader.files@),
        reader.prefetched_bytes <= 2304 * 1024 * 1024,
        reader.current_file is None ==> reader.prefetched_bytes <= 2048 * 1024 * 1024,
        reader.files@.len() <= 64 + 1,
        reader.current_file is None ==> reader.files@.len() <= 64,
{
}

} // verus!
