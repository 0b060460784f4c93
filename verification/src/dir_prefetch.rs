//! Reading ahead: which ranges of which files are asked for before their bytes
//! are needed, and how many bytes that may hold in memory.

use std::collections::VecDeque;

use vstd::prelude::*;

verus! {

/// Reading ahead stops at this many bytes.
pub const PDEFLATE_DIR_PARALLEL_READ_BACKLOG_BYTES: usize = 0x8000_0000;

/// The file whose bytes come next may hold this many bytes more.
pub const PDEFLATE_DIR_CURRENT_FILE_READ_RESERVE_BYTES: usize = 0x1000_0000;

/// The limit for the file whose bytes come next.
pub const CURRENT_FILE_READ_LIMIT: usize = 0x9000_0000;

/// No more files than this are opened ahead.
pub const PDEFLATE_DIR_MAX_OPEN_FILES: usize = 64;

/// The longest range that is asked for at once.
pub const REQUEST_SIZE: usize = 0x40_0000;

/// No more ranges than this are asked for ahead of a file.
pub const MAX_INFLIGHT_OPS_PER_FILE: usize = 64;

/// A range of a file.
#[derive(Debug, Clone, Copy, PartialEq, Eq, Structural)]
pub struct ReadRange {
    pub offset: u64,
    pub len: usize,
}

/// An opened file: the entry it belongs to, and whether it was opened ahead of
/// its turn. An entry can be open once either way.
#[derive(Debug, Clone, Copy, PartialEq, Eq, Structural)]
pub struct FileKey {
    pub entry_index: usize,
    pub ahead: bool,
}

/// What the caller of a reader is to do.
#[derive(Debug, Clone, Copy, PartialEq, Eq, Structural)]
pub enum ReaderAction {
    /// Open the file of an entry.
    Open { key: FileKey },
    /// Start to read a range of a file.
    Submit { key: FileKey, range: ReadRange },
    /// Close a file.
    Close { key: FileKey },
    /// The bytes of an entry begin.
    BeginEntry { entry_index: usize },
    /// Bytes of the entry were handed out.
    Advance { bytes: usize },
    /// The bytes of the entry are complete.
    FinishEntry,
}

/// The number of bytes in ranges.
pub open spec fn range_total(ranges: Seq<ReadRange>) -> nat
    decreases ranges.len(),
{
    if ranges.len() == 0 {
        0
    } else {
        range_total(ranges.drop_last()) + ranges.last().len as nat
    }
}

/// Ranges behind ranges.
pub proof fn lemma_range_total_concat(a: Seq<ReadRange>, b: Seq<ReadRange>)
    ensures
        range_total(a + b) == range_total(a) + range_total(b),
    decreases b.len(),
{
    if b.len() == 0 {
        assert(a + b =~= a);
    } else {
        lemma_range_total_concat(a, b.drop_last());
        assert((a + b).drop_last() =~= a + b.drop_last());
    }
}

/// A file that is being read ahead: the ranges that were asked for and have not
/// come, the last one that came with what was taken of it, and where the next
/// range starts.
#[derive(Debug)]
pub struct PDeflatePrefetchedFile {
    pub key: FileKey,
    pub file_len: u64,
    pub inflight: VecDeque<ReadRange>,
    pub current_chunk: Vec<u8>,
    pub current_chunk_pos: usize,
    pub next_submit_offset: u64,
}

/// The actions that ask for ranges of a file.
pub open spec fn submits(key: FileKey, ranges: Seq<ReadRange>) -> Seq<ReaderAction> {
    Seq::new(ranges.len(), |i: int| ReaderAction::Submit { key, range: ranges[i] })
}

/// Each range is as long as one may be, up to the end of the file, or, where `full` says
/// that nothing more may be held, the last one up to what may be held.
pub open spec fn well_cut(ranges: Seq<ReadRange>, file_len: u64, full: bool) -> bool {
    forall|k: int|
        0 <= k < ranges.len() ==> {
            &&& (#[trigger] ranges[k]).len <= REQUEST_SIZE
            &&& {
                ||| ranges[k].len == REQUEST_SIZE
                ||| ranges[k].offset + ranges[k].len == file_len
                ||| full && k == ranges.len() - 1
            }
        }
}

impl PDeflatePrefetchedFile {
    /// How far the file has come.
    pub open spec fn received(self) -> int {
        self.next_submit_offset - range_total(self.inflight@)
    }

    /// How many bytes of the file are held, or will be when they have come.
    pub open spec fn held(self) -> int {
        range_total(self.inflight@) + self.current_chunk@.len() - self.current_chunk_pos
    }

    /// Something of the file is there or on its way, or all of it was asked for.
    pub open spec fn moves(self) -> bool {
        ||| self.inflight@.len() > 0
        ||| self.current_chunk_pos < self.current_chunk@.len()
        ||| self.next_submit_offset >= self.file_len
    }

    /// The ranges that were asked for follow each other without a gap, up to
    /// where the next one starts.
    pub open spec fn wf(self) -> bool {
        &&& self.current_chunk_pos <= self.current_chunk@.len()
        &&& self.next_submit_offset <= self.file_len
        &&& self.current_chunk@.len() <= self.received()
        &&& forall|j: int|
            0 <= j < self.inflight@.len() ==> (#[trigger] self.inflight@[j]).len > 0
                && self.inflight@[j].offset == self.received() + range_total(
                self.inflight@.take(j),
            )
    }

    /// A file of which nothing was asked for.
    pub fn new(key: FileKey, file_len: u64) -> (file: Self)
        ensures
            file.wf(),
            file.key == key,
            file.file_len == file_len,
            file.inflight@.len() == 0,
            file.current_chunk@.len() == 0,
            file.current_chunk_pos == 0,
            file.next_submit_offset == 0,
            file.held() == 0,
            file.received() == 0,
    {
        PDeflatePrefetchedFile {
            key,
            file_len,
            inflight: VecDeque::new(),
            current_chunk: Vec::new(),
            current_chunk_pos: 0,
            next_submit_offset: 0,
        }
    }

    /// Asks for ranges of the file while fewer than `limit` bytes are held in
    /// all, of which `held_bytes` are held before. Returns how many are held after.
    pub fn submit_ahead(
        &mut self,
        held_bytes: usize,
        limit: usize,
        actions: &mut Vec<ReaderAction>,
    ) -> (total: usize)
        requires
            old(self).wf(),
        ensures
            final(self).wf(),
            final(self).key == old(self).key,
            final(self).file_len == old(self).file_len,
            final(self).current_chunk@ == old(self).current_chunk@,
            final(self).current_chunk_pos == old(self).current_chunk_pos,
            final(self).received() == old(self).received(),
            exists|more: Seq<ReadRange>|
                {
                    &&& final(self).inflight@ == old(self).inflight@ + more
                    &&& #[trigger] submits(old(self).key, more) == final(actions)@.skip(
                        old(actions)@.len() as int,
                    )
                    &&& well_cut(more, old(self).file_len, total == limit)
                },
            final(actions)@.len() >= old(actions)@.len(),
            final(actions)@.take(old(actions)@.len() as int) == old(actions)@,
            total - held_bytes == final(self).held() - old(self).held(),
            total >= held_bytes,
            total > held_bytes ==> total <= limit,
            final(self).inflight@.len() <= MAX_INFLIGHT_OPS_PER_FILE || final(self).inflight@.len()
                == old(self).inflight@.len(),
            final(self).inflight@.len() >= MAX_INFLIGHT_OPS_PER_FILE
                || final(self).next_submit_offset >= final(self).file_len || total >= limit,
    {
        let mut total: usize = held_bytes;
        let ghost first = self.inflight@;
        let ghost base = actions@;
        let ghost mut more: Seq<ReadRange> = Seq::empty();
        proof {
            assert(first + more =~= first);
            assert(base + submits(self.key, more) =~= base);
        }
        while self.inflight.len() < MAX_INFLIGHT_OPS_PER_FILE && self.next_submit_offset
            < self.file_len && total < limit
            invariant
                self.wf(),
                first == old(self).inflight@,
                base == old(actions)@,
                self.key == old(self).key,
                self.file_len == old(self).file_len,
                self.current_chunk@ == old(self).current_chunk@,
                self.current_chunk_pos == old(self).current_chunk_pos,
                self.received() == old(self).received(),
                self.inflight@ == first + more,
                actions@ == base + submits(self.key, more),
                total - held_bytes == self.held() - old(self).held(),
                total >= held_bytes,
                total > held_bytes ==> total <= limit,
                well_cut(more, self.file_len, total == limit),
                more.len() > 0 ==> self.inflight@.len() <= MAX_INFLIGHT_OPS_PER_FILE,
            decreases self.file_len - self.next_submit_offset,
        {
            let remaining: u64 = self.file_len - self.next_submit_offset;
            let wanted: usize = if remaining < REQUEST_SIZE as u64 {
                remaining as usize
            } else {
                REQUEST_SIZE
            };
            let budget: usize = limit - total;
            let len: usize = if wanted > budget {
                budget
            } else {
                wanted
            };
            let range = ReadRange { offset: self.next_submit_offset, len };
            let ghost before = self.inflight@;
            proof {
                assert(before.push(range).drop_last() =~= before);
                assert(first + more.push(range) =~= before.push(range));
                assert(base + submits(self.key, more.push(range)) =~= actions@.push(
                    ReaderAction::Submit { key: self.key, range },
                ));
                assert forall|j: int| 0 <= j < before.len() implies before.push(range).take(j)
                    == before.take(j) by {
                    assert(before.push(range).take(j) =~= before.take(j));
                }
                assert(before.push(range).take(before.len() as int) =~= before);
                more = more.push(range);
            }
            actions.push(ReaderAction::Submit { key: self.key, range });
            self.inflight.push_back(range);
            self.next_submit_offset = self.next_submit_offset + len as u64;
            total = total + len;
        }
        proof {
            assert(actions@.skip(base.len() as int) =~= submits(old(self).key, more));
            assert(actions@.take(base.len() as int) =~= base);
        }
        total
    }

    /// Takes the bytes of the range that was asked for first.
    pub fn receive(&mut self, chunk: Vec<u8>)
        requires
            old(self).wf(),
            old(self).inflight@.len() > 0,
            chunk@.len() == old(self).inflight@[0].len,
            old(self).current_chunk_pos >= old(self).current_chunk@.len(),
        ensures
            final(self).wf(),
            final(self).key == old(self).key,
            final(self).file_len == old(self).file_len,
            final(self).next_submit_offset == old(self).next_submit_offset,
            final(self).inflight@ == old(self).inflight@.skip(1),
            final(self).current_chunk == chunk,
            final(self).current_chunk_pos == 0,
            final(self).received() == old(self).received() + chunk@.len(),
            final(self).held() == old(self).held(),
    {
        let ghost before = self.inflight@;
        let range = self.inflight.pop_front();
        proof {
            let after = self.inflight@;
            assert(after =~= before.skip(1));
            assert(seq![before[0]] + after =~= before);
            lemma_range_total_concat(seq![before[0]], after);
            assert(seq![before[0]].drop_last() =~= Seq::<ReadRange>::empty());
            reveal_with_fuel(range_total, 2);
            assert forall|j: int| 0 <= j < after.len() implies range_total(
                before.take(j + 1),
            ) == before[0].len + range_total(after.take(j)) by {
                assert(before.take(j + 1) =~= seq![before[0]] + after.take(j));
                lemma_range_total_concat(seq![before[0]], after.take(j));
            }
            assert forall|j: int| 0 <= j < after.len() implies (#[trigger] after[j]).len > 0
                && after[j].offset == old(self).received() + before[0].len + range_total(
                after.take(j),
            ) by {
                assert(after[j] == before[j + 1]);
            }
        }
        self.current_chunk = chunk;
        self.current_chunk_pos = 0;
    }
}

/// A range that is on its way follows on the one before it, and the last one leads up
/// to where the next one starts.
proof fn lemma_range_follows(file: PDeflatePrefetchedFile, p: int)
    requires
        file.wf(),
        0 <= p < file.inflight@.len(),
    ensures
        file.inflight@[p].len > 0,
        file.inflight@[p].offset == file.received() + range_total(file.inflight@.take(p)),
        p > 0 ==> file.inflight@[p - 1].offset + file.inflight@[p - 1].len
            == file.inflight@[p].offset,
        p == file.inflight@.len() - 1 ==> file.inflight@[p].offset + file.inflight@[p].len
            == file.next_submit_offset,
{
    let ranges = file.inflight@;
    let range = ranges[p];
    assert(ranges.take(p + 1).drop_last() =~= ranges.take(p));
    if p > 0 {
        let before = ranges[p - 1];
        assert(before.offset == file.received() + range_total(ranges.take(p - 1)));
        assert(ranges.take(p).drop_last() =~= ranges.take(p - 1));
    }
    if p == ranges.len() - 1 {
        assert(ranges.take(p + 1) =~= ranges);
    }
}

/// What is asked for of a file follows on what was asked for before, without a gap, in
/// ranges of four megabytes; a shorter one only ends the file or what may be held. No
/// more than 64 ranges are on their way, and no more bytes than the limit are held.
pub proof fn law_ranges_follow_on_one_another(
    file: &mut PDeflatePrefetchedFile,
    held_bytes: usize,
    limit: usize,
    actions: &mut Vec<ReaderAction>,
    total: usize,
    j: int,
)
    requires
        old(file).wf(),
        old(actions)@.len() == 0,
        old(file).inflight@.len() <= 64,
        held_bytes <= limit,
        call_ensures(
            PDeflatePrefetchedFile::submit_ahead,
            (file, held_bytes, limit, actions),
            total,
        ),
        0 <= j < final(actions)@.len(),
    ensures
        total <= limit,
        final(file).inflight@.len() <= 64,
        final(file).next_submit_offset <= old(file).file_len,
        final(actions)@[j] matches ReaderAction::Submit { key, range } && key == old(file).key && 0
            < range.len <= 4 * 1024 * 1024 && (range.len == 4 * 1024 * 1024 || range.offset
            + range.len == old(file).file_len || total == limit && j == final(actions)@.len() - 1)
            && (j == 0 ==> range.offset == old(file).next_submit_offset) && (j > 0 ==> (final(
            actions)@[j - 1] matches ReaderAction::Submit { key: _, range: before }
            && before.offset + before.len == range.offset)) && (j == final(actions)@.len() - 1
            ==> range.offset + range.len == final(file).next_submit_offset),
{
    let first = old(file).inflight@;
    let n = first.len() as int;
    let after = final(file).inflight@;
    let more = choose|more: Seq<ReadRange>|
        {
            &&& final(file).inflight@ == old(file).inflight@ + more
            &&& #[trigger] submits(old(file).key, more) == final(actions)@.skip(
                old(actions)@.len() as int,
            )
            &&& well_cut(more, old(file).file_len, total == limit)
        };
    assert(final(actions)@.skip(0) =~= final(actions)@);
    assert(final(actions)@ =~= submits(old(file).key, more));
    assert(after[n + j] == more[j]);
    assert(after.take(n) =~= first);
    lemma_range_follows(*final(file), n + j);
    if j > 0 {
        assert(after[n + j - 1] == more[j - 1]);
    }
}

/// Ranges are asked for until the file ends, the limit is reached, or 64 of them are on
/// their way.
pub proof fn law_ranges_are_asked_for_up_to_the_limit(
    file: &mut PDeflatePrefetchedFile,
    held_bytes: usize,
    limit: usize,
    actions: &mut Vec<ReaderAction>,
    total: usize,
)
    requires
        call_ensures(
            PDeflatePrefetchedFile::submit_ahead,
            (file, held_bytes, limit, actions),
            total,
        ),
        total < limit,
        final(file).next_submit_offset < final(file).file_len,
    ensures
        final(file).inflight@.len() >= 64,
{
}

} // verus!
