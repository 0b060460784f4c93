//! Compressing the files of a directory: results come back from the workers in
//! any order and go into the archive in the order of the files.

use std::collections::{BTreeMap, VecDeque};

use vstd::prelude::*;
use vstd::utf8::{encode_utf8, encode_utf8_decode_utf8, encode_utf8_valid_utf8, valid_utf8};

use crate::czdi::opt_bytes;
use crate::error::CoZipError;
use crate::types::CoZipStats;
use crate::zip_entry::{compressed_payload, DecodeReport};
use crate::zip_laws::{
    archive, archive_body, archive_records, input_bytes, law_archive_grows, law_archive_roundtrip,
    law_payload_roundtrip, read_back, read_back_all, ArchiveInput,
};
use crate::zip_read::{read_directory, ReadRecord};
use crate::zip_write::{
    can_finish, zip64_extension, ZipPreparedEntry, ZipWriteState, DEFLATE_METHOD, GP_FLAGS_WRITTEN,
};

verus! {

/// Holds results that came too early.
pub struct ReorderBuffer<T> {
    pub pending: BTreeMap<usize, T>,
    pub next_index: usize,
    pub got: Ghost<Map<usize, T>>,
    pub released: Ghost<Seq<T>>,
}

impl<T> ReorderBuffer<T> {
    /// What was released are the first results in their order, what is held are
    /// the others, and the next one in order has not come.
    pub open spec fn wf(self) -> bool {
        &&& self.released@.len() == self.next_index
        &&& !self.got@.contains_key(usize::MAX)
        &&& !self.got@.contains_key(self.next_index)
        &&& forall|i: usize|
            #![trigger self.got@.contains_key(i)]
            i < self.next_index ==> self.got@.contains_key(i) && self.got@[i]
                == self.released@[i as int]
        &&& forall|i: usize|
            #![trigger self.pending@.contains_key(i)]
            self.pending@.contains_key(i) <==> self.got@.contains_key(i) && i > self.next_index
        &&& forall|i: usize|
            #![trigger self.pending@[i]]
            self.pending@.contains_key(i) ==> self.pending@[i] == self.got@[i]
    }

    /// Holds nothing.
    pub fn new() -> (buffer: Self)
        ensures
            buffer.wf(),
            buffer.got@ == Map::<usize, T>::empty(),
            buffer.released@ == Seq::<T>::empty(),
    {
        ReorderBuffer {
            pending: BTreeMap::new(),
            next_index: 0,
            got: Ghost(Map::empty()),
            released: Ghost(Seq::empty()),
        }
    }

    /// Takes the result of file `index`, and releases every result whose turn
    /// has come with it, in order.
    pub fn accept(&mut self, index: usize, item: T) -> (ready: VecDeque<T>)
        requires
            old(self).wf(),
            !old(self).got@.contains_key(index),
            index < usize::MAX,
        ensures
            final(self).wf(),
            final(self).got@ == old(self).got@.insert(index, item),
            final(self).released@ == old(self).released@ + ready@,
    {
        let mut ready: VecDeque<T> = VecDeque::new();
        let ghost got = self.got@.insert(index, item);
        let ghost first = self.released@;
        self.pending.insert(index, item);
        self.got = Ghost(got);
        assert(first + ready@ =~= first);
        loop
            invariant
                self.got@ == got,
                got == old(self).got@.insert(index, item),
                first == old(self).released@,
                self.released@ == first + ready@,
                self.released@.len() == self.next_index,
                !got.contains_key(usize::MAX),
                forall|i: usize|
                    #![trigger self.got@.contains_key(i)]
                    i < self.next_index ==> self.got@.contains_key(i) && self.got@[i]
                        == self.released@[i as int],
                forall|i: usize|
                    #![trigger self.pending@.contains_key(i)]
                    self.pending@.contains_key(i) <==> self.got@.contains_key(i) && i
                        >= self.next_index,
                forall|i: usize|
                    #![trigger self.pending@[i]]
                    self.pending@.contains_key(i) ==> self.pending@[i] == self.got@[i],
            decreases usize::MAX - self.next_index,
        {
            let at: usize = self.next_index;
            let ghost before = self.pending@;
            let ghost released = self.released@;
            match self.pending.remove(&at) {
                None => {
                    proof {
                        assert(!before.contains_key(at));
                        assert(!got.contains_key(at));
                    }
                    return ready;
                },
                Some(result) => {
                    proof {
                        assert(before.contains_key(at));
                        assert(got.contains_key(at));
                        assert(result == got[at]);
                        assert(self.released@.push(result) =~= first + ready@.push(result));
                    }
                    ready.push_back(result);
                    self.released = Ghost(self.released@.push(result));
                    self.next_index = at + 1;
                    proof {
                        assert forall|i: usize|
                            #![trigger self.got@.contains_key(i)]
                            i < self.next_index implies self.got@.contains_key(i) && self.got@[i]
                            == self.released@[i as int] by {
                            if i < at {
                                assert(self.released@[i as int] == released[i as int]);
                            }
                        }
                    }
                },
            }
        }
    }
}

/// Once the results of the first `n` files have come, in whatever order, exactly
/// they have been released, in the order of the files.
pub proof fn law_reorder_releases_in_order<T>(buffer: ReorderBuffer<T>, n: usize)
    requires
        buffer.wf(),
        forall|i: usize| #[trigger] buffer.got@.contains_key(i) <==> i < n,
    ensures
        buffer.released@ == Seq::new(n as nat, |i: int| buffer.got@[i as usize]),
        buffer.pending@.dom() =~= Set::<usize>::empty(),
{
    let next = buffer.next_index;
    assert(next == n) by {
        assert(!buffer.got@.contains_key(next));
        if next > n {
            assert(buffer.got@.contains_key(n));
        }
    }
    assert forall|i: int| 0 <= i < n implies buffer.released@[i] == buffer.got@[i as usize] by {
        assert(buffer.got@.contains_key(i as usize));
    }
    assert(buffer.released@ =~= Seq::new(n as nat, |i: int| buffer.got@[i as usize]));
    assert forall|i: usize| !#[trigger] buffer.pending@.dom().contains(i) by {
        assert(buffer.pending@.contains_key(i) <==> buffer.got@.contains_key(i) && i
            > buffer.next_index);
    }
}

/// The lengths of files, added up as far as the number goes.
pub open spec fn capped_total(lens: Seq<u64>) -> u64
    decreases lens.len(),
{
    if lens.len() == 0 {
        0
    } else {
        crate::progress::capped_sum(capped_total(lens.drop_last()), lens.last())
    }
}

/// Adds up the lengths of files.
pub fn total_file_len(lens: &[u64]) -> (total: u64)
    ensures
        total == capped_total(lens@),
{
    let mut total: u64 = 0;
    let mut i: usize = 0;
    assert(lens@.take(0) =~= Seq::<u64>::empty());
    while i < lens.len()
        invariant
            i <= lens@.len(),
            total == capped_total(lens@.take(i as int)),
        decreases lens@.len() - i,
    {
        proof {
            assert(lens@.take(i + 1).drop_last() =~= lens@.take(i as int));
        }
        total = total.saturating_add(lens[i]);
        i = i + 1;
    }
    assert(lens@.take(i as int) =~= lens@);
    total
}

/// The number of workers.
pub open spec fn workers(threads: usize) -> usize {
    if threads == 0 {
        1
    } else {
        threads
    }
}

/// How many bytes one worker may read ahead: its share of two gigabytes, and no
/// less than four megabytes.
pub open spec fn task_backlog(threads: usize) -> u64 {
    let share = 0x8000_0000u64 / (workers(threads) as u64);
    if share < 0x40_0000 {
        0x40_0000
    } else {
        share
    }
}

/// Works out how many bytes one of `threads` workers may read ahead.
pub fn per_task_backlog(threads: usize) -> (bytes: u64)
    ensures
        bytes == task_backlog(threads),
        0x40_0000 <= bytes <= 0x8000_0000,
{
    let concurrency: usize = if threads == 0 {
        1
    } else {
        threads
    };
    let share: u64 = 0x8000_0000 / concurrency as u64;
    assert(share <= 0x8000_0000) by (nonlinear_arith)
        requires
            share == 0x8000_0000u64 / (concurrency as u64),
            concurrency >= 1,
    ;
    if share < 0x40_0000 {
        0x40_0000
    } else {
        share
    }
}

/// Whether a prepared entry decodes to what it was made from. `input_bytes` is
/// what the decoder has read.
pub open spec fn prepared_verdict(
    compressed_size: u64,
    uncompressed_size: u64,
    crc: u32,
    input_bytes: u64,
    report: DecodeReport,
) -> Result<(), CoZipError> {
    if input_bytes != compressed_size {
        Err(
            CoZipError::InvalidZip("prepared entry compressed size mismatch during verification"),
        )
    } else if report.output_bytes != uncompressed_size {
        Err(
            CoZipError::InvalidZip(
                "prepared entry uncompressed size mismatch during verification",
            ),
        )
    } else if report.output_crc32 != crc {
        Err(CoZipError::InvalidZip("prepared entry crc32 mismatch during verification"))
    } else {
        Ok(())
    }
}

/// Checks that a prepared entry decodes to what it was made from.
pub fn verify_prepared_entry(
    prepared: &ZipPreparedEntry,
    input_bytes: u64,
    report: DecodeReport,
) -> (r: Result<(), CoZipError>)
    ensures
        r == prepared_verdict(
            prepared.compressed_size,
            prepared.uncompressed_size,
            prepared.crc,
            input_bytes,
            report,
        ),
{
    if input_bytes != prepared.compressed_size {
        return Err(
            CoZipError::InvalidZip("prepared entry compressed size mismatch during verification"),
        );
    }
    if report.output_bytes != prepared.uncompressed_size {
        return Err(
            CoZipError::InvalidZip(
                "prepared entry uncompressed size mismatch during verification",
            ),
        );
    }
    if report.output_crc32 != prepared.crc {
        return Err(CoZipError::InvalidZip("prepared entry crc32 mismatch during verification"));
    }
    Ok(())
}

/// An entry with its compressed bytes.
#[derive(Debug)]
pub struct PreparedPayload {
    pub entry: ZipPreparedEntry,
    pub payload: Vec<u8>,
}

/// What goes into an archive for a prepared entry.
pub open spec fn prepared_input(prepared: PreparedPayload) -> ArchiveInput {
    ArchiveInput {
        name: encode_utf8(prepared.entry.name@),
        payload: prepared.payload@,
        crc: prepared.entry.crc,
        uncompressed_size: prepared.entry.uncompressed_size,
        blob: opt_bytes(prepared.entry.czdi_blob),
    }
}

/// What goes into an archive for prepared entries.
pub open spec fn prepared_inputs(prepared: Seq<PreparedPayload>) -> Seq<ArchiveInput> {
    Seq::new(prepared.len(), |i: int| prepared_input(prepared[i]))
}

/// The number of bytes that entries have before they are compressed.
pub open spec fn uncompressed_total(prepared: Seq<PreparedPayload>) -> nat
    decreases prepared.len(),
{
    if prepared.len() == 0 {
        0
    } else {
        uncompressed_total(prepared.drop_last()) + prepared.last().entry.uncompressed_size as nat
    }
}

/// The files before hold no more bytes than all.
pub proof fn lemma_uncompressed_grows(prepared: Seq<PreparedPayload>, n: int)
    requires
        0 <= n <= prepared.len(),
    ensures
        uncompressed_total(prepared.take(n)) <= uncompressed_total(prepared),
    decreases prepared.len(),
{
    if n < prepared.len() {
        lemma_uncompressed_grows(prepared.drop_last(), n);
        assert(prepared.drop_last().take(n) =~= prepared.take(n));
    } else {
        assert(prepared.take(n) =~= prepared);
    }
}

/// The entries can stand one behind the other: their names and totals fit their
/// fields.
pub open spec fn entries_fit(prepared: Seq<PreparedPayload>) -> bool {
    let inputs = prepared_inputs(prepared);
    &&& uncompressed_total(prepared) <= u64::MAX
    &&& archive_body(inputs, inputs.len() as int).len() <= u64::MAX
    &&& forall|i: int| 0 <= i < inputs.len() ==> (#[trigger] inputs[i]).name.len() <= 0xffff
}

/// The entries can be put together: they can stand one behind the other, and so
/// can the directory behind them.
pub open spec fn can_assemble(prepared: Seq<PreparedPayload>) -> bool {
    let inputs = prepared_inputs(prepared);
    &&& entries_fit(prepared)
    &&& can_finish(
        archive_records(inputs),
        archive_body(inputs, inputs.len() as int).len() as u64,
    )
}

/// What is written in front of the directory only grows.
proof fn lemma_body_grows(inputs: Seq<ArchiveInput>, i: int, n: int)
    requires
        0 <= i <= n <= inputs.len(),
    ensures
        archive_body(inputs, i).len() <= archive_body(inputs, n).len(),
    decreases n - i,
{
    if i < n {
        lemma_body_grows(inputs, i, n - 1);
    }
}

/// What is written for the first entries does not depend on the others.
proof fn lemma_body_of_first(inputs: Seq<ArchiveInput>, i: int, n: int)
    requires
        0 <= i <= n <= inputs.len(),
    ensures
        archive_body(inputs.take(n), i) == archive_body(inputs, i),
    decreases i,
{
    if i > 0 {
        lemma_body_of_first(inputs, i - 1, n);
    }
}

/// Where entries can stand one behind the other, so can the first of them.
proof fn lemma_first_entries_fit(prepared: Seq<PreparedPayload>, n: int)
    requires
        0 <= n <= prepared.len(),
        entries_fit(prepared),
    ensures
        entries_fit(prepared.take(n)),
{
    let inputs = prepared_inputs(prepared);
    let first = prepared_inputs(prepared.take(n));
    assert(first =~= inputs.take(n));
    lemma_uncompressed_grows(prepared, n);
    lemma_body_grows(inputs, n, inputs.len() as int);
    lemma_body_of_first(inputs, n, n);
    assert forall|i: int| 0 <= i < first.len() implies (#[trigger] first[i]).name.len()
        <= 0xffff by {
        assert(first[i] == inputs[i]);
    }
}

/// An archive that is being put together.
pub struct ArchiveAssembly {
    pub state: ZipWriteState,
    pub bytes: Vec<u8>,
    pub entries: Ghost<Seq<PreparedPayload>>,
}

impl ArchiveAssembly {
    /// The entries so far stand one behind the other, and the directory to come
    /// says where.
    pub open spec fn wf(self) -> bool {
        let inputs = prepared_inputs(self.entries@);
        &&& self.state.records() == archive_records(inputs)
        &&& self.bytes@ == archive_body(inputs, inputs.len() as int)
        &&& self.state.offset == self.bytes@.len()
        &&& self.state.stats.entries == self.entries@.len()
        &&& self.state.stats.input_bytes == uncompressed_total(self.entries@)
        &&& entries_fit(self.entries@)
    }

    /// Starts without entries.
    pub fn new() -> (assembly: Self)
        ensures
            assembly.wf(),
            assembly.entries@ == Seq::<PreparedPayload>::empty(),
    {
        let assembly = ArchiveAssembly {
            state: ZipWriteState::default(),
            bytes: Vec::new(),
            entries: Ghost(Seq::empty()),
        };
        proof {
            let inputs = prepared_inputs(assembly.entries@);
            assert(assembly.state.records() =~= archive_records(inputs));
            assert(assembly.bytes@ =~= archive_body(inputs, 0));
        }
        assembly
    }

    /// Puts an entry behind the others.
    pub fn push(self, prepared: PreparedPayload) -> (r: Result<Self, CoZipError>)
        requires
            self.wf(),
            prepared.entry.compressed_size == prepared.payload@.len(),
            self.entries@.len() < usize::MAX,
        ensures
            match r {
                Ok(next) => next.wf() && next.entries@ == self.entries@.push(prepared),
                Err(error) => {
                    &&& error == CoZipError::DataTooLarge
                    &&& !entries_fit(self.entries@.push(prepared))
                },
            },
    {
        let mut next = self;
        let ghost before = self.entries@;
        let ghost all = before.push(prepared);
        let ghost inputs = prepared_inputs(before);
        let ghost input = prepared_input(prepared);
        proof {
            assert(prepared_inputs(all) =~= inputs.push(input));
            law_archive_grows(inputs, input);
            assert(all.drop_last() =~= before);
            lemma_entry_len(prepared);
            assert(prepared_inputs(all)[before.len() as int] == input);
        }
        match next.state.write_precompressed_entry(
            &mut next.bytes,
            &prepared.entry,
            prepared.payload.as_slice(),
        ) {
            Ok(_) => {},
            Err(error) => {
                return Err(error);
            },
        }
        next.entries = Ghost(all);
        proof {
            assert(next.bytes@ =~= self.bytes@ + input_bytes(input));
            let grown = prepared_inputs(all);
            assert forall|i: int| 0 <= i < grown.len() implies (#[trigger] grown[i]).name.len()
                <= 0xffff by {
                if i < inputs.len() {
                    assert(grown[i] == inputs[i]);
                }
            }
        }
        Ok(next)
    }

    /// Puts the directory behind the entries. Returns the archive and the totals.
    pub fn finish(self) -> (r: Result<(Vec<u8>, CoZipStats), CoZipError>)
        requires
            self.wf(),
        ensures
            assembled(r, self.entries@, can_assemble(self.entries@)),
    {
        let mut bytes = self.bytes;
        match self.state.finish(&mut bytes) {
            Ok(stats) => Ok((bytes, stats)),
            Err(error) => Err(error),
        }
    }
}

/// The archive of the entries came out exactly where it can be put together.
pub open spec fn assembled(
    r: Result<(Vec<u8>, CoZipStats), CoZipError>,
    prepared: Seq<PreparedPayload>,
    can: bool,
) -> bool {
    match r {
        Ok((bytes, stats)) => {
            &&& can
            &&& bytes@ == archive(prepared_inputs(prepared))
            &&& stats == (CoZipStats {
                entries: prepared.len() as usize,
                input_bytes: uncompressed_total(prepared) as u64,
                output_bytes: bytes@.len() as u64,
            })
        },
        Err(error) => error == CoZipError::DataTooLarge && !can,
    }
}

/// Puts prepared entries together into an archive, in their order. Fails where a
/// name, an index or a total does not fit its field.
pub fn assemble_archive(prepared: VecDeque<PreparedPayload>) -> (r: Result<
    (Vec<u8>, CoZipStats),
    CoZipError,
>)
    requires
        forall|i: int|
            0 <= i < prepared@.len() ==> (#[trigger] prepared@[i]).entry.compressed_size
                == prepared@[i].payload@.len(),
        prepared@.len() <= usize::MAX,
    ensures
        assembled(r, prepared@, can_assemble(prepared@)),
{
    let ghost all = prepared@;
    let mut left = prepared;
    let mut assembly = ArchiveAssembly::new();
    assert(left@ =~= all.skip(0));
    assert(assembly.entries@ =~= all.take(0));
    loop
        invariant
            all == prepared@,
            all.len() <= usize::MAX,
            assembly.wf(),
            assembly.entries@.len() <= all.len(),
            assembly.entries@ == all.take(assembly.entries@.len() as int),
            left@ == all.skip(assembly.entries@.len() as int),
            forall|i: int|
                0 <= i < all.len() ==> (#[trigger] all[i]).entry.compressed_size
                    == all[i].payload@.len(),
        decreases left@.len(),
    {
        let ghost n = assembly.entries@.len() as int;
        match left.pop_front() {
            Some(item) => {
                proof {
                    assert(item == all[n]);
                    assert(all.take(n).push(item) =~= all.take(n + 1));
                    assert(left@ =~= all.skip(n + 1));
                }
                match assembly.push(item) {
                    Ok(next) => {
                        assembly = next;
                    },
                    Err(error) => {
                        proof {
                            if entries_fit(all) {
                                lemma_first_entries_fit(all, n + 1);
                            }
                        }
                        return Err(error);
                    },
                }
            },
            None => {
                assert(all.take(n) =~= all);
                return assembly.finish();
            },
        }
    }
}

/// The number of bytes of an entry in front of the directory.
proof fn lemma_entry_len(prepared: PreparedPayload)
    ensures
        input_bytes(prepared_input(prepared)).len() == 54 + encode_utf8(prepared.entry.name@).len()
            + prepared.payload@.len(),
{
    broadcast use crate::le::group_le_len;

}

/// What a worker hands back for a file: its number, and the entry or a failure.
pub type FileResult = Result<PreparedPayload, CoZipError>;

/// The results by their numbers.
pub open spec fn by_number(arrivals: Seq<(usize, FileResult)>) -> Map<usize, FileResult>
    decreases arrivals.len(),
{
    if arrivals.len() == 0 {
        Map::empty()
    } else {
        by_number(arrivals.drop_last()).insert(arrivals.last().0, arrivals.last().1)
    }
}

/// Every file from the first to the last has come, once.
pub open spec fn all_arrived(arrivals: Seq<(usize, FileResult)>) -> bool {
    &&& arrivals.len() < usize::MAX
    &&& forall|i: usize| #[trigger]
        by_number(arrivals).contains_key(i) <==> i < arrivals.len()
    &&& forall|j: int, k: int|
        0 <= j < k < arrivals.len() ==> (#[trigger] arrivals[j]).0 != (#[trigger] arrivals[k]).0
}

/// The results in the order of the files.
pub open spec fn in_file_order(arrivals: Seq<(usize, FileResult)>) -> Seq<FileResult> {
    Seq::new(arrivals.len(), |i: int| by_number(arrivals)[i as usize])
}

/// The first `n` results are entries.
pub open spec fn prepared_up_to(ordered: Seq<FileResult>, n: int) -> bool {
    forall|i: int| 0 <= i < n ==> (#[trigger] ordered[i]) is Ok
}

/// The entries among the first `n` results, all of which are entries.
pub open spec fn entries_up_to(ordered: Seq<FileResult>, n: int) -> Seq<PreparedPayload> {
    Seq::new(n as nat, |i: int| ordered[i]->Ok_0)
}

/// File `i` is the first, in the order of the files, that failed or did not fit.
pub open spec fn stops_at(ordered: Seq<FileResult>, i: int, error: CoZipError) -> bool {
    &&& 0 <= i < ordered.len()
    &&& prepared_up_to(ordered, i)
    &&& entries_fit(entries_up_to(ordered, i))
    &&& match ordered[i] {
        Err(failure) => error == failure,
        Ok(_) => error == CoZipError::DataTooLarge && !entries_fit(entries_up_to(ordered, i + 1)),
    }
}

/// What compressing a directory comes to: the archive of its files, or the
/// failure of the first file that has one.
pub open spec fn directory_assembled(
    r: Result<(Vec<u8>, CoZipStats), CoZipError>,
    ordered: Seq<FileResult>,
) -> bool {
    let n = ordered.len() as int;
    let entries = entries_up_to(ordered, n);
    if prepared_up_to(ordered, n) && can_assemble(entries) {
        assembled(r, entries, true)
    } else {
        &&& r matches Err(error)
        &&& {
            ||| exists|i: int| #[trigger] stops_at(ordered, i, error)
            ||| prepared_up_to(ordered, n) && error == CoZipError::DataTooLarge
        }
    }
}

proof fn lemma_by_number_keeps(arrivals: Seq<(usize, FileResult)>, k: int, i: usize)
    requires
        0 <= k <= arrivals.len(),
        forall|a: int, b: int|
            0 <= a < b < arrivals.len() ==> (#[trigger] arrivals[a]).0
                != (#[trigger] arrivals[b]).0,
        by_number(arrivals.take(k)).contains_key(i),
    ensures
        by_number(arrivals).contains_key(i),
        by_number(arrivals)[i] == by_number(arrivals.take(k))[i],
    decreases arrivals.len() - k,
{
    if k < arrivals.len() {
        let more = arrivals.take(k + 1);
        assert(more.drop_last() =~= arrivals.take(k));
        let j = lemma_number_has_arrival(arrivals.take(k), i);
        assert(arrivals[j].0 == i);
        assert(arrivals[j].0 != arrivals[k].0);
        lemma_by_number_keeps(arrivals, k + 1, i);
    } else {
        assert(arrivals.take(k) =~= arrivals);
    }
}

proof fn lemma_number_has_arrival(arrivals: Seq<(usize, FileResult)>, i: usize) -> (j: int)
    requires
        by_number(arrivals).contains_key(i),
    ensures
        0 <= j < arrivals.len(),
        arrivals[j].0 == i,
    decreases arrivals.len(),
{
    if arrivals.last().0 == i {
        arrivals.len() - 1
    } else {
        lemma_number_has_arrival(arrivals.drop_last(), i)
    }
}

proof fn lemma_by_number_last(arrivals: Seq<(usize, FileResult)>)
    requires
        arrivals.len() > 0,
    ensures
        by_number(arrivals).contains_key(arrivals.last().0),
{
}

/// What was released are the first results in the order of the files.
proof fn lemma_released_are_ordered(
    buffer: ReorderBuffer<FileResult>,
    arrivals: Seq<(usize, FileResult)>,
    k: int,
)
    requires
        buffer.wf(),
        all_arrived(arrivals),
        0 <= k <= arrivals.len(),
        buffer.got@ == by_number(arrivals.take(k)),
    ensures
        buffer.released@.len() <= arrivals.len(),
        forall|i: int|
            0 <= i < buffer.released@.len() ==> (#[trigger] buffer.released@[i])
                == in_file_order(arrivals)[i],
{
    let n = buffer.released@.len() as int;
    if n > 0 {
        let number = (n - 1) as usize;
        assert(buffer.got@.contains_key(number));
        lemma_by_number_keeps(arrivals, k, number);
        assert(number < arrivals.len());
    }
    assert forall|i: int| 0 <= i < n implies (#[trigger] buffer.released@[i]) == in_file_order(
        arrivals,
    )[i] by {
        let number = i as usize;
        assert(buffer.got@.contains_key(number));
        lemma_by_number_keeps(arrivals, k, number);
    }
}

/// Where a file failed or did not fit, there is no archive.
proof fn lemma_stop_is_final(ordered: Seq<FileResult>, error: CoZipError)
    requires
        exists|i: int| #[trigger] stops_at(ordered, i, error),
    ensures
        !(prepared_up_to(ordered, ordered.len() as int) && can_assemble(
            entries_up_to(ordered, ordered.len() as int),
        )),
{
    let n = ordered.len() as int;
    let i = choose|i: int| #[trigger] stops_at(ordered, i, error);
    if prepared_up_to(ordered, n) && can_assemble(entries_up_to(ordered, n)) {
        assert(ordered[i] is Ok);
        lemma_first_entries_fit(entries_up_to(ordered, n), i + 1);
        assert(entries_up_to(ordered, n).take(i + 1) =~= entries_up_to(ordered, i + 1));
    }
}

/// Every entry among the results has its size.
pub open spec fn sizes_hold(ordered: Seq<FileResult>) -> bool {
    forall|i: int|
        0 <= i < ordered.len() && (#[trigger] ordered[i]) is Ok
            ==> ordered[i]->Ok_0.entry.compressed_size == ordered[i]->Ok_0.payload@.len()
}

proof fn lemma_sizes_hold(arrivals: Seq<(usize, FileResult)>)
    requires
        all_arrived(arrivals),
        forall|k: int|
            0 <= k < arrivals.len() && (#[trigger] arrivals[k]).1 is Ok ==> arrivals[k].1->Ok_0
                .entry.compressed_size == arrivals[k].1->Ok_0.payload@.len(),
    ensures
        sizes_hold(in_file_order(arrivals)),
{
    let ordered = in_file_order(arrivals);
    assert forall|i: int|
        0 <= i < ordered.len() && (#[trigger] ordered[i]) is Ok implies ordered[i]->Ok_0
        .entry.compressed_size == ordered[i]->Ok_0.payload@.len() by {
        let number = i as usize;
        assert(by_number(arrivals).contains_key(number));
        let j = lemma_number_has_arrival(arrivals, number);
        let first = arrivals.take(j + 1);
        assert(first.drop_last() =~= arrivals.take(j));
        assert(first.last() == arrivals[j]);
        assert(by_number(first)[number] == arrivals[j].1);
        lemma_by_number_keeps(arrivals, j + 1, number);
        assert(ordered[i] == arrivals[j].1);
    }
}

/// The result that came for a file stands at the place of the file.
pub proof fn lemma_arrival_is_placed(arrivals: Seq<(usize, FileResult)>, k: int)
    requires
        0 <= k < arrivals.len(),
        forall|a: int, b: int|
            0 <= a < b < arrivals.len() ==> (#[trigger] arrivals[a]).0
                != (#[trigger] arrivals[b]).0,
        arrivals[k].0 < arrivals.len(),
    ensures
        in_file_order(arrivals)[arrivals[k].0 as int] == arrivals[k].1,
{
    let first = arrivals.take(k + 1);
    assert(first.last() == arrivals[k]);
    assert(by_number(first)[arrivals[k].0] == arrivals[k].1);
    lemma_by_number_keeps(arrivals, k + 1, arrivals[k].0);
}

/// Puts results whose turn has come behind the entries so far.
fn push_ready(
    assembly: ArchiveAssembly,
    ready: VecDeque<FileResult>,
    ordered: Ghost<Seq<FileResult>>,
) -> (r: Result<ArchiveAssembly, CoZipError>)
    requires
        assembly.wf(),
        prepared_up_to(ordered@, assembly.entries@.len() as int),
        assembly.entries@ == entries_up_to(ordered@, assembly.entries@.len() as int),
        assembly.entries@.len() + ready@.len() <= ordered@.len(),
        ordered@.len() < usize::MAX,
        ready@ == ordered@.subrange(
            assembly.entries@.len() as int,
            (assembly.entries@.len() + ready@.len()) as int,
        ),
        sizes_hold(ordered@),
    ensures
        match r {
            Ok(next) => {
                let n = (assembly.entries@.len() + ready@.len()) as int;
                &&& next.wf()
                &&& prepared_up_to(ordered@, n)
                &&& next.entries@ == entries_up_to(ordered@, n)
            },
            Err(error) => exists|i: int| #[trigger] stops_at(ordered@, i, error),
        },
{
    let ghost n = (assembly.entries@.len() + ready@.len()) as int;
    let mut grown = assembly;
    let mut left = ready;
    loop
        invariant
            grown.wf(),
            n == assembly.entries@.len() + ready@.len(),
            n <= ordered@.len() < usize::MAX,
            grown.entries@.len() <= n,
            prepared_up_to(ordered@, grown.entries@.len() as int),
            grown.entries@ == entries_up_to(ordered@, grown.entries@.len() as int),
            left@ == ordered@.subrange(grown.entries@.len() as int, n),
            sizes_hold(ordered@),
        decreases left@.len(),
    {
        let ghost at = grown.entries@.len() as int;
        match left.pop_front() {
            None => {
                assert(at == n);
                return Ok(grown);
            },
            Some(result) => {
                assert(result == ordered@[at]);
                match result {
                    Err(error) => {
                        assert(stops_at(ordered@, at, error));
                        return Err(error);
                    },
                    Ok(prepared) => {
                        proof {
                            assert(entries_up_to(ordered@, at).push(prepared) =~= entries_up_to(
                                ordered@,
                                at + 1,
                            ));
                            assert(left@ =~= ordered@.subrange(at + 1, n));
                        }
                        match grown.push(prepared) {
                            Ok(next) => {
                                grown = next;
                            },
                            Err(error) => {
                                assert(stops_at(ordered@, at, error));
                                return Err(error);
                            },
                        }
                    },
                }
            },
        }
    }
}

/// Puts the archive of a directory together from the results of its files, which
/// come in any order.
pub fn assemble_directory(arrivals: VecDeque<(usize, FileResult)>) -> (r: Result<
    (Vec<u8>, CoZipStats),
    CoZipError,
>)
    requires
        all_arrived(arrivals@),
        forall|k: int|
            0 <= k < arrivals@.len() && (#[trigger] arrivals@[k]).1 is Ok ==> arrivals@[k].1->Ok_0
                .entry.compressed_size == arrivals@[k].1->Ok_0.payload@.len(),
    ensures
        directory_assembled(r, in_file_order(arrivals@)),
{
    let ghost all = arrivals@;
    let ghost ordered = in_file_order(all);
    let mut left = arrivals;
    let mut buffer: ReorderBuffer<FileResult> = ReorderBuffer::new();
    let mut assembly = ArchiveAssembly::new();
    let ghost mut k: int = 0;
    proof {
        assert(left@ =~= all.skip(0));
        assert(buffer.got@ =~= by_number(all.take(0)));
        assert(assembly.entries@ =~= entries_up_to(ordered, 0));
        lemma_sizes_hold(all);
    }
    loop
        invariant
            all == arrivals@,
            ordered == in_file_order(all),
            all_arrived(all),
            sizes_hold(ordered),
            0 <= k <= all.len(),
            left@ == all.skip(k),
            buffer.wf(),
            buffer.got@ == by_number(all.take(k)),
            assembly.wf(),
            prepared_up_to(ordered, buffer.released@.len() as int),
            buffer.released@.len() <= all.len(),
            assembly.entries@ == entries_up_to(ordered, buffer.released@.len() as int),
        decreases left@.len(),
    {
        let ghost first = buffer.released@.len() as int;
        match left.pop_front() {
            None => {
                proof {
                    assert(all.take(k) =~= all);
                    law_reorder_releases_in_order(buffer, all.len() as usize);
                }
                return assembly.finish();
            },
            Some((index, result)) => {
                proof {
                    assert((index, result) == all[k]);
                    assert(all.take(k + 1).drop_last() =~= all.take(k));
                    assert(left@ =~= all.skip(k + 1));
                    lemma_by_number_last(all.take(k + 1));
                    lemma_by_number_keeps(all, k + 1, index);
                    assert(index < all.len());
                    if by_number(all.take(k)).contains_key(index) {
                        let j = lemma_number_has_arrival(all.take(k), index);
                        assert(all[j].0 == index);
                    }
                }
                let ready = buffer.accept(index, result);
                proof {
                    k = k + 1;
                    lemma_released_are_ordered(buffer, all, k);
                    assert forall|j: int| 0 <= j < ready@.len() implies (#[trigger] ready@[j])
                        == ordered[first + j] by {
                        assert(buffer.released@[first + j] == ready@[j]);
                    }
                    assert(ready@ =~= ordered.subrange(first, first + ready@.len()));
                }
                match push_ready(assembly, ready, Ghost(ordered)) {
                    Ok(next) => {
                        assembly = next;
                    },
                    Err(error) => {
                        proof {
                            lemma_stop_is_final(ordered, error);
                        }
                        return Err(error);
                    },
                }
            },
        }
    }
}

/// The archive of a directory gives its files back: under their names, in their
/// order, with the compressed bytes, checksums, sizes and indexes that were put in.
/// Left out are files of 4294967295 compressed bytes: the directory's number then
/// asks for a ZIP64 field in the local header, which has none.
pub proof fn law_directory_archive_reads_back(prepared: Seq<PreparedPayload>, i: int)
    requires
        can_assemble(prepared),
        prepared.len() <= usize::MAX,
        44 + zip64_extension(archive_records(prepared_inputs(prepared))).len() <= usize::MAX,
        0 <= i < prepared.len(),
        prepared[i].payload@.len() != u32::MAX,
        prepared[i].payload@.len() <= usize::MAX,
    ensures
        ({
            let file = archive(prepared_inputs(prepared));
            &&& read_directory(file) matches Ok(records)
            &&& records.len() == prepared.len()
            &&& records[i].name == prepared[i].entry.name@
            &&& records[i].method == DEFLATE_METHOD
            &&& records[i].gp_flags == GP_FLAGS_WRITTEN
            &&& records[i].crc == prepared[i].entry.crc
            &&& records[i].uncompressed_size == prepared[i].entry.uncompressed_size
            &&& records[i].blob == opt_bytes(prepared[i].entry.czdi_blob)
            &&& records[i].compressed_size == prepared[i].payload@.len()
            &&& compressed_payload(
                file,
                records[i].local_header_offset,
                records[i].compressed_size,
            ) == Ok::<Seq<u8>, CoZipError>(prepared[i].payload@)
        }),
{
    let inputs = prepared_inputs(prepared);
    let records = archive_records(inputs);
    let file = archive(inputs);
    let n = inputs.len() as int;
    assert(inputs[i] == prepared_input(prepared[i]));
    assert(file.len() <= u64::MAX);
    assert(read_directory(file) == Ok::<Seq<ReadRecord>, CoZipError>(
        read_back_all(records, n),
    )) by {
        assert forall|j: int| 0 <= j < inputs.len() implies valid_utf8(
            (#[trigger] inputs[j]).name,
        ) by {
            encode_utf8_valid_utf8(prepared[j].entry.name@);
        }
        law_archive_roundtrip(inputs);
    }
    assert(read_back_all(records, n)[i] == read_back(records[i]));
    assert(compressed_payload(
        file,
        records[i].local_header_offset,
        records[i].compressed_size,
    ) == Ok::<Seq<u8>, CoZipError>(inputs[i].payload)) by {
        law_payload_roundtrip(inputs, i);
    }
    encode_utf8_decode_utf8(prepared[i].entry.name@);
}

proof fn lemma_capped_total(a: Seq<u64>, b: Seq<u64>)
    ensures
        capped_total(a + b) == if capped_total(a) + capped_total(b) > u64::MAX {
            u64::MAX as int
        } else {
            capped_total(a) + capped_total(b)
        },
    decreases b.len(),
{
    if b.len() == 0 {
        assert(a + b =~= a);
    } else {
        lemma_capped_total(a, b.drop_last());
        assert((a + b).drop_last() =~= a + b.drop_last());
    }
}

/// The length of a file counts as it is, and files together have the sum of their
/// lengths, or the largest number where it does not fit.
pub proof fn law_file_lengths_add_up(
    a: &[u64],
    b: &[u64],
    both: &[u64],
    total_a: u64,
    total_b: u64,
    total: u64,
)
    requires
        call_ensures(total_file_len, (a,), total_a),
        call_ensures(total_file_len, (b,), total_b),
        call_ensures(total_file_len, (both,), total),
        both@ == a@ + b@,
    ensures
        a@.len() == 0 ==> total_a == 0,
        a@.len() == 1 ==> total_a == a@[0],
        total_a + total_b <= u64::MAX ==> total == total_a + total_b,
        total_a + total_b > u64::MAX ==> total == u64::MAX,
{
    lemma_capped_total(a@, b@);
    reveal_with_fuel(capped_total, 2);
}

/// Two gigabytes are shared out evenly among the workers, but none has less than four
/// megabytes. No worker counts as one.
pub proof fn law_backlog_is_shared_out(threads: usize, bytes: u64)
    requires
        call_ensures(per_task_backlog, (threads,), bytes),
    ensures
        bytes >= 4 * 1024 * 1024,
        threads >= 1 && bytes > 4 * 1024 * 1024 ==> bytes * threads <= 2 * 1024 * 1024 * 1024 < (
        bytes + 1) * threads,
        threads >= 1 && bytes == 4 * 1024 * 1024 ==> (bytes + 1) * threads > 2 * 1024 * 1024 * 1024,
        threads == 0 ==> bytes == 2 * 1024 * 1024 * 1024,
{
    let n = threads as int;
    assert(0x8000_0000u64 / 1u64 == 0x8000_0000);
    if n >= 1 {
        let share = 0x8000_0000int / n;
        vstd::arithmetic::div_mod::lemma_fundamental_div_mod(0x8000_0000, n);
        assert(share * n <= 0x8000_0000 < (share + 1) * n) by (nonlinear_arith)
            requires
                n >= 1,
                0x8000_0000 == n * share + 0x8000_0000int % n,
                0 <= 0x8000_0000int % n < n,
        ;
        if share < bytes {
            assert((share + 1) * n <= (bytes + 1) * n) by (nonlinear_arith)
                requires
                    n >= 1,
                    share < bytes,
            ;
        }
    }
}

/// What has come goes on once everything before it has come, each result as it was
/// handed over: a result that came too early waits, and one that was waited for goes on
/// at once.
pub proof fn law_results_wait_for_their_turn<T>(
    buffer: &mut ReorderBuffer<T>,
    index: usize,
    item: T,
    ready: VecDeque<T>,
)
    requires
        old(buffer).wf(),
        index >= old(buffer).next_index,
        !old(buffer).pending@.contains_key(index),
        index < usize::MAX,
        call_ensures(ReorderBuffer::<T>::accept, (buffer, index, item), ready),
    ensures
        index > old(buffer).next_index ==> ready@.len() == 0,
        index == old(buffer).next_index ==> ready@.len() >= 1 && ready@[0] == item,
        final(buffer).next_index == old(buffer).next_index + ready@.len(),
{
    let next = old(buffer).next_index;
    let after = *final(buffer);
    assert(after.got@.contains_key(index));
    assert(after.got@.contains_key(next) == (index == next));
    assert(after.released@ == old(buffer).released@ + ready@);
    if index == next {
        assert(after.next_index != index);
        assert(after.released@[index as int] == item);
    }
}

} // verus!
