//! Extracting a ZIP archive into a directory: what is created for each entry, who
//! takes which file, and what comes of it all.

use std::collections::VecDeque;

use vstd::prelude::*;

use crate::error::CoZipError;
use crate::formats::{
    file_count, is_dir_name, is_directory_name, lemma_stands_for_file, stands_for_file,
};
use crate::paths::{entry_path_from_zip_name, name_parts, texts_of, PathStyle};
use crate::progress::capped_sum;
use crate::types::CoZipStats;
use crate::zip_read::{read_records, ReadRecord, ZipCentralReadEntry};

verus! {

/// The sizes of the records that stand for files, added up.
pub open spec fn file_bytes(records: Seq<ReadRecord>) -> nat
    decreases records.len(),
{
    if records.len() == 0 {
        0
    } else {
        file_bytes(records.drop_last()) + if is_dir_name(records.last().name) {
            0nat
        } else {
            records.last().uncompressed_size as nat
        }
    }
}

proof fn lemma_file_bytes_grow(records: Seq<ReadRecord>, n: int)
    requires
        0 <= n <= records.len(),
    ensures
        file_bytes(records.take(n)) <= file_bytes(records),
    decreases records.len() - n,
{
    if n < records.len() {
        lemma_file_bytes_grow(records, n + 1);
        assert(records.take(n + 1).drop_last() =~= records.take(n));
    } else {
        assert(records.take(n) =~= records);
    }
}

/// Counts the files of an archive.
pub fn total_files(entries: &[ZipCentralReadEntry]) -> (total: usize)
    ensures
        total == file_count(read_records(entries@)),
{
    let ghost records = read_records(entries@);
    let mut total: usize = 0;
    let mut i: usize = 0;
    assert(records.take(0) =~= Seq::<ReadRecord>::empty());
    while i < entries.len()
        invariant
            i <= entries@.len(),
            records == read_records(entries@),
            total == file_count(records.take(i as int)),
            total <= i,
        decreases entries@.len() - i,
    {
        proof {
            let prefix = records.take(i + 1);
            assert(prefix.drop_last() =~= records.take(i as int));
            assert(prefix.last() == entries@[i as int]@);
        }
        if !is_directory_name(entries[i].name.as_str()) {
            total = total + 1;
        }
        i = i + 1;
    }
    assert(records.take(i as int) =~= records);
    total
}

/// Adds up the sizes of the files of an archive. `None` where the sum does not fit.
pub fn total_file_bytes(entries: &[ZipCentralReadEntry]) -> (total: Option<u64>)
    ensures
        match total {
            Some(total) => total == file_bytes(read_records(entries@)),
            None => file_bytes(read_records(entries@)) > u64::MAX,
        },
{
    let ghost records = read_records(entries@);
    let mut total: u64 = 0;
    let mut i: usize = 0;
    assert(records.take(0) =~= Seq::<ReadRecord>::empty());
    while i < entries.len()
        invariant
            i <= entries@.len(),
            records == read_records(entries@),
            total == file_bytes(records.take(i as int)),
        decreases entries@.len() - i,
    {
        proof {
            assert(records.take(i + 1).drop_last() =~= records.take(i as int));
            lemma_file_bytes_grow(records, i + 1);
        }
        if !is_directory_name(entries[i].name.as_str()) {
            match total.checked_add(entries[i].uncompressed_size) {
                Some(sum) => {
                    total = sum;
                },
                None => {
                    return None;
                },
            }
        }
        i = i + 1;
    }
    assert(records.take(i as int) =~= records);
    Some(total)
}

/// A file to be extracted: which entry, where to, and the slot in which its
/// unwritten bytes are counted, where it has one.
#[derive(Debug, Clone)]
pub struct ZipExtractFileTask {
    pub entry_index: usize,
    pub path: Vec<String>,
    pub backlog_slot: Option<usize>,
}

/// What is done for an entry. A path is a list of names below the output
/// directory.
#[derive(Debug, Clone)]
pub enum ExtractStep {
    CreateDir { path: Vec<String> },
    ExtractFile { task: ZipExtractFileTask },
}

/// The files with an index among the first `n` records.
pub open spec fn indexed_files(records: Seq<ReadRecord>, indexed: Seq<bool>, n: int) -> nat
    decreases n,
{
    if n <= 0 {
        0
    } else {
        indexed_files(records, indexed, n - 1) + if !is_dir_name(records[n - 1].name)
            && indexed[n - 1] {
            1nat
        } else {
            0nat
        }
    }
}

/// The step is what record `i` calls for: a directory is created, a file is
/// extracted, and the files with an index are given slots in their order.
pub open spec fn is_step_of(
    step: ExtractStep,
    records: Seq<ReadRecord>,
    indexed: Seq<bool>,
    i: int,
    style: PathStyle,
) -> bool {
    match step {
        ExtractStep::CreateDir { path } => {
            &&& is_dir_name(records[i].name)
            &&& name_parts(records[i].name, style) == Ok::<Seq<Seq<char>>, CoZipError>(
                texts_of(path@),
            )
        },
        ExtractStep::ExtractFile { task } => {
            &&& !is_dir_name(records[i].name)
            &&& task.entry_index == i
            &&& name_parts(records[i].name, style) == Ok::<Seq<Seq<char>>, CoZipError>(
                texts_of(task.path@),
            )
            &&& task.backlog_slot == if indexed[i] {
                Some(indexed_files(records, indexed, i) as usize)
            } else {
                None::<usize>
            }
        },
    }
}

/// What is done for the entries of an archive. Where an entry's name leads out of
/// the output directory, the plan ends before it and holds the failure.
#[derive(Debug)]
pub struct ExtractPlan {
    pub steps: Vec<ExtractStep>,
    pub slots: usize,
    pub failure: Option<CoZipError>,
}

proof fn lemma_indexed_files_bounded(records: Seq<ReadRecord>, indexed: Seq<bool>, n: int)
    requires
        0 <= n,
    ensures
        indexed_files(records, indexed, n) <= n,
    decreases n,
{
    if n > 0 {
        lemma_indexed_files_bounded(records, indexed, n - 1);
    }
}

/// Plans the extraction of an archive. `indexed` says for each entry whether it
/// has an index; names are read by the rules of a system.
pub fn plan_extraction(
    entries: &[ZipCentralReadEntry],
    indexed: &[bool],
    style: PathStyle,
) -> (plan: ExtractPlan)
    requires
        indexed@.len() == entries@.len(),
    ensures
        ({
            let records = read_records(entries@);
            let n = plan.steps@.len() as int;
            &&& n <= records.len()
            &&& forall|i: int|
                0 <= i < n ==> is_step_of(
                    #[trigger] plan.steps@[i],
                    records,
                    indexed@,
                    i,
                    style,
                )
            &&& plan.slots == indexed_files(records, indexed@, n)
            &&& match plan.failure {
                Some(error) => n < records.len() && name_parts(records[n].name, style) == Err::<
                    Seq<Seq<char>>,
                    CoZipError,
                >(error),
                None => n == records.len(),
            }
        }),
{
    let ghost records = read_records(entries@);
    let mut steps: Vec<ExtractStep> = Vec::new();
    let mut slots: usize = 0;
    let mut i: usize = 0;
    while i < entries.len()
        invariant
            i <= entries@.len(),
            i == steps@.len(),
            indexed@.len() == entries@.len(),
            entries@.len() == entries.len(),
            records == read_records(entries@),
            forall|j: int|
                0 <= j < i ==> is_step_of(#[trigger] steps@[j], records, indexed@, j, style),
            slots == indexed_files(records, indexed@, i as int),
        decreases entries@.len() - i,
    {
        proof {
            lemma_indexed_files_bounded(records, indexed@, i as int);
        }
        let path = match entry_path_from_zip_name(entries[i].name.as_str(), style) {
            Ok(path) => path,
            Err(error) => {
                return ExtractPlan { steps, slots, failure: Some(error) };
            },
        };
        if is_directory_name(entries[i].name.as_str()) {
            steps.push(ExtractStep::CreateDir { path });
        } else {
            let mut backlog_slot: Option<usize> = None;
            if indexed[i] {
                backlog_slot = Some(slots);
                slots = slots + 1;
            }
            steps.push(
                ExtractStep::ExtractFile {
                    task: ZipExtractFileTask { entry_index: i, path, backlog_slot },
                },
            );
        }
        i = i + 1;
    }
    ExtractPlan { steps, slots, failure: None }
}

/// No two files share a slot, and every slot given is below the number of slots.
pub proof fn law_slots_are_distinct(
    records: Seq<ReadRecord>,
    indexed: Seq<bool>,
    i: int,
    j: int,
    n: int,
)
    requires
        0 <= i < j < n <= records.len(),
        indexed.len() == records.len(),
        !is_dir_name(records[i].name),
        !is_dir_name(records[j].name),
        indexed[i],
        indexed[j],
    ensures
        indexed_files(records, indexed, i) < indexed_files(records, indexed, j),
        indexed_files(records, indexed, j) < indexed_files(records, indexed, n),
{
    lemma_indexed_files_grow(records, indexed, i + 1, j);
    lemma_indexed_files_grow(records, indexed, j + 1, n);
}

proof fn lemma_indexed_files_grow(records: Seq<ReadRecord>, indexed: Seq<bool>, i: int, j: int)
    requires
        0 <= i <= j,
    ensures
        indexed_files(records, indexed, i) <= indexed_files(records, indexed, j),
    decreases j - i,
{
    if i < j {
        lemma_indexed_files_grow(records, indexed, i, j - 1);
    }
}

/// The first failure among results.
pub open spec fn first_failure(results: Seq<Result<u64, CoZipError>>) -> Option<CoZipError>
    decreases results.len(),
{
    if results.len() == 0 {
        None
    } else {
        match first_failure(results.drop_last()) {
            Some(error) => Some(error),
            None => match results.last() {
                Ok(_) => None,
                Err(error) => Some(error),
            },
        }
    }
}

/// How many results are successes.
pub open spec fn successes(results: Seq<Result<u64, CoZipError>>) -> nat
    decreases results.len(),
{
    if results.len() == 0 {
        0
    } else {
        successes(results.drop_last()) + if results.last() is Ok {
            1nat
        } else {
            0nat
        }
    }
}

/// The bytes that the successes wrote, added up as far as the number goes.
pub open spec fn written_bytes(results: Seq<Result<u64, CoZipError>>) -> u64
    decreases results.len(),
{
    if results.len() == 0 {
        0
    } else {
        match results.last() {
            Ok(written) => capped_sum(written_bytes(results.drop_last()), written),
            Err(_) => written_bytes(results.drop_last()),
        }
    }
}

/// What an extraction comes to: the first failure, else the files and bytes
/// written.
pub open spec fn extraction_outcome(
    results: Seq<Result<u64, CoZipError>>,
    input_len: u64,
) -> Result<CoZipStats, CoZipError> {
    match first_failure(results) {
        Some(error) => Err(error),
        None => Ok(
            CoZipStats {
                entries: successes(results) as usize,
                input_bytes: input_len,
                output_bytes: written_bytes(results),
            },
        ),
    }
}

/// The files of an extraction that no worker has taken yet, and the results of
/// those that are done. Each worker takes a file, extracts it and reports; after a
/// failure the others go on with the files that are left.
pub struct ExtractLedger {
    pub waiting: VecDeque<ZipExtractFileTask>,
    pub failure: Option<CoZipError>,
    pub entries: usize,
    pub output_bytes: u64,
    pub taken: usize,
    pub results: Ghost<Seq<Result<u64, CoZipError>>>,
}

impl ExtractLedger {
    /// The counts are those of the results so far, and no more results came than
    /// files were taken.
    pub open spec fn wf(self) -> bool {
        &&& self.failure == first_failure(self.results@)
        &&& self.entries == successes(self.results@)
        &&& self.output_bytes == written_bytes(self.results@)
        &&& self.results@.len() <= self.taken
        &&& self.taken + self.waiting@.len() <= usize::MAX
    }

    /// Starts with the files of a plan, in their order.
    pub fn new(plan: ExtractPlan) -> (ledger: Self)
        ensures
            ledger.wf(),
            ledger.waiting@ == planned_tasks(plan.steps@),
            ledger.taken == 0,
            ledger.results@ == Seq::<Result<u64, CoZipError>>::empty(),
    {
        let mut waiting: VecDeque<ZipExtractFileTask> = VecDeque::new();
        let ghost steps = plan.steps@;
        let n: usize = plan.steps.len();
        let mut left = plan.steps;
        assert(steps.skip(n as int) =~= Seq::<ExtractStep>::empty());
        assert(waiting@ =~= planned_tasks(steps.skip(n as int)));
        while left.len() > 0
            invariant
                left@ == steps.take(left@.len() as int),
                left@.len() <= steps.len(),
                steps.len() == n,
                waiting@ == planned_tasks(steps.skip(left@.len() as int)),
                waiting@.len() <= n - left@.len(),
            decreases left@.len(),
        {
            let ghost before = left@.len() as int;
            if let Some(step) = left.pop() {
                proof {
                    assert(left@ =~= steps.take(before - 1));
                    assert(step == steps[before - 1]);
                    assert(steps.skip(before - 1).drop_first() =~= steps.skip(before));
                }
                match step {
                    ExtractStep::CreateDir { path: _ } => {},
                    ExtractStep::ExtractFile { task } => {
                        waiting.push_front(task);
                    },
                }
            }
        }
        assert(steps.skip(0) =~= steps);
        ExtractLedger {
            waiting,
            failure: None,
            entries: 0,
            output_bytes: 0,
            taken: 0,
            results: Ghost(Seq::empty()),
        }
    }

    /// Hands out the next file, where one is left.
    pub fn take(&mut self) -> (task: Option<ZipExtractFileTask>)
        requires
            old(self).wf(),
        ensures
            final(self).wf(),
            final(self).results@ == old(self).results@,
            match task {
                Some(task) => {
                    &&& old(self).waiting@.len() > 0
                    &&& task == old(self).waiting@[0]
                    &&& final(self).waiting@ == old(self).waiting@.skip(1)
                    &&& final(self).taken == old(self).taken + 1
                },
                None => {
                    &&& old(self).waiting@.len() == 0
                    &&& final(self).waiting@.len() == 0
                    &&& final(self).taken == old(self).taken
                },
            },
    {
        let ghost waiting = self.waiting@;
        match self.waiting.pop_front() {
            Some(task) => {
                assert(self.waiting@ =~= waiting.skip(1));
                self.taken = self.taken + 1;
                Some(task)
            },
            None => None,
        }
    }

    /// Takes down what came of a file that was handed out: the number of bytes
    /// written, or a failure.
    pub fn report(&mut self, result: Result<u64, CoZipError>)
        requires
            old(self).wf(),
            old(self).results@.len() < old(self).taken,
        ensures
            final(self).wf(),
            final(self).results@ == old(self).results@.push(result),
            final(self).waiting == old(self).waiting,
            final(self).taken == old(self).taken,
    {
        let ghost results = self.results@.push(result);
        proof {
            assert(results.drop_last() =~= self.results@);
            lemma_successes_bounded(self.results@);
        }
        self.results = Ghost(results);
        match result {
            Ok(written) => {
                self.entries = self.entries + 1;
                self.output_bytes = self.output_bytes.saturating_add(written);
            },
            Err(error) => {
                if self.failure.is_none() {
                    self.failure = Some(error);
                }
            },
        }
    }

    /// Ends the extraction of an archive of `input_len` bytes.
    pub fn finish(self, input_len: u64) -> (r: Result<CoZipStats, CoZipError>)
        requires
            self.wf(),
        ensures
            r == extraction_outcome(self.results@, input_len),
    {
        match self.failure {
            Some(error) => Err(error),
            None => Ok(
                CoZipStats {
                    entries: self.entries,
                    input_bytes: input_len,
                    output_bytes: self.output_bytes,
                },
            ),
        }
    }
}

/// The files of a plan, in their order.
pub open spec fn planned_tasks(steps: Seq<ExtractStep>) -> Seq<ZipExtractFileTask>
    decreases steps.len(),
{
    if steps.len() == 0 {
        Seq::empty()
    } else {
        match steps[0] {
            ExtractStep::CreateDir { path: _ } => planned_tasks(steps.drop_first()),
            ExtractStep::ExtractFile { task } => seq![task] + planned_tasks(steps.drop_first()),
        }
    }
}

proof fn lemma_successes_bounded(results: Seq<Result<u64, CoZipError>>)
    ensures
        successes(results) <= results.len(),
    decreases results.len(),
{
    if results.len() > 0 {
        lemma_successes_bounded(results.drop_last());
    }
}

/// An extraction succeeds exactly where every file does, and then counts every one
/// of them.
pub proof fn law_extraction_succeeds_with_its_files(
    results: Seq<Result<u64, CoZipError>>,
    input_len: u64,
)
    requires
        results.len() <= usize::MAX,
    ensures
        extraction_outcome(results, input_len) is Ok <==> forall|i: int|
            0 <= i < results.len() ==> (#[trigger] results[i]) is Ok,
        extraction_outcome(results, input_len) matches Ok(stats) ==> stats.entries
            == results.len(),
{
    lemma_first_failure(results);
}

/// Where an extraction fails, it does so with the first failure that was reported.
pub proof fn law_first_failure_wins(
    results: Seq<Result<u64, CoZipError>>,
    i: int,
    input_len: u64,
)
    requires
        0 <= i < results.len(),
        results[i] is Err,
        forall|j: int| 0 <= j < i ==> (#[trigger] results[j]) is Ok,
    ensures
        extraction_outcome(results, input_len) == Err::<CoZipStats, CoZipError>(
            results[i]->Err_0,
        ),
    decreases results.len(),
{
    let front = results.drop_last();
    if i < front.len() {
        law_first_failure_wins(front, i, input_len);
    } else {
        lemma_first_failure(front);
    }
}

proof fn lemma_first_failure(results: Seq<Result<u64, CoZipError>>)
    ensures
        first_failure(results) is None <==> forall|i: int|
            0 <= i < results.len() ==> (#[trigger] results[i]) is Ok,
        first_failure(results) is None ==> successes(results) == results.len(),
    decreases results.len(),
{
    if results.len() > 0 {
        let front = results.drop_last();
        lemma_first_failure(front);
        assert(results.last() == results[results.len() - 1]);
        assert forall|i: int| 0 <= i < front.len() implies (#[trigger] results[i]) == front[i] by {}
        if first_failure(results) is None {
            assert forall|i: int| 0 <= i < results.len() implies (#[trigger] results[i]) is Ok by {
                if i < front.len() {
                    assert(front[i] is Ok);
                }
            }
        } else if first_failure(front) is Some {
            let i = choose|i: int| 0 <= i < front.len() && !((#[trigger] front[i]) is Ok);
            assert(results[i] == front[i]);
        }
    }
}

/// The sum of numbers.
pub open spec fn exact_total(counts: Seq<u64>) -> nat
    decreases counts.len(),
{
    if counts.len() == 0 {
        0
    } else {
        exact_total(counts.drop_last()) + counts.last() as nat
    }
}

proof fn lemma_exact_total_grows(counts: Seq<u64>, n: int)
    requires
        0 <= n <= counts.len(),
    ensures
        exact_total(counts.take(n)) <= exact_total(counts),
    decreases counts.len() - n,
{
    if n < counts.len() {
        lemma_exact_total_grows(counts, n + 1);
        assert(counts.take(n + 1).drop_last() =~= counts.take(n));
    } else {
        assert(counts.take(n) =~= counts);
    }
}

/// The bytes that each of several files has decoded and not yet written.
#[derive(Debug, Clone)]
pub struct BacklogSlots {
    pub slots: Vec<u64>,
}

impl BacklogSlots {
    /// One empty slot for each of `count` files.
    pub fn new(count: usize) -> (backlog: Self)
        ensures
            backlog.slots@ == Seq::new(count as nat, |i: int| 0u64),
    {
        let mut slots: Vec<u64> = Vec::new();
        while slots.len() < count
            invariant
                slots@.len() <= count,
                forall|i: int| 0 <= i < slots@.len() ==> slots@[i] == 0,
            decreases count - slots@.len(),
        {
            slots.push(0);
        }
        BacklogSlots { slots }
    }

    /// Sets the number of bytes in a slot, where there is such a slot, and adds up
    /// all slots. `None` where the sum does not fit.
    pub fn report(&mut self, slot: usize, bytes: u64) -> (total: Option<u64>)
        ensures
            final(self).slots@ == if slot < old(self).slots@.len() {
                old(self).slots@.update(slot as int, bytes)
            } else {
                old(self).slots@
            },
            match total {
                Some(total) => total == exact_total(final(self).slots@),
                None => exact_total(final(self).slots@) > u64::MAX,
            },
    {
        if slot < self.slots.len() {
            self.slots.set(slot, bytes);
        }
        let ghost all = self.slots@;
        let mut total: u64 = 0;
        let mut i: usize = 0;
        assert(all.take(0) =~= Seq::<u64>::empty());
        while i < self.slots.len()
            invariant
                i <= all.len(),
                self.slots@ == all,
                all == if slot < old(self).slots@.len() {
                    old(self).slots@.update(slot as int, bytes)
                } else {
                    old(self).slots@
                },
                total == exact_total(all.take(i as int)),
            decreases all.len() - i,
        {
            proof {
                assert(all.take(i + 1).drop_last() =~= all.take(i as int));
                lemma_exact_total_grows(all, i + 1);
            }
            match total.checked_add(self.slots[i]) {
                Some(sum) => {
                    total = sum;
                },
                None => {
                    return None;
                },
            }
            i = i + 1;
        }
        assert(all.take(i as int) =~= all);
        Some(total)
    }
}

/// Every entry gets its step, in the order of the archive: a directory is created where
/// the name ends with a slash, a file is extracted where it does not, to the place that
/// the name says. Files with an index get slots of their own, and only those. Where a
/// name is refused, the entries before it have their steps and none behind it has.
pub proof fn law_every_entry_has_its_step(
    entries: &[ZipCentralReadEntry],
    indexed: &[bool],
    style: PathStyle,
    plan: ExtractPlan,
)
    requires
        indexed@.len() == entries@.len(),
        entries@.len() <= usize::MAX,
        call_ensures(plan_extraction, (entries, indexed, style), plan),
    ensures
        plan.steps@.len() <= entries@.len(),
        plan.failure is None <==> plan.steps@.len() == entries@.len(),
        plan.failure matches Some(error) ==> name_parts(
            entries@[plan.steps@.len() as int].name@,
            style,
        ) == Err::<Seq<Seq<char>>, CoZipError>(error),
        forall|i: int|
            0 <= i < plan.steps@.len() ==> match #[trigger] plan.steps@[i] {
                ExtractStep::CreateDir { path } => !stands_for_file(entries@[i]) && name_parts(
                    entries@[i].name@,
                    style,
                ) == Ok::<Seq<Seq<char>>, CoZipError>(texts_of(path@)),
                ExtractStep::ExtractFile { task } => {
                    &&& stands_for_file(entries@[i])
                    &&& task.entry_index == i
                    &&& name_parts(entries@[i].name@, style) == Ok::<Seq<Seq<char>>, CoZipError>(
                        texts_of(task.path@),
                    )
                    &&& task.backlog_slot is Some <==> indexed@[i]
                    &&& task.backlog_slot matches Some(slot) ==> slot < plan.slots
                },
            },
        forall|i: int, j: int|
            0 <= i < j < plan.steps@.len() ==> match (
                #[trigger] plan.steps@[i],
                #[trigger] plan.steps@[j],
            ) {
                (
                    ExtractStep::ExtractFile { task: a },
                    ExtractStep::ExtractFile { task: b },
                ) => a.backlog_slot is Some && b.backlog_slot is Some ==> a.backlog_slot->Some_0
                    < b.backlog_slot->Some_0,
                _ => true,
            },
{
    let records = read_records(entries@);
    let n = plan.steps@.len() as int;
    lemma_indexed_files_bounded(records, indexed@, n);
    assert forall|i: int| 0 <= i < entries@.len() implies stands_for_file(#[trigger] entries@[i])
        == !is_dir_name(records[i].name) by {
        lemma_stands_for_file(entries@[i]);
    }
    assert forall|i: int| 0 <= i < n implies is_step_of(
        #[trigger] plan.steps@[i],
        records,
        indexed@,
        i,
        style,
    ) && stands_for_file(entries@[i]) == !is_dir_name(records[i].name) && indexed_files(
        records,
        indexed@,
        i,
    ) <= i && (!is_dir_name(records[i].name) && indexed@[i] ==> indexed_files(records, indexed@, i)
        < plan.slots) by {
        lemma_indexed_files_bounded(records, indexed@, i);
        lemma_indexed_files_grow(records, indexed@, i + 1, n);
    }
    assert forall|i: int, j: int| 0 <= i < j < n implies match (
        #[trigger] plan.steps@[i],
        #[trigger] plan.steps@[j],
    ) {
        (ExtractStep::ExtractFile { task: a }, ExtractStep::ExtractFile { task: b }) =>
        a.backlog_slot is Some && b.backlog_slot is Some ==> a.backlog_slot->Some_0
            < b.backlog_slot->Some_0,
        _ => true,
    } by {
        assert(is_step_of(plan.steps@[i], records, indexed@, i, style));
        assert(is_step_of(plan.steps@[j], records, indexed@, j, style));
        if !is_dir_name(records[i].name) && !is_dir_name(records[j].name) && indexed@[i]
            && indexed@[j] {
            law_slots_are_distinct(records, indexed@, i, j, n);
        }
    }
}

/// Each entry that stands for a file adds one to the number of files and its size to
/// their bytes, and a directory adds nothing.
pub proof fn law_files_add_up(
    some: &[ZipCentralReadEntry],
    more: &[ZipCentralReadEntry],
    entry: ZipCentralReadEntry,
    few: usize,
    many: usize,
    less: Option<u64>,
    larger: Option<u64>,
)
    requires
        more@ == some@.push(entry),
        call_ensures(total_files, (some,), few),
        call_ensures(total_files, (more,), many),
        call_ensures(total_file_bytes, (some,), less),
        call_ensures(total_file_bytes, (more,), larger),
    ensures
        some@.len() == 0 ==> few == 0 && less == Some(0u64),
        many == few + if stands_for_file(entry) {
            1int
        } else {
            0
        },
        stands_for_file(entry) ==> match (less, larger) {
            (Some(a), Some(b)) => b == a + entry.uncompressed_size,
            (Some(a), None) => a + entry.uncompressed_size > u64::MAX,
            (None, b) => b is None,
        },
        !stands_for_file(entry) ==> larger == less,
{
    let records = read_records(more@);
    assert(records.drop_last() =~= read_records(some@));
    assert(records.last() == entry@);
    lemma_stands_for_file(entry);
    if some@.len() == 0 {
        assert(read_records(some@) =~= Seq::<ReadRecord>::empty());
    }
}

/// Files are handed out in the order of the plan, each once, and all of them are.
pub proof fn law_files_are_handed_out_in_order(
    ledger: &mut ExtractLedger,
    task: Option<ZipExtractFileTask>,
)
    requires
        old(ledger).wf(),
        call_ensures(ExtractLedger::take, (ledger,), task),
    ensures
        task is None <==> old(ledger).waiting@.len() == 0,
        task matches Some(next) ==> old(ledger).waiting@ == seq![next] + final(ledger).waiting@,
        task is None ==> final(ledger).waiting@ == old(ledger).waiting@,
{
    if let Some(next) = task {
        assert(old(ledger).waiting@ =~= seq![next] + final(ledger).waiting@);
    } else {
        assert(final(ledger).waiting@ =~= old(ledger).waiting@);
    }
}

/// The files that wait at the start are those of the plan, in its order.
pub proof fn law_planned_files_wait(plan: ExtractPlan, ledger: ExtractLedger)
    requires
        call_ensures(ExtractLedger::new, (plan,), ledger),
    ensures
        ({
            let files = plan.steps@.filter(|step: ExtractStep| step is ExtractFile);
            &&& ledger.waiting@.len() == files.len()
            &&& forall|k: int|
                0 <= k < files.len() ==> #[trigger] files[k] == (ExtractStep::ExtractFile {
                    task: ledger.waiting@[k],
                })
        }),
{
    lemma_planned_files(plan.steps@);
}

proof fn lemma_planned_last(steps: Seq<ExtractStep>)
    requires
        steps.len() > 0,
    ensures
        planned_tasks(steps) == planned_tasks(steps.drop_last()) + match steps.last() {
            ExtractStep::CreateDir { path: _ } => Seq::<ZipExtractFileTask>::empty(),
            ExtractStep::ExtractFile { task } => seq![task],
        },
    decreases steps.len(),
{
    let front = steps.drop_last();
    if steps.len() == 1 {
        assert(steps.drop_first() =~= Seq::<ExtractStep>::empty());
        assert(front =~= Seq::<ExtractStep>::empty());
        assert(steps.last() == steps[0]);
        reveal_with_fuel(planned_tasks, 2);
        assert(planned_tasks(steps) =~= planned_tasks(front) + match steps.last() {
            ExtractStep::CreateDir { path: _ } => Seq::<ZipExtractFileTask>::empty(),
            ExtractStep::ExtractFile { task } => seq![task],
        });
    } else {
        let rest = steps.drop_first();
        lemma_planned_last(rest);
        assert(rest.drop_last() =~= front.drop_first());
        assert(rest.last() == steps.last());
        assert(front[0] == steps[0]);
        assert(planned_tasks(steps) =~= planned_tasks(front) + match steps.last() {
            ExtractStep::CreateDir { path: _ } => Seq::<ZipExtractFileTask>::empty(),
            ExtractStep::ExtractFile { task } => seq![task],
        });
    }
}

proof fn lemma_planned_files(steps: Seq<ExtractStep>)
    ensures
        ({
            let files = steps.filter(|step: ExtractStep| step is ExtractFile);
            &&& planned_tasks(steps).len() == files.len()
            &&& forall|k: int|
                0 <= k < files.len() ==> #[trigger] files[k] == (ExtractStep::ExtractFile {
                    task: planned_tasks(steps)[k],
                })
        }),
    decreases steps.len(),
{
    reveal(Seq::filter);
    if steps.len() > 0 {
        lemma_planned_files(steps.drop_last());
        lemma_planned_last(steps);
    }
}

/// A file that was extracted adds one to the files and its bytes to the bytes, a failure
/// adds nothing, and the first failure is the one that is kept.
pub proof fn law_results_are_taken_down(
    ledger: &mut ExtractLedger,
    result: Result<u64, CoZipError>,
)
    requires
        old(ledger).wf(),
        old(ledger).results@.len() < old(ledger).taken,
        call_ensures(ExtractLedger::report, (ledger, result), ()),
    ensures
        result matches Ok(written) ==> final(ledger).entries == old(ledger).entries + 1 && final(
            ledger).output_bytes == if old(ledger).output_bytes + written < u64::MAX {
            old(ledger).output_bytes + written
        } else {
            u64::MAX as int
        } && final(ledger).failure == old(ledger).failure,
        result matches Err(error) ==> final(ledger).entries == old(ledger).entries && final(
            ledger).output_bytes == old(ledger).output_bytes && final(ledger).failure == if old(
            ledger).failure is None {
            Some(error)
        } else {
            old(ledger).failure
        },
        final(ledger).waiting == old(ledger).waiting,
{
    assert(final(ledger).results@.drop_last() =~= old(ledger).results@);
}

/// An extraction comes to its failure where it has one, and else to the files and bytes
/// that were taken down, out of an archive of that length.
pub proof fn law_extraction_comes_to_what_was_taken_down(
    ledger: ExtractLedger,
    input_len: u64,
    r: Result<CoZipStats, CoZipError>,
)
    requires
        ledger.wf(),
        call_ensures(ExtractLedger::finish, (ledger, input_len), r),
    ensures
        ledger.failure matches Some(error) ==> r == Err::<CoZipStats, CoZipError>(error),
        ledger.failure is None ==> r == Ok::<CoZipStats, CoZipError>(
            CoZipStats {
                entries: ledger.entries,
                input_bytes: input_len,
                output_bytes: ledger.output_bytes,
            },
        ),
{
}

proof fn lemma_exact_total_update(counts: Seq<u64>, i: int, count: u64)
    requires
        0 <= i < counts.len(),
    ensures
        exact_total(counts.update(i, count)) == exact_total(counts) - counts[i] + count,
        counts[i] <= exact_total(counts),
    decreases counts.len(),
{
    let changed = counts.update(i, count);
    let front = counts.drop_last();
    if i == counts.len() - 1 {
        assert(changed.drop_last() =~= front);
    } else {
        lemma_exact_total_update(front, i, count);
        assert(changed.drop_last() =~= front.update(i, count));
    }
}

/// The bytes that wait in all slots change by what one slot changes by, and a slot that
/// does not exist changes nothing. At the start nothing waits.
pub proof fn law_backlog_adds_up(
    backlog: &mut BacklogSlots,
    again: &mut BacklogSlots,
    first: usize,
    second: usize,
    a: u64,
    b: u64,
    before: Option<u64>,
    after: Option<u64>,
)
    requires
        call_ensures(BacklogSlots::report, (backlog, first, a), before),
        *old(again) == *final(backlog),
        call_ensures(BacklogSlots::report, (again, second, b), after),
        before is Some,
    ensures
        second < old(again).slots@.len() ==> match after {
            Some(total) => total == before->Some_0 - old(again).slots@[second as int] + b,
            None => before->Some_0 - old(again).slots@[second as int] + b > u64::MAX,
        },
        second >= old(again).slots@.len() ==> after == before,
{
    if second < old(again).slots@.len() {
        lemma_exact_total_update(old(again).slots@, second as int, b);
    }
}

} // verus!
