//! The queue between the decoder of a directory archive and the threads that
//! write its files.

use std::collections::VecDeque;

use vstd::prelude::*;

use crate::dir_stream::capped_usize;
use crate::error::{CoZipError, IoFailure};

verus! {

/// From this many queued bytes on, the decoder waits.
pub const PDEFLATE_DIR_PARALLEL_WRITE_BACKLOG_BYTES: usize = 0x8000_0000;

/// Bytes that go to a file.
#[derive(Debug)]
pub struct PDeflateArchiveWriteFragment {
    pub file_id: usize,
    pub offset: u64,
    pub data: Vec<u8>,
}

/// The queue, how many fragments of each file are on their way, and how it ends.
#[derive(Debug)]
pub struct PDeflateArchiveDispatchState {
    pub queue: VecDeque<PDeflateArchiveWriteFragment>,
    pub queued_bytes: usize,
    pub active_files: Vec<Option<usize>>,
    pub closed: bool,
    pub stopped: bool,
    pub error: Option<String>,
}

/// What a writing thread does next.
#[derive(Debug)]
pub enum DispatchNext {
    /// Write this.
    Write(PDeflateArchiveWriteFragment),
    /// Wait for more.
    Wait,
    /// Stop: nothing more comes.
    Exit,
}

/// The number of bytes in fragments.
pub open spec fn fragment_bytes(queue: Seq<PDeflateArchiveWriteFragment>) -> nat
    decreases queue.len(),
{
    if queue.len() == 0 {
        0
    } else {
        fragment_bytes(queue.drop_last()) + queue.last().data@.len()
    }
}

/// The number of fragments that go to a file.
pub open spec fn fragments_of(queue: Seq<PDeflateArchiveWriteFragment>, file_id: usize) -> nat
    decreases queue.len(),
{
    if queue.len() == 0 {
        0
    } else {
        fragments_of(queue.drop_last(), file_id) + if queue.last().file_id == file_id {
            1nat
        } else {
            0nat
        }
    }
}

proof fn lemma_fragments_bound(queue: Seq<PDeflateArchiveWriteFragment>, file_id: usize)
    ensures
        fragments_of(queue, file_id) <= queue.len(),
    decreases queue.len(),
{
    if queue.len() > 0 {
        lemma_fragments_bound(queue.drop_last(), file_id);
    }
}

/// What the first fragment adds to the counts.
proof fn lemma_fragments_first(queue: Seq<PDeflateArchiveWriteFragment>, file_id: usize)
    requires
        queue.len() > 0,
    ensures
        fragment_bytes(queue) == fragment_bytes(queue.skip(1)) + queue[0].data@.len(),
        fragments_of(queue, file_id) == fragments_of(queue.skip(1), file_id) + if queue[0].file_id
            == file_id {
            1nat
        } else {
            0nat
        },
    decreases queue.len(),
{
    if queue.len() == 1 {
        assert(queue.drop_last() =~= queue.skip(1));
    } else {
        lemma_fragments_first(queue.drop_last(), file_id);
        assert(queue.drop_last().skip(1) =~= queue.skip(1).drop_last());
    }
}

/// The number of fragments of a file that are on their way.
pub open spec fn pending_of(active: Seq<Option<usize>>, file_id: usize) -> usize {
    if file_id < active.len() {
        match active[file_id as int] {
            Some(count) => count,
            None => 0,
        }
    } else {
        0
    }
}

/// Fragments of file `i` are on their way.
pub open spec fn has_pending(active: Seq<Option<usize>>, i: int) -> bool {
    active[i] matches Some(count) && count > 0
}

/// The number of fragments of a file that a thread has taken and not yet written.
pub open spec fn in_hand_of(
    active: Seq<Option<usize>>,
    queue: Seq<PDeflateArchiveWriteFragment>,
    file_id: usize,
) -> int {
    pending_of(active, file_id) - fragments_of(queue, file_id)
}

impl PDeflateArchiveDispatchState {
    /// The number of fragments of a file that are on their way.
    pub open spec fn pending(self, file_id: usize) -> usize {
        pending_of(self.active_files@, file_id)
    }

    /// The file is open.
    pub open spec fn is_active(self, file_id: usize) -> bool {
        file_id < self.active_files@.len() && self.active_files@[file_id as int] is Some
    }

    /// The number of fragments of a file that a thread has taken and not yet written.
    pub open spec fn in_hand(self, file_id: usize) -> int {
        in_hand_of(self.active_files@, self.queue@, file_id)
    }

    /// The bytes in the queue are counted, and every queued fragment is on its way.
    pub open spec fn wf(self) -> bool {
        &&& self.queued_bytes == fragment_bytes(self.queue@)
        &&& forall|file_id: usize| #[trigger]
            in_hand_of(self.active_files@, self.queue@, file_id) >= 0
    }

    /// Starts with nothing.
    pub fn new() -> (state: Self)
        ensures
            state.wf(),
            state.queue@.len() == 0,
            state.active_files@.len() == 0,
            !state.closed,
            !state.stopped,
            state.error is None,
    {
        PDeflateArchiveDispatchState {
            queue: VecDeque::new(),
            queued_bytes: 0,
            active_files: Vec::new(),
            closed: false,
            stopped: false,
            error: None,
        }
    }

    /// Opens the next file. Returns its number.
    pub fn register_file(&mut self) -> (file_id: usize)
        requires
            old(self).wf(),
        ensures
            final(self).wf(),
            file_id == old(self).active_files@.len(),
            final(self).active_files@ == old(self).active_files@.push(Some(0usize)),
            final(self).queue@ == old(self).queue@,
            final(self).queued_bytes == old(self).queued_bytes,
            final(self).closed == old(self).closed,
            final(self).stopped == old(self).stopped,
            final(self).error == old(self).error,
    {
        let file_id: usize = self.active_files.len();
        self.active_files.push(Some(0));
        proof {
            assert forall|id: usize| #[trigger]
                in_hand_of(self.active_files@, self.queue@, id) >= 0 by {
                assert(in_hand_of(old(self).active_files@, old(self).queue@, id) >= 0);
                assert(self.pending(id) == old(self).pending(id));
            }
        }
        file_id
    }

    /// Whether the decoder has to wait before it queues more.
    pub fn must_wait(&self) -> (wait: bool)
        ensures
            wait == (self.queued_bytes >= PDEFLATE_DIR_PARALLEL_WRITE_BACKLOG_BYTES
                && !self.stopped),
    {
        self.queued_bytes >= PDEFLATE_DIR_PARALLEL_WRITE_BACKLOG_BYTES && !self.stopped
    }

    /// Queues bytes for a file. Fails where the threads have stopped or the file
    /// is not open.
    pub fn enqueue(&mut self, file_id: usize, offset: u64, data: Vec<u8>) -> (r: Result<
        (),
        CoZipError,
    >)
        requires
            old(self).wf(),
            fragment_bytes(old(self).queue@) + data@.len() <= usize::MAX,
        ensures
            final(self).wf(),
            final(self).closed == old(self).closed,
            final(self).stopped == old(self).stopped,
            match r {
                Ok(_) => {
                    let fragment = PDeflateArchiveWriteFragment { file_id, offset, data };
                    &&& !old(self).stopped
                    &&& old(self).is_active(file_id)
                    &&& final(self).queue@ == old(self).queue@.push(fragment)
                    &&& final(self).active_files@ == old(self).active_files@.update(
                        file_id as int,
                        Some(capped_usize(old(self).pending(file_id) + 1)),
                    )
                    &&& final(self).error == old(self).error
                },
                Err(error) => {
                    &&& final(self).queue@ == old(self).queue@
                    &&& final(self).active_files@ == old(self).active_files@
                    &&& if old(self).stopped {
                        &&& error matches CoZipError::Io(IoFailure::Other(text))
                        &&& text@ == (match old(self).error {
                            Some(message) => message@,
                            None => "archive dispatch stopped"@,
                        })
                        &&& final(self).error is None
                    } else {
                        &&& !old(self).is_active(file_id)
                        &&& error == CoZipError::InvalidZip("archive file writer missing")
                        &&& final(self).error == old(self).error
                    }
                },
            },
    {
        if self.stopped {
            return match self.error.take() {
                Some(message) => Err(CoZipError::Io(IoFailure::Other(message))),
                None => Err(
                    CoZipError::Io(IoFailure::Other("archive dispatch stopped".to_string())),
                ),
            };
        }
        if file_id >= self.active_files.len() {
            return Err(CoZipError::InvalidZip("archive file writer missing"));
        }
        let count: usize = match self.active_files[file_id] {
            Some(count) => count,
            None => {
                return Err(CoZipError::InvalidZip("archive file writer missing"));
            },
        };
        self.active_files.set(file_id, Some(count.saturating_add(1)));
        self.queued_bytes = self.queued_bytes + data.len();
        let fragment = PDeflateArchiveWriteFragment { file_id, offset, data };
        self.queue.push_back(fragment);
        proof {
            let before = old(self).queue@;
            let after = self.queue@;
            assert(after.drop_last() =~= before);
            assert forall|id: usize| #[trigger]
                in_hand_of(self.active_files@, self.queue@, id) >= 0 by {
                assert(in_hand_of(old(self).active_files@, old(self).queue@, id) >= 0);
                lemma_fragments_bound(after, id);
                assert(self.queue.len() <= usize::MAX);
            }
        }
        Ok(())
    }

    /// Takes what a writing thread does next.
    pub fn next(&mut self) -> (next: DispatchNext)
        requires
            old(self).wf(),
        ensures
            final(self).wf(),
            final(self).active_files@ == old(self).active_files@,
            final(self).closed == old(self).closed,
            final(self).stopped == old(self).stopped,
            final(self).error == old(self).error,
            if old(self).queue@.len() > 0 {
                &&& next == DispatchNext::Write(old(self).queue@[0])
                &&& final(self).queue@ == old(self).queue@.skip(1)
                &&& final(self).in_hand(old(self).queue@[0].file_id) == old(self).in_hand(
                    old(self).queue@[0].file_id,
                ) + 1
            } else {
                &&& final(self).queue@ == old(self).queue@
                &&& next == if old(self).closed || old(self).stopped {
                    DispatchNext::Exit
                } else {
                    DispatchNext::Wait
                }
            },
    {
        match self.queue.pop_front() {
            Some(fragment) => {
                proof {
                    let before = old(self).queue@;
                    assert(self.queue@ =~= before.skip(1));
                    lemma_fragments_first(before, fragment.file_id);
                    assert forall|id: usize| #[trigger]
                in_hand_of(self.active_files@, self.queue@, id) >= 0 by {
                        assert(in_hand_of(old(self).active_files@, old(self).queue@, id) >= 0);
                        lemma_fragments_first(before, id);
                    }
                }
                self.queued_bytes = self.queued_bytes - fragment.data.len();
                DispatchNext::Write(fragment)
            },
            None => {
                if self.closed || self.stopped {
                    DispatchNext::Exit
                } else {
                    DispatchNext::Wait
                }
            },
        }
    }

    /// Notes that a thread is done with a fragment. A failure stops the queue,
    /// and the first one is kept.
    pub fn complete(&mut self, file_id: usize, failure: Option<String>)
        requires
            old(self).wf(),
            old(self).in_hand(file_id) > 0,
        ensures
            final(self).wf(),
            final(self).queue@ == old(self).queue@,
            final(self).active_files@ == old(self).active_files@.update(
                file_id as int,
                Some((old(self).pending(file_id) - 1) as usize),
            ),
            final(self).closed == old(self).closed,
            final(self).stopped == (old(self).stopped || failure is Some),
            final(self).error == (match old(self).error {
                Some(message) => Some(message),
                None => failure,
            }),
    {
        if let Some(count) = self.active_files[file_id] {
            self.active_files.set(file_id, Some(count - 1));
        }
        proof {
            assert forall|id: usize| #[trigger]
                in_hand_of(self.active_files@, self.queue@, id) >= 0 by {
                assert(in_hand_of(old(self).active_files@, old(self).queue@, id) >= 0);
            }
        }
        if let Some(message) = failure {
            self.stopped = true;
            if self.error.is_none() {
                self.error = Some(message);
            }
        }
    }

    /// Notes that nothing more is queued.
    pub fn close(&mut self)
        requires
            old(self).wf(),
        ensures
            final(self).wf(),
            *final(self) == (PDeflateArchiveDispatchState { closed: true, ..*old(self) }),
    {
        self.closed = true;
    }

    /// Whether the end has to be waited for: fragments are queued or on their
    /// way, and nothing has stopped the threads.
    pub fn is_busy(&self) -> (busy: bool)
        ensures
            busy == (!self.stopped && (self.queue@.len() > 0 || exists|i: int|
                0 <= i < self.active_files@.len() && #[trigger] has_pending(
                    self.active_files@,
                    i,
                ))),
    {
        if self.stopped {
            return false;
        }
        if self.queue.len() > 0 {
            return true;
        }
        let mut i: usize = 0;
        while i < self.active_files.len()
            invariant
                i <= self.active_files@.len(),
                !self.stopped,
                forall|j: int| 0 <= j < i ==> !#[trigger] has_pending(self.active_files@, j),
            decreases self.active_files@.len() - i,
        {
            if let Some(count) = self.active_files[i] {
                if count > 0 {
                    assert(has_pending(self.active_files@, i as int));
                    return true;
                }
            }
            i = i + 1;
        }
        false
    }

    /// Takes the first failure.
    pub fn take_error(&mut self) -> (r: Result<(), CoZipError>)
        ensures
            final(self).error is None,
            final(self).queue == old(self).queue,
            final(self).queued_bytes == old(self).queued_bytes,
            final(self).active_files == old(self).active_files,
            final(self).closed == old(self).closed,
            final(self).stopped == old(self).stopped,
            match old(self).error {
                Some(message) => r == Err::<(), CoZipError>(
                    CoZipError::Io(IoFailure::Other(message)),
                ),
                None => r is Ok,
            },
    {
        match self.error.take() {
            Some(message) => Err(CoZipError::Io(IoFailure::Other(message))),
            None => Ok(()),
        }
    }
}

/// A queue that is not busy and was not stopped has written everything: nothing
/// is queued, and no thread has a fragment in hand.
pub proof fn law_idle_means_written(state: PDeflateArchiveDispatchState, file_id: usize)
    requires
        state.wf(),
        state.queue@.len() == 0,
        forall|i: int|
            0 <= i < state.active_files@.len() ==> !#[trigger] has_pending(state.active_files@, i),
    ensures
        state.pending(file_id) == 0,
        state.in_hand(file_id) == 0,
        state.queued_bytes == 0,
{
    if file_id < state.active_files@.len() {
        assert(!has_pending(state.active_files@, file_id as int));
    }
}

/// What is queued is handed out in turn, as it was queued: behind what waits already,
/// and at once where nothing waits.
pub proof fn law_fragments_are_handed_out_in_turn(
    state: &mut PDeflateArchiveDispatchState,
    file_id: usize,
    offset: u64,
    data: Vec<u8>,
    later: &mut PDeflateArchiveDispatchState,
    next: DispatchNext,
)
    requires
        call_ensures(
            PDeflateArchiveDispatchState::enqueue,
            (state, file_id, offset, data),
            Ok::<(), CoZipError>(()),
        ),
        *old(later) == *final(state),
        call_ensures(PDeflateArchiveDispatchState::next, (later,), next),
    ensures
        !old(state).stopped,
        next matches DispatchNext::Write(fragment) && (if old(state).queue@.len() == 0 {
            fragment.file_id == file_id && fragment.offset == offset && fragment.data == data
        } else {
            fragment == old(state).queue@[0]
        }),
        final(later).queue@.len() == old(state).queue@.len(),
{
}

/// The decoder waits from two gigabytes of queued bytes on. Once the threads have
/// stopped it does not wait: it is told of the failure with what it queues next, and
/// nothing more is queued.
pub proof fn law_full_queues_are_waited_for(
    state: &mut PDeflateArchiveDispatchState,
    wait: bool,
    file_id: usize,
    offset: u64,
    data: Vec<u8>,
    r: Result<(), CoZipError>,
)
    requires
        call_ensures(PDeflateArchiveDispatchState::must_wait, (&*old(state),), wait),
        call_ensures(PDeflateArchiveDispatchState::enqueue, (state, file_id, offset, data), r),
    ensures
        wait ==> old(state).queued_bytes >= 2 * 1024 * 1024 * 1024,
        old(state).queued_bytes >= 2 * 1024 * 1024 * 1024 && !old(state).stopped ==> wait,
        old(state).stopped ==> !wait && r is Err && final(state).queue@ == old(state).queue@,
        old(state).stopped && old(state).error is Some ==> (r matches Err(
            CoZipError::Io(IoFailure::Other(text)),
        ) && text@ == old(state).error->Some_0@),
{
}

/// Queued bytes are counted, and no longer once they are handed out.
pub proof fn law_queued_bytes_are_counted(
    state: &mut PDeflateArchiveDispatchState,
    file_id: usize,
    offset: u64,
    data: Vec<u8>,
    other: &mut PDeflateArchiveDispatchState,
    fragment: PDeflateArchiveWriteFragment,
)
    requires
        old(state).wf(),
        call_ensures(
            PDeflateArchiveDispatchState::enqueue,
            (state, file_id, offset, data),
            Ok::<(), CoZipError>(()),
        ),
        old(other).wf(),
        call_ensures(
            PDeflateArchiveDispatchState::next,
            (other,),
            DispatchNext::Write(fragment),
        ),
    ensures
        final(state).queued_bytes == old(state).queued_bytes + data@.len(),
        final(other).queued_bytes == old(other).queued_bytes - fragment.data@.len(),
{
    let before = old(state).queue@;
    let after = final(state).queue@;
    assert(after.drop_last() =~= before);
    lemma_fragments_first(old(other).queue@, fragment.file_id);
}

/// The first failure is kept and told once; a later one changes nothing.
pub proof fn law_first_failure_is_told_once(
    state: &mut PDeflateArchiveDispatchState,
    file_id: usize,
    failure: Option<String>,
    later: &mut PDeflateArchiveDispatchState,
    told: Result<(), CoZipError>,
    again: &mut PDeflateArchiveDispatchState,
    told_again: Result<(), CoZipError>,
)
    requires
        call_ensures(PDeflateArchiveDispatchState::complete, (state, file_id, failure), ()),
        *old(later) == *final(state),
        call_ensures(PDeflateArchiveDispatchState::take_error, (later,), told),
        *old(again) == *final(later),
        call_ensures(PDeflateArchiveDispatchState::take_error, (again,), told_again),
    ensures
        match old(state).error {
            Some(first) => told == Err::<(), CoZipError>(CoZipError::Io(IoFailure::Other(first))),
            None => match failure {
                Some(message) => told == Err::<(), CoZipError>(
                    CoZipError::Io(IoFailure::Other(message)),
                ),
                None => told is Ok,
            },
        },
        told_again is Ok,
        failure is Some ==> final(state).stopped,
{
}

/// Threads leave when the queue is empty and closed or stopped, and not before; while
/// it is neither they wait for more.
pub proof fn law_threads_leave_when_all_is_done(
    state: &mut PDeflateArchiveDispatchState,
    next: DispatchNext,
)
    requires
        call_ensures(PDeflateArchiveDispatchState::next, (state,), next),
    ensures
        next is Exit <==> old(state).queue@.len() == 0 && (old(state).closed || old(state).stopped),
        next is Wait <==> old(state).queue@.len() == 0 && !old(state).closed
            && !old(state).stopped,
{
}

/// A fragment is on its way from when it is queued until a thread is done with it, and
/// the end is waited for as long as one is.
pub proof fn law_end_waits_for_fragments_on_their_way(
    state: &mut PDeflateArchiveDispatchState,
    file_id: usize,
    offset: u64,
    data: Vec<u8>,
    busy: bool,
    later: &mut PDeflateArchiveDispatchState,
    next: DispatchNext,
    still_busy: bool,
)
    requires
        old(state).wf(),
        old(state).pending(file_id) < usize::MAX,
        call_ensures(
            PDeflateArchiveDispatchState::enqueue,
            (state, file_id, offset, data),
            Ok::<(), CoZipError>(()),
        ),
        call_ensures(PDeflateArchiveDispatchState::is_busy, (&*final(state),), busy),
        *old(later) == *final(state),
        call_ensures(PDeflateArchiveDispatchState::next, (later,), next),
        call_ensures(PDeflateArchiveDispatchState::is_busy, (&*final(later),), still_busy),
    ensures
        busy,
        still_busy,
        final(state).pending(file_id) == old(state).pending(file_id) + 1,
        final(later).pending(file_id) == final(state).pending(file_id),
{
    assert(has_pending(final(state).active_files@, file_id as int));
    assert(has_pending(final(later).active_files@, file_id as int));
}

/// A fragment that a thread is done with is no longer on its way, and no other file is
/// touched.
pub proof fn law_done_fragments_are_counted_off(
    state: &mut PDeflateArchiveDispatchState,
    file_id: usize,
    failure: Option<String>,
    other: usize,
)
    requires
        old(state).wf(),
        old(state).in_hand(file_id) > 0,
        call_ensures(PDeflateArchiveDispatchState::complete, (state, file_id, failure), ()),
    ensures
        final(state).pending(file_id) == old(state).pending(file_id) - 1,
        other != file_id ==> final(state).pending(other) == old(state).pending(other),
{
    assert(in_hand_of(old(state).active_files@, old(state).queue@, file_id) >= 0);
}

/// A file that was opened has a number of its own, and bytes can be queued for it until
/// the threads stop; bytes for a number that no file has are refused.
pub proof fn law_opened_files_take_bytes(
    state: &mut PDeflateArchiveDispatchState,
    file_id: usize,
    later: &mut PDeflateArchiveDispatchState,
    target: usize,
    offset: u64,
    data: Vec<u8>,
    r: Result<(), CoZipError>,
)
    requires
        old(state).wf(),
        call_ensures(PDeflateArchiveDispatchState::register_file, (state,), file_id),
        *old(later) == *final(state),
        call_ensures(PDeflateArchiveDispatchState::enqueue, (later, target, offset, data), r),
        !old(state).stopped,
    ensures
        !old(state).is_active(file_id),
        target == file_id ==> r is Ok,
        target > file_id ==> r is Err && r->Err_0 is InvalidZip,
        old(state).is_active(target) ==> r is Ok,
{
}

/// Threads leave an empty queue once it was closed.
pub proof fn law_closed_queues_are_left(
    state: &mut PDeflateArchiveDispatchState,
    later: &mut PDeflateArchiveDispatchState,
    next: DispatchNext,
)
    requires
        old(state).queue@.len() == 0,
        call_ensures(PDeflateArchiveDispatchState::close, (state,), ()),
        *old(later) == *final(state),
        call_ensures(PDeflateArchiveDispatchState::next, (later,), next),
    ensures
        next is Exit,
{
}

} // verus!
