//! The stream inside a directory archive: one record per directory and file, a
//! file's bytes behind its record, and an end mark.
//!
//! What a stream says is stated byte by byte. The decoder takes it in pieces of
//! any size and tells its caller what to create and to write.

use vstd::prelude::*;
use vstd::utf8::{decode_utf8, valid_utf8};

use crate::error::CoZipError;
use crate::le::{copy_range, get_u32, get_u64, le32, le64, write_bytes};
use crate::paths::{entry_path_from_zip_name, name_parts, texts_of, PathStyle};
use crate::trusted::string_from_utf8;

verus! {

broadcast use crate::le::group_le_len;

pub const PDEFLATE_DIR_ARCHIVE_VERSION: u8 = 1;

pub const PDEFLATE_DIR_ARCHIVE_RECORD_END: u8 = 0;

pub const PDEFLATE_DIR_ARCHIVE_RECORD_FILE: u8 = 1;

pub const PDEFLATE_DIR_ARCHIVE_RECORD_DIR: u8 = 2;

/// The first four bytes of a stream.
pub open spec fn stream_magic() -> Seq<u8> {
    seq![0x43u8, 0x5A, 0x41, 0x52]
}

/// The first five bytes of a stream.
pub open spec fn stream_header() -> Seq<u8> {
    stream_magic().push(PDEFLATE_DIR_ARCHIVE_VERSION)
}

/// A directory or a file of an archive, as far as it was read. A file is
/// finished when it has all its bytes.
pub struct ArchiveItem {
    pub path: Seq<Seq<char>>,
    pub is_dir: bool,
    pub len: u64,
    pub content: Seq<u8>,
    pub finished: bool,
}

/// A directory.
pub open spec fn dir_item(path: Seq<Seq<char>>) -> ArchiveItem {
    ArchiveItem { path, is_dir: true, len: 0, content: Seq::empty(), finished: true }
}

/// A file of which no byte was read.
pub open spec fn file_item(path: Seq<Seq<char>>, len: u64, finished: bool) -> ArchiveItem {
    ArchiveItem { path, is_dir: false, len, content: Seq::empty(), finished }
}

/// What comes next in a stream.
pub enum StreamState {
    Header,
    RecordTag,
    RecordPathLen { tag: u8 },
    RecordPath { tag: u8, path_len: int },
    RecordFileLen { path: Seq<Seq<char>> },
    RecordFileData { remaining: u64 },
    Finished,
}

/// A stream, as far as it was read: what comes next, the bytes of the field that
/// is not complete yet, and what was read.
pub struct StreamModel {
    pub style: PathStyle,
    pub state: StreamState,
    pub partial: Seq<u8>,
    pub items: Seq<ArchiveItem>,
}

/// A stream of which nothing was read.
pub open spec fn stream_start(style: PathStyle) -> StreamModel {
    StreamModel { style, state: StreamState::Header, partial: Seq::empty(), items: Seq::empty() }
}

/// The stream goes on in another state, with no field open.
pub open spec fn goes_on(
    style: PathStyle,
    state: StreamState,
    items: Seq<ArchiveItem>,
) -> StreamModel {
    StreamModel { style, state, partial: Seq::empty(), items }
}

/// What the five bytes at the start lead to.
pub open spec fn take_header(style: PathStyle, bytes: Seq<u8>, items: Seq<ArchiveItem>) -> Result<
    StreamModel,
    CoZipError,
> {
    if bytes.subrange(0, 4) != stream_magic() {
        Err(CoZipError::InvalidZip("bad pdeflate directory archive magic"))
    } else if bytes[4] != PDEFLATE_DIR_ARCHIVE_VERSION {
        Err(CoZipError::InvalidZip("unsupported pdeflate directory archive version"))
    } else {
        Ok(goes_on(style, StreamState::RecordTag, items))
    }
}

/// What the first byte of a record leads to.
pub open spec fn take_tag(style: PathStyle, tag: u8, items: Seq<ArchiveItem>) -> Result<
    StreamModel,
    CoZipError,
> {
    if tag == PDEFLATE_DIR_ARCHIVE_RECORD_END {
        Ok(goes_on(style, StreamState::Finished, items))
    } else if tag == PDEFLATE_DIR_ARCHIVE_RECORD_FILE || tag == PDEFLATE_DIR_ARCHIVE_RECORD_DIR {
        Ok(goes_on(style, StreamState::RecordPathLen { tag }, items))
    } else {
        Err(CoZipError::InvalidZip("unknown pdeflate directory archive record type"))
    }
}

/// What the path of a record leads to.
pub open spec fn take_path(
    style: PathStyle,
    tag: u8,
    bytes: Seq<u8>,
    items: Seq<ArchiveItem>,
) -> Result<StreamModel, CoZipError> {
    if !valid_utf8(bytes) {
        Err(CoZipError::NonUtf8Name)
    } else {
        match name_parts(decode_utf8(bytes), style) {
            Err(error) => Err(error),
            Ok(path) => if tag == PDEFLATE_DIR_ARCHIVE_RECORD_DIR {
                Ok(
                    goes_on(
                        style,
                        StreamState::RecordTag,
                        items.push(dir_item(path)),
                    ),
                )
            } else {
                Ok(goes_on(style, StreamState::RecordFileLen { path }, items))
            },
        }
    }
}

/// What the length of a path leads to. An empty path is complete at once.
pub open spec fn take_path_len(
    style: PathStyle,
    tag: u8,
    len: u32,
    items: Seq<ArchiveItem>,
) -> Result<StreamModel, CoZipError> {
    if len == 0 {
        take_path(style, tag, Seq::empty(), items)
    } else {
        Ok(goes_on(style, StreamState::RecordPath { tag, path_len: len as int }, items))
    }
}

/// What follows when `remaining` bytes of a file are still to come.
pub open spec fn data_state(remaining: u64) -> StreamState {
    if remaining == 0 {
        StreamState::RecordTag
    } else {
        StreamState::RecordFileData { remaining }
    }
}

/// What the length of a file leads to. An empty file is complete at once.
pub open spec fn take_file_len(
    style: PathStyle,
    path: Seq<Seq<char>>,
    len: u64,
    items: Seq<ArchiveItem>,
) -> StreamModel {
    goes_on(style, data_state(len), items.push(file_item(path, len, len == 0)))
}

/// The items with bytes added to the content of the last one.
pub open spec fn extended(items: Seq<ArchiveItem>, data: Seq<u8>) -> Seq<ArchiveItem> {
    items.drop_last().push(
        ArchiveItem { content: items.last().content + data, ..items.last() },
    )
}

/// The items with the last one finished.
pub open spec fn completed(items: Seq<ArchiveItem>) -> Seq<ArchiveItem> {
    items.drop_last().push(ArchiveItem { finished: true, ..items.last() })
}

/// The items with bytes added to the content of the last one, which is finished
/// when it has all its bytes.
pub open spec fn grown(items: Seq<ArchiveItem>, data: Seq<u8>) -> Seq<ArchiveItem> {
    items.drop_last().push(
        ArchiveItem {
            content: items.last().content + data,
            finished: items.last().content.len() + data.len() == items.last().len,
            ..items.last()
        },
    )
}

/// What one more byte of a stream leads to.
pub open spec fn accept(model: StreamModel, byte: u8) -> Result<StreamModel, CoZipError> {
    let field = model.partial.push(byte);
    let waits = StreamModel { partial: field, ..model };
    match model.state {
        StreamState::Header => if field.len() < 5 {
            Ok(waits)
        } else {
            take_header(model.style, field, model.items)
        },
        StreamState::RecordTag => take_tag(model.style, byte, model.items),
        StreamState::RecordPathLen { tag } => if field.len() < 4 {
            Ok(waits)
        } else {
            take_path_len(model.style, tag, le32(field, 0), model.items)
        },
        StreamState::RecordPath { tag, path_len } => if field.len() < path_len {
            Ok(waits)
        } else {
            take_path(model.style, tag, field, model.items)
        },
        StreamState::RecordFileLen { path } => if field.len() < 8 {
            Ok(waits)
        } else {
            Ok(take_file_len(model.style, path, le64(field, 0), model.items))
        },
        StreamState::RecordFileData { remaining } => Ok(
            goes_on(
                model.style,
                data_state((remaining - 1) as u64),
                grown(model.items, seq![byte]),
            ),
        ),
        StreamState::Finished => Ok(waits),
    }
}

/// What some more bytes of a stream lead to.
pub open spec fn run(model: StreamModel, input: Seq<u8>) -> Result<StreamModel, CoZipError>
    decreases input.len(),
{
    if input.len() == 0 {
        Ok(model)
    } else {
        match run(model, input.drop_last()) {
            Err(error) => Err(error),
            Ok(next) => accept(next, input.last()),
        }
    }
}

/// How many bytes the open field has when it is complete. Nothing completes the
/// bytes behind the end mark.
pub open spec fn field_len(state: StreamState) -> Option<int> {
    match state {
        StreamState::Header => Some(5),
        StreamState::RecordTag => Some(1),
        StreamState::RecordPathLen { .. } => Some(4),
        StreamState::RecordPath { path_len, .. } => Some(path_len),
        StreamState::RecordFileLen { .. } => Some(8),
        StreamState::RecordFileData { .. } => Some(1),
        StreamState::Finished => None,
    }
}

/// The open field is not complete.
pub open spec fn is_partial(state: StreamState, bytes: Seq<u8>) -> bool {
    field_len(state) matches Some(len) ==> bytes.len() < len
}

/// A stream can be read in pieces: reading on after a first piece gives what
/// reading both in one piece gives.
pub proof fn law_stream_in_pieces(model: StreamModel, a: Seq<u8>, b: Seq<u8>)
    ensures
        run(model, a + b) == (match run(model, a) {
            Err(error) => Err(error),
            Ok(next) => run(next, b),
        }),
    decreases b.len(),
{
    if b.len() == 0 {
        assert(a + b =~= a);
    } else {
        law_stream_in_pieces(model, a, b.drop_last());
        assert((a + b).drop_last() =~= a + b.drop_last());
    }
}

/// Bytes that do not complete the open field are kept.
proof fn lemma_run_partial(
    style: PathStyle,
    state: StreamState,
    items: Seq<ArchiveItem>,
    bytes: Seq<u8>,
)
    requires
        is_partial(state, bytes),
    ensures
        run(goes_on(style, state, items), bytes) == Ok::<StreamModel, CoZipError>(
            StreamModel { style, state, partial: bytes, items },
        ),
    decreases bytes.len(),
{
    if bytes.len() == 0 {
        assert(bytes =~= Seq::<u8>::empty());
    } else {
        lemma_run_partial(style, state, items, bytes.drop_last());
        assert(bytes.drop_last().push(bytes.last()) =~= bytes);
    }
}

/// The bytes that complete a field are taken as a whole.
pub proof fn lemma_run_field(
    style: PathStyle,
    state: StreamState,
    items: Seq<ArchiveItem>,
    bytes: Seq<u8>,
)
    requires
        field_len(state) == Some(bytes.len() as int),
        bytes.len() > 0,
    ensures
        run(goes_on(style, state, items), bytes) == (match state {
            StreamState::Header => take_header(style, bytes, items),
            StreamState::RecordTag => take_tag(style, bytes[0], items),
            StreamState::RecordPathLen { tag } => take_path_len(style, tag, le32(bytes, 0), items),
            StreamState::RecordPath { tag, .. } => take_path(style, tag, bytes, items),
            StreamState::RecordFileLen { path } => Ok(
                take_file_len(style, path, le64(bytes, 0), items),
            ),
            StreamState::RecordFileData { remaining } => Ok(
                goes_on(style, data_state((remaining - 1) as u64), grown(items, bytes)),
            ),
            StreamState::Finished => Ok(goes_on(style, state, items)),
        }),
{
    lemma_run_partial(style, state, items, bytes.drop_last());
    assert(bytes.drop_last().push(bytes.last()) =~= bytes);
    if state is RecordFileData {
        assert(seq![bytes.last()] =~= bytes);
    }
}

/// The bytes of a file are taken as a whole.
pub proof fn lemma_run_data(
    style: PathStyle,
    remaining: u64,
    items: Seq<ArchiveItem>,
    bytes: Seq<u8>,
)
    requires
        items.len() > 0,
        0 < bytes.len() <= remaining,
    ensures
        run(goes_on(style, StreamState::RecordFileData { remaining }, items), bytes) == Ok::<
            StreamModel,
            CoZipError,
        >(goes_on(style, data_state((remaining - bytes.len()) as u64), grown(items, bytes))),
    decreases bytes.len(),
{
    let start = goes_on(style, StreamState::RecordFileData { remaining }, items);
    let front = bytes.drop_last();
    if front.len() == 0 {
        assert(run(start, front) == Ok::<StreamModel, CoZipError>(start));
        assert(seq![bytes.last()] =~= bytes);
    } else {
        lemma_run_data(style, remaining, items, front);
        let middle = grown(items, front);
        assert(middle.drop_last() =~= items.drop_last());
        assert(items.last().content + front + seq![bytes.last()] =~= items.last().content + bytes);
        assert(grown(middle, seq![bytes.last()]) =~= grown(items, bytes));
    }
}

/// What the caller of a decoder is to do.
#[derive(Debug, Clone)]
pub enum ArchiveAction {
    /// Create a directory.
    CreateDir { path: Vec<String> },
    /// Create the next file, which is to get this many bytes.
    OpenFile { path: Vec<String>, file_len: u64 },
    /// Write bytes to a file. Files are numbered as they were opened.
    WriteFragment { file_id: usize, offset: u64, data: Vec<u8> },
    /// The last file has all its bytes.
    FinishEntry,
}

/// The number of files among the items.
pub open spec fn count_files(items: Seq<ArchiveItem>) -> nat
    decreases items.len(),
{
    if items.len() == 0 {
        0
    } else {
        count_files(items.drop_last()) + if items.last().is_dir {
            0nat
        } else {
            1nat
        }
    }
}

/// A count that stops at the largest number.
pub open spec fn capped_usize(n: int) -> usize {
    if n > usize::MAX {
        usize::MAX
    } else {
        n as usize
    }
}

/// A count that stops at the largest number.
pub open spec fn capped_u64(n: int) -> u64 {
    if n > u64::MAX {
        u64::MAX
    } else {
        n as u64
    }
}

/// The number of bytes in the items.
pub open spec fn count_bytes(items: Seq<ArchiveItem>) -> nat
    decreases items.len(),
{
    if items.len() == 0 {
        0
    } else {
        count_bytes(items.drop_last()) + items.last().content.len()
    }
}

/// The number under which the last file was opened.
pub open spec fn last_file_id(items: Seq<ArchiveItem>) -> usize {
    capped_usize(count_files(items) - 1)
}

/// What an action makes of the items, where it is in order: bytes go to the end
/// of the file that was opened last, never beyond its length, and a file that
/// has all its bytes is finished, once.
pub open spec fn apply(items: Seq<ArchiveItem>, action: ArchiveAction) -> Option<Seq<ArchiveItem>> {
    match action {
        ArchiveAction::CreateDir { path } => Some(items.push(dir_item(texts_of(path@)))),
        ArchiveAction::OpenFile { path, file_len } => Some(
            items.push(file_item(texts_of(path@), file_len, false)),
        ),
        ArchiveAction::WriteFragment { file_id, offset, data } => if items.len() > 0
            && !items.last().is_dir && !items.last().finished && file_id == last_file_id(items)
            && offset == items.last().content.len() && offset + data@.len() <= items.last().len {
            Some(extended(items, data@))
        } else {
            None
        },
        ArchiveAction::FinishEntry => if items.len() > 0 && !items.last().is_dir
            && !items.last().finished && items.last().content.len() == items.last().len {
            Some(completed(items))
        } else {
            None
        },
    }
}

/// What a list of actions makes of the items, where all are in order.
pub open spec fn apply_all(items: Seq<ArchiveItem>, actions: Seq<ArchiveAction>) -> Option<
    Seq<ArchiveItem>,
>
    decreases actions.len(),
{
    if actions.len() == 0 {
        Some(items)
    } else {
        match apply_all(items, actions.drop_last()) {
            None => None,
            Some(items) => apply(items, actions.last()),
        }
    }
}

/// The bytes that actions write to a file, in order.
pub open spec fn queued(actions: Seq<ArchiveAction>, file_id: usize) -> Seq<u8>
    decreases actions.len(),
{
    if actions.len() == 0 {
        Seq::empty()
    } else {
        let front = queued(actions.drop_last(), file_id);
        match actions.last() {
            ArchiveAction::WriteFragment { file_id: id, data, .. } => if id == file_id {
                front + data@
            } else {
                front
            },
            _ => front,
        }
    }
}

/// There are no more files among the first items than among all.
proof fn lemma_files_grow(items: Seq<ArchiveItem>, i: int, n: int)
    requires
        0 <= i <= n <= items.len(),
    ensures
        count_files(items.take(i)) <= count_files(items.take(n)),
    decreases n - i,
{
    if i < n {
        lemma_files_grow(items, i, n - 1);
        assert(items.take(n).drop_last() =~= items.take(n - 1));
    }
}

/// Every number below the number of files is that of a file.
proof fn lemma_file_of(items: Seq<ArchiveItem>, k: nat) -> (i: int)
    requires
        k < count_files(items),
    ensures
        0 <= i < items.len(),
        !items[i].is_dir,
        count_files(items.take(i)) == k,
    decreases items.len(),
{
    let front = items.drop_last();
    if k < count_files(front) {
        let i = lemma_file_of(front, k);
        assert(front.take(i) =~= items.take(i));
        i
    } else {
        assert(items.take(items.len() - 1) =~= front);
        items.len() - 1
    }
}

/// Nothing is written to files that were not opened.
proof fn lemma_unopened_gets_nothing(
    actions: Seq<ArchiveAction>,
    items: Seq<ArchiveItem>,
    file_id: usize,
)
    requires
        apply_all(Seq::empty(), actions) == Some(items),
        count_files(items) <= file_id,
    ensures
        queued(actions, file_id) == Seq::<u8>::empty(),
    decreases actions.len(),
{
    if actions.len() > 0 {
        let before = apply_all(Seq::empty(), actions.drop_last()).unwrap();
        match actions.last() {
            ArchiveAction::CreateDir { path } => {
                lemma_counts_push(before, dir_item(texts_of(path@)));
            },
            ArchiveAction::OpenFile { path, file_len } => {
                lemma_counts_push(before, file_item(texts_of(path@), file_len, false));
            },
            ArchiveAction::WriteFragment { data, .. } => {
                assert(extended(before, data@).drop_last() =~= before.drop_last());
            },
            ArchiveAction::FinishEntry => {
                assert(completed(before).drop_last() =~= before.drop_last());
            },
        }
        lemma_unopened_gets_nothing(actions.drop_last(), before, file_id);
    }
}

/// Actions that are in order write to every file its bytes, and nothing else.
pub proof fn law_actions_write_the_files(
    actions: Seq<ArchiveAction>,
    items: Seq<ArchiveItem>,
    i: int,
)
    requires
        apply_all(Seq::empty(), actions) == Some(items),
        count_files(items) <= usize::MAX,
        0 <= i < items.len(),
        !items[i].is_dir,
    ensures
        queued(actions, count_files(items.take(i)) as usize) == items[i].content,
    decreases actions.len(),
{
    let file_id = count_files(items.take(i)) as usize;
    let last = items.len() - 1;
    assert(items.take(items.len() as int) =~= items);
    assert(items.take(i + 1).drop_last() =~= items.take(i));
    lemma_files_grow(items, i + 1, items.len() as int);
    assert(count_files(items.take(i)) < count_files(items));
    if actions.len() > 0 {
        let before = apply_all(Seq::empty(), actions.drop_last()).unwrap();
        match actions.last() {
            ArchiveAction::CreateDir { path } => {
                let item = dir_item(texts_of(path@));
                lemma_counts_push(before, item);
                assert(items == before.push(item));
                assert(items.take(i) =~= before.take(i));
                law_actions_write_the_files(actions.drop_last(), before, i);
            },
            ArchiveAction::OpenFile { path, file_len } => {
                let item = file_item(texts_of(path@), file_len, false);
                lemma_counts_push(before, item);
                assert(items == before.push(item));
                assert(items.take(i) =~= before.take(i));
                if i == last {
                    assert(before.take(i) =~= before);
                    lemma_unopened_gets_nothing(actions.drop_last(), before, file_id);
                } else {
                    law_actions_write_the_files(actions.drop_last(), before, i);
                }
            },
            ArchiveAction::WriteFragment { data, .. } => {
                assert(items.drop_last() =~= before.drop_last());
                assert(items.take(i) =~= before.take(i));
                assert(before.take(last) =~= before.drop_last());
                law_actions_write_the_files(actions.drop_last(), before, i);
                if i < last {
                    lemma_files_grow(items, i + 1, last);
                    assert(items.take(last) =~= before.take(last));
                }
            },
            ArchiveAction::FinishEntry => {
                assert(items.drop_last() =~= before.drop_last());
                assert(items.take(i) =~= before.take(i));
                law_actions_write_the_files(actions.drop_last(), before, i);
            },
        }
    }
}

/// The decoder that got a stream up to `middle`, and the actions that this called
/// for.
pub open spec fn decoded_to(
    style: PathStyle,
    stream: Seq<u8>,
    actions: Seq<ArchiveAction>,
    middle: StreamModel,
) -> bool {
    &&& run(stream_start(style), stream) == Ok::<StreamModel, CoZipError>(middle)
    &&& apply_all(Seq::empty(), actions) == Some(middle.items)
}

/// A piece more takes a decoder as far as the stream with that piece does, and
/// its actions come behind those before.
pub proof fn law_decoded_in_pieces(
    style: PathStyle,
    stream: Seq<u8>,
    actions: Seq<ArchiveAction>,
    middle: StreamModel,
    piece: Seq<u8>,
    more: Seq<ArchiveAction>,
    end: StreamModel,
)
    requires
        decoded_to(style, stream, actions, middle),
        run(middle, piece) == Ok::<StreamModel, CoZipError>(end),
        apply_all(middle.items, more) == Some(end.items),
    ensures
        decoded_to(style, stream + piece, actions + more, end),
{
    law_stream_in_pieces(stream_start(style), stream, piece);
    lemma_apply_concat(Seq::empty(), actions, more);
}

/// It does not matter in which pieces a stream came: two decoders that got it end
/// alike, and their actions write the same bytes to the same files.
pub proof fn law_pieces_write_alike(
    style: PathStyle,
    stream: Seq<u8>,
    whole: Seq<ArchiveAction>,
    pieces: Seq<ArchiveAction>,
    end: StreamModel,
    other_end: StreamModel,
    file_id: usize,
)
    requires
        decoded_to(style, stream, whole, end),
        decoded_to(style, stream, pieces, other_end),
        count_files(end.items) <= usize::MAX,
    ensures
        end == other_end,
        queued(whole, file_id) == queued(pieces, file_id),
{
    if file_id < count_files(end.items) {
        let i = lemma_file_of(end.items, file_id as nat);
        law_actions_write_the_files(whole, end.items, i);
        law_actions_write_the_files(pieces, end.items, i);
    } else {
        lemma_unopened_gets_nothing(whole, end.items, file_id);
        lemma_unopened_gets_nothing(pieces, end.items, file_id);
    }
}

/// What a decoder waits for.
#[derive(Debug)]
pub enum PDeflateArchiveWriteState {
    Header,
    RecordTag,
    RecordPathLen { tag: u8 },
    RecordPath { tag: u8, path_len: usize },
    RecordFileLen { path: Vec<String> },
    RecordFileData { file_id: usize, file_offset: u64, remaining: u64 },
    Finished,
}

impl View for PDeflateArchiveWriteState {
    type V = StreamState;

    open spec fn view(&self) -> StreamState {
        match *self {
            PDeflateArchiveWriteState::Header => StreamState::Header,
            PDeflateArchiveWriteState::RecordTag => StreamState::RecordTag,
            PDeflateArchiveWriteState::RecordPathLen { tag } => StreamState::RecordPathLen { tag },
            PDeflateArchiveWriteState::RecordPath { tag, path_len } => StreamState::RecordPath {
                tag,
                path_len: path_len as int,
            },
            PDeflateArchiveWriteState::RecordFileLen { path } => StreamState::RecordFileLen {
                path: texts_of(path@),
            },
            PDeflateArchiveWriteState::RecordFileData { remaining, .. } =>
            StreamState::RecordFileData { remaining },
            PDeflateArchiveWriteState::Finished => StreamState::Finished,
        }
    }
}

/// The state fits what was read: a path that is waited for is not empty, and of
/// a file that is being read the last item says how much is there.
pub open spec fn state_fits(state: PDeflateArchiveWriteState, items: Seq<ArchiveItem>) -> bool {
    match state {
        PDeflateArchiveWriteState::RecordPath { path_len, .. } => path_len > 0,
        PDeflateArchiveWriteState::RecordFileData { file_id, file_offset, remaining } => {
            &&& items.len() > 0
            &&& !items.last().is_dir
            &&& !items.last().finished
            &&& items.last().content.len() == file_offset
            &&& file_offset + remaining == items.last().len
            &&& remaining > 0
            &&& file_id == last_file_id(items)
        },
        _ => true,
    }
}

/// Decodes the stream of a directory archive, and says what to create and write.
pub struct PDeflateArchiveWriter {
    pub style: PathStyle,
    pub buffer: Vec<u8>,
    pub state: PDeflateArchiveWriteState,
    pub file_entries: usize,
    pub output_bytes: u64,
    pub items: Ghost<Seq<ArchiveItem>>,
}

impl View for PDeflateArchiveWriter {
    type V = StreamModel;

    open spec fn view(&self) -> StreamModel {
        StreamModel {
            style: self.style,
            state: self.state@,
            partial: self.buffer@,
            items: self.items@,
        }
    }
}

impl PDeflateArchiveWriter {
    /// The open field is not complete, the state fits what was read, and the
    /// counts are those of what was read.
    pub open spec fn wf(self) -> bool {
        &&& is_partial(self.state@, self.buffer@)
        &&& state_fits(self.state, self.items@)
        &&& self.file_entries == capped_usize(count_files(self.items@) as int)
        &&& self.output_bytes == capped_u64(count_bytes(self.items@) as int)
    }

    /// Starts with an empty stream, whose names are read by the rules of a system.
    pub fn new(style: PathStyle) -> (writer: Self)
        ensures
            writer.wf(),
            writer@ == stream_start(style),
    {
        let writer = PDeflateArchiveWriter {
            style,
            buffer: Vec::new(),
            state: PDeflateArchiveWriteState::Header,
            file_entries: 0,
            output_bytes: 0,
            items: Ghost(Seq::empty()),
        };
        assert(writer@.partial =~= Seq::<u8>::empty());
        writer
    }

    /// The number of files so far.
    pub fn file_entries(&self) -> (count: usize)
        requires
            self.wf(),
        ensures
            count == capped_usize(count_files(self@.items) as int),
    {
        self.file_entries
    }

    /// The number of bytes of files so far.
    pub fn output_bytes(&self) -> (count: u64)
        requires
            self.wf(),
        ensures
            count == capped_u64(count_bytes(self@.items) as int),
    {
        self.output_bytes
    }
}

/// Whether a stream may end here.
pub open spec fn stream_end(model: StreamModel) -> Result<(), CoZipError> {
    match model.state {
        StreamState::Finished => if model.partial.len() == 0 {
            Ok(())
        } else {
            Err(CoZipError::InvalidZip("trailing bytes in pdeflate directory archive"))
        },
        StreamState::RecordFileData { remaining } => if remaining == 0 {
            Err(CoZipError::InvalidZip("missing final end marker in directory archive"))
        } else {
            Err(CoZipError::InvalidZip("truncated file payload in directory archive"))
        },
        _ => Err(CoZipError::InvalidZip("truncated pdeflate directory archive")),
    }
}

/// One action more.
proof fn lemma_apply_push(
    items: Seq<ArchiveItem>,
    actions: Seq<ArchiveAction>,
    action: ArchiveAction,
)
    ensures
        apply_all(items, actions.push(action)) == (match apply_all(items, actions) {
            None => None,
            Some(items) => apply(items, action),
        }),
{
    assert(actions.push(action).drop_last() =~= actions);
}

/// Bytes that are added to the last item are added to the count, and leave the
/// number of files as it is.
proof fn lemma_counts_grown(items: Seq<ArchiveItem>, data: Seq<u8>)
    requires
        items.len() > 0,
    ensures
        count_files(grown(items, data)) == count_files(items),
        count_bytes(grown(items, data)) == count_bytes(items) + data.len(),
        grown(items, data).len() == items.len(),
{
    assert(grown(items, data).drop_last() =~= items.drop_last());
}

/// One item more.
proof fn lemma_counts_push(items: Seq<ArchiveItem>, item: ArchiveItem)
    ensures
        count_files(items.push(item)) == count_files(items) + if item.is_dir {
            0nat
        } else {
            1nat
        },
        count_bytes(items.push(item)) == count_bytes(items) + item.content.len(),
{
    assert(items.push(item).drop_last() =~= items);
}

/// What a decoder did with the bytes at hand.
struct FieldStep {
    took: bool,
    used: usize,
    state: PDeflateArchiveWriteState,
    file_entries: usize,
    output_bytes: u64,
    items: Ghost<Seq<ArchiveItem>>,
}

impl FieldStep {
    /// The step leads from a state and items to those it holds: it took a field,
    /// or the field is not complete.
    spec fn leads_from(
        self,
        style: PathStyle,
        state: PDeflateArchiveWriteState,
        items: Seq<ArchiveItem>,
        rest: Seq<u8>,
        actions: Seq<ArchiveAction>,
    ) -> bool {
        &&& state_fits(self.state, self.items@)
        &&& self.file_entries == capped_usize(count_files(self.items@) as int)
        &&& self.output_bytes == capped_u64(count_bytes(self.items@) as int)
        &&& apply_all(items, actions) == Some(self.items@)
        &&& if self.took {
            &&& 0 < self.used <= rest.len()
            &&& run(goes_on(style, state@, items), rest.take(self.used as int)) == Ok::<
                StreamModel,
                CoZipError,
            >(goes_on(style, self.state@, self.items@))
        } else {
            &&& self.used == 0
            &&& self.state@ == state@
            &&& self.items@ == items
            &&& is_partial(state@, rest)
        }
    }
}

/// The field that comes next was taken, or it is not complete, or it is wrong.
spec fn field_taken(
    r: Result<FieldStep, CoZipError>,
    style: PathStyle,
    state: PDeflateArchiveWriteState,
    items: Seq<ArchiveItem>,
    rest: Seq<u8>,
    before: Seq<ArchiveAction>,
    after: Seq<ArchiveAction>,
) -> bool {
    match r {
        Ok(step) => step.leads_from(style, state, items, rest, after),
        Err(error) => {
            &&& run(goes_on(style, state@, items), rest) == Err::<StreamModel, CoZipError>(error)
            &&& after == before
        },
    }
}

/// An error in the first bytes is an error of the whole.
proof fn lemma_run_error(model: StreamModel, input: Seq<u8>, n: int)
    requires
        0 <= n <= input.len(),
        run(model, input.take(n)) is Err,
    ensures
        run(model, input) == run(model, input.take(n)),
{
    law_stream_in_pieces(model, input.take(n), input.skip(n));
    assert(input.take(n) + input.skip(n) =~= input);
}

/// Takes the path of a record.
fn take_path_field(
    style: PathStyle,
    tag: u8,
    path_bytes: Vec<u8>,
    file_entries: usize,
    output_bytes: u64,
    items: Ghost<Seq<ArchiveItem>>,
    actions: &mut Vec<ArchiveAction>,
) -> (r: Result<(PDeflateArchiveWriteState, Ghost<Seq<ArchiveItem>>), CoZipError>)
    requires
        file_entries == capped_usize(count_files(items@) as int),
        output_bytes == capped_u64(count_bytes(items@) as int),
        old(actions)@.len() == 0,
    ensures
        match r {
            Ok((state, next)) => {
                &&& take_path(style, tag, path_bytes@, items@) == Ok::<StreamModel, CoZipError>(
                    goes_on(style, state@, next@),
                )
                &&& state_fits(state, next@)
                &&& apply_all(items@, final(actions)@) == Some(next@)
                &&& file_entries == capped_usize(count_files(next@) as int)
                &&& output_bytes == capped_u64(count_bytes(next@) as int)
            },
            Err(error) => {
                &&& take_path(style, tag, path_bytes@, items@) == Err::<StreamModel, CoZipError>(
                    error,
                )
                &&& final(actions)@ == old(actions)@
            },
        },
{
    let name = match string_from_utf8(path_bytes) {
        Some(name) => name,
        None => {
            return Err(CoZipError::NonUtf8Name);
        },
    };
    let path = match entry_path_from_zip_name(name.as_str(), style) {
        Ok(path) => path,
        Err(error) => {
            return Err(error);
        },
    };
    if tag == PDEFLATE_DIR_ARCHIVE_RECORD_DIR {
        let ghost item = dir_item(texts_of(path@));
        let action = ArchiveAction::CreateDir { path };
        proof {
            lemma_apply_push(items@, actions@, action);
            lemma_counts_push(items@, item);
        }
        actions.push(action);
        return Ok((PDeflateArchiveWriteState::RecordTag, Ghost(items@.push(item))));
    }
    Ok((PDeflateArchiveWriteState::RecordFileLen { path }, items))
}

/// Takes the first bytes of a stream.
fn take_header_field(
    style: PathStyle,
    rest: &[u8],
    file_entries: usize,
    output_bytes: u64,
    items: Ghost<Seq<ArchiveItem>>,
    actions: &mut Vec<ArchiveAction>,
) -> (r: Result<FieldStep, CoZipError>)
    requires
        state_fits(PDeflateArchiveWriteState::Header, items@),
        file_entries == capped_usize(count_files(items@) as int),
        output_bytes == capped_u64(count_bytes(items@) as int),
        old(actions)@.len() == 0,
    ensures
        field_taken(
            r,
            style,
            PDeflateArchiveWriteState::Header,
            items@,
            rest@,
            old(actions)@,
            final(actions)@,
        ),
{
    if rest.len() < 5 {
        return Ok(
            FieldStep {
                took: false,
                used: 0,
                state: PDeflateArchiveWriteState::Header,
                file_entries,
                output_bytes,
                items,
            },
        );
    }
    proof {
        let field = rest@.take(5);
        lemma_run_field(style, PDeflateArchiveWriteState::Header@, items@, field);
        assert(field.subrange(0, 4) =~= rest@.subrange(0, 4));
        let model = goes_on(style, PDeflateArchiveWriteState::Header@, items@);
        if run(model, field) is Err {
            lemma_run_error(model, rest@, 5);
        }
    }
    let marked = rest[0] == 0x43 && rest[1] == 0x5A && rest[2] == 0x41 && rest[3] == 0x52;
    proof {
        let head = rest@.subrange(0, 4);
        assert(head[0] == rest@[0] && head[1] == rest@[1] && head[2] == rest@[2] && head[3]
            == rest@[3]);
        if marked {
            assert(head =~= stream_magic());
        }
    }
    if !marked {
        return Err(CoZipError::InvalidZip("bad pdeflate directory archive magic"));
    }
    if rest[4] != PDEFLATE_DIR_ARCHIVE_VERSION {
        return Err(
            CoZipError::InvalidZip("unsupported pdeflate directory archive version"),
        );
    }
    Ok(
        FieldStep {
            took: true,
            used: 5,
            state: PDeflateArchiveWriteState::RecordTag,
            file_entries,
            output_bytes,
            items,
        },
    )
}

/// Takes the first byte of a record.
fn take_tag_field(
    style: PathStyle,
    rest: &[u8],
    file_entries: usize,
    output_bytes: u64,
    items: Ghost<Seq<ArchiveItem>>,
    actions: &mut Vec<ArchiveAction>,
) -> (r: Result<FieldStep, CoZipError>)
    requires
        state_fits(PDeflateArchiveWriteState::RecordTag, items@),
        file_entries == capped_usize(count_files(items@) as int),
        output_bytes == capped_u64(count_bytes(items@) as int),
        old(actions)@.len() == 0,
    ensures
        field_taken(
            r,
            style,
            PDeflateArchiveWriteState::RecordTag,
            items@,
            rest@,
            old(actions)@,
            final(actions)@,
        ),
{
    if rest.len() == 0 {
        return Ok(
            FieldStep {
                took: false,
                used: 0,
                state: PDeflateArchiveWriteState::RecordTag,
                file_entries,
                output_bytes,
                items,
            },
        );
    }
    proof {
        let field = rest@.take(1);
        lemma_run_field(style, PDeflateArchiveWriteState::RecordTag@, items@, field);
        let model = goes_on(style, PDeflateArchiveWriteState::RecordTag@, items@);
        if run(model, field) is Err {
            lemma_run_error(model, rest@, 1);
        }
    }
    let tag: u8 = rest[0];
    let next = if tag == PDEFLATE_DIR_ARCHIVE_RECORD_END {
        PDeflateArchiveWriteState::Finished
    } else if tag == PDEFLATE_DIR_ARCHIVE_RECORD_FILE || tag
        == PDEFLATE_DIR_ARCHIVE_RECORD_DIR {
        PDeflateArchiveWriteState::RecordPathLen { tag }
    } else {
        return Err(
            CoZipError::InvalidZip("unknown pdeflate directory archive record type"),
        );
    };
    Ok(
        FieldStep { took: true, used: 1, state: next, file_entries, output_bytes, items },
    )
}

/// Takes the length of a path.
fn take_path_len_field(
    style: PathStyle,
    tag: u8,
    rest: &[u8],
    file_entries: usize,
    output_bytes: u64,
    items: Ghost<Seq<ArchiveItem>>,
    actions: &mut Vec<ArchiveAction>,
) -> (r: Result<FieldStep, CoZipError>)
    requires
        state_fits((PDeflateArchiveWriteState::RecordPathLen { tag }), items@),
        file_entries == capped_usize(count_files(items@) as int),
        output_bytes == capped_u64(count_bytes(items@) as int),
        old(actions)@.len() == 0,
    ensures
        field_taken(
            r,
            style,
            (PDeflateArchiveWriteState::RecordPathLen { tag }),
            items@,
            rest@,
            old(actions)@,
            final(actions)@,
        ),
{
    if rest.len() < 4 {
        return Ok(
            FieldStep {
                took: false,
                used: 0,
                state: PDeflateArchiveWriteState::RecordPathLen { tag },
                file_entries,
                output_bytes,
                items,
            },
        );
    }
    proof {
        let field = rest@.take(4);
        lemma_run_field(style, (PDeflateArchiveWriteState::RecordPathLen { tag })@, items@, field);
        let model = goes_on(style, (PDeflateArchiveWriteState::RecordPathLen { tag })@, items@);
        if run(model, field) is Err {
            lemma_run_error(model, rest@, 4);
        }
        assert(le32(field, 0) == le32(rest@, 0));
    }
    let path_len = get_u32(rest, 0) as usize;
    if path_len == 0 {
        let nothing: Vec<u8> = Vec::new();
        assert(nothing@ =~= Seq::<u8>::empty());
        return match take_path_field(
            style,
            tag,
            nothing,
            file_entries,
            output_bytes,
            items,
            actions,
        ) {
            Ok((state, items)) => Ok(
                FieldStep { took: true, used: 4, state, file_entries, output_bytes, items },
            ),
            Err(error) => Err(error),
        };
    }
    Ok(
        FieldStep {
            took: true,
            used: 4,
            state: PDeflateArchiveWriteState::RecordPath { tag, path_len },
            file_entries,
            output_bytes,
            items,
        },
    )
}

/// Takes the path of a record, where all of it is there.
fn take_path_step(
    style: PathStyle,
    tag: u8,
    path_len: usize,
    rest: &[u8],
    file_entries: usize,
    output_bytes: u64,
    items: Ghost<Seq<ArchiveItem>>,
    actions: &mut Vec<ArchiveAction>,
) -> (r: Result<FieldStep, CoZipError>)
    requires
        state_fits((PDeflateArchiveWriteState::RecordPath { tag, path_len }), items@),
        file_entries == capped_usize(count_files(items@) as int),
        output_bytes == capped_u64(count_bytes(items@) as int),
        old(actions)@.len() == 0,
    ensures
        field_taken(
            r,
            style,
            (PDeflateArchiveWriteState::RecordPath { tag, path_len }),
            items@,
            rest@,
            old(actions)@,
            final(actions)@,
        ),
{
    if rest.len() < path_len {
        return Ok(
            FieldStep {
                took: false,
                used: 0,
                state: PDeflateArchiveWriteState::RecordPath { tag, path_len },
                file_entries,
                output_bytes,
                items,
            },
        );
    }
    proof {
        let field = rest@.take(path_len as int);
        let state = PDeflateArchiveWriteState::RecordPath { tag, path_len };
        lemma_run_field(style, state@, items@, field);
        let model = goes_on(style, state@, items@);
        if run(model, field) is Err {
            lemma_run_error(model, rest@, path_len as int);
        }
    }
    let path_bytes = copy_range(rest, 0, path_len);
    assert(path_bytes@ =~= rest@.take(path_len as int));
    match take_path_field(style, tag, path_bytes, file_entries, output_bytes, items, actions) {
        Ok((state, items)) => Ok(
            FieldStep {
                took: true,
                used: path_len,
                state,
                file_entries,
                output_bytes,
                items,
            },
        ),
        Err(error) => Err(error),
    }
}

/// Takes the length of a file, and opens it.
fn take_file_len_field(
    style: PathStyle,
    path: Vec<String>,
    rest: &[u8],
    file_entries: usize,
    output_bytes: u64,
    items: Ghost<Seq<ArchiveItem>>,
    actions: &mut Vec<ArchiveAction>,
) -> (r: Result<FieldStep, CoZipError>)
    requires
        state_fits((PDeflateArchiveWriteState::RecordFileLen { path }), items@),
        file_entries == capped_usize(count_files(items@) as int),
        output_bytes == capped_u64(count_bytes(items@) as int),
        old(actions)@.len() == 0,
    ensures
        field_taken(
            r,
            style,
            (PDeflateArchiveWriteState::RecordFileLen { path }),
            items@,
            rest@,
            old(actions)@,
            final(actions)@,
        ),
{
    if rest.len() < 8 {
        return Ok(
            FieldStep {
                took: false,
                used: 0,
                state: PDeflateArchiveWriteState::RecordFileLen { path },
                file_entries,
                output_bytes,
                items,
            },
        );
    }
    let file_len: u64 = get_u64(rest, 0);
    let ghost item = file_item(texts_of(path@), file_len, file_len == 0);
    let ghost more = items@.push(item);
    proof {
        let field = rest@.take(8);
        lemma_run_field(style, (PDeflateArchiveWriteState::RecordFileLen { path })@, items@, field);
        assert(le64(field, 0) == le64(rest@, 0));
        lemma_counts_push(items@, item);
    }
    let file_id: usize = file_entries;
    let action = ArchiveAction::OpenFile { path, file_len };
    proof {
        lemma_apply_push(items@, actions@, action);
    }
    actions.push(action);
    let next = if file_len == 0 {
        let done = ArchiveAction::FinishEntry;
        proof {
            lemma_apply_push(items@, actions@, done);
            let opened = items@.push(file_item(texts_of(path@), file_len, false));
            assert(completed(opened) =~= more);
        }
        actions.push(done);
        PDeflateArchiveWriteState::RecordTag
    } else {
        PDeflateArchiveWriteState::RecordFileData {
            file_id,
            file_offset: 0,
            remaining: file_len,
        }
    };
    Ok(
        FieldStep {
            took: true,
            used: 8,
            state: next,
            file_entries: file_entries.saturating_add(1),
            output_bytes,
            items: Ghost(more),
        },
    )
}

/// Takes bytes of a file.
fn take_data_field(
    style: PathStyle,
    file_id: usize,
    file_offset: u64,
    remaining: u64,
    rest: &[u8],
    file_entries: usize,
    output_bytes: u64,
    items: Ghost<Seq<ArchiveItem>>,
    actions: &mut Vec<ArchiveAction>,
) -> (r: Result<FieldStep, CoZipError>)
    requires
        state_fits(
            (PDeflateArchiveWriteState::RecordFileData { file_id, file_offset, remaining }),
            items@,
        ),
        file_entries == capped_usize(count_files(items@) as int),
        output_bytes == capped_u64(count_bytes(items@) as int),
        old(actions)@.len() == 0,
    ensures
        field_taken(
            r,
            style,
            (PDeflateArchiveWriteState::RecordFileData { file_id, file_offset, remaining }),
            items@,
            rest@,
            old(actions)@,
            final(actions)@,
        ),
{
    if rest.len() == 0 {
        return Ok(
            FieldStep {
                took: false,
                used: 0,
                state: PDeflateArchiveWriteState::RecordFileData {
                    file_id,
                    file_offset,
                    remaining,
                },
                file_entries,
                output_bytes,
                items,
            },
        );
    }
    let take: usize = if remaining < rest.len() as u64 {
        remaining as usize
    } else {
        rest.len()
    };
    let data = copy_range(rest, 0, take);
    let ghost more = grown(items@, data@);
    proof {
        assert(data@ =~= rest@.take(take as int));
        lemma_run_data(style, remaining, items@, data@);
        lemma_counts_grown(items@, data@);
    }
    let action = ArchiveAction::WriteFragment { file_id, offset: file_offset, data };
    proof {
        lemma_apply_push(items@, actions@, action);
    }
    actions.push(action);
    let left: u64 = remaining - take as u64;
    let next = if left == 0 {
        let done = ArchiveAction::FinishEntry;
        proof {
            lemma_apply_push(items@, actions@, done);
            assert(completed(extended(items@, data@)) =~= more);
        }
        actions.push(done);
        PDeflateArchiveWriteState::RecordTag
    } else {
        proof {
            assert(extended(items@, data@) =~= more);
        }
        PDeflateArchiveWriteState::RecordFileData {
            file_id,
            file_offset: file_offset + take as u64,
            remaining: left,
        }
    };
    Ok(
        FieldStep {
            took: true,
            used: take,
            state: next,
            file_entries,
            output_bytes: output_bytes.saturating_add(take as u64),
            items: Ghost(more),
        },
    )
}

/// Takes the field that comes next, where it is complete.
fn take_field(
    style: PathStyle,
    state: PDeflateArchiveWriteState,
    rest: &[u8],
    file_entries: usize,
    output_bytes: u64,
    items: Ghost<Seq<ArchiveItem>>,
    actions: &mut Vec<ArchiveAction>,
) -> (r: Result<FieldStep, CoZipError>)
    requires
        state_fits(state, items@),
        file_entries == capped_usize(count_files(items@) as int),
        output_bytes == capped_u64(count_bytes(items@) as int),
        old(actions)@.len() == 0,
    ensures
        field_taken(
            r,
            style,
            state,
            items@,
            rest@,
            old(actions)@,
            final(actions)@,
        ),
{
    match state {
        PDeflateArchiveWriteState::Header => take_header_field(
            style,
            rest,
            file_entries,
            output_bytes,
            items,
            actions,
        ),
        PDeflateArchiveWriteState::RecordTag => take_tag_field(
            style,
            rest,
            file_entries,
            output_bytes,
            items,
            actions,
        ),
        PDeflateArchiveWriteState::RecordPathLen { tag } => take_path_len_field(
            style,
            tag,
            rest,
            file_entries,
            output_bytes,
            items,
            actions,
        ),
        PDeflateArchiveWriteState::RecordPath { tag, path_len } => take_path_step(
            style,
            tag,
            path_len,
            rest,
            file_entries,
            output_bytes,
            items,
            actions,
        ),
        PDeflateArchiveWriteState::RecordFileLen { path } => take_file_len_field(
            style,
            path,
            rest,
            file_entries,
            output_bytes,
            items,
            actions,
        ),
        PDeflateArchiveWriteState::RecordFileData { file_id, file_offset, remaining } =>
        take_data_field(
            style,
            file_id,
            file_offset,
            remaining,
            rest,
            file_entries,
            output_bytes,
            items,
            actions,
        ),
        PDeflateArchiveWriteState::Finished => {
            Ok(FieldStep { took: false, used: 0, state, file_entries, output_bytes, items })
        },
    }
}

/// Actions behind actions.
proof fn lemma_apply_concat(items: Seq<ArchiveItem>, a: Seq<ArchiveAction>, b: Seq<ArchiveAction>)
    ensures
        apply_all(items, a + b) == (match apply_all(items, a) {
            None => None,
            Some(items) => apply_all(items, b),
        }),
    decreases b.len(),
{
    if b.len() == 0 {
        assert(a + b =~= a);
    } else {
        lemma_apply_concat(items, a, b.drop_last());
        assert((a + b).drop_last() =~= a + b.drop_last());
    }
}

impl PDeflateArchiveWriter {
    /// Takes every complete field in the buffer. The actions that this calls for
    /// are added to `actions`.
    fn process_buffer(&mut self, actions: &mut Vec<ArchiveAction>) -> (r: Result<(), CoZipError>)
        requires
            state_fits(old(self).state, old(self).items@),
            old(self).file_entries == capped_usize(count_files(old(self).items@) as int),
            old(self).output_bytes == capped_u64(count_bytes(old(self).items@) as int),
            old(actions)@.len() == 0,
        ensures
            apply_all(old(self).items@, final(actions)@) == Some(final(self).items@),
            match r {
                Ok(_) => {
                    &&& final(self).wf()
                    &&& run(
                        goes_on(old(self).style, old(self).state@, old(self).items@),
                        old(self).buffer@,
                    ) == Ok::<StreamModel, CoZipError>(final(self)@)
                },
                Err(error) => run(
                    goes_on(old(self).style, old(self).state@, old(self).items@),
                    old(self).buffer@,
                ) == Err::<StreamModel, CoZipError>(error),
            },
    {
        let ghost start = goes_on(self.style, self.state@, self.items@);
        let ghost input = self.buffer@;
        let ghost first = self.items@;
        let mut pos: usize = 0;
        let mut going = true;
        assert(input.skip(0) =~= input);
        while going
            invariant
                first == old(self).items@,
                start == goes_on(old(self).style, old(self).state@, old(self).items@),
                input == old(self).buffer@,
                self.style == old(self).style,
                pos <= input.len(),
                self.buffer@ == input,
                state_fits(self.state, self.items@),
                self.file_entries == capped_usize(count_files(self.items@) as int),
                self.output_bytes == capped_u64(count_bytes(self.items@) as int),
                run(start, input) == run(
                    goes_on(self.style, self.state@, self.items@),
                    input.skip(pos as int),
                ),
                apply_all(first, actions@) == Some(self.items@),
                !going ==> is_partial(self.state@, input.skip(pos as int)),
            decreases input.len() - pos, if going { 1int } else { 0int },
        {
            let mut state = PDeflateArchiveWriteState::Finished;
            std::mem::swap(&mut state, &mut self.state);
            let ghost before = goes_on(self.style, state@, self.items@);
            let ghost done = actions@;
            let rest = &self.buffer[pos..self.buffer.len()];
            let ghost left = rest@;
            assert(left =~= input.skip(pos as int));
            let mut more: Vec<ArchiveAction> = Vec::new();
            let step = match take_field(
                self.style,
                state,
                rest,
                self.file_entries,
                self.output_bytes,
                Ghost(self.items@),
                &mut more,
            ) {
                Ok(step) => step,
                Err(error) => {
                    return Err(error);
                },
            };
            proof {
                lemma_apply_concat(first, done, more@);
                if step.took {
                    law_stream_in_pieces(
                        before,
                        left.take(step.used as int),
                        left.skip(step.used as int),
                    );
                    assert(left.take(step.used as int) + left.skip(step.used as int) =~= left);
                    assert(left.skip(step.used as int) =~= input.skip(pos + step.used));
                }
            }
            actions.append(&mut more);
            self.state = step.state;
            self.file_entries = step.file_entries;
            self.output_bytes = step.output_bytes;
            self.items = step.items;
            going = step.took;
            pos = pos + step.used;
        }
        let rest = copy_range(self.buffer.as_slice(), pos, self.buffer.len());
        proof {
            assert(rest@ =~= input.skip(pos as int));
            lemma_run_partial(self.style, self.state@, self.items@, rest@);
        }
        self.buffer = rest;
        Ok(())
    }

    /// Takes more bytes of the stream. The actions that they call for are
    /// returned in `actions`, in the order in which they are to be done.
    pub fn write(&mut self, buf: &[u8], actions: &mut Vec<ArchiveAction>) -> (r: Result<
        (),
        CoZipError,
    >)
        requires
            old(self).wf(),
            old(actions)@.len() == 0,
        ensures
            apply_all(old(self)@.items, final(actions)@) == Some(final(self)@.items),
            match r {
                Ok(_) => final(self).wf() && run(old(self)@, buf@) == Ok::<StreamModel, CoZipError>(
                    final(self)@,
                ),
                Err(error) => run(old(self)@, buf@) == Err::<StreamModel, CoZipError>(error),
            },
    {
        proof {
            lemma_run_partial(self.style, self.state@, self.items@, self.buffer@);
            law_stream_in_pieces(goes_on(self.style, self.state@, self.items@), self.buffer@, buf@);
        }
        write_bytes(&mut self.buffer, buf);
        self.process_buffer(actions)
    }

    /// Ends the stream.
    pub fn finish(&self) -> (r: Result<(), CoZipError>)
        requires
            self.wf(),
        ensures
            r == stream_end(self@),
    {
        match &self.state {
            PDeflateArchiveWriteState::Finished => {
                if self.buffer.len() == 0 {
                    Ok(())
                } else {
                    Err(CoZipError::InvalidZip("trailing bytes in pdeflate directory archive"))
                }
            },
            PDeflateArchiveWriteState::RecordFileData { file_id: _, file_offset: _, remaining } => {
                if *remaining == 0 {
                    Err(CoZipError::InvalidZip("missing final end marker in directory archive"))
                } else {
                    Err(CoZipError::InvalidZip("truncated file payload in directory archive"))
                }
            },
            _ => Err(CoZipError::InvalidZip("truncated pdeflate directory archive")),
        }
    }
}

} // verus!
