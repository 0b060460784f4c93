//! The layout of directory archives, byte by byte: the header, and the records of the
//! stream behind it.

use vstd::prelude::*;
use vstd::utf8::{decode_utf8, encode_utf8, valid_utf8};

use crate::dir_encode::{
    can_encode, decoded_items, directory_magic, encode_pdeflate_directory_header, encoded_entries,
    encoded_entry, encoded_stream, inspect_pdeflate_directory_header, law_stream_roundtrip,
    read_pdeflate_directory_header,
    PDeflateArchiveEntrySource, PDeflateDirectoryFileHeader, StreamEntry,
};
use crate::dir_read::{
    contents_fit, file_bytes, files_among, law_reader_puts_out_stream, stream_entries,
    PDeflateArchiveReader,
};
use crate::dir_stream::{
    apply_all, count_files, goes_on, law_actions_write_the_files, law_stream_in_pieces,
    lemma_run_field, queued, run, stream_end, stream_header, stream_start, ArchiveAction,
    ArchiveItem, PDeflateArchiveWriter, StreamModel, StreamState,
};
use crate::error::{CoZipError, IoFailure};
use crate::le::{
    law_eight_bytes_are_read, law_numbers_are_written, lemma_number_tells, number_at, u32_le, u64_le,
};
use crate::paths::{name_parts, PathStyle};
use crate::zip_layout::{holds_at, lemma_part};

verus! {

broadcast use crate::le::group_le_len;

/// The header of a directory archive is the letters CZPD, the version 2, and two numbers
/// of eight bytes: the files and their bytes.
pub proof fn law_directory_header_is_laid_out(file_entries: usize, total: u64, header: Vec<u8>)
    requires
        call_ensures(encode_pdeflate_directory_header, (file_entries, total), header),
    ensures
        header@.len() == 21,
        header@[0] as char == 'C',
        header@[1] as char == 'Z',
        header@[2] as char == 'P',
        header@[3] as char == 'D',
        header@[4] == 2,
        number_at(header@, 5, 8) == file_entries,
        number_at(header@, 13, 8) == total,
{
    law_numbers_are_written(0, 0, file_entries as u64);
    law_numbers_are_written(0, 0, total);
    assert(header@.subrange(5, 13) =~= u64_le(file_entries as u64));
    assert(header@.subrange(13, 21) =~= u64_le(total));
}

/// A directory archive is told by the letters CZPD. Version 1 has a header of five bytes
/// that counts nothing; version 2 has one of 21 bytes with the files and their bytes. No
/// other version is read.
pub proof fn law_directory_headers_are_read(
    bytes: &[u8],
    r: Result<(PDeflateDirectoryFileHeader, usize), CoZipError>,
)
    requires
        call_ensures(read_pdeflate_directory_header, (bytes,), r),
    ensures
        ({
            let marked = bytes@.len() >= 5 && bytes@[0] as char == 'C' && bytes@[1] as char == 'Z'
                && bytes@[2] as char == 'P' && bytes@[3] as char == 'D';
            &&& r is Ok ==> marked && (bytes@[4] == 1 || bytes@[4] == 2)
            &&& bytes@.len() < 5 ==> r->Err_0 == CoZipError::Io(IoFailure::UnexpectedEof)
            &&& bytes@.len() >= 5 && !(marked && (bytes@[4] == 1 || bytes@[4] == 2))
                ==> r->Err_0 is InvalidZip
            &&& marked && bytes@[4] == 2 && bytes@.len() < 21 ==> r is Err && r->Err_0
                == CoZipError::Io(IoFailure::UnexpectedEof)
            &&& marked && bytes@[4] == 1 ==> r == Ok::<
                (PDeflateDirectoryFileHeader, usize),
                CoZipError,
            >(
                (
                    PDeflateDirectoryFileHeader {
                        version: 1,
                        file_entries: None,
                        total_file_bytes: None,
                    },
                    5,
                ),
            )
            &&& marked && bytes@[4] == 2 && bytes@.len() >= 21 && number_at(bytes@, 5, 8)
                <= usize::MAX ==> r == Ok::<(PDeflateDirectoryFileHeader, usize), CoZipError>(
                (
                    PDeflateDirectoryFileHeader {
                        version: 2,
                        file_entries: Some(number_at(bytes@, 5, 8) as usize),
                        total_file_bytes: Some(number_at(bytes@, 13, 8) as u64),
                    },
                    21,
                ),
            )
        }),
{
    if bytes@.len() >= 5 {
        let front = bytes@.subrange(0, 4);
        assert(front[0] == bytes@[0] && front[1] == bytes@[1] && front[2] == bytes@[2] && front[3]
            == bytes@[3]);
        if bytes@[0] == 0x43 && bytes@[1] == 0x5A && bytes@[2] == 0x50 && bytes@[3] == 0x44 {
            assert(front =~= directory_magic());
        }
    }
    if bytes@.len() >= 21 {
        law_eight_bytes_are_read(bytes@, 5);
        law_eight_bytes_are_read(bytes@, 13);
    }
}

/// The record of an entry stands from `at` to `next`: a byte that tells a file (1) from a
/// directory (2), the length of the name in four bytes and the name, and for a file its
/// length in eight bytes and its bytes.
pub open spec fn dir_record_stands(
    stream: Seq<u8>,
    at: int,
    next: int,
    entry: StreamEntry,
) -> bool {
    let end = at + 5 + entry.name.len();
    &&& 0 <= at
    &&& next <= stream.len()
    &&& end <= stream.len()
    &&& number_at(stream, at + 1, 4) == entry.name.len()
    &&& holds_at(stream, at + 5, entry.name)
    &&& if entry.is_dir {
        &&& stream[at] == 2
        &&& next == end
    } else {
        &&& stream[at] == 1
        &&& end + 8 <= stream.len()
        &&& number_at(stream, end, 8) == entry.content.len()
        &&& holds_at(stream, end + 8, entry.content)
        &&& next == end + 8 + entry.content.len()
    }
}

/// The stream is that of these entries: it starts with the letters CZAR and the version
/// 1, the records stand at these places, one behind the other, and a zero ends it.
pub open spec fn is_directory_stream(
    stream: Seq<u8>,
    entries: Seq<StreamEntry>,
    places: Seq<int>,
) -> bool {
    let n = entries.len() as int;
    &&& places.len() == n + 1
    &&& stream.len() >= 6
    &&& stream[0] as char == 'C'
    &&& stream[1] as char == 'Z'
    &&& stream[2] as char == 'A'
    &&& stream[3] as char == 'R'
    &&& stream[4] == 1
    &&& places[0] == 5
    &&& forall|i: int|
        0 <= i < n ==> dir_record_stands(stream, places[i], places[i + 1], #[trigger] entries[i])
    &&& stream.len() == places[n] + 1
    &&& stream[places[n]] == 0
}

proof fn lemma_dir_record_stands(stream: Seq<u8>, at: int, entry: StreamEntry)
    requires
        holds_at(stream, at, encoded_entry(entry)),
        entry.name.len() <= u32::MAX,
        entry.content.len() <= u64::MAX,
        entry.is_dir ==> entry.content.len() == 0,
    ensures
        dir_record_stands(stream, at, at + encoded_entry(entry).len(), entry),
{
    let s = encoded_entry(entry);
    let n = entry.name.len() as int;
    law_numbers_are_written(0, n as u32, entry.content.len() as u64);
    assert(stream.subrange(at, at + s.len())[0] == stream[at]);
    assert(s.subrange(1, 5) =~= u32_le(n as u32));
    assert(s.subrange(5, 5 + n) =~= entry.name);
    lemma_part(stream, at, s, 1, u32_le(n as u32));
    lemma_part(stream, at, s, 5, entry.name);
    if !entry.is_dir {
        assert(s.subrange(5 + n, 13 + n) =~= u64_le(entry.content.len() as u64));
        assert(s.subrange(13 + n, 13 + n + entry.content.len()) =~= entry.content);
        lemma_part(stream, at, s, 5 + n, u64_le(entry.content.len() as u64));
        lemma_part(stream, at, s, 13 + n, entry.content);
    }
}

/// Where the records of a stream stand.
pub open spec fn dir_record_places(entries: Seq<StreamEntry>) -> Seq<int> {
    Seq::new(entries.len() + 1, |i: int| encoded_entries(entries, i).len() as int)
}

proof fn lemma_entries_in_stream(entries: Seq<StreamEntry>, i: int, n: int)
    requires
        0 <= i <= n <= entries.len(),
    ensures
        encoded_entries(entries, i).len() <= encoded_entries(entries, n).len(),
        encoded_entries(entries, n).subrange(0, encoded_entries(entries, i).len() as int)
            == encoded_entries(entries, i),
    decreases n - i,
{
    let whole = encoded_entries(entries, n);
    let part = encoded_entries(entries, i);
    if i < n {
        lemma_entries_in_stream(entries, i, n - 1);
        let fewer = encoded_entries(entries, n - 1);
        assert(whole.subrange(0, part.len() as int) =~= fewer.subrange(0, part.len() as int));
    } else {
        assert(whole.subrange(0, part.len() as int) =~= part);
    }
}

/// The stream that a reader of a directory puts out follows the format, whatever the
/// directory holds.
pub proof fn law_directory_stream_follows_the_format(
    entries: Vec<PDeflateArchiveEntrySource>,
    reader: PDeflateArchiveReader,
    contents: Seq<Seq<u8>>,
)
    requires
        call_ensures(PDeflateArchiveReader::new, (entries,), reader),
        contents_fit(entries@, contents),
        forall|i: int|
            0 <= i < entries@.len() ==> encode_utf8((#[trigger] entries@[i]).relative_name@).len()
                <= u32::MAX,
    ensures
        exists|places: Seq<int>| #[trigger]
            is_directory_stream(
                reader.rest(contents),
                stream_entries(entries@, contents),
                places,
            ),
{
    let all = stream_entries(entries@, contents);
    let n = all.len() as int;
    let stream = reader.rest(contents);
    let places = dir_record_places(all);
    let body = encoded_entries(all, n);
    law_reader_puts_out_stream(entries@, contents);
    assert(stream == encoded_stream(all));
    lemma_entries_in_stream(all, 0, n);
    assert(stream.subrange(0, 5) =~= stream_header()) by {
        assert(stream.subrange(0, 5) =~= body.subrange(0, 5));
    }
    let front = stream.subrange(0, 5);
    assert(front[0] == stream[0] && front[1] == stream[1] && front[2] == stream[2] && front[3]
        == stream[3] && front[4] == stream[4]);
    assert forall|i: int| 0 <= i < n implies dir_record_stands(
        stream,
        places[i],
        places[i + 1],
        #[trigger] all[i],
    ) by {
        let at = places[i];
        let record = encoded_entry(all[i]);
        lemma_entries_in_stream(all, i + 1, n);
        let upto = encoded_entries(all, i + 1);
        assert(upto == encoded_entries(all, i) + record);
        assert(stream.subrange(at, at + record.len()) =~= body.subrange(
            0,
            upto.len() as int,
        ).subrange(at, at + record.len()));
        assert(upto.subrange(at, at + record.len()) =~= record);
        assert(contents[i].len() <= u64::MAX);
        lemma_dir_record_stands(stream, at, all[i]);
    }
    assert(is_directory_stream(stream, all, places));
}

proof fn lemma_four_bytes(s: Seq<u8>, at: int, v: u32)
    requires
        0 <= at,
        at + 4 <= s.len(),
        number_at(s, at, 4) == v,
    ensures
        s.subrange(at, at + 4) == u32_le(v),
{
    law_numbers_are_written(0, v, 0);
    lemma_number_tells(s.subrange(at, at + 4), u32_le(v));
}

proof fn lemma_eight_bytes(s: Seq<u8>, at: int, v: u64)
    requires
        0 <= at,
        at + 8 <= s.len(),
        number_at(s, at, 8) == v,
    ensures
        s.subrange(at, at + 8) == u64_le(v),
{
    law_numbers_are_written(0, 0, v);
    lemma_number_tells(s.subrange(at, at + 8), u64_le(v));
}

proof fn lemma_stream_up_to(
    stream: Seq<u8>,
    entries: Seq<StreamEntry>,
    places: Seq<int>,
    i: int,
)
    requires
        is_directory_stream(stream, entries, places),
        0 <= i <= entries.len(),
        forall|j: int|
            0 <= j < entries.len() ==> (#[trigger] entries[j]).name.len() <= u32::MAX
                && entries[j].content.len() <= u64::MAX && (entries[j].is_dir
                ==> entries[j].content.len() == 0),
    ensures
        places[i] <= stream.len(),
        stream.subrange(0, places[i]) == encoded_entries(entries, i),
    decreases i,
{
    if i == 0 {
        assert(stream.subrange(0, 5) =~= stream_header());
    } else {
        lemma_stream_up_to(stream, entries, places, i - 1);
        let at = places[i - 1];
        let entry = entries[i - 1];
        let end = at + 5 + entry.name.len();
        assert(dir_record_stands(stream, at, places[i - 1 + 1], entry));
        lemma_four_bytes(stream, at + 1, entry.name.len() as u32);
        let head = stream.subrange(at, end);
        assert(head =~= seq![stream[at]] + stream.subrange(at + 1, at + 5) + stream.subrange(
            at + 5,
            end,
        ));
        if entry.is_dir {
            assert(entry.content =~= Seq::<u8>::empty());
            assert(stream.subrange(at, places[i]) =~= encoded_entry(entry));
        } else {
            lemma_eight_bytes(stream, end, entry.content.len() as u64);
            assert(stream.subrange(at, places[i]) =~= head + stream.subrange(end, end + 8)
                + stream.subrange(end + 8, places[i]));
            assert(stream.subrange(at, places[i]) =~= encoded_entry(entry));
        }
        assert(stream.subrange(0, places[i]) =~= stream.subrange(0, at) + stream.subrange(
            at,
            places[i],
        ));
    }
}

/// A stream that follows the format decodes to its entries, whoever made it: every
/// directory and every file, in order, at the place that its name says and with its
/// bytes, and to a proper end.
pub proof fn law_directory_streams_are_decoded(
    stream: Seq<u8>,
    entries: Seq<StreamEntry>,
    places: Seq<int>,
    style: PathStyle,
) -> (items: Seq<ArchiveItem>)
    requires
        is_directory_stream(stream, entries, places),
        forall|i: int|
            0 <= i < entries.len() ==> {
                &&& valid_utf8((#[trigger] entries[i]).name)
                &&& name_parts(decode_utf8(entries[i].name), style) is Ok
                &&& entries[i].name.len() <= u32::MAX
                &&& entries[i].content.len() <= u64::MAX
                &&& entries[i].is_dir ==> entries[i].content.len() == 0
            },
    ensures
        run(stream_start(style), stream) == Ok::<StreamModel, CoZipError>(
            goes_on(style, StreamState::Finished, items),
        ),
        stream_end(goes_on(style, StreamState::Finished, items)) is Ok,
        items.len() == entries.len(),
        forall|i: int|
            0 <= i < entries.len() ==> {
                &&& name_parts(decode_utf8(entries[i].name), style) == Ok::<
                    Seq<Seq<char>>,
                    CoZipError,
                >((#[trigger] items[i]).path)
                &&& items[i].is_dir == entries[i].is_dir
                &&& items[i].content == entries[i].content
                &&& items[i].finished
            },
{
    let n = entries.len() as int;
    assert forall|i: int| 0 <= i < n implies can_encode(style, #[trigger] entries[i]) by {}
    lemma_stream_up_to(stream, entries, places, n);
    assert(stream =~= stream.subrange(0, places[n]).push(stream[places[n]]));
    assert(stream =~= encoded_stream(entries));
    law_stream_roundtrip(style, entries);
    let items = decoded_items(style, entries, n);
    assert forall|i: int| 0 <= i < n implies {
        &&& name_parts(decode_utf8(entries[i].name), style) == Ok::<Seq<Seq<char>>, CoZipError>(
            (#[trigger] items[i]).path,
        )
        &&& items[i].is_dir == entries[i].is_dir
        &&& items[i].content == entries[i].content
        &&& items[i].finished
    } by {
        assert(can_encode(style, entries[i]));
    }
    items
}

/// Bytes behind the end mark are kept, and nothing else comes of them.
proof fn lemma_run_finished(model: StreamModel, rest: Seq<u8>)
    requires
        model.state is Finished,
    ensures
        run(model, rest) == Ok::<StreamModel, CoZipError>(
            StreamModel { partial: model.partial + rest, ..model },
        ),
    decreases rest.len(),
{
    if rest.len() == 0 {
        assert(model.partial + rest =~= model.partial);
    } else {
        lemma_run_finished(model, rest.drop_last());
        assert((model.partial + rest.drop_last()).push(rest.last()) =~= model.partial + rest);
    }
}

/// A stream that was cut off does not pass for a whole one, wherever it was cut, nor does
/// one with bytes behind its end.
pub proof fn law_damaged_streams_are_refused(
    stream: Seq<u8>,
    style: PathStyle,
    items: Seq<ArchiveItem>,
    k: int,
    more: Seq<u8>,
)
    requires
        run(stream_start(style), stream) == Ok::<StreamModel, CoZipError>(
            goes_on(style, StreamState::Finished, items),
        ),
        0 <= k < stream.len(),
        more.len() > 0,
    ensures
        run(stream_start(style), stream.take(k)) matches Ok(model) ==> stream_end(model) is Err,
        run(stream_start(style), stream + more) matches Ok(model) ==> stream_end(model) is Err,
{
    let rest = stream.skip(k);
    assert(stream.take(k) + rest =~= stream);
    law_stream_in_pieces(stream_start(style), stream.take(k), rest);
    if let Ok(model) = run(stream_start(style), stream.take(k)) {
        if model.state is Finished {
            lemma_run_finished(model, rest);
        }
    }
    law_stream_in_pieces(stream_start(style), stream, more);
    lemma_run_finished(goes_on(style, StreamState::Finished, items), more);
}

/// A stream that starts with other bytes than the letters CZAR and the version 1 is
/// refused, whatever follows.
pub proof fn law_foreign_streams_are_refused(stream: Seq<u8>, style: PathStyle)
    requires
        stream.len() >= 5,
        !(stream[0] as char == 'C' && stream[1] as char == 'Z' && stream[2] as char == 'A'
            && stream[3] as char == 'R' && stream[4] == 1),
    ensures
        run(stream_start(style), stream) matches Err(error) && error is InvalidZip,
{
    let front = stream.take(5);
    let rest = stream.skip(5);
    assert(front + rest =~= stream);
    law_stream_in_pieces(stream_start(style), front, rest);
    lemma_run_field(style, StreamState::Header, Seq::empty(), front);
    assert(stream_start(style) == goes_on(style, StreamState::Header, Seq::empty()));
    let magic = front.subrange(0, 4);
    assert(magic[0] == stream[0] && magic[1] == stream[1] && magic[2] == stream[2] && magic[3]
        == stream[3]);
}

/// A record that tells neither a file nor a directory nor the end is refused.
pub proof fn law_unknown_records_are_refused(
    style: PathStyle,
    items: Seq<ArchiveItem>,
    tag: u8,
    rest: Seq<u8>,
)
    requires
        tag > 2,
    ensures
        run(goes_on(style, StreamState::RecordTag, items), seq![tag] + rest) matches Err(error)
            && error is InvalidZip,
{
    let start = goes_on(style, StreamState::RecordTag, items);
    law_stream_in_pieces(start, seq![tag], rest);
    lemma_run_field(style, StreamState::RecordTag, items, seq![tag]);
}

/// A decoder that is asked at the end of a stream says whether the stream was whole.
pub proof fn law_decoder_tells_whole_streams(
    writer: &PDeflateArchiveWriter,
    r: Result<(), CoZipError>,
)
    requires
        writer.wf(),
        call_ensures(PDeflateArchiveWriter::finish, (writer,), r),
    ensures
        r is Ok <==> writer.state is Finished && writer.buffer@.len() == 0,
        r is Err ==> r->Err_0 is InvalidZip,
{
}

/// A reader counts its files and their bytes, and no directories: one more entry adds
/// what it is.
pub proof fn law_reader_counts_files(
    reader: &PDeflateArchiveReader,
    longer: &PDeflateArchiveReader,
    entry: PDeflateArchiveEntrySource,
    count: usize,
    longer_count: usize,
    bytes: u64,
    longer_bytes: u64,
)
    requires
        longer.entries@ == reader.entries@.push(entry),
        call_ensures(PDeflateArchiveReader::file_entries, (reader,), count),
        call_ensures(PDeflateArchiveReader::file_entries, (longer,), longer_count),
        call_ensures(PDeflateArchiveReader::total_file_bytes, (reader,), bytes),
        call_ensures(PDeflateArchiveReader::total_file_bytes, (longer,), longer_bytes),
    ensures
        reader.entries@.len() == 0 ==> count == 0 && bytes == 0,
        entry.kind is File ==> longer_count == count + 1 && longer_bytes == bytes + entry.file_len,
        entry.kind is Directory ==> longer_count == count && longer_bytes == bytes,
{
    let n = reader.entries@.len() as int;
    lemma_counts_of_first(reader.entries@, longer.entries@, n);
}

proof fn lemma_counts_of_first(
    entries: Seq<PDeflateArchiveEntrySource>,
    longer: Seq<PDeflateArchiveEntrySource>,
    n: int,
)
    requires
        0 <= n <= entries.len() <= longer.len(),
        forall|i: int| 0 <= i < entries.len() ==> #[trigger] longer[i] == entries[i],
    ensures
        file_bytes(longer, n) == file_bytes(entries, n),
        files_among(longer, n) == files_among(entries, n),
    decreases n,
{
    if n > 0 {
        lemma_counts_of_first(entries, longer, n - 1);
        assert(longer[n - 1] == entries[n - 1]);
    }
}

/// A decoder counts the files that it has opened and the bytes that went to them, as
/// far as the numbers go: what it adds to its items, it adds to the counts.
pub proof fn law_decoder_counts_files(
    writer: &PDeflateArchiveWriter,
    later: &PDeflateArchiveWriter,
    item: ArchiveItem,
    count: usize,
    later_count: usize,
    bytes: u64,
    later_bytes: u64,
)
    requires
        later@.items == writer@.items.push(item),
        call_ensures(PDeflateArchiveWriter::file_entries, (writer,), count),
        call_ensures(PDeflateArchiveWriter::file_entries, (later,), later_count),
        call_ensures(PDeflateArchiveWriter::output_bytes, (writer,), bytes),
        call_ensures(PDeflateArchiveWriter::output_bytes, (later,), later_bytes),
        count < usize::MAX,
        bytes + item.content.len() < u64::MAX,
    ensures
        writer@.items.len() == 0 ==> count == 0 && bytes == 0,
        later_count == if item.is_dir {
            count as int
        } else {
            count + 1
        },
        later_bytes == bytes + item.content.len(),
{
    assert(later@.items.drop_last() =~= writer@.items);
}

/// What a file starts with is told to be a directory archive exactly where its header
/// can be read, and then by that header.
pub proof fn law_directory_archives_are_told_by_their_header(
    bytes: &[u8],
    header: Option<PDeflateDirectoryFileHeader>,
    r: Result<(PDeflateDirectoryFileHeader, usize), CoZipError>,
)
    requires
        call_ensures(inspect_pdeflate_directory_header, (bytes,), header),
        call_ensures(read_pdeflate_directory_header, (bytes,), r),
    ensures
        header is Some <==> r is Ok,
        header matches Some(found) ==> found == r->Ok_0.0,
{
}

/// The actions that open a file.
pub open spec fn opens(actions: Seq<ArchiveAction>) -> Seq<ArchiveAction> {
    actions.filter(|action: ArchiveAction| action is OpenFile)
}

/// The bytes that actions write to a file, in order.
pub open spec fn bytes_for(actions: Seq<ArchiveAction>, file_id: usize) -> Seq<u8>
    decreases actions.len(),
{
    if actions.len() == 0 {
        Seq::empty()
    } else {
        let front = bytes_for(actions.drop_last(), file_id);
        match actions.last() {
            ArchiveAction::WriteFragment { file_id: id, offset: _, data } => if id == file_id {
                front + data@
            } else {
                front
            },
            _ => front,
        }
    }
}

proof fn lemma_bytes_for(actions: Seq<ArchiveAction>, file_id: usize)
    ensures
        bytes_for(actions, file_id) == queued(actions, file_id),
    decreases actions.len(),
{
    if actions.len() > 0 {
        lemma_bytes_for(actions.drop_last(), file_id);
    }
}

proof fn lemma_opens_are_counted(actions: Seq<ArchiveAction>)
    requires
        apply_all(Seq::empty(), actions) is Some,
    ensures
        count_files(apply_all(Seq::empty(), actions)->Some_0) == opens(actions).len(),
    decreases actions.len(),
{
    reveal(Seq::filter);
    if actions.len() > 0 {
        let front = actions.drop_last();
        lemma_opens_are_counted(front);
        let before = apply_all(Seq::empty(), front)->Some_0;
        let after = apply_all(Seq::empty(), actions)->Some_0;
        match actions.last() {
            ArchiveAction::CreateDir { path: _ } => {
                assert(after.drop_last() =~= before);
            },
            ArchiveAction::OpenFile { path: _, file_len: _ } => {
                assert(after.drop_last() =~= before);
            },
            _ => {
                assert(after.drop_last() =~= before.drop_last());
            },
        }
    }
}

proof fn lemma_first_actions(actions: Seq<ArchiveAction>, j: int)
    requires
        apply_all(Seq::empty(), actions) is Some,
        0 <= j <= actions.len(),
    ensures
        apply_all(Seq::empty(), actions.take(j)) is Some,
    decreases actions.len() - j,
{
    if j < actions.len() {
        lemma_first_actions(actions, j + 1);
        assert(actions.take(j + 1).drop_last() =~= actions.take(j));
    } else {
        assert(actions.take(j) =~= actions);
    }
}

/// The bytes of a stream go to the file that was opened last, and behind the bytes that
/// went to it before, whatever the stream holds and however it ends.
pub proof fn law_bytes_go_to_the_open_file(
    style: PathStyle,
    start: PDeflateArchiveWriter,
    writer: &mut PDeflateArchiveWriter,
    buf: &[u8],
    actions: &mut Vec<ArchiveAction>,
    r: Result<(), CoZipError>,
    j: int,
)
    requires
        call_ensures(PDeflateArchiveWriter::new, (style,), start),
        *old(writer) == start,
        old(actions)@.len() == 0,
        call_ensures(PDeflateArchiveWriter::write, (writer, buf, actions), r),
        0 <= j < final(actions)@.len() < usize::MAX,
    ensures
        final(actions)@[j] matches ArchiveAction::WriteFragment { file_id, offset, data: _ } ==> {
            &&& file_id == opens(final(actions)@.take(j)).len() - 1
            &&& offset == bytes_for(final(actions)@.take(j), file_id).len()
        },
{
    let all = final(actions)@;
    let first = all.take(j);
    assert(start@.items =~= Seq::<ArchiveItem>::empty());
    lemma_first_actions(all, j + 1);
    assert(all.take(j + 1).drop_last() =~= first);
    assert(all.take(j + 1).last() == all[j]);
    let items = apply_all(Seq::empty(), first)->Some_0;
    lemma_opens_are_counted(first);
    lemma_opens_bounded(first);
    if let ArchiveAction::WriteFragment { file_id, offset, data: _ } = all[j] {
        lemma_bytes_for(first, file_id);
        let i = items.len() - 1;
        assert(items.take(i) =~= items.drop_last());
        law_actions_write_the_files(first, items, i);
    }
}

proof fn lemma_opens_bounded(actions: Seq<ArchiveAction>)
    ensures
        opens(actions).len() <= actions.len(),
    decreases actions.len(),
{
    reveal(Seq::filter);
    if actions.len() > 0 {
        lemma_opens_bounded(actions.drop_last());
    }
}

} // verus!
