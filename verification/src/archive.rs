//! A whole archive: the header, then as many entries as it declares.

use vstd::prelude::*;
use crate::entry::{
    lemma_entry_listed, lemma_entry_read_prefix, lemma_entry_roundtrip, lemma_entry_truncated,
    EntryView, FileHeaderRepr,
};
use crate::error::ArchiveError;
use crate::header::{
    lemma_archive_header_parse_prefix, lemma_archive_header_roundtrip, ArchiveHeader,
    ARCHIVE_HEADER_SIZE, FILE_HEADER_SIZE, FORMAT_VERSION,
};
use crate::wire::ByteReader;

verus! {

/// An archive in memory.
#[derive(Debug)]
pub struct Archive {
    /// The header the archive starts with.
    pub header: ArchiveHeader,
    /// The entries, in the order of the stream.
    pub entries: Vec<FileHeaderRepr>,
}

/// What an archive is, apart from how memory holds it.
pub ghost struct ArchiveView {
    pub header: ArchiveHeader,
    pub entries: Seq<EntryView>,
}

/// The entries of a vector, each as what it is.
pub open spec fn entry_views(entries: Seq<FileHeaderRepr>) -> Seq<EntryView> {
    entries.map_values(|e: FileHeaderRepr| e@)
}

impl View for Archive {
    type V = ArchiveView;

    open spec fn view(&self) -> ArchiveView {
        ArchiveView { header: self.header, entries: entry_views(self.entries@) }
    }
}

/// The entries one after the other, as they stand on the wire.
pub open spec fn entries_wire(entries: Seq<EntryView>) -> Seq<u8>
    decreases entries.len(),
{
    if entries.len() == 0 {
        Seq::empty()
    } else {
        entries[0].wire() + entries_wire(entries.drop_first())
    }
}

/// Whether every entry can stand in an archive, and their number fits
/// the header.
pub open spec fn entries_wf(entries: Seq<EntryView>) -> bool {
    &&& entries.len() <= u32::MAX
    &&& forall|i: int| 0 <= i < entries.len() ==> (#[trigger] entries[i]).wf()
}

/// The header of an archive of this version with `count` entries.
pub open spec fn header_for(count: nat) -> ArchiveHeader {
    ArchiveHeader { version: FORMAT_VERSION, file_count: count as u32 }
}

/// The archive of the given entries, as it stands on the wire.
pub open spec fn archive_wire(entries: Seq<EntryView>) -> Seq<u8> {
    header_for(entries.len()).wire() + entries_wire(entries)
}

/// An error, or the entries read so far followed by those still to come.
pub open spec fn prepend(
    first: Seq<EntryView>,
    rest: Result<Seq<EntryView>, ArchiveError>,
) -> Result<Seq<EntryView>, ArchiveError> {
    match rest {
        Ok(more) => Ok(first + more),
        Err(e) => Err(e),
    }
}

/// What reading `count` entries from a stream that holds `s` gives: the
/// entries in order, or the error of the first one that cannot be read.
pub open spec fn spec_read_entries(s: Seq<u8>, count: nat, skip_data: bool) -> Result<
    Seq<EntryView>,
    ArchiveError,
>
    decreases count,
{
    if count == 0 {
        Ok(Seq::empty())
    } else {
        match EntryView::spec_read(s, skip_data) {
            Err(e) => Err(e),
            Ok(entry) => prepend(
                seq![entry],
                spec_read_entries(
                    s.skip(EntryView::spec_wire_len(s)),
                    (count - 1) as nat,
                    skip_data,
                ),
            ),
        }
    }
}

/// How many bytes `count` entries at the front of `s` take, going by
/// their headers.
pub open spec fn spec_entries_len(s: Seq<u8>, count: nat) -> int
    decreases count,
{
    if count == 0 {
        0
    } else {
        EntryView::spec_wire_len(s) + spec_entries_len(
            s.skip(EntryView::spec_wire_len(s)),
            (count - 1) as nat,
        )
    }
}

/// What reading an archive from a stream that holds `s` gives.
pub open spec fn spec_read_archive(s: Seq<u8>, skip_data: bool) -> Result<
    ArchiveView,
    ArchiveError,
> {
    match ArchiveHeader::spec_read(s) {
        Err(e) => Err(e),
        Ok(header) => match spec_read_entries(
            s.skip(ARCHIVE_HEADER_SIZE as int),
            header.file_count as nat,
            skip_data,
        ) {
            Err(e) => Err(e),
            Ok(entries) => Ok(ArchiveView { header, entries }),
        },
    }
}

/// How many bytes the archive at the front of `s` takes, going by its
/// headers.
pub open spec fn spec_archive_len(s: Seq<u8>) -> int {
    ARCHIVE_HEADER_SIZE + spec_entries_len(
        s.skip(ARCHIVE_HEADER_SIZE as int),
        ArchiveHeader::parse(s).file_count as nat,
    )
}

/// Reads the header and every entry it declares, no fewer and no more.
/// With `skip_data` the payloads are passed over. A failed read consumes
/// nothing.
pub fn read_entries(reader: &mut ByteReader<'_>, skip_data: bool) -> (r: Result<
    Archive,
    ArchiveError,
>)
    ensures
        r matches Ok(archive) ==> archive@.entries.len() == archive@.header.file_count,
        match r {
            Ok(archive) => spec_read_archive(old(reader).remaining(), skip_data) == Ok::<
                ArchiveView,
                ArchiveError,
            >(archive@) && final(reader).remaining() == old(reader).remaining().skip(
                spec_archive_len(old(reader).remaining()),
            ),
            Err(e) => spec_read_archive(old(reader).remaining(), skip_data) == Err::<
                ArchiveView,
                ArchiveError,
            >(e) && final(reader).remaining() == old(reader).remaining(),
        },
{
    let start = *reader;
    let ghost s = old(reader).remaining();
    let header = match ArchiveHeader::read(reader) {
        Ok(header) => header,
        Err(e) => {
            return Err(e);
        },
    };
    let ghost body = reader.remaining();
    let ghost count = header.file_count as nat;
    let ghost total = spec_read_entries(body, count, skip_data);
    let ghost seen = Seq::<EntryView>::empty();
    let ghost consumed = 0int;
    let mut entries: Vec<FileHeaderRepr> = Vec::new();
    let mut i: u32 = 0;
    proof {
        lemma_entry_views_empty(entries@);
        lemma_prepend_empty(total);
        assert(body.skip(0) =~= body);
    }
    while i < header.file_count
        invariant
            i <= header.file_count,
            count == header.file_count,
            start.remaining() == s,
            s == old(reader).remaining(),
            ArchiveHeader::spec_read(s) == Ok::<ArchiveHeader, ArchiveError>(header),
            body == s.skip(ARCHIVE_HEADER_SIZE as int),
            total == spec_read_entries(body, count, skip_data),
            seen == entry_views(entries@),
            entries@.len() == i,
            total == prepend(
                seen,
                spec_read_entries(reader.remaining(), (count - i) as nat, skip_data),
            ),
            0 <= consumed <= body.len(),
            reader.remaining() == body.skip(consumed),
            spec_entries_len(body, count) == consumed + spec_entries_len(
                reader.remaining(),
                (count - i) as nat,
            ),
        decreases header.file_count - i,
    {
        let ghost before = reader.remaining();
        proof {
            lemma_read_entries_step(before, (count - i) as nat, skip_data);
        }
        let entry = match FileHeaderRepr::read(reader, skip_data) {
            Ok(entry) => entry,
            Err(e) => {
                *reader = start;
                return Err(e);
            },
        };
        proof {
            let next = spec_read_entries(reader.remaining(), (count - i - 1) as nat, skip_data);
            lemma_prepend_assoc(seen, seq![entry@], next);
            lemma_entry_views_push(entries@, entry);
            lemma_entry_len_in_bounds(before, skip_data);
            assert(reader.remaining() =~= body.skip(consumed + EntryView::spec_wire_len(before)));
            consumed = consumed + EntryView::spec_wire_len(before);
            seen = seen + seq![entry@];
        }
        entries.push(entry);
        i = i + 1;
    }
    proof {
        assert(seen + Seq::<EntryView>::empty() =~= seen);
        assert(reader.remaining() =~= s.skip(spec_archive_len(s)));
    }
    Ok(Archive { header, entries })
}

/// Lists an archive: the header and every entry it declares, each
/// without its payload. The payloads are passed over, not kept.
pub fn read_archive(reader: &mut ByteReader<'_>) -> (r: Result<Archive, ArchiveError>)
    ensures
        r matches Ok(archive) ==> archive@.entries.len() == archive@.header.file_count,
        match r {
            Ok(archive) => spec_read_archive(old(reader).remaining(), true) == Ok::<
                ArchiveView,
                ArchiveError,
            >(archive@) && final(reader).remaining() == old(reader).remaining().skip(
                spec_archive_len(old(reader).remaining()),
            ),
            Err(e) => spec_read_archive(old(reader).remaining(), true) == Err::<
                ArchiveView,
                ArchiveError,
            >(e) && final(reader).remaining() == old(reader).remaining(),
        },
{
    read_entries(reader, true)
}

/// An archive that can be read holds as many entries as its header
/// declares.
pub proof fn lemma_read_count(s: Seq<u8>, count: nat, skip_data: bool)
    requires
        spec_read_entries(s, count, skip_data) is Ok,
    ensures
        spec_read_entries(s, count, skip_data)->Ok_0.len() == count,
    decreases count,
{
    if count > 0 {
        lemma_read_count(s.skip(EntryView::spec_wire_len(s)), (count - 1) as nat, skip_data);
    }
}

/// The entries of a listing: each without its payload.
pub open spec fn listed_entries(entries: Seq<EntryView>) -> Seq<EntryView> {
    entries.map_values(|e: EntryView| e.listed())
}

/// Entries that can stand in an archive survive being written and read
/// back, whatever follows them in the stream.
pub proof fn lemma_entries_roundtrip(entries: Seq<EntryView>, rest: Seq<u8>)
    requires
        forall|i: int| 0 <= i < entries.len() ==> (#[trigger] entries[i]).wf(),
    ensures
        spec_read_entries(entries_wire(entries) + rest, entries.len(), false) == Ok::<
            Seq<EntryView>,
            ArchiveError,
        >(entries),
        spec_entries_len(entries_wire(entries) + rest, entries.len()) == entries_wire(
            entries,
        ).len(),
    decreases entries.len(),
{
    if entries.len() > 0 {
        let tail = entries.drop_first();
        let s = entries_wire(entries) + rest;
        let after = entries_wire(tail) + rest;
        assert(s =~= entries[0].wire() + after);
        lemma_entry_roundtrip(entries[0], after);
        lemma_read_entries_step(s, entries.len(), false);
        assert(s.skip(entries[0].wire().len() as int) =~= after);
        assert forall|i: int| 0 <= i < tail.len() implies (#[trigger] tail[i]).wf() by {
            assert(tail[i] == entries[i + 1]);
        }
        lemma_entries_roundtrip(tail, rest);
        assert(seq![entries[0]] + tail =~= entries);
    } else {
        assert(entries =~= Seq::<EntryView>::empty());
    }
}

/// An archive of entries that can stand in one survives being written
/// and read back: reading gives the header with their number and the
/// entries themselves, and takes exactly the bytes that were written.
pub proof fn lemma_archive_roundtrip(entries: Seq<EntryView>, rest: Seq<u8>)
    requires
        entries_wf(entries),
    ensures
        spec_read_archive(archive_wire(entries) + rest, false) == Ok::<ArchiveView, ArchiveError>(
            ArchiveView { header: header_for(entries.len()), entries },
        ),
        spec_archive_len(archive_wire(entries) + rest) == archive_wire(entries).len(),
{
    let header = header_for(entries.len());
    let s = archive_wire(entries) + rest;
    lemma_archive_header_roundtrip(header);
    assert(s.take(ARCHIVE_HEADER_SIZE as int) =~= header.wire().take(ARCHIVE_HEADER_SIZE as int));
    lemma_archive_header_parse_prefix(s, header.wire());
    assert(s.skip(ARCHIVE_HEADER_SIZE as int) =~= entries_wire(entries) + rest);
    lemma_entries_roundtrip(entries, rest);
}

/// Listing and full reading agree on a run of entries.
pub proof fn lemma_entries_listed(s: Seq<u8>, count: nat)
    ensures
        spec_read_entries(s, count, true) == match spec_read_entries(s, count, false) {
            Ok(entries) => Ok::<Seq<EntryView>, ArchiveError>(listed_entries(entries)),
            Err(x) => Err::<Seq<EntryView>, ArchiveError>(x),
        },
    decreases count,
{
    if count == 0 {
        assert(listed_entries(Seq::<EntryView>::empty()) =~= Seq::<EntryView>::empty());
    } else {
        lemma_entry_listed(s);
        let after = s.skip(EntryView::spec_wire_len(s));
        lemma_entries_listed(after, (count - 1) as nat);
        match EntryView::spec_read(s, false) {
            Ok(e) => {
                match spec_read_entries(after, (count - 1) as nat, false) {
                    Ok(more) => {
                        assert(listed_entries(seq![e] + more) =~= seq![e.listed()]
                            + listed_entries(more));
                    },
                    Err(_) => {},
                }
            },
            Err(_) => {},
        }
    }
}

/// Listing an archive and reading it in full agree without the payloads
/// being looked at: both fail with the same error, or both succeed with
/// the same header and the same entries in the same order, where a
/// listed entry has the name, the sizes and every other field of the
/// full one, and no payload.
pub proof fn lemma_list_matches_unpack(s: Seq<u8>)
    ensures
        spec_read_archive(s, true) == match spec_read_archive(s, false) {
            Ok(archive) => Ok::<ArchiveView, ArchiveError>(
                ArchiveView { header: archive.header, entries: listed_entries(archive.entries) },
            ),
            Err(x) => Err::<ArchiveView, ArchiveError>(x),
        },
{
    if s.len() >= ARCHIVE_HEADER_SIZE {
        lemma_entries_listed(
            s.skip(ARCHIVE_HEADER_SIZE as int),
            ArchiveHeader::parse(s).file_count as nat,
        );
    }
}

/// A run of entries that can be read lies within the stream.
pub proof fn lemma_entries_len_in_bounds(s: Seq<u8>, count: nat, skip_data: bool)
    requires
        spec_read_entries(s, count, skip_data) is Ok,
    ensures
        0 <= spec_entries_len(s, count) <= s.len(),
    decreases count,
{
    if count > 0 {
        lemma_entry_len_in_bounds(s, skip_data);
        lemma_entries_len_in_bounds(
            s.skip(EntryView::spec_wire_len(s)),
            (count - 1) as nat,
            skip_data,
        );
    }
}

/// A run of entries cut short anywhere is malformed.
pub proof fn lemma_entries_truncated(s: Seq<u8>, count: nat, k: int, skip_data: bool)
    requires
        spec_read_entries(s, count, skip_data) is Ok,
        0 <= k < spec_entries_len(s, count),
    ensures
        spec_read_entries(s.take(k), count, skip_data) == Err::<Seq<EntryView>, ArchiveError>(
            ArchiveError::MalformedArchive,
        ),
    decreases count,
{
    if count > 0 {
        let len = EntryView::spec_wire_len(s);
        let after = s.skip(len);
        lemma_entry_len_in_bounds(s, skip_data);
        lemma_entries_len_in_bounds(after, (count - 1) as nat, skip_data);
        if k < len {
            lemma_entry_truncated(s, k, skip_data);
        } else {
            lemma_entry_read_prefix(s, k, skip_data);
            assert(s.take(k).skip(len) =~= after.take(k - len));
            lemma_entries_truncated(after, (count - 1) as nat, k - len, skip_data);
        }
    }
}

/// Corruption by truncation is detected: an archive that can be read,
/// cut anywhere before its end, in a header, a name or a payload, is
/// malformed, both when it is listed and when it is read in full.
pub proof fn lemma_truncated_archive_fails(s: Seq<u8>, k: int, skip_data: bool)
    requires
        spec_read_archive(s, skip_data) is Ok,
        0 <= k < spec_archive_len(s),
    ensures
        spec_read_archive(s.take(k), skip_data) == Err::<ArchiveView, ArchiveError>(
            ArchiveError::MalformedArchive,
        ),
{
    let t = s.take(k);
    let body = s.skip(ARCHIVE_HEADER_SIZE as int);
    let count = ArchiveHeader::parse(s).file_count as nat;
    lemma_entries_len_in_bounds(body, count, skip_data);
    assert(k < s.len());
    if k >= ARCHIVE_HEADER_SIZE {
        assert(t.take(ARCHIVE_HEADER_SIZE as int) =~= s.take(ARCHIVE_HEADER_SIZE as int));
        lemma_archive_header_parse_prefix(t, s);
        assert(t.skip(ARCHIVE_HEADER_SIZE as int) =~= body.take(k - ARCHIVE_HEADER_SIZE));
        lemma_entries_truncated(body, count, k - ARCHIVE_HEADER_SIZE, skip_data);
    }
}

/// Reading one entry more: the first entry, then the others.
proof fn lemma_read_entries_step(s: Seq<u8>, count: nat, skip_data: bool)
    requires
        count > 0,
    ensures
        spec_read_entries(s, count, skip_data) == match EntryView::spec_read(s, skip_data) {
            Err(e) => Err(e),
            Ok(entry) => prepend(
                seq![entry],
                spec_read_entries(
                    s.skip(EntryView::spec_wire_len(s)),
                    (count - 1) as nat,
                    skip_data,
                ),
            ),
        },
        spec_entries_len(s, count) == EntryView::spec_wire_len(s) + spec_entries_len(
            s.skip(EntryView::spec_wire_len(s)),
            (count - 1) as nat,
        ),
{
}

/// An entry that can be read lies within the stream.
proof fn lemma_entry_len_in_bounds(s: Seq<u8>, skip_data: bool)
    requires
        EntryView::spec_read(s, skip_data) is Ok,
    ensures
        FILE_HEADER_SIZE <= EntryView::spec_wire_len(s) <= s.len(),
{
    reveal(EntryView::spec_read);
}

proof fn lemma_entry_views_empty(v: Seq<FileHeaderRepr>)
    requires
        v.len() == 0,
    ensures
        entry_views(v) == Seq::<EntryView>::empty(),
{
    assert(entry_views(v) =~= Seq::<EntryView>::empty());
}

proof fn lemma_entry_views_push(v: Seq<FileHeaderRepr>, e: FileHeaderRepr)
    ensures
        entry_views(v.push(e)) == entry_views(v) + seq![e@],
{
    assert(entry_views(v.push(e)) =~= entry_views(v) + seq![e@]);
}

proof fn lemma_prepend_empty(r: Result<Seq<EntryView>, ArchiveError>)
    ensures
        prepend(Seq::empty(), r) == r,
{
    match r {
        Ok(more) => {
            assert(Seq::<EntryView>::empty() + more =~= more);
        },
        Err(_) => {},
    }
}

proof fn lemma_prepend_assoc(
    a: Seq<EntryView>,
    b: Seq<EntryView>,
    r: Result<Seq<EntryView>, ArchiveError>,
)
    ensures
        prepend(a, prepend(b, r)) == prepend(a + b, r),
{
    match r {
        Ok(more) => {
            assert(a + (b + more) =~= (a + b) + more);
        },
        Err(_) => {},
    }
}

} // verus!
