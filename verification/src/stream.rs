//! Reading an archive piece by piece.
//!
//! The decoder never touches a stream. It says what it wants next, so
//! many bytes to read or so many to pass over, and is fed just that; it
//! answers with the header of the archive, with an entry, or with
//! nothing yet. A piece that is shorter than what was wanted means that
//! the stream was cut short: the archive is malformed.
//!
//! An archive is read front to back and no piece is asked for twice, so
//! that a caller can hold no more than one entry at a time, and none of
//! the payloads when the archive is only listed.

use vstd::prelude::*;
use vstd::utf8::{decode_utf8, encode_utf8_decode_utf8, valid_utf8};
use crate::archive::{spec_read_archive, spec_read_entries};
use crate::compression::DataCompression;
use crate::entry::{EntryView, FileHeaderRepr};
use crate::error::ArchiveError;
use crate::header::{
    lemma_archive_header_parse_prefix, lemma_file_header_parse_prefix, ArchiveHeader, FileHeader,
    ARCHIVE_HEADER_SIZE, FILE_HEADER_SIZE,
};
use crate::text::{has_nul, string_from_utf8};
use crate::wire::ByteReader;

verus! {

/// What the decoder wants next.
#[derive(Debug, Clone, Copy, PartialEq, Eq, Structural)]
pub enum Want {
    /// Exactly so many bytes, to be fed.
    Bytes(u64),
    /// So many bytes passed over; how many were, is to be told.
    Skip(u64),
    /// Nothing: the archive has been read.
    Done,
}

/// What the decoder gives for a piece.
#[derive(Debug)]
pub enum Decoded {
    /// The piece was taken; there is nothing to show for it yet.
    Nothing,
    /// The header of the archive.
    Archive(ArchiveHeader),
    /// An entry, complete; without its payload if payloads are passed over.
    Entry(FileHeaderRepr),
}

/// What a decoded piece is, apart from how memory holds it.
pub ghost enum DecodedView {
    Nothing,
    Archive(ArchiveHeader),
    Entry(EntryView),
}

impl View for Decoded {
    type V = DecodedView;

    open spec fn view(&self) -> DecodedView {
        match self {
            Decoded::Nothing => DecodedView::Nothing,
            Decoded::Archive(h) => DecodedView::Archive(*h),
            Decoded::Entry(e) => DecodedView::Entry(e@),
        }
    }
}

/// Where in the archive the decoder stands.
pub ghost enum StageView {
    /// Before the header of the archive.
    Start,
    /// Before the fixed header of an entry.
    Header,
    /// Before the name of an entry, with its header.
    Name(FileHeader, DataCompression),
    /// Before the payload of an entry, with its header and its name.
    Payload(FileHeader, DataCompression, Seq<char>),
    /// Behind the last entry.
    Done,
}

/// The state of a decoder.
pub ghost struct DecoderView {
    /// Whether payloads are passed over.
    pub skip_data: bool,
    /// How many entries are still to come, the present one among them.
    pub left: nat,
    /// Where the decoder stands.
    pub stage: StageView,
}

/// The state before anything was fed.
pub open spec fn spec_fresh(skip_data: bool) -> DecoderView {
    DecoderView { skip_data, left: 0, stage: StageView::Start }
}

/// What a decoder in state `d` wants next.
pub open spec fn spec_want(d: DecoderView) -> Want {
    match d.stage {
        StageView::Start => Want::Bytes(ARCHIVE_HEADER_SIZE as u64),
        StageView::Header => Want::Bytes(FILE_HEADER_SIZE as u64),
        StageView::Name(h, _) => Want::Bytes(h.spec_name_len() as u64),
        StageView::Payload(h, _, _) => if d.skip_data {
            Want::Skip(h.data_len)
        } else {
            Want::Bytes(h.data_len)
        },
        StageView::Done => Want::Done,
    }
}

/// The state behind an entry: one entry fewer is to come, and after the
/// last the archive has been read.
pub open spec fn spec_behind_entry(d: DecoderView) -> DecoderView {
    if d.left <= 1 {
        DecoderView { left: 0, stage: StageView::Done, ..d }
    } else {
        DecoderView { left: (d.left - 1) as nat, stage: StageView::Header, ..d }
    }
}

/// The entry that a header, a name and a payload make.
pub open spec fn spec_entry(
    h: FileHeader,
    method: DataCompression,
    name: Seq<char>,
    data: Seq<u8>,
) -> EntryView {
    EntryView {
        modified: h.modified,
        accessed: h.accessed,
        mode: h.mode,
        data_compression: method,
        data_uncompressed_len: h.data_uncompressed_len,
        data_len: h.data_len,
        name,
        data,
    }
}

/// What the decoder makes of a piece that is fed. A piece of another
/// length than was wanted, and any piece where none or a skip was
/// wanted, makes the archive malformed. The header of the archive tells
/// how many entries are to come. The header of an entry has to name a
/// compression method. Its name has to be UTF-8 without a NUL, and
/// without compression its two lengths have to agree. Its payload
/// completes the entry. A piece that is refused changes nothing.
pub open spec fn spec_feed(d: DecoderView, piece: Seq<u8>) -> (
    DecoderView,
    Result<DecodedView, ArchiveError>,
) {
    if spec_want(d) != Want::Bytes(piece.len() as u64) || piece.len() > u64::MAX {
        (d, Err(ArchiveError::MalformedArchive))
    } else {
        match d.stage {
            StageView::Start => {
                let h = ArchiveHeader::parse(piece);
                (
                    DecoderView {
                        left: h.file_count as nat,
                        stage: if h.file_count == 0 {
                            StageView::Done
                        } else {
                            StageView::Header
                        },
                        ..d
                    },
                    Ok(DecodedView::Archive(h)),
                )
            },
            StageView::Header => {
                let h = FileHeader::parse(piece);
                match h.spec_data_compression() {
                    Ok(method) => (
                        DecoderView { stage: StageView::Name(h, method), ..d },
                        Ok(DecodedView::Nothing),
                    ),
                    Err(e) => (d, Err(e)),
                }
            },
            StageView::Name(h, method) => {
                if !valid_utf8(piece) {
                    (d, Err(ArchiveError::InvalidNameEncoding))
                } else if piece.contains(0u8) {
                    (d, Err(ArchiveError::MalformedArchive))
                } else if method == DataCompression::Uncompressed && h.data_uncompressed_len
                    != h.data_len {
                    (d, Err(ArchiveError::MalformedArchive))
                } else {
                    (
                        DecoderView {
                            stage: StageView::Payload(h, method, decode_utf8(piece)),
                            ..d
                        },
                        Ok(DecodedView::Nothing),
                    )
                }
            },
            StageView::Payload(h, method, name) => (
                spec_behind_entry(d),
                Ok(DecodedView::Entry(spec_entry(h, method, name, piece))),
            ),
            StageView::Done => (d, Err(ArchiveError::MalformedArchive)),
        }
    }
}

/// What the decoder makes of being told that `count` bytes were passed
/// over. Where just so many were to be passed over, the entry is
/// complete, without its payload. Anything else makes the archive
/// malformed and changes nothing.
pub open spec fn spec_skipped(d: DecoderView, count: u64) -> (
    DecoderView,
    Result<DecodedView, ArchiveError>,
) {
    match d.stage {
        StageView::Payload(h, method, name) => if spec_want(d) == Want::Skip(count) {
            (
                spec_behind_entry(d),
                Ok(DecodedView::Entry(spec_entry(h, method, name, Seq::empty()))),
            )
        } else {
            (d, Err(ArchiveError::MalformedArchive))
        },
        _ => (d, Err(ArchiveError::MalformedArchive)),
    }
}

/// Where the decoder stands, without the name.
#[derive(Debug, Clone, Copy)]
enum Stage {
    Start,
    Header,
    Name(FileHeader, DataCompression),
    Payload(FileHeader, DataCompression),
    Done,
}

/// Reads an archive piece by piece.
#[derive(Debug)]
pub struct Decoder {
    skip_data: bool,
    left: u32,
    stage: Stage,
    name: String,
}

impl View for Decoder {
    type V = DecoderView;

    closed spec fn view(&self) -> DecoderView {
        DecoderView {
            skip_data: self.skip_data,
            left: self.left as nat,
            stage: match self.stage {
                Stage::Start => StageView::Start,
                Stage::Header => StageView::Header,
                Stage::Name(h, method) => StageView::Name(h, method),
                Stage::Payload(h, method) => StageView::Payload(h, method, self.name@),
                Stage::Done => StageView::Done,
            },
        }
    }
}

impl Decoder {
    /// A decoder at the start of an archive. With `skip_data` it asks
    /// for every payload to be passed over.
    pub fn new(skip_data: bool) -> (decoder: Decoder)
        ensures
            decoder@ == spec_fresh(skip_data),
    {
        Decoder { skip_data, left: 0, stage: Stage::Start, name: String::new() }
    }

    /// What is wanted next.
    pub fn want(&self) -> (want: Want)
        ensures
            want == spec_want(self@),
    {
        match self.stage {
            Stage::Start => Want::Bytes(ARCHIVE_HEADER_SIZE as u64),
            Stage::Header => Want::Bytes(FILE_HEADER_SIZE as u64),
            Stage::Name(h, _) => Want::Bytes(h.name_len() as u64),
            Stage::Payload(h, _) => if self.skip_data {
                Want::Skip(h.data_len)
            } else {
                Want::Bytes(h.data_len)
            },
            Stage::Done => Want::Done,
        }
    }

    fn behind_entry(&mut self)
        ensures
            final(self)@ == spec_behind_entry(old(self)@),
    {
        if self.left <= 1 {
            self.left = 0;
            self.stage = Stage::Done;
        } else {
            self.left = self.left - 1;
            self.stage = Stage::Header;
        }
    }

    /// Feeds the piece that was wanted.
    pub fn feed(&mut self, piece: Vec<u8>) -> (r: Result<Decoded, ArchiveError>)
        ensures
            match r {
                Ok(decoded) => spec_feed(old(self)@, piece@) == (
                    final(self)@,
                    Ok::<DecodedView, ArchiveError>(decoded@),
                ),
                Err(e) => spec_feed(old(self)@, piece@) == (
                    final(self)@,
                    Err::<DecodedView, ArchiveError>(e),
                ),
            },
    {
        match self.want() {
            Want::Bytes(n) => {
                if piece.len() as u64 != n {
                    return Err(ArchiveError::MalformedArchive);
                }
            },
            _ => {
                return Err(ArchiveError::MalformedArchive);
            },
        }
        match self.stage {
            Stage::Start => {
                let mut reader = ByteReader::new(piece.as_slice());
                match ArchiveHeader::read(&mut reader) {
                    Ok(h) => {
                        self.left = h.file_count;
                        self.stage = if h.file_count == 0 {
                            Stage::Done
                        } else {
                            Stage::Header
                        };
                        Ok(Decoded::Archive(h))
                    },
                    Err(e) => Err(e),
                }
            },
            Stage::Header => {
                let mut reader = ByteReader::new(piece.as_slice());
                match FileHeader::read(&mut reader) {
                    Ok(h) => match h.data_compression() {
                        Ok(method) => {
                            self.stage = Stage::Name(h, method);
                            Ok(Decoded::Nothing)
                        },
                        Err(e) => Err(e),
                    },
                    Err(e) => Err(e),
                }
            },
            Stage::Name(h, method) => {
                let name = match string_from_utf8(piece) {
                    Some(name) => name,
                    None => {
                        return Err(ArchiveError::InvalidNameEncoding);
                    },
                };
                proof {
                    encode_utf8_decode_utf8(name@);
                }
                if has_nul(name.as_str().as_bytes()) {
                    return Err(ArchiveError::MalformedArchive);
                }
                if method == DataCompression::Uncompressed && h.data_uncompressed_len
                    != h.data_len {
                    return Err(ArchiveError::MalformedArchive);
                }
                self.name = name;
                self.stage = Stage::Payload(h, method);
                Ok(Decoded::Nothing)
            },
            Stage::Payload(h, method) => {
                let mut name = String::new();
                std::mem::swap(&mut name, &mut self.name);
                self.behind_entry();
                Ok(
                    Decoded::Entry(
                        FileHeaderRepr::new(
                            h.modified,
                            h.accessed,
                            h.mode,
                            method,
                            h.data_uncompressed_len,
                            h.data_len,
                            name,
                            piece,
                        ),
                    ),
                )
            },
            Stage::Done => Err(ArchiveError::MalformedArchive),
        }
    }

    /// Tells how many bytes were passed over where a skip was wanted.
    pub fn skipped(&mut self, count: u64) -> (r: Result<Decoded, ArchiveError>)
        ensures
            match r {
                Ok(decoded) => spec_skipped(old(self)@, count) == (
                    final(self)@,
                    Ok::<DecodedView, ArchiveError>(decoded@),
                ),
                Err(e) => spec_skipped(old(self)@, count) == (
                    final(self)@,
                    Err::<DecodedView, ArchiveError>(e),
                ),
            },
    {
        match self.stage {
            Stage::Payload(h, method) => {
                if !self.skip_data || count != h.data_len {
                    return Err(ArchiveError::MalformedArchive);
                }
                let mut name = String::new();
                std::mem::swap(&mut name, &mut self.name);
                self.behind_entry();
                Ok(
                    Decoded::Entry(
                        FileHeaderRepr::new(
                            h.modified,
                            h.accessed,
                            h.mode,
                            method,
                            h.data_uncompressed_len,
                            h.data_len,
                            name,
                            Vec::new(),
                        ),
                    ),
                )
            },
            _ => Err(ArchiveError::MalformedArchive),
        }
    }
}

/// The piece that a stream gives where `n` bytes are wanted: its first
/// `n` bytes, or all of it if it has fewer.
pub open spec fn spec_piece(s: Seq<u8>, n: u64) -> Seq<u8> {
    if s.len() < n {
        s
    } else {
        s.take(n as int)
    }
}

/// What is left of a stream behind the piece it gave.
pub open spec fn spec_behind_piece(s: Seq<u8>, n: u64) -> Seq<u8> {
    if s.len() < n {
        Seq::empty()
    } else {
        s.skip(n as int)
    }
}

/// How far a stage is from the end of its entry.
pub open spec fn stage_rank(stage: StageView) -> nat {
    match stage {
        StageView::Start => 4,
        StageView::Header => 3,
        StageView::Name(_, _) => 2,
        StageView::Payload(_, _, _) => 1,
        StageView::Done => 0,
    }
}

/// What was decoded, with one thing more in front if it is something.
pub open spec fn put_first(
    first: DecodedView,
    rest: Result<Seq<DecodedView>, ArchiveError>,
) -> Result<Seq<DecodedView>, ArchiveError> {
    match rest {
        Err(e) => Err(e),
        Ok(more) => if first is Nothing {
            Ok(more)
        } else {
            Ok(seq![first] + more)
        },
    }
}

/// What a decoder in state `d` gives for the stream `s`, when it is
/// given each time what it wants as far as the stream has it: the header
/// and the entries in order, or the first error.
pub open spec fn spec_drain(d: DecoderView, s: Seq<u8>) -> Result<Seq<DecodedView>, ArchiveError>
    decreases
            (if d.stage is Start {
                1nat
            } else {
                0nat
            }),
            d.left,
            stage_rank(d.stage),
{
    match spec_want(d) {
        Want::Done => Ok(Seq::empty()),
        Want::Bytes(n) => match spec_feed(d, spec_piece(s, n)).1 {
            Err(e) => Err(e),
            Ok(first) => put_first(
                first,
                spec_drain(spec_feed(d, spec_piece(s, n)).0, spec_behind_piece(s, n)),
            ),
        },
        Want::Skip(n) => {
            let count = if s.len() < n {
                s.len() as u64
            } else {
                n
            };
            match spec_skipped(d, count).1 {
                Err(e) => Err(e),
                Ok(first) => put_first(
                    first,
                    spec_drain(spec_skipped(d, count).0, spec_behind_piece(s, n)),
                ),
            }
        },
    }
}

/// The entries as the decoder gives them.
pub open spec fn as_decoded(entries: Seq<EntryView>) -> Seq<DecodedView> {
    entries.map_values(|e: EntryView| DecodedView::Entry(e))
}

/// Whether a decoder stands between entries: before the header of one
/// that is still to come, or behind the last.
pub open spec fn between_entries(d: DecoderView) -> bool {
    ||| d.stage is Header && d.left >= 1
    ||| d.stage is Done && d.left == 0
}

/// What the decoder gives from before the header of an entry.
proof fn lemma_drain_header(d: DecoderView, s: Seq<u8>)
    requires
        d.stage is Header,
    ensures
        spec_drain(d, s) == if s.len() < FILE_HEADER_SIZE {
            Err::<Seq<DecodedView>, ArchiveError>(ArchiveError::MalformedArchive)
        } else {
            match FileHeader::parse(s).spec_data_compression() {
                Err(e) => Err(e),
                Ok(method) => spec_drain(
                    DecoderView { stage: StageView::Name(FileHeader::parse(s), method), ..d },
                    s.skip(FILE_HEADER_SIZE as int),
                ),
            }
        },
{
    if s.len() >= FILE_HEADER_SIZE {
        let head = s.take(FILE_HEADER_SIZE as int);
        assert(spec_piece(s, FILE_HEADER_SIZE as u64) == head);
        assert(FileHeader::parse(head) == FileHeader::parse(s)) by {
            assert(head.take(FILE_HEADER_SIZE as int) =~= s.take(FILE_HEADER_SIZE as int));
            lemma_file_header_parse_prefix(head, s);
        }
    }
}

/// What the decoder gives from before the name of an entry.
proof fn lemma_drain_name(d: DecoderView, s: Seq<u8>)
    requires
        d.stage is Name,
    ensures
        ({
            let h = d.stage->Name_0;
            let method = d.stage->Name_1;
            let n = h.spec_name_len() as int;
            let name_bytes = s.take(n);
            spec_drain(d, s) == if s.len() < n {
                Err::<Seq<DecodedView>, ArchiveError>(ArchiveError::MalformedArchive)
            } else if !valid_utf8(name_bytes) {
                Err(ArchiveError::InvalidNameEncoding)
            } else if name_bytes.contains(0u8) {
                Err(ArchiveError::MalformedArchive)
            } else if method == DataCompression::Uncompressed && h.data_uncompressed_len
                != h.data_len {
                Err(ArchiveError::MalformedArchive)
            } else {
                spec_drain(
                    DecoderView {
                        stage: StageView::Payload(h, method, decode_utf8(name_bytes)),
                        ..d
                    },
                    s.skip(n),
                )
            }
        }),
{
}

/// What the decoder gives from before the payload of an entry.
proof fn lemma_drain_payload(d: DecoderView, s: Seq<u8>)
    requires
        d.stage is Payload,
    ensures
        ({
            let h = d.stage->Payload_0;
            let method = d.stage->Payload_1;
            let name = d.stage->Payload_2;
            let data = if d.skip_data {
                Seq::empty()
            } else {
                s.take(h.data_len as int)
            };
            spec_drain(d, s) == if s.len() < h.data_len {
                Err::<Seq<DecodedView>, ArchiveError>(ArchiveError::MalformedArchive)
            } else {
                put_first(
                    DecodedView::Entry(spec_entry(h, method, name, data)),
                    spec_drain(spec_behind_entry(d), s.skip(h.data_len as int)),
                )
            }
        }),
{
}

/// Reading an entry from a whole stream, said stage by stage.
proof fn lemma_read_by_stages(s: Seq<u8>, skip_data: bool)
    requires
        s.len() >= FILE_HEADER_SIZE,
        FileHeader::parse(s).spec_data_compression() is Ok,
    ensures
        ({
            let h = FileHeader::parse(s);
            let method = h.spec_data_compression()->Ok_0;
            let n = h.spec_name_len() as int;
            let s1 = s.skip(FILE_HEADER_SIZE as int);
            let name_bytes = s1.take(n);
            let s2 = s1.skip(n);
            let data = if skip_data {
                Seq::empty()
            } else {
                s2.take(h.data_len as int)
            };
            &&& EntryView::spec_read(s, skip_data) == if s1.len() < n {
                Err::<EntryView, ArchiveError>(ArchiveError::MalformedArchive)
            } else if !valid_utf8(name_bytes) {
                Err(ArchiveError::InvalidNameEncoding)
            } else if name_bytes.contains(0u8) {
                Err(ArchiveError::MalformedArchive)
            } else if method == DataCompression::Uncompressed && h.data_uncompressed_len
                != h.data_len {
                Err(ArchiveError::MalformedArchive)
            } else if s2.len() < h.data_len {
                Err(ArchiveError::MalformedArchive)
            } else {
                Ok(spec_entry(h, method, decode_utf8(name_bytes), data))
            }
            &&& EntryView::spec_read(s, skip_data) is Ok ==> s2.skip(h.data_len as int) == s.skip(
                EntryView::spec_wire_len(s),
            )
        }),
{
    reveal(EntryView::spec_read);
    let h = FileHeader::parse(s);
    let n = h.spec_name_len() as int;
    let name_end = FILE_HEADER_SIZE + n;
    let s1 = s.skip(FILE_HEADER_SIZE as int);
    if s1.len() >= n {
        assert(s1.take(n) =~= s.subrange(FILE_HEADER_SIZE as int, name_end));
        let s2 = s1.skip(n);
        assert(s2 =~= s.skip(name_end));
        if s2.len() >= h.data_len {
            assert(s2.take(h.data_len as int) =~= s.subrange(name_end, name_end + h.data_len));
            assert(s2.skip(h.data_len as int) =~= s.skip(name_end + h.data_len));
        }
    }
}

/// Piece by piece, the decoder reads the entries that reading the whole
/// stream gives: the same entries in the same order, or the same error.
pub proof fn lemma_drain_entries(d: DecoderView, s: Seq<u8>)
    requires
        between_entries(d),
    ensures
        spec_drain(d, s) == match spec_read_entries(s, d.left, d.skip_data) {
            Ok(entries) => Ok::<Seq<DecodedView>, ArchiveError>(as_decoded(entries)),
            Err(e) => Err::<Seq<DecodedView>, ArchiveError>(e),
        },
    decreases d.left,
{
    if d.stage is Done {
        assert(as_decoded(Seq::<EntryView>::empty()) =~= Seq::<DecodedView>::empty());
    } else {
        lemma_drain_header(d, s);
        if s.len() < FILE_HEADER_SIZE {
            assert(EntryView::spec_read(s, d.skip_data) == Err::<EntryView, ArchiveError>(
                ArchiveError::MalformedArchive,
            )) by {
                reveal(EntryView::spec_read);
            }
        } else {
            let h = FileHeader::parse(s);
            match h.spec_data_compression() {
                Err(e) => {
                    assert(EntryView::spec_read(s, d.skip_data) == Err::<EntryView, ArchiveError>(
                        e,
                    )) by {
                        reveal(EntryView::spec_read);
                    }
                },
                Ok(method) => {
                    lemma_read_by_stages(s, d.skip_data);
                    let n = h.spec_name_len() as int;
                    let s1 = s.skip(FILE_HEADER_SIZE as int);
                    let d1 = DecoderView { stage: StageView::Name(h, method), ..d };
                    lemma_drain_name(d1, s1);
                    let d2 = DecoderView {
                        stage: StageView::Payload(h, method, decode_utf8(s1.take(n))),
                        ..d
                    };
                    let s2 = s1.skip(n);
                    lemma_drain_payload(d2, s2);
                    if let Ok(e) = EntryView::spec_read(s, d.skip_data) {
                        let d3 = spec_behind_entry(d2);
                        let rest = s2.skip(h.data_len as int);
                        lemma_drain_entries(d3, rest);
                        match spec_read_entries(rest, d3.left, d.skip_data) {
                            Ok(more) => {
                                assert(seq![DecodedView::Entry(e)] + as_decoded(more) =~= as_decoded(
                                    seq![e] + more,
                                ));
                            },
                            Err(_) => {},
                        }
                    }
                },
            }
        }
    }
}

/// Piece by piece, the decoder reads the archive that reading the whole
/// stream gives: first the header, then the same entries in the same
/// order; or it fails with the same error.
pub proof fn lemma_drain_archive(s: Seq<u8>, skip_data: bool)
    ensures
        spec_drain(spec_fresh(skip_data), s) == match spec_read_archive(s, skip_data) {
            Ok(archive) => Ok::<Seq<DecodedView>, ArchiveError>(
                seq![DecodedView::Archive(archive.header)] + as_decoded(archive.entries),
            ),
            Err(e) => Err::<Seq<DecodedView>, ArchiveError>(e),
        },
{
    let d = spec_fresh(skip_data);
    if s.len() >= ARCHIVE_HEADER_SIZE {
        let head = s.take(ARCHIVE_HEADER_SIZE as int);
        let h = ArchiveHeader::parse(s);
        assert(spec_piece(s, ARCHIVE_HEADER_SIZE as u64) == head);
        assert(ArchiveHeader::parse(head) == h) by {
            assert(head.take(ARCHIVE_HEADER_SIZE as int) =~= s.take(ARCHIVE_HEADER_SIZE as int));
            lemma_archive_header_parse_prefix(head, s);
        }
        let body = s.skip(ARCHIVE_HEADER_SIZE as int);
        assert(spec_behind_piece(s, ARCHIVE_HEADER_SIZE as u64) == body);
        let d1 = spec_feed(d, head).0;
        assert(between_entries(d1));
        lemma_drain_entries(d1, body);
    }
}

} // verus!
