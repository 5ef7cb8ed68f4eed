//! One entry of an archive: the fixed header, the name, the payload.

use vstd::prelude::*;
use vstd::utf8::{decode_utf8, encode_utf8, encode_utf8_decode_utf8, encode_utf8_valid_utf8, valid_utf8};
use crate::compression::{lemma_tag_roundtrip, DataCompression};
use crate::error::ArchiveError;
use crate::header::{
    lemma_file_header_parse_prefix, lemma_file_header_roundtrip, FileHeader, FILE_HEADER_SIZE,
    MAX_NAME_LEN,
};
use crate::text::{has_nul, string_from_utf8};
use crate::wire::{put_bytes, ByteReader};

verus! {

/// An entry in memory. When an archive is only listed, `data` is left
/// empty while `data_len` still tells the size of the payload.
#[derive(Debug, Clone)]
pub struct FileHeaderRepr {
    /// When the file was last modified, in seconds since the epoch.
    pub modified: u64,
    /// When the file was last read, in seconds since the epoch.
    pub accessed: u64,
    /// The permission bits of the file, as the platform gave them.
    pub mode: u32,
    /// How the payload is stored.
    pub data_compression: DataCompression,
    /// The size of the file before compression.
    pub data_uncompressed_len: u64,
    /// The size of the payload in the archive.
    pub data_len: u64,
    /// The path of the file, relative to where the archive is restored.
    pub name: String,
    /// The payload.
    pub data: Vec<u8>,
}

/// What an entry is, apart from how memory holds it.
pub ghost struct EntryView {
    pub modified: u64,
    pub accessed: u64,
    pub mode: u32,
    pub data_compression: DataCompression,
    pub data_uncompressed_len: u64,
    pub data_len: u64,
    pub name: Seq<char>,
    pub data: Seq<u8>,
}

impl View for FileHeaderRepr {
    type V = EntryView;

    open spec fn view(&self) -> EntryView {
        EntryView {
            modified: self.modified,
            accessed: self.accessed,
            mode: self.mode,
            data_compression: self.data_compression,
            data_uncompressed_len: self.data_uncompressed_len,
            data_len: self.data_len,
            name: self.name@,
            data: self.data@,
        }
    }
}

impl EntryView {
    /// The name as it stands on the wire.
    pub open spec fn name_bytes(self) -> Seq<u8> {
        encode_utf8(self.name)
    }

    /// Whether the entry can stand in an archive: the name fits the
    /// header and holds no NUL, the payload has the declared length, and
    /// an uncompressed payload has the length of the file.
    pub open spec fn wf(self) -> bool {
        &&& self.name_bytes().len() <= MAX_NAME_LEN
        &&& !self.name_bytes().contains(0u8)
        &&& self.data.len() == self.data_len
        &&& (self.data_compression == DataCompression::Uncompressed ==> self.data_uncompressed_len
            == self.data_len)
    }

    /// The fixed header of the entry.
    pub open spec fn header(self) -> FileHeader {
        FileHeader::spec_new(
            self.modified,
            self.accessed,
            self.mode,
            self.name_bytes().len() as u32,
            self.data_compression,
            self.data_uncompressed_len,
            self.data_len,
        )
    }

    /// The entry as it stands on the wire.
    pub open spec fn wire(self) -> Seq<u8> {
        self.header().wire() + self.name_bytes() + self.data
    }

    /// The entry as a listing shows it: everything but the payload.
    pub open spec fn listed(self) -> EntryView {
        EntryView { data: Seq::empty(), ..self }
    }

    /// How many bytes the entry at the front of `s` takes, going by its
    /// header.
    pub open spec fn spec_wire_len(s: Seq<u8>) -> int
        recommends
            s.len() >= FILE_HEADER_SIZE,
    {
        let h = FileHeader::parse(s);
        FILE_HEADER_SIZE + h.spec_name_len() + h.data_len
    }

    /// What reading an entry from a stream that holds `s` gives. The
    /// checks come in this order: the header is there; its tag names a
    /// method; the name is there, is UTF-8 and holds no NUL; the lengths
    /// agree; the payload is there.
    #[verifier::opaque]
    pub open spec fn spec_read(s: Seq<u8>, skip_data: bool) -> Result<EntryView, ArchiveError> {
        if s.len() < FILE_HEADER_SIZE {
            Err(ArchiveError::MalformedArchive)
        } else {
            let h = FileHeader::parse(s);
            let name_end = FILE_HEADER_SIZE + h.spec_name_len();
            let name_bytes = s.subrange(FILE_HEADER_SIZE as int, name_end);
            match h.spec_data_compression() {
                Err(e) => Err(e),
                Ok(method) => {
                    if s.len() < name_end {
                        Err(ArchiveError::MalformedArchive)
                    } else if !valid_utf8(name_bytes) {
                        Err(ArchiveError::InvalidNameEncoding)
                    } else if name_bytes.contains(0u8) {
                        Err(ArchiveError::MalformedArchive)
                    } else if method == DataCompression::Uncompressed && h.data_uncompressed_len
                        != h.data_len {
                        Err(ArchiveError::MalformedArchive)
                    } else if s.len() < name_end + h.data_len {
                        Err(ArchiveError::MalformedArchive)
                    } else {
                        Ok(
                            EntryView {
                                modified: h.modified,
                                accessed: h.accessed,
                                mode: h.mode,
                                data_compression: method,
                                data_uncompressed_len: h.data_uncompressed_len,
                                data_len: h.data_len,
                                name: decode_utf8(name_bytes),
                                data: if skip_data {
                                    Seq::empty()
                                } else {
                                    s.subrange(name_end, name_end + h.data_len)
                                },
                            },
                        )
                    }
                },
            }
        }
    }
}

impl FileHeaderRepr {
    /// An entry with the given fields.
    pub fn new(
        modified: u64,
        accessed: u64,
        mode: u32,
        data_compression: DataCompression,
        data_uncompressed_len: u64,
        data_len: u64,
        name: String,
        data: Vec<u8>,
    ) -> (entry: FileHeaderRepr)
        ensures
            entry@ == (EntryView {
                modified,
                accessed,
                mode,
                data_compression,
                data_uncompressed_len,
                data_len,
                name: name@,
                data: data@,
            }),
    {
        FileHeaderRepr {
            modified,
            accessed,
            mode,
            data_compression,
            data_uncompressed_len,
            data_len,
            name,
            data,
        }
    }

    /// Whether the entry can stand in an archive.
    pub fn is_wf(&self) -> (ok: bool)
        ensures
            ok == self@.wf(),
    {
        let name = self.name.as_str().as_bytes();
        if name.len() > MAX_NAME_LEN as usize {
            return false;
        }
        if has_nul(name) {
            return false;
        }
        if self.data.len() as u64 != self.data_len {
            return false;
        }
        match self.data_compression {
            DataCompression::Uncompressed => self.data_uncompressed_len == self.data_len,
            DataCompression::Brotli => true,
        }
    }

    /// The fixed header that goes before the name and the payload.
    pub fn header(&self) -> (header: FileHeader)
        requires
            self@.name_bytes().len() <= MAX_NAME_LEN,
        ensures
            header == self@.header(),
    {
        FileHeader::new(
            self.modified,
            self.accessed,
            self.mode,
            self.name.as_str().as_bytes().len() as u32,
            self.data_compression,
            self.data_uncompressed_len,
            self.data_len,
        )
    }

    /// Reads the entry at the front of the stream. With `skip_data` the
    /// payload is passed over and `data` is left empty. A failed read
    /// consumes nothing.
    pub fn read(reader: &mut ByteReader<'_>, skip_data: bool) -> (r: Result<
        FileHeaderRepr,
        ArchiveError,
    >)
        ensures
            match r {
                Ok(entry) => EntryView::spec_read(old(reader).remaining(), skip_data) == Ok::<
                    EntryView,
                    ArchiveError,
                >(entry@) && final(reader).remaining() == old(reader).remaining().skip(
                    EntryView::spec_wire_len(old(reader).remaining()),
                ),
                Err(e) => EntryView::spec_read(old(reader).remaining(), skip_data) == Err::<
                    EntryView,
                    ArchiveError,
                >(e) && final(reader).remaining() == old(reader).remaining(),
            },
    {
        proof {
            reveal(EntryView::spec_read);
        }
        let start = *reader;
        let ghost s = old(reader).remaining();
        let header = match FileHeader::read(reader) {
            Ok(header) => header,
            Err(e) => {
                return Err(e);
            },
        };
        let method = match header.data_compression() {
            Ok(method) => method,
            Err(e) => {
                *reader = start;
                return Err(e);
            },
        };
        let name_len = header.name_len();
        let name_bytes = match reader.read_exact(name_len as usize) {
            Ok(bytes) => bytes,
            Err(e) => {
                *reader = start;
                return Err(e);
            },
        };
        let ghost name_end = FILE_HEADER_SIZE + name_len;
        proof {
            assert(name_bytes@ =~= s.subrange(FILE_HEADER_SIZE as int, name_end));
            assert(reader.remaining() =~= s.skip(name_end));
        }
        let name = match string_from_utf8(name_bytes) {
            Some(name) => name,
            None => {
                *reader = start;
                return Err(ArchiveError::InvalidNameEncoding);
            },
        };
        proof {
            encode_utf8_decode_utf8(name@);
        }
        if has_nul(name.as_str().as_bytes()) {
            *reader = start;
            return Err(ArchiveError::MalformedArchive);
        }
        if method == DataCompression::Uncompressed && header.data_uncompressed_len
            != header.data_len {
            *reader = start;
            return Err(ArchiveError::MalformedArchive);
        }
        let data = if skip_data {
            match reader.skip(header.data_len) {
                Ok(()) => Vec::new(),
                Err(e) => {
                    *reader = start;
                    return Err(e);
                },
            }
        } else {
            if header.data_len > reader.remaining_len() as u64 {
                *reader = start;
                return Err(ArchiveError::MalformedArchive);
            }
            match reader.read_exact(header.data_len as usize) {
                Ok(data) => data,
                Err(e) => {
                    *reader = start;
                    return Err(e);
                },
            }
        };
        proof {
            assert(reader.remaining() =~= s.skip(EntryView::spec_wire_len(s)));
            if !skip_data {
                assert(data@ =~= s.subrange(name_end, name_end + header.data_len));
            }
        }
        Ok(
            FileHeaderRepr {
                modified: header.modified,
                accessed: header.accessed,
                mode: header.mode,
                data_compression: method,
                data_uncompressed_len: header.data_uncompressed_len,
                data_len: header.data_len,
                name,
                data,
            },
        )
    }

    /// Appends the entry to `writer`: header, name, payload. An entry
    /// that cannot stand in an archive is refused and nothing is written.
    pub fn write(&self, writer: &mut Vec<u8>) -> (r: Result<(), ArchiveError>)
        ensures
            r is Ok <==> self@.wf(),
            match r {
                Ok(_) => final(writer)@ == old(writer)@ + self@.wire(),
                Err(e) => e == ArchiveError::MalformedArchive && final(writer)@ == old(writer)@,
            },
    {
        if !self.is_wf() {
            return Err(ArchiveError::MalformedArchive);
        }
        self.header().write(writer);
        put_bytes(writer, self.name.as_str().as_bytes());
        put_bytes(writer, self.data.as_slice());
        assert(writer@ =~= old(writer)@ + self@.wire());
        Ok(())
    }
}

/// An entry that can stand in an archive survives being written and read
/// back, and reading takes exactly the bytes that writing gave, whatever
/// follows them.
pub proof fn lemma_entry_roundtrip(e: EntryView, rest: Seq<u8>)
    requires
        e.wf(),
    ensures
        EntryView::spec_read(e.wire() + rest, false) == Ok::<EntryView, ArchiveError>(e),
        EntryView::spec_read(e.wire() + rest, true) == Ok::<EntryView, ArchiveError>(e.listed()),
        EntryView::spec_wire_len(e.wire() + rest) == e.wire().len(),
{
    reveal(EntryView::spec_read);
    let s = e.wire() + rest;
    let h = e.header();
    let n = e.name_bytes().len() as int;
    lemma_file_header_roundtrip(h);
    lemma_tag_roundtrip(e.data_compression);
    assert(FileHeader::parse(s) == h) by {
        assert(s.take(FILE_HEADER_SIZE as int) =~= h.wire().take(FILE_HEADER_SIZE as int));
        lemma_file_header_parse_prefix(s, h.wire());
    }
    assert(h.spec_name_len() == n && h.spec_tag() == e.data_compression.spec_tag()) by {
        let word = h.data_compression_and_name_len as int;
        let tag = e.data_compression.spec_tag() as int;
        assert(word == n + 0x100_0000 * tag);
        vstd::arithmetic::div_mod::lemma_fundamental_div_mod_converse(word, 0x100_0000, tag, n);
    }
    assert(s.subrange(FILE_HEADER_SIZE as int, FILE_HEADER_SIZE + n) =~= e.name_bytes());
    assert(valid_utf8(e.name_bytes()) && decode_utf8(e.name_bytes()) == e.name) by {
        encode_utf8_valid_utf8(e.name);
        encode_utf8_decode_utf8(e.name);
    }
    assert(s.subrange(FILE_HEADER_SIZE + n, FILE_HEADER_SIZE + n + h.data_len) =~= e.data);
    assert(e.listed().data =~= Seq::<u8>::empty());
}

/// Listing and full reading agree on an entry: they succeed or fail
/// together, with the same error, and a listed entry is the full one
/// without its payload.
pub proof fn lemma_entry_listed(s: Seq<u8>)
    ensures
        EntryView::spec_read(s, true) == match EntryView::spec_read(s, false) {
            Ok(e) => Ok::<EntryView, ArchiveError>(e.listed()),
            Err(x) => Err::<EntryView, ArchiveError>(x),
        },
{
    reveal(EntryView::spec_read);
}

/// An entry that can be read lies within the stream, and more bytes
/// behind it change nothing.
pub proof fn lemma_entry_read_prefix(s: Seq<u8>, k: int, skip_data: bool)
    requires
        EntryView::spec_read(s, skip_data) is Ok,
        EntryView::spec_wire_len(s) <= k <= s.len(),
    ensures
        FILE_HEADER_SIZE <= EntryView::spec_wire_len(s),
        EntryView::spec_read(s.take(k), skip_data) == EntryView::spec_read(s, skip_data),
        EntryView::spec_wire_len(s.take(k)) == EntryView::spec_wire_len(s),
{
    reveal(EntryView::spec_read);
    let t = s.take(k);
    assert(t.take(FILE_HEADER_SIZE as int) =~= s.take(FILE_HEADER_SIZE as int));
    lemma_file_header_parse_prefix(t, s);
    let h = FileHeader::parse(s);
    let name_end = FILE_HEADER_SIZE + h.spec_name_len();
    assert(t.subrange(FILE_HEADER_SIZE as int, name_end) =~= s.subrange(
        FILE_HEADER_SIZE as int,
        name_end,
    ));
    assert(t.subrange(name_end, name_end + h.data_len) =~= s.subrange(
        name_end,
        name_end + h.data_len,
    ));
}

/// An entry cut short anywhere is malformed, whether it is listed or
/// read in full.
pub proof fn lemma_entry_truncated(s: Seq<u8>, k: int, skip_data: bool)
    requires
        EntryView::spec_read(s, skip_data) is Ok,
        0 <= k < EntryView::spec_wire_len(s),
    ensures
        EntryView::spec_read(s.take(k), skip_data) == Err::<EntryView, ArchiveError>(
            ArchiveError::MalformedArchive,
        ),
{
    reveal(EntryView::spec_read);
    let t = s.take(k);
    if k >= FILE_HEADER_SIZE {
        assert(t.take(FILE_HEADER_SIZE as int) =~= s.take(FILE_HEADER_SIZE as int));
        lemma_file_header_parse_prefix(t, s);
        let h = FileHeader::parse(s);
        let name_end = FILE_HEADER_SIZE + h.spec_name_len();
        if k >= name_end {
            assert(t.subrange(FILE_HEADER_SIZE as int, name_end) =~= s.subrange(
                FILE_HEADER_SIZE as int,
                name_end,
            ));
        }
    }
}

} // verus!
