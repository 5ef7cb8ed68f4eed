//! The two fixed-size records of the format.
//!
//! All integers are little-endian. The archive header is 8 bytes:
//!
//! | bytes | field        |
//! | ----- | ------------ |
//! | 0..4  | `version`    |
//! | 4..8  | `file_count` |
//!
//! The fixed part of an entry is 40 bytes:
//!
//! | bytes  | field                                      |
//! | ------ | ------------------------------------------ |
//! | 0..8   | `modified`, seconds since the epoch        |
//! | 8..16  | `accessed`, seconds since the epoch        |
//! | 16..20 | `mode`, the raw permission bits            |
//! | 20..23 | length of the name in bytes                |
//! | 23     | compression tag                            |
//! | 24..32 | `data_uncompressed_len`                    |
//! | 32..40 | `data_len`, the length of the payload      |
//!
//! Bytes 20..24 are one 32-bit word: the name's length in its low 24 bits,
//! the compression tag in its high 8 bits.

use vstd::prelude::*;
use crate::compression::DataCompression;
use crate::error::ArchiveError;
use crate::wire::{
    get_u32, get_u64, put_u32, put_u64, u32_from_le, u32_le, u64_from_le, u64_le, ByteReader,
    lemma_u32_from_le_roundtrip, lemma_u32_le_roundtrip, lemma_u64_from_le_roundtrip,
    lemma_u64_le_roundtrip,
};

verus! {

/// The format version this library writes.
pub const FORMAT_VERSION: u32 = 0;

/// The size of an archive header on the wire.
pub const ARCHIVE_HEADER_SIZE: usize = 8;

/// The size of the fixed part of an entry on the wire.
pub const FILE_HEADER_SIZE: usize = 40;

/// The longest name an entry can declare, in bytes.
pub const MAX_NAME_LEN: u32 = 0xFF_FFFF;

/// The record an archive starts with.
#[derive(Debug, Clone, Copy, PartialEq, Eq, Structural)]
pub struct ArchiveHeader {
    /// The revision of the format.
    pub version: u32,
    /// How many entries follow.
    pub file_count: u32,
}

impl ArchiveHeader {
    /// The header as it stands on the wire.
    pub open spec fn wire(self) -> Seq<u8> {
        u32_le(self.version) + u32_le(self.file_count)
    }

    /// The header that the first eight bytes of `b` stand for.
    pub open spec fn parse(b: Seq<u8>) -> ArchiveHeader
        recommends
            b.len() >= ARCHIVE_HEADER_SIZE,
    {
        ArchiveHeader {
            version: u32_from_le(b.subrange(0, 4)),
            file_count: u32_from_le(b.subrange(4, 8)),
        }
    }

    /// What reading a header from a stream that holds `s` gives.
    pub open spec fn spec_read(s: Seq<u8>) -> Result<ArchiveHeader, ArchiveError> {
        if s.len() < ARCHIVE_HEADER_SIZE {
            Err(ArchiveError::MalformedArchive)
        } else {
            Ok(Self::parse(s))
        }
    }

    /// Reads the header at the front of the stream. A stream with fewer
    /// than eight bytes left is malformed, and nothing is consumed.
    pub fn read(reader: &mut ByteReader<'_>) -> (r: Result<ArchiveHeader, ArchiveError>)
        ensures
            r == Self::spec_read(old(reader).remaining()),
            r is Ok ==> final(reader).remaining() == old(reader).remaining().skip(
                ARCHIVE_HEADER_SIZE as int,
            ),
            r is Err ==> final(reader).remaining() == old(reader).remaining(),
    {
        let buf = match reader.read_exact(ARCHIVE_HEADER_SIZE) {
            Ok(buf) => buf,
            Err(e) => {
                return Err(e);
            },
        };
        let version = get_u32(buf.as_slice(), 0);
        let file_count = get_u32(buf.as_slice(), 4);
        proof {
            let s = old(reader).remaining();
            assert(buf@.subrange(0, 4) =~= s.subrange(0, 4));
            assert(buf@.subrange(4, 8) =~= s.subrange(4, 8));
        }
        Ok(ArchiveHeader { version, file_count })
    }

    /// Appends the header to `writer`.
    pub fn write(self, writer: &mut Vec<u8>)
        ensures
            final(writer)@ == old(writer)@ + self.wire(),
    {
        put_u32(writer, self.version);
        put_u32(writer, self.file_count);
        assert(writer@ =~= old(writer)@ + self.wire());
    }
}

/// The fixed part of an entry, as the wire holds it. Every value of the
/// type can be written and read back; whether its tag names a method is
/// asked with `data_compression`.
#[derive(Debug, Clone, Copy, PartialEq, Eq, Structural)]
pub struct FileHeader {
    /// When the file was last modified, in seconds since the epoch.
    pub modified: u64,
    /// When the file was last read, in seconds since the epoch.
    pub accessed: u64,
    /// The permission bits of the file, as the platform gave them.
    pub mode: u32,
    /// The length of the name in the low 24 bits, the compression tag in
    /// the high 8 bits.
    pub data_compression_and_name_len: u32,
    /// The size of the file before compression.
    pub data_uncompressed_len: u64,
    /// The size of the payload in the archive.
    pub data_len: u64,
}

impl FileHeader {
    /// The length of the name that follows the header.
    pub open spec fn spec_name_len(&self) -> u32 {
        self.data_compression_and_name_len % 0x100_0000
    }

    /// The compression tag, not yet checked.
    pub open spec fn spec_tag(self) -> u8 {
        (self.data_compression_and_name_len / 0x100_0000) as u8
    }

    /// The method the tag names, if it names one.
    pub open spec fn spec_data_compression(self) -> Result<DataCompression, ArchiveError> {
        DataCompression::spec_try_from(self.spec_tag())
    }

    /// The header as it stands on the wire.
    pub open spec fn wire(self) -> Seq<u8> {
        u64_le(self.modified) + u64_le(self.accessed) + u32_le(self.mode) + u32_le(
            self.data_compression_and_name_len,
        ) + u64_le(self.data_uncompressed_len) + u64_le(self.data_len)
    }

    /// The header that the first forty bytes of `b` stand for.
    pub open spec fn parse(b: Seq<u8>) -> FileHeader
        recommends
            b.len() >= FILE_HEADER_SIZE,
    {
        FileHeader {
            modified: u64_from_le(b.subrange(0, 8)),
            accessed: u64_from_le(b.subrange(8, 16)),
            mode: u32_from_le(b.subrange(16, 20)),
            data_compression_and_name_len: u32_from_le(b.subrange(20, 24)),
            data_uncompressed_len: u64_from_le(b.subrange(24, 32)),
            data_len: u64_from_le(b.subrange(32, 40)),
        }
    }

    /// What reading a header from a stream that holds `s` gives.
    pub open spec fn spec_read(s: Seq<u8>) -> Result<FileHeader, ArchiveError> {
        if s.len() < FILE_HEADER_SIZE {
            Err(ArchiveError::MalformedArchive)
        } else {
            Ok(Self::parse(s))
        }
    }

    /// The header of an entry with the given fields.
    pub open spec fn spec_new(
        modified: u64,
        accessed: u64,
        mode: u32,
        name_len: u32,
        data_compression: DataCompression,
        data_uncompressed_len: u64,
        data_len: u64,
    ) -> FileHeader {
        FileHeader {
            modified,
            accessed,
            mode,
            data_compression_and_name_len: (name_len + 0x100_0000 * data_compression.spec_tag()) as u32,
            data_uncompressed_len,
            data_len,
        }
    }

    /// Builds the header of an entry. The name's length has 24 bits.
    pub fn new(
        modified: u64,
        accessed: u64,
        mode: u32,
        name_len: u32,
        data_compression: DataCompression,
        data_uncompressed_len: u64,
        data_len: u64,
    ) -> (header: FileHeader)
        requires
            name_len <= MAX_NAME_LEN,
        ensures
            header == Self::spec_new(
                modified,
                accessed,
                mode,
                name_len,
                data_compression,
                data_uncompressed_len,
                data_len,
            ),
            header.spec_name_len() == name_len,
            header.spec_data_compression() == Ok::<DataCompression, ArchiveError>(data_compression),
    {
        let tag: u32 = data_compression.tag() as u32;
        FileHeader {
            modified,
            accessed,
            mode,
            data_compression_and_name_len: name_len + 0x100_0000 * tag,
            data_uncompressed_len,
            data_len,
        }
    }

    /// Reads the header at the front of the stream. A stream with fewer
    /// than forty bytes left is malformed, and nothing is consumed.
    pub fn read(reader: &mut ByteReader<'_>) -> (r: Result<FileHeader, ArchiveError>)
        ensures
            r == Self::spec_read(old(reader).remaining()),
            r is Ok ==> final(reader).remaining() == old(reader).remaining().skip(
                FILE_HEADER_SIZE as int,
            ),
            r is Err ==> final(reader).remaining() == old(reader).remaining(),
    {
        let buf = match reader.read_exact(FILE_HEADER_SIZE) {
            Ok(buf) => buf,
            Err(e) => {
                return Err(e);
            },
        };
        let b = buf.as_slice();
        let modified = get_u64(b, 0);
        let accessed = get_u64(b, 8);
        let mode = get_u32(b, 16);
        let data_compression_and_name_len = get_u32(b, 20);
        let data_uncompressed_len = get_u64(b, 24);
        let data_len = get_u64(b, 32);
        proof {
            let s = old(reader).remaining();
            assert(buf@.subrange(0, 8) =~= s.subrange(0, 8));
            assert(buf@.subrange(8, 16) =~= s.subrange(8, 16));
            assert(buf@.subrange(16, 20) =~= s.subrange(16, 20));
            assert(buf@.subrange(20, 24) =~= s.subrange(20, 24));
            assert(buf@.subrange(24, 32) =~= s.subrange(24, 32));
            assert(buf@.subrange(32, 40) =~= s.subrange(32, 40));
        }
        Ok(
            FileHeader {
                modified,
                accessed,
                mode,
                data_compression_and_name_len,
                data_uncompressed_len,
                data_len,
            },
        )
    }

    /// Appends the header to `writer`.
    pub fn write(self, writer: &mut Vec<u8>)
        ensures
            final(writer)@ == old(writer)@ + self.wire(),
    {
        put_u64(writer, self.modified);
        put_u64(writer, self.accessed);
        put_u32(writer, self.mode);
        put_u32(writer, self.data_compression_and_name_len);
        put_u64(writer, self.data_uncompressed_len);
        put_u64(writer, self.data_len);
        assert(writer@ =~= old(writer)@ + self.wire());
    }

    /// The compression method of the entry. A tag that names no method is
    /// an error.
    pub fn data_compression(&self) -> (r: Result<DataCompression, ArchiveError>)
        ensures
            r == self.spec_data_compression(),
    {
        DataCompression::try_from((self.data_compression_and_name_len / 0x100_0000) as u8)
    }

    /// The length in bytes of the name that follows the header.
    #[verifier::when_used_as_spec(spec_name_len)]
    pub fn name_len(&self) -> (n: u32)
        ensures
            n == self.spec_name_len(),
            n <= MAX_NAME_LEN,
    {
        self.data_compression_and_name_len % 0x100_0000
    }
}

/// An archive header survives being written and read back.
pub proof fn lemma_archive_header_roundtrip(h: ArchiveHeader)
    ensures
        h.wire().len() == ARCHIVE_HEADER_SIZE,
        ArchiveHeader::parse(h.wire()) == h,
{
    lemma_u32_le_roundtrip(h.version);
    lemma_u32_le_roundtrip(h.file_count);
    assert(h.wire().subrange(0, 4) =~= u32_le(h.version));
    assert(h.wire().subrange(4, 8) =~= u32_le(h.file_count));
}

/// Any eight bytes are the wire form of the header they parse to.
pub proof fn lemma_archive_header_wire_of_parse(b: Seq<u8>)
    requires
        b.len() >= ARCHIVE_HEADER_SIZE,
    ensures
        ArchiveHeader::parse(b).wire() == b.take(ARCHIVE_HEADER_SIZE as int),
{
    lemma_u32_from_le_roundtrip(b.subrange(0, 4));
    lemma_u32_from_le_roundtrip(b.subrange(4, 8));
    assert(ArchiveHeader::parse(b).wire() =~= b.take(ARCHIVE_HEADER_SIZE as int));
}

/// An entry's header survives being written and read back.
pub proof fn lemma_file_header_roundtrip(h: FileHeader)
    ensures
        h.wire().len() == FILE_HEADER_SIZE,
        FileHeader::parse(h.wire()) == h,
{
    lemma_u64_le_roundtrip(h.modified);
    lemma_u64_le_roundtrip(h.accessed);
    lemma_u32_le_roundtrip(h.mode);
    lemma_u32_le_roundtrip(h.data_compression_and_name_len);
    lemma_u64_le_roundtrip(h.data_uncompressed_len);
    lemma_u64_le_roundtrip(h.data_len);
    let w = h.wire();
    assert(w.subrange(0, 8) =~= u64_le(h.modified));
    assert(w.subrange(8, 16) =~= u64_le(h.accessed));
    assert(w.subrange(16, 20) =~= u32_le(h.mode));
    assert(w.subrange(20, 24) =~= u32_le(h.data_compression_and_name_len));
    assert(w.subrange(24, 32) =~= u64_le(h.data_uncompressed_len));
    assert(w.subrange(32, 40) =~= u64_le(h.data_len));
}

/// Only the first forty bytes of a stream decide the header read from it.
pub proof fn lemma_file_header_parse_prefix(a: Seq<u8>, b: Seq<u8>)
    requires
        a.len() >= FILE_HEADER_SIZE,
        b.len() >= FILE_HEADER_SIZE,
        a.take(FILE_HEADER_SIZE as int) == b.take(FILE_HEADER_SIZE as int),
    ensures
        FileHeader::parse(a) == FileHeader::parse(b),
{
    let p = a.take(FILE_HEADER_SIZE as int);
    let q = b.take(FILE_HEADER_SIZE as int);
    assert(a.subrange(0, 8) =~= p.subrange(0, 8) && b.subrange(0, 8) =~= q.subrange(0, 8));
    assert(a.subrange(8, 16) =~= p.subrange(8, 16) && b.subrange(8, 16) =~= q.subrange(8, 16));
    assert(a.subrange(16, 20) =~= p.subrange(16, 20) && b.subrange(16, 20) =~= q.subrange(16, 20));
    assert(a.subrange(20, 24) =~= p.subrange(20, 24) && b.subrange(20, 24) =~= q.subrange(20, 24));
    assert(a.subrange(24, 32) =~= p.subrange(24, 32) && b.subrange(24, 32) =~= q.subrange(24, 32));
    assert(a.subrange(32, 40) =~= p.subrange(32, 40) && b.subrange(32, 40) =~= q.subrange(32, 40));
}

/// Only the first eight bytes of a stream decide the header read from it.
pub proof fn lemma_archive_header_parse_prefix(a: Seq<u8>, b: Seq<u8>)
    requires
        a.len() >= ARCHIVE_HEADER_SIZE,
        b.len() >= ARCHIVE_HEADER_SIZE,
        a.take(ARCHIVE_HEADER_SIZE as int) == b.take(ARCHIVE_HEADER_SIZE as int),
    ensures
        ArchiveHeader::parse(a) == ArchiveHeader::parse(b),
{
    let p = a.take(ARCHIVE_HEADER_SIZE as int);
    let q = b.take(ARCHIVE_HEADER_SIZE as int);
    assert(a.subrange(0, 4) =~= p.subrange(0, 4) && b.subrange(0, 4) =~= q.subrange(0, 4));
    assert(a.subrange(4, 8) =~= p.subrange(4, 8) && b.subrange(4, 8) =~= q.subrange(4, 8));
}

/// Any forty bytes are the wire form of the header they parse to.
pub proof fn lemma_file_header_wire_of_parse(b: Seq<u8>)
    requires
        b.len() >= FILE_HEADER_SIZE,
    ensures
        FileHeader::parse(b).wire() == b.take(FILE_HEADER_SIZE as int),
{
    lemma_u64_from_le_roundtrip(b.subrange(0, 8));
    lemma_u64_from_le_roundtrip(b.subrange(8, 16));
    lemma_u32_from_le_roundtrip(b.subrange(16, 20));
    lemma_u32_from_le_roundtrip(b.subrange(20, 24));
    lemma_u64_from_le_roundtrip(b.subrange(24, 32));
    lemma_u64_from_le_roundtrip(b.subrange(32, 40));
    assert(FileHeader::parse(b).wire() =~= b.take(FILE_HEADER_SIZE as int));
}

} // verus!
