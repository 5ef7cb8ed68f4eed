//! Writing an archive from files.

use vstd::prelude::*;
use vstd::utf8::encode_utf8;
use crate::archive::{
    archive_wire, entries_wf, entries_wire, header_for, lemma_archive_roundtrip,
    spec_archive_len, spec_read_archive,
};
use crate::compression::{compress, spec_decompress, DataCompression};
use crate::entry::{EntryView, FileHeaderRepr};
use crate::error::ArchiveError;
use crate::file::{file_views, FileRecord, FileView};
use crate::header::{ArchiveHeader, FileHeader, FORMAT_VERSION, MAX_NAME_LEN};
use crate::laws::{distinct_names, lemma_pack_unpack_roundtrip};
use crate::text::has_nul;
use crate::unpack::{spec_unpack_archive, Unpacked};

verus! {

/// Whether a file can be given an entry: its name fits the header and
/// holds no NUL, and its size fits the header too.
pub open spec fn packable(f: FileView) -> bool {
    &&& encode_utf8(f.name).len() <= MAX_NAME_LEN
    &&& !encode_utf8(f.name).contains(0u8)
    &&& f.contents.len() <= u64::MAX
}

/// Whether an archive can be made of the files: each can be given an
/// entry and their number fits the header.
pub open spec fn all_packable(files: Seq<FileView>) -> bool {
    &&& files.len() <= u32::MAX
    &&& forall|i: int| 0 <= i < files.len() ==> packable(#[trigger] files[i])
}

/// The entry that keeps `f` with the payload `stored` under `method`.
pub open spec fn spec_entry_for(f: FileView, method: DataCompression, stored: Seq<u8>) -> EntryView {
    EntryView {
        modified: f.modified,
        accessed: f.accessed,
        mode: f.mode,
        data_compression: method,
        data_uncompressed_len: f.contents.len() as u64,
        data_len: stored.len() as u64,
        name: f.name,
        data: stored,
    }
}

/// Whether `e` is an entry that packing may write for `f` under
/// `method`: it keeps the name, the mode and the timestamps, declares
/// both lengths, and its payload stands for the contents of the file.
pub open spec fn packed_as(e: EntryView, f: FileView, method: DataCompression) -> bool {
    &&& e == spec_entry_for(f, method, e.data)
    &&& e.wf()
    &&& e.data_uncompressed_len == f.contents.len()
    &&& spec_decompress(method, e.data) == Some(f.contents)
}

/// Whether `entries` are what packing may write for `files`, one for
/// one and in the same order.
pub open spec fn all_packed_as(
    entries: Seq<EntryView>,
    files: Seq<FileView>,
    method: DataCompression,
) -> bool {
    &&& entries.len() == files.len()
    &&& forall|i: int| 0 <= i < entries.len() ==> packed_as(#[trigger] entries[i], files[i], method)
}

/// Whether the file can be given an entry.
pub fn is_packable(file: &FileRecord) -> (ok: bool)
    ensures
        ok == packable(file@),
{
    let name = file.name.as_str().as_bytes();
    let size = file.contents.len();
    name.len() <= MAX_NAME_LEN as usize && !has_nul(name) && size as u64 <= u64::MAX
}

/// Builds the entry that keeps `file` with the payload `stored`.
pub fn entry_for(file: &FileRecord, method: DataCompression, stored: Vec<u8>) -> (entry:
    FileHeaderRepr)
    ensures
        entry@ == spec_entry_for(file@, method, stored@),
        entry@.data_len == stored@.len(),
        entry@.data_uncompressed_len == file@.contents.len(),
{
    FileHeaderRepr::new(
        file.modified,
        file.accessed,
        file.mode,
        method,
        file.contents.len() as u64,
        stored.len() as u64,
        file.name.clone(),
        stored,
    )
}

/// Makes the entry for one file: compresses the contents and records
/// both lengths. A file that cannot be given an entry is refused with
/// `MalformedArchive` before anything is compressed. Without compression
/// every other file succeeds; with Brotli the coder may fail, which is
/// an `IoError`.
pub fn pack_entry(file: &FileRecord, method: DataCompression) -> (r: Result<
    FileHeaderRepr,
    ArchiveError,
>)
    ensures
        !packable(file@) ==> r == Err::<FileHeaderRepr, ArchiveError>(
            ArchiveError::MalformedArchive,
        ),
        packable(file@) && method == DataCompression::Uncompressed ==> r is Ok,
        match r {
            Ok(entry) => packed_as(entry@, file@, method),
            Err(e) => !packable(file@) || (e == ArchiveError::IoError && method
                == DataCompression::Brotli),
        },
{
    if !is_packable(file) {
        return Err(ArchiveError::MalformedArchive);
    }
    match compress(method, file.contents.as_slice()) {
        Ok(stored) => Ok(entry_for(file, method, stored)),
        Err(e) => Err(e),
    }
}

/// Writes an archive entry by entry: first the header with the number
/// of files, then one entry for each file added. No more files can be
/// added than were announced, and the archive is complete only when all
/// of them have been.
#[derive(Debug)]
pub struct Packer {
    method: DataCompression,
    left: u32,
}

/// The state of a packer.
pub ghost struct PackerView {
    /// How payloads are stored.
    pub method: DataCompression,
    /// How many files are still to be added.
    pub left: nat,
}

impl View for Packer {
    type V = PackerView;

    closed spec fn view(&self) -> PackerView {
        PackerView { method: self.method, left: self.left as nat }
    }
}

impl Packer {
    /// Begins an archive of `count` files with payloads stored under
    /// `method`: writes the header. More files than the header can count
    /// are refused with `MalformedArchive`, and nothing is written.
    pub fn begin(count: usize, method: DataCompression, writer: &mut Vec<u8>) -> (r: Result<
        Packer,
        ArchiveError,
    >)
        ensures
            match r {
                Ok(packer) => {
                    &&& count <= u32::MAX
                    &&& packer@ == (PackerView { method, left: count as nat })
                    &&& final(writer)@ == old(writer)@ + header_for(count as nat).wire()
                },
                Err(e) => {
                    &&& count > u32::MAX
                    &&& e == ArchiveError::MalformedArchive
                    &&& final(writer)@ == old(writer)@
                },
            },
    {
        if count > u32::MAX as usize {
            return Err(ArchiveError::MalformedArchive);
        }
        let header = ArchiveHeader { version: FORMAT_VERSION, file_count: count as u32 };
        header.write(writer);
        Ok(Packer { method, left: count as u32 })
    }

    /// How many files are still to be added.
    pub fn left(&self) -> (left: u32)
        ensures
            left == self@.left,
    {
        self.left
    }

    /// Adds one file: writes its entry and returns it. A file beyond the
    /// number announced, and a file that cannot be given an entry, are
    /// refused with `MalformedArchive`. Otherwise, without compression
    /// this succeeds; with Brotli it fails with `IoError` when the coder
    /// does. When it fails nothing is written and nothing changes.
    pub fn add(&mut self, file: &FileRecord, writer: &mut Vec<u8>) -> (r: Result<
        FileHeaderRepr,
        ArchiveError,
    >)
        ensures
            old(self)@.left == 0 || !packable(file@) ==> r == Err::<FileHeaderRepr, ArchiveError>(
                ArchiveError::MalformedArchive,
            ),
            old(self)@.left > 0 && packable(file@) && old(self)@.method
                == DataCompression::Uncompressed ==> r is Ok,
            match r {
                Ok(entry) => {
                    &&& packed_as(entry@, file@, old(self)@.method)
                    &&& final(writer)@ == old(writer)@ + entry@.wire()
                    &&& final(self)@ == (PackerView {
                        left: (old(self)@.left - 1) as nat,
                        ..old(self)@
                    })
                },
                Err(e) => {
                    &&& final(writer)@ == old(writer)@
                    &&& final(self)@ == old(self)@
                    &&& (old(self)@.left == 0 || !packable(file@) || (e == ArchiveError::IoError
                        && old(self)@.method == DataCompression::Brotli))
                },
            },
    {
        if self.left == 0 {
            return Err(ArchiveError::MalformedArchive);
        }
        let entry = match pack_entry(file, self.method) {
            Ok(entry) => entry,
            Err(e) => {
                return Err(e);
            },
        };
        match entry.write(writer) {
            Ok(()) => {},
            Err(e) => {
                return Err(e);
            },
        }
        self.left = self.left - 1;
        Ok(entry)
    }

    /// Ends the archive. If files that were announced have not been
    /// added, what was written is no archive: `MalformedArchive`.
    pub fn finish(self) -> (r: Result<(), ArchiveError>)
        ensures
            r is Ok <==> self@.left == 0,
            r is Err ==> r == Err::<(), ArchiveError>(ArchiveError::MalformedArchive),
    {
        if self.left == 0 {
            Ok(())
        } else {
            Err(ArchiveError::MalformedArchive)
        }
    }
}

/// Whether an archive can be made of the files.
pub fn are_packable(files: &Vec<FileRecord>) -> (ok: bool)
    ensures
        ok == all_packable(file_views(files@)),
{
    if files.len() > u32::MAX as usize {
        return false;
    }
    let mut i: usize = 0;
    while i < files.len()
        invariant
            i <= files.len(),
            files.len() <= u32::MAX,
            forall|j: int| 0 <= j < i ==> packable(#[trigger] file_views(files@)[j]),
        decreases files.len() - i,
    {
        if !is_packable(&files[i]) {
            assert(!packable(file_views(files@)[i as int]));
            return false;
        }
        i = i + 1;
    }
    true
}

/// Writes the archive of `files` to `writer` in one go: the header with
/// their number, then one entry per file in the given order, every
/// payload stored under `method`. It returns the fixed header of each
/// entry.
///
/// Files of which no archive can be made are refused with
/// `MalformedArchive`. Otherwise, without compression the run succeeds;
/// with Brotli it fails with `IoError` when the coder does. A failed run
/// leaves `writer` as it was.
///
/// What was written reads back as an archive whose entries restore to
/// exactly the files given. So if no two of the files have one name,
/// unpacking it into an empty destination gives the files back.
pub fn pack(files: &Vec<FileRecord>, method: DataCompression, writer: &mut Vec<u8>) -> (r: Result<
    Vec<FileHeader>,
    ArchiveError,
>)
    ensures
        !all_packable(file_views(files@)) ==> r == Err::<Vec<FileHeader>, ArchiveError>(
            ArchiveError::MalformedArchive,
        ),
        all_packable(file_views(files@)) && method == DataCompression::Uncompressed ==> r is Ok,
        match r {
            Ok(headers) => {
                let written = final(writer)@.skip(old(writer)@.len() as int);
                &&& final(writer)@ == old(writer)@ + written
                &&& spec_archive_len(written) == written.len()
                &&& spec_read_archive(written, false) matches Ok(archive)
                &&& archive.header == header_for(files@.len())
                &&& written == archive_wire(archive.entries)
                &&& all_packed_as(archive.entries, file_views(files@), method)
                &&& headers@ == archive.entries.map_values(|e: EntryView| e.header())
                &&& distinct_names(file_views(files@)) ==> spec_unpack_archive(
                    Seq::empty(),
                    written,
                ) == Ok::<Unpacked, ArchiveError>(
                    Unpacked { files: file_views(files@), skipped: Seq::empty() },
                )
            },
            Err(e) => final(writer)@ == old(writer)@ && (!all_packable(file_views(files@)) || (e
                == ArchiveError::IoError && method == DataCompression::Brotli)),
        },
{
    if !are_packable(files) {
        return Err(ArchiveError::MalformedArchive);
    }
    let start_len = writer.len();
    let mut packer = match Packer::begin(files.len(), method, writer) {
        Ok(packer) => packer,
        Err(e) => {
            return Err(e);
        },
    };
    let ghost header = header_for(files@.len());
    let ghost all = file_views(files@);
    let ghost entries = Seq::<EntryView>::empty();
    let mut headers: Vec<FileHeader> = Vec::new();
    let mut i: usize = 0;
    proof {
        assert(writer@ =~= old(writer)@ + header.wire() + entries_wire(entries));
        assert(headers@ =~= entries.map_values(|e: EntryView| e.header()));
    }
    while i < files.len()
        invariant
            i <= files.len(),
            all == file_views(files@),
            all_packable(all),
            header == header_for(files@.len()),
            start_len == old(writer)@.len(),
            packer@ == (PackerView { method, left: (files@.len() - i) as nat }),
            entries.len() == i,
            forall|j: int| 0 <= j < i ==> packed_as(#[trigger] entries[j], all[j], method),
            writer@ == old(writer)@ + header.wire() + entries_wire(entries),
            headers@ == entries.map_values(|e: EntryView| e.header()),
        decreases files.len() - i,
    {
        assert(packable(all[i as int]));
        let entry = match packer.add(&files[i], writer) {
            Ok(entry) => entry,
            Err(e) => {
                writer.truncate(start_len);
                assert(writer@ =~= old(writer)@);
                return Err(e);
            },
        };
        headers.push(entry.header());
        proof {
            lemma_entries_wire_push(entries, entry@);
            assert(writer@ =~= old(writer)@ + header.wire() + entries_wire(entries.push(entry@)));
            assert(headers@ =~= entries.push(entry@).map_values(|e: EntryView| e.header()));
            entries = entries.push(entry@);
        }
        i = i + 1;
    }
    proof {
        let written = writer@.skip(old(writer)@.len() as int);
        assert(written =~= archive_wire(entries));
        assert(writer@ =~= old(writer)@ + written);
        assert(entries_wf(entries));
        lemma_archive_roundtrip(entries, Seq::empty());
        assert(archive_wire(entries) + Seq::<u8>::empty() =~= archive_wire(entries));
        if distinct_names(all) {
            lemma_pack_unpack_roundtrip(all, entries, method, Seq::empty());
        }
    }
    Ok(headers)
}

/// Writing one entry more appends its bytes.
pub proof fn lemma_entries_wire_push(entries: Seq<EntryView>, e: EntryView)
    ensures
        entries_wire(entries.push(e)) == entries_wire(entries) + e.wire(),
    decreases entries.len(),
{
    if entries.len() == 0 {
        assert(entries.push(e).drop_first() =~= Seq::<EntryView>::empty());
        assert(entries_wire(entries.push(e)) =~= e.wire() + entries_wire(Seq::empty()));
        assert(entries_wire(entries) + e.wire() =~= e.wire());
        assert(e.wire() + entries_wire(Seq::<EntryView>::empty()) =~= e.wire());
    } else {
        assert(entries.push(e).drop_first() =~= entries.drop_first().push(e));
        lemma_entries_wire_push(entries.drop_first(), e);
        assert(entries[0].wire() + (entries_wire(entries.drop_first()) + e.wire()) =~= (
        entries[0].wire() + entries_wire(entries.drop_first())) + e.wire());
    }
}

} // verus!
