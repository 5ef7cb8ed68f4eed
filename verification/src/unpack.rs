//! Restoring files from entries.

use vstd::prelude::*;
use crate::archive::{read_entries, spec_archive_len, spec_read_archive, ArchiveView};
use crate::compression::{decompress, spec_decompress};
use crate::entry::{EntryView, FileHeaderRepr};
use crate::error::ArchiveError;
use crate::file::{contains_name, file_views, has_name, FileRecord, FileView};
use crate::wire::ByteReader;

verus! {

/// The file an entry restores to, given the bytes its payload stands for.
pub open spec fn spec_restored_from(e: EntryView, plain: Seq<u8>) -> Result<FileView, ArchiveError> {
    if plain.len() != e.data_uncompressed_len {
        Err(ArchiveError::MalformedArchive)
    } else {
        Ok(
            FileView {
                name: e.name,
                mode: e.mode,
                modified: e.modified,
                accessed: e.accessed,
                contents: plain,
            },
        )
    }
}

/// The file an entry restores to. An entry whose payload does not decode,
/// or decodes to another length than the entry declares, is malformed.
pub open spec fn spec_restore(e: EntryView) -> Result<FileView, ArchiveError> {
    match spec_decompress(e.data_compression, e.data) {
        None => Err(ArchiveError::MalformedArchive),
        Some(plain) => spec_restored_from(e, plain),
    }
}

/// What is done with an entry, given whether its destination exists: an
/// existing destination is never overwritten.
pub open spec fn spec_unpack_entry(e: EntryView, destination_exists: bool) -> Result<
    FileView,
    ArchiveError,
> {
    if destination_exists {
        Err(ArchiveError::DestinationExists)
    } else {
        spec_restore(e)
    }
}

/// Builds the restored file from an entry and the decoded bytes of its
/// payload.
pub fn restored_from(entry: &FileHeaderRepr, plain: Vec<u8>) -> (r: Result<
    FileRecord,
    ArchiveError,
>)
    ensures
        match r {
            Ok(file) => spec_restored_from(entry@, plain@) == Ok::<FileView, ArchiveError>(file@),
            Err(e) => spec_restored_from(entry@, plain@) == Err::<FileView, ArchiveError>(e),
        },
{
    if plain.len() as u64 != entry.data_uncompressed_len {
        return Err(ArchiveError::MalformedArchive);
    }
    Ok(
        FileRecord {
            name: entry.name.clone(),
            mode: entry.mode,
            modified: entry.modified,
            accessed: entry.accessed,
            contents: plain,
        },
    )
}

/// Restores the file of an entry: decodes the payload by the entry's own
/// compression tag and checks the length it declares.
pub fn restore(entry: &FileHeaderRepr) -> (r: Result<FileRecord, ArchiveError>)
    ensures
        match r {
            Ok(file) => spec_restore(entry@) == Ok::<FileView, ArchiveError>(file@),
            Err(e) => spec_restore(entry@) == Err::<FileView, ArchiveError>(e),
        },
{
    match decompress(entry.data_compression, entry.data.as_slice()) {
        Ok(plain) => restored_from(entry, plain),
        Err(e) => Err(e),
    }
}

/// Decides what to do with one entry. If its destination exists the entry
/// is skipped with `DestinationExists`, which is not fatal, and its
/// payload is not looked at. Otherwise the file to write is returned.
pub fn unpack_entry(entry: &FileHeaderRepr, destination_exists: bool) -> (r: Result<
    FileRecord,
    ArchiveError,
>)
    ensures
        match r {
            Ok(file) => spec_unpack_entry(entry@, destination_exists) == Ok::<
                FileView,
                ArchiveError,
            >(file@),
            Err(e) => spec_unpack_entry(entry@, destination_exists) == Err::<
                FileView,
                ArchiveError,
            >(e),
        },
{
    if destination_exists {
        Err(ArchiveError::DestinationExists)
    } else {
        restore(entry)
    }
}

/// A destination after unpacking, and the names that were skipped.
pub ghost struct Unpacked {
    pub files: Seq<FileView>,
    pub skipped: Seq<Seq<char>>,
}

/// What unpacking `entries` into a destination that holds `dir` gives.
/// The entries are taken in order. One whose name is already there, from
/// before or from an earlier entry, is skipped and its name reported; any
/// other is restored and added. The first entry that cannot be restored
/// fails the whole run.
pub open spec fn spec_unpack(dir: Seq<FileView>, entries: Seq<EntryView>) -> Result<
    Unpacked,
    ArchiveError,
>
    decreases entries.len(),
{
    if entries.len() == 0 {
        Ok(Unpacked { files: dir, skipped: Seq::empty() })
    } else {
        match spec_unpack_entry(entries[0], has_name(dir, entries[0].name)) {
            Ok(file) => spec_unpack(dir.push(file), entries.drop_first()),
            Err(e) => if e == ArchiveError::DestinationExists {
                match spec_unpack(dir, entries.drop_first()) {
                    Ok(u) => Ok(
                        Unpacked { files: u.files, skipped: seq![entries[0].name] + u.skipped },
                    ),
                    Err(e) => Err(e),
                }
            } else {
                Err(e)
            },
        }
    }
}

/// What unpacking the archive in `s` into a destination that holds `dir`
/// gives.
pub open spec fn spec_unpack_archive(dir: Seq<FileView>, s: Seq<u8>) -> Result<
    Unpacked,
    ArchiveError,
> {
    match spec_read_archive(s, false) {
        Err(e) => Err(e),
        Ok(archive) => spec_unpack(dir, archive.entries),
    }
}

/// The names of a vector of texts.
pub open spec fn text_views(names: Seq<String>) -> Seq<Seq<char>> {
    names.map_values(|n: String| n@)
}

/// Unpacks an archive into a destination held in memory, and returns the
/// names of the entries it skipped. Files that are there already are left
/// as they are. When the run fails, nothing is consumed and the
/// destination is as it was.
pub fn unpack(reader: &mut ByteReader<'_>, destination: &mut Vec<FileRecord>) -> (r: Result<
    Vec<String>,
    ArchiveError,
>)
    ensures
        match r {
            Ok(skipped) => spec_unpack_archive(
                file_views(old(destination)@),
                old(reader).remaining(),
            ) == Ok::<Unpacked, ArchiveError>(
                Unpacked { files: file_views(final(destination)@), skipped: text_views(skipped@) },
            ) && final(reader).remaining() == old(reader).remaining().skip(
                spec_archive_len(old(reader).remaining()),
            ),
            Err(e) => spec_unpack_archive(file_views(old(destination)@), old(reader).remaining())
                == Err::<Unpacked, ArchiveError>(e) && final(reader).remaining() == old(
                reader,
            ).remaining() && final(destination)@ == old(destination)@,
        },
{
    let start = *reader;
    let archive = match read_entries(reader, false) {
        Ok(archive) => archive,
        Err(e) => {
            return Err(e);
        },
    };
    let ghost dir0 = file_views(old(destination)@);
    let ghost entries = archive@.entries;
    let ghost seen = Seq::<Seq<char>>::empty();
    let start_len = destination.len();
    let mut skipped: Vec<String> = Vec::new();
    let mut i: usize = 0;
    proof {
        assert(entries.skip(0) =~= entries);
        assert(text_views(skipped@) =~= seen);
        lemma_skipped_empty(spec_unpack(dir0, entries));
    }
    while i < archive.entries.len()
        invariant
            i <= archive.entries.len(),
            entries == archive@.entries,
            entries.len() == archive.entries.len(),
            dir0 == file_views(old(destination)@),
            start_len == old(destination)@.len(),
            start_len <= destination@.len(),
            destination@.take(start_len as int) == old(destination)@,
            seen == text_views(skipped@),
            start.remaining() == old(reader).remaining(),
            spec_read_archive(old(reader).remaining(), false) == Ok::<ArchiveView, ArchiveError>(
                archive@,
            ),
            reader.remaining() == old(reader).remaining().skip(
                spec_archive_len(old(reader).remaining()),
            ),
            spec_unpack(dir0, entries) == with_skipped(
                seen,
                spec_unpack(file_views(destination@), entries.skip(i as int)),
            ),
        decreases archive.entries.len() - i,
    {
        let entry = &archive.entries[i];
        let ghost dir = file_views(destination@);
        let ghost rest = entries.skip(i as int);
        proof {
            assert(rest[0] == entry@);
            assert(rest.drop_first() =~= entries.skip(i + 1));
        }
        let exists = contains_name(destination, &entry.name);
        match unpack_entry(entry, exists) {
            Ok(file) => {
                proof {
                    lemma_file_views_push(destination@, file);
                }
                destination.push(file);
                assert(destination@.take(start_len as int) =~= old(destination)@);
            },
            Err(e) => {
                if e.is_fatal() {
                    destination.truncate(start_len);
                    *reader = start;
                    proof {
                        assert(destination@ =~= old(destination)@);
                    }
                    return Err(e);
                }
                proof {
                    lemma_text_views_push(skipped@, entry.name);
                    lemma_with_skipped_assoc(
                        seen,
                        seq![entry@.name],
                        spec_unpack(dir, entries.skip(i + 1)),
                    );
                    seen = seen + seq![entry@.name];
                }
                skipped.push(entry.name.clone());
            },
        }
        i = i + 1;
    }
    proof {
        assert(entries.skip(i as int) =~= Seq::<EntryView>::empty());
        assert(seen + Seq::<Seq<char>>::empty() =~= seen);
    }
    Ok(skipped)
}

/// An outcome with further skipped names put in front of its own.
pub open spec fn with_skipped(first: Seq<Seq<char>>, rest: Result<Unpacked, ArchiveError>) -> Result<
    Unpacked,
    ArchiveError,
> {
    match rest {
        Ok(u) => Ok(Unpacked { files: u.files, skipped: first + u.skipped }),
        Err(e) => Err(e),
    }
}

proof fn lemma_skipped_empty(r: Result<Unpacked, ArchiveError>)
    ensures
        with_skipped(Seq::empty(), r) == r,
{
    match r {
        Ok(u) => {
            assert(Seq::<Seq<char>>::empty() + u.skipped =~= u.skipped);
        },
        Err(_) => {},
    }
}

proof fn lemma_with_skipped_assoc(
    a: Seq<Seq<char>>,
    b: Seq<Seq<char>>,
    r: Result<Unpacked, ArchiveError>,
)
    ensures
        with_skipped(a, with_skipped(b, r)) == with_skipped(a + b, r),
{
    match r {
        Ok(u) => {
            assert(a + (b + u.skipped) =~= (a + b) + u.skipped);
        },
        Err(_) => {},
    }
}

proof fn lemma_file_views_push(v: Seq<FileRecord>, f: FileRecord)
    ensures
        file_views(v.push(f)) == file_views(v).push(f@),
{
    assert(file_views(v.push(f)) =~= file_views(v).push(f@));
}

proof fn lemma_text_views_push(v: Seq<String>, s: String)
    ensures
        text_views(v.push(s)) == text_views(v) + seq![s@],
{
    assert(text_views(v.push(s)) =~= text_views(v) + seq![s@]);
}

} // verus!
