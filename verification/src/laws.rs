//! What holds of packing and unpacking together.

use vstd::prelude::*;
use crate::archive::{archive_wire, entries_wf, lemma_archive_roundtrip};
use crate::compression::DataCompression;
use crate::entry::EntryView;
use crate::error::ArchiveError;
use crate::file::{has_name, FileView};
use crate::pack::{all_packed_as, packed_as};
use crate::unpack::{spec_restore, spec_unpack, spec_unpack_archive, Unpacked};

verus! {

/// Whether no two of the files have the same name.
pub open spec fn distinct_names(files: Seq<FileView>) -> bool {
    forall|i: int, j: int|
        0 <= i < j < files.len() ==> (#[trigger] files[i]).name != (#[trigger] files[j]).name
}

/// An entry that packing wrote for a file restores to that file: the
/// same name, contents, permission bits and timestamps.
pub proof fn lemma_packed_restores(e: EntryView, f: FileView, method: DataCompression)
    requires
        packed_as(e, f, method),
    ensures
        spec_restore(e) == Ok::<FileView, ArchiveError>(f),
{
}

/// Unpacking entries that packing wrote for files with distinct names,
/// none of which the destination holds, adds exactly those files, in
/// order, and skips nothing.
proof fn lemma_unpack_packed(
    dir: Seq<FileView>,
    files: Seq<FileView>,
    entries: Seq<EntryView>,
    method: DataCompression,
)
    requires
        all_packed_as(entries, files, method),
        distinct_names(files),
        forall|i: int| 0 <= i < files.len() ==> !has_name(dir, (#[trigger] files[i]).name),
    ensures
        spec_unpack(dir, entries) == Ok::<Unpacked, ArchiveError>(
            Unpacked { files: dir + files, skipped: Seq::empty() },
        ),
    decreases entries.len(),
{
    if entries.len() == 0 {
        assert(dir + files =~= dir);
    } else {
        let e = entries[0];
        let f = files[0];
        assert(packed_as(e, f, method));
        lemma_packed_restores(e, f, method);
        let next = dir.push(f);
        let files_tail = files.drop_first();
        let entries_tail = entries.drop_first();
        assert forall|i: int| 0 <= i < entries_tail.len() implies packed_as(
            #[trigger] entries_tail[i],
            files_tail[i],
            method,
        ) by {
            assert(packed_as(entries[i + 1], files[i + 1], method));
        }
        assert(distinct_names(files_tail)) by {
            assert forall|i: int, j: int| 0 <= i < j < files_tail.len() implies (
            #[trigger] files_tail[i]).name != (#[trigger] files_tail[j]).name by {
                assert(files[i + 1].name != files[j + 1].name);
            }
        }
        assert forall|i: int| 0 <= i < files_tail.len() implies !has_name(
            next,
            (#[trigger] files_tail[i]).name,
        ) by {
            let name = files_tail[i].name;
            assert(files[0].name != files[i + 1].name);
            assert(!has_name(dir, files[i + 1].name));
            if has_name(next, name) {
                let k = choose|k: int| 0 <= k < next.len() && (#[trigger] next[k]).name == name;
                if k < dir.len() {
                    assert(dir[k].name == name);
                }
            }
        }
        lemma_unpack_packed(next, files_tail, entries_tail, method);
        assert(next + files_tail =~= dir + files);
    }
}

/// Round trip. Files with distinct names, packed under either method
/// and unpacked into an empty destination, come back as they were: the
/// same names in the same order, the same contents (empty ones too), the
/// same permission bits and the same timestamps, and nothing is skipped.
/// Bytes that follow the archive in the stream change nothing.
pub proof fn lemma_pack_unpack_roundtrip(
    files: Seq<FileView>,
    entries: Seq<EntryView>,
    method: DataCompression,
    rest: Seq<u8>,
)
    requires
        all_packed_as(entries, files, method),
        files.len() <= u32::MAX,
        distinct_names(files),
    ensures
        spec_unpack_archive(Seq::empty(), archive_wire(entries) + rest) == Ok::<
            Unpacked,
            ArchiveError,
        >(Unpacked { files, skipped: Seq::empty() }),
{
    assert(entries_wf(entries)) by {
        assert forall|i: int| 0 <= i < entries.len() implies (#[trigger] entries[i]).wf() by {
            assert(packed_as(entries[i], files[i], method));
        }
    }
    lemma_archive_roundtrip(entries, rest);
    assert forall|i: int| 0 <= i < files.len() implies !has_name(
        Seq::<FileView>::empty(),
        (#[trigger] files[i]).name,
    ) by {}
    lemma_unpack_packed(Seq::empty(), files, entries, method);
    assert(Seq::<FileView>::empty() + files =~= files);
}

/// Unpacking looks at an entry only through its name and the file it
/// restores to.
pub proof fn lemma_unpack_by_restore(dir: Seq<FileView>, a: Seq<EntryView>, b: Seq<EntryView>)
    requires
        a.len() == b.len(),
        forall|i: int|
            0 <= i < a.len() ==> (#[trigger] a[i]).name == b[i].name && spec_restore(a[i])
                == spec_restore(b[i]),
    ensures
        spec_unpack(dir, a) == spec_unpack(dir, b),
    decreases a.len(),
{
    if a.len() > 0 {
        assert(a[0].name == b[0].name && spec_restore(a[0]) == spec_restore(b[0]));
        let a_tail = a.drop_first();
        let b_tail = b.drop_first();
        assert forall|i: int| 0 <= i < a_tail.len() implies (#[trigger] a_tail[i]).name
            == b_tail[i].name && spec_restore(a_tail[i]) == spec_restore(b_tail[i]) by {
            assert(a[i + 1].name == b[i + 1].name);
        }
        lemma_unpack_by_restore(dir, a_tail, b_tail);
        match spec_restore(a[0]) {
            Ok(f) => {
                lemma_unpack_by_restore(dir.push(f), a_tail, b_tail);
            },
            Err(_) => {},
        }
    }
}

/// Compression is transparent. The same files packed without
/// compression and packed with Brotli unpack to the same result, byte
/// for byte, into any destination.
pub proof fn lemma_compression_transparent(
    dir: Seq<FileView>,
    files: Seq<FileView>,
    plain: Seq<EntryView>,
    compressed: Seq<EntryView>,
)
    requires
        all_packed_as(plain, files, DataCompression::Uncompressed),
        all_packed_as(compressed, files, DataCompression::Brotli),
        files.len() <= u32::MAX,
    ensures
        spec_unpack_archive(dir, archive_wire(plain)) == spec_unpack_archive(
            dir,
            archive_wire(compressed),
        ),
{
    assert(entries_wf(plain)) by {
        assert forall|i: int| 0 <= i < plain.len() implies (#[trigger] plain[i]).wf() by {
            assert(packed_as(plain[i], files[i], DataCompression::Uncompressed));
        }
    }
    assert(entries_wf(compressed)) by {
        assert forall|i: int| 0 <= i < compressed.len() implies (
        #[trigger] compressed[i]).wf() by {
            assert(packed_as(compressed[i], files[i], DataCompression::Brotli));
        }
    }
    lemma_archive_roundtrip(plain, Seq::empty());
    lemma_archive_roundtrip(compressed, Seq::empty());
    assert(archive_wire(plain) + Seq::<u8>::empty() =~= archive_wire(plain));
    assert(archive_wire(compressed) + Seq::<u8>::empty() =~= archive_wire(compressed));
    assert forall|i: int| 0 <= i < plain.len() implies (#[trigger] plain[i]).name
        == compressed[i].name && spec_restore(plain[i]) == spec_restore(compressed[i]) by {
        lemma_packed_restores(plain[i], files[i], DataCompression::Uncompressed);
        lemma_packed_restores(compressed[i], files[i], DataCompression::Brotli);
    }
    lemma_unpack_by_restore(dir, plain, compressed);
}

/// No overwrite. When unpacking into a destination succeeds:
/// the files that were there are all still there, unchanged and in
/// place; no file is added under a name that was there; every entry
/// whose name was there is reported as skipped; and every other entry,
/// unless an earlier entry of the same archive had its name, is restored
/// and added.
pub proof fn lemma_unpack_never_overwrites(dir: Seq<FileView>, entries: Seq<EntryView>)
    requires
        spec_unpack(dir, entries) is Ok,
    ensures
        ({
            let u = spec_unpack(dir, entries)->Ok_0;
            &&& dir.len() <= u.files.len()
            &&& u.files.take(dir.len() as int) == dir
            &&& forall|k: int|
                dir.len() <= k < u.files.len() ==> !has_name(dir, (#[trigger] u.files[k]).name)
            &&& forall|i: int|
                0 <= i < entries.len() && has_name(dir, (#[trigger] entries[i]).name)
                    ==> u.skipped.contains(entries[i].name)
            &&& forall|i: int|
                0 <= i < entries.len() && !has_name(dir, (#[trigger] entries[i]).name) && (forall|
                    j: int,
                | 0 <= j < i ==> (#[trigger] entries[j]).name != entries[i].name) ==> spec_restore(
                    entries[i],
                ) is Ok && exists|k: int|
                    dir.len() <= k < u.files.len() && #[trigger] u.files[k] == spec_restore(
                        entries[i],
                    )->Ok_0
        }),
    decreases entries.len(),
{
    let u = spec_unpack(dir, entries)->Ok_0;
    if entries.len() == 0 {
        assert(u.files.take(dir.len() as int) =~= dir);
    } else {
        let e = entries[0];
        let tail = entries.drop_first();
        if has_name(dir, e.name) {
            lemma_unpack_never_overwrites(dir, tail);
            let v = spec_unpack(dir, tail)->Ok_0;
            assert(u.files == v.files);
            assert(u.skipped == seq![e.name] + v.skipped);
            assert forall|i: int|
                0 <= i < entries.len() && has_name(
                    dir,
                    (#[trigger] entries[i]).name,
                ) implies u.skipped.contains(entries[i].name) by {
                if i == 0 {
                    assert(u.skipped[0] == e.name);
                } else {
                    assert(tail[i - 1] == entries[i]);
                    assert(v.skipped.contains(entries[i].name));
                    let w = choose|w: int| 0 <= w < v.skipped.len() && v.skipped[w] == entries[i].name;
                    assert(u.skipped[w + 1] == entries[i].name);
                }
            }
            assert forall|i: int|
                0 <= i < entries.len() && !has_name(dir, (#[trigger] entries[i]).name) && (forall|
                    j: int,
                |
                    0 <= j < i ==> (#[trigger] entries[j]).name
                        != entries[i].name) implies spec_restore(entries[i]) is Ok && exists|k: int|
                dir.len() <= k < u.files.len() && #[trigger] u.files[k] == spec_restore(
                    entries[i],
                )->Ok_0 by {
                assert(i > 0);
                assert(tail[i - 1] == entries[i]);
                assert forall|j: int| 0 <= j < i - 1 implies (#[trigger] tail[j]).name != tail[i
                    - 1].name by {
                    assert(entries[j + 1].name != entries[i].name);
                }
            }
        } else {
            let f = spec_restore(e)->Ok_0;
            let next = dir.push(f);
            lemma_unpack_never_overwrites(next, tail);
            assert(u == spec_unpack(next, tail)->Ok_0);
            assert(u.files.take(dir.len() as int) =~= u.files.take(next.len() as int).take(
                dir.len() as int,
            ));
            assert(next.take(dir.len() as int) =~= dir);
            assert(u.files[dir.len() as int] == u.files.take(next.len() as int)[dir.len() as int]);
            assert(u.files[dir.len() as int] == f);
            assert forall|k: int| dir.len() <= k < u.files.len() implies !has_name(
                dir,
                (#[trigger] u.files[k]).name,
            ) by {
                let name = u.files[k].name;
                if k > dir.len() {
                    assert(!has_name(next, name));
                    if has_name(dir, name) {
                        let w = choose|w: int| 0 <= w < dir.len() && (#[trigger] dir[w]).name == name;
                        assert(next[w].name == name);
                    }
                }
            }
            assert forall|i: int|
                0 <= i < entries.len() && has_name(
                    dir,
                    (#[trigger] entries[i]).name,
                ) implies u.skipped.contains(entries[i].name) by {
                let name = entries[i].name;
                let w = choose|w: int| 0 <= w < dir.len() && (#[trigger] dir[w]).name == name;
                assert(next[w].name == name);
                assert(i > 0);
                assert(tail[i - 1] == entries[i]);
            }
            assert forall|i: int|
                0 <= i < entries.len() && !has_name(dir, (#[trigger] entries[i]).name) && (forall|
                    j: int,
                |
                    0 <= j < i ==> (#[trigger] entries[j]).name
                        != entries[i].name) implies spec_restore(entries[i]) is Ok && exists|k: int|
                dir.len() <= k < u.files.len() && #[trigger] u.files[k] == spec_restore(
                    entries[i],
                )->Ok_0 by {
                if i == 0 {
                    assert(u.files[dir.len() as int] == f);
                } else {
                    let name = entries[i].name;
                    assert(tail[i - 1] == entries[i]);
                    assert(entries[0].name != name);
                    if has_name(next, name) {
                        let w = choose|w: int|
                            0 <= w < next.len() && (#[trigger] next[w]).name == name;
                        if w < dir.len() {
                            assert(dir[w].name == name);
                        }
                    }
                    assert forall|j: int| 0 <= j < i - 1 implies (#[trigger] tail[j]).name
                        != tail[i - 1].name by {
                        assert(entries[j + 1].name != entries[i].name);
                    }
                    let k = choose|k: int|
                        next.len() <= k < u.files.len() && #[trigger] u.files[k] == spec_restore(
                            tail[i - 1],
                        )->Ok_0;
                    assert(dir.len() <= k < u.files.len() && u.files[k] == spec_restore(
                        entries[i],
                    )->Ok_0);
                }
            }
        }
    }
}

} // verus!
