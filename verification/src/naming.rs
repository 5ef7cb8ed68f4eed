//! The rules of packing that look at paths: which paths are hidden, and
//! the name a file gets in the archive.

use vstd::prelude::*;
use vstd::slice::slice_to_vec;
use vstd::utf8::{decode_utf8, encode_utf8_decode_utf8, valid_utf8};
use crate::error::ArchiveError;
use crate::path::{path_view, PartView, PathPart};
use crate::text::string_from_utf8;
use crate::wire::put_bytes;

verus! {

/// Whether a path names a dotfile: its last component is a name that
/// begins with a period.
pub open spec fn spec_is_hidden(path: Seq<PartView>) -> bool {
    path.len() > 0 && part_hidden(path.last())
}

/// How many leading components of a root are left out of the names of
/// the files under it: all but its last, so that the names begin with
/// the root's own last component. Of the empty path, and of a path of
/// one component, nothing is left out.
pub open spec fn spec_base_len(root: Seq<PartView>) -> nat {
    if root.len() == 0 {
        0
    } else {
        (root.len() - 1) as nat
    }
}

/// Whether a component is a name that begins with a period.
pub open spec fn part_hidden(p: PartView) -> bool {
    &&& p matches PartView::Normal(name)
    &&& name.len() > 0
    &&& name[0] == 0x2e
}

/// Whether no component of a path, from the `base`-th on, is a dotfile.
pub open spec fn spec_clean(path: Seq<PartView>, base: nat) -> bool {
    forall|i: int| base <= i < path.len() ==> !part_hidden(#[trigger] path[i])
}

/// Whether no component of a path but the last, from the `base`-th on,
/// is a dotfile: the path lies in a directory without one.
pub open spec fn spec_clean_dir(path: Seq<PartView>, base: nat) -> bool {
    forall|i: int| base <= i < path.len() - 1 ==> !part_hidden(#[trigger] path[i])
}

/// A component as it is written.
pub open spec fn part_text(p: PartView) -> Seq<u8> {
    match p {
        PartView::Root => seq![0x2fu8],
        PartView::Current => seq![0x2eu8],
        PartView::Parent => seq![0x2eu8, 0x2eu8],
        PartView::Normal(name) => name,
    }
}

/// A path as it is written: the components with a slash between them,
/// and none after the root.
pub open spec fn path_text(path: Seq<PartView>) -> Seq<u8>
    decreases path.len(),
{
    if path.len() == 0 {
        Seq::empty()
    } else if path.len() == 1 {
        part_text(path[0])
    } else if path.drop_last().last() is Root {
        path_text(path.drop_last()) + part_text(path.last())
    } else {
        path_text(path.drop_last()) + seq![0x2fu8] + part_text(path.last())
    }
}

/// The name in the archive of the file at `path`, found under a root
/// with `base` leading components to leave out: the rest of the path as
/// it is written, which has to be UTF-8.
pub open spec fn spec_archive_name(path: Seq<PartView>, base: nat) -> Result<
    Seq<char>,
    ArchiveError,
> {
    let text = path_text(path.skip(base as int));
    if valid_utf8(text) {
        Ok(decode_utf8(text))
    } else {
        Err(ArchiveError::InvalidNameEncoding)
    }
}

/// Whether a path names a dotfile.
pub fn is_hidden(path: &Vec<PathPart>) -> (hidden: bool)
    ensures
        hidden == spec_is_hidden(path_view(path@)),
{
    if path.len() == 0 {
        return false;
    }
    assert(path_view(path@).last() == path@[path.len() - 1]@);
    match &path[path.len() - 1] {
        PathPart::Normal(name) => name.len() > 0 && name[0] == 0x2e,
        _ => false,
    }
}

/// How many leading components of a root are left out of the names of
/// the files under it.
pub fn base_len(root: &Vec<PathPart>) -> (base: usize)
    ensures
        base == spec_base_len(path_view(root@)),
        base <= root.len(),
{
    if root.len() == 0 {
        0
    } else {
        root.len() - 1
    }
}

/// Appends a component, as it is written, to `out`.
fn put_part(out: &mut Vec<u8>, part: &PathPart)
    ensures
        final(out)@ == old(out)@ + part_text(part@),
{
    match part {
        PathPart::Root => {
            out.push(0x2f);
            assert(out@ =~= old(out)@ + part_text(part@));
        },
        PathPart::Current => {
            out.push(0x2e);
            assert(out@ =~= old(out)@ + part_text(part@));
        },
        PathPart::Parent => {
            out.push(0x2e);
            out.push(0x2e);
            assert(out@ =~= old(out)@ + part_text(part@));
        },
        PathPart::Normal(name) => {
            put_bytes(out, name.as_slice());
        },
    }
}

/// Gives the name in the archive of the file at `path`, leaving out the
/// first `base` components. A name that is not UTF-8 is refused.
pub fn archive_name(path: &Vec<PathPart>, base: usize) -> (r: Result<String, ArchiveError>)
    requires
        base <= path.len(),
    ensures
        match r {
            Ok(name) => spec_archive_name(path_view(path@), base as nat) == Ok::<
                Seq<char>,
                ArchiveError,
            >(name@),
            Err(e) => spec_archive_name(path_view(path@), base as nat) == Err::<
                Seq<char>,
                ArchiveError,
            >(e),
        },
{
    let ghost rest = path_view(path@).skip(base as int);
    let mut text: Vec<u8> = Vec::new();
    let mut i: usize = base;
    proof {
        assert(rest.take(0) =~= Seq::<PartView>::empty());
    }
    while i < path.len()
        invariant
            base <= i <= path.len(),
            rest == path_view(path@).skip(base as int),
            text@ == path_text(rest.take(i - base)),
        decreases path.len() - i,
    {
        let ghost sofar = rest.take(i - base);
        let ghost next = rest.take(i - base + 1);
        proof {
            assert(next.drop_last() =~= sofar);
            assert(next.last() == path@[i as int]@);
            if i > base {
                assert(sofar.last() == path@[i - 1]@);
            }
        }
        if i > base {
            match &path[i - 1] {
                PathPart::Root => {},
                _ => {
                    text.push(0x2f);
                    assert(text@ =~= path_text(sofar) + seq![0x2fu8]);
                },
            }
        }
        put_part(&mut text, &path[i]);
        i = i + 1;
    }
    proof {
        assert(rest.take(i - base) =~= rest);
    }
    match string_from_utf8(text) {
        Some(name) => {
            proof {
                encode_utf8_decode_utf8(name@);
            }
            Ok(name)
        },
        None => Err(ArchiveError::InvalidNameEncoding),
    }
}

/// A copy of a path.
pub fn copy_path(path: &Vec<PathPart>) -> (copy: Vec<PathPart>)
    ensures
        path_view(copy@) == path_view(path@),
{
    let mut copy: Vec<PathPart> = Vec::new();
    let mut i: usize = 0;
    while i < path.len()
        invariant
            i <= path.len(),
            path_view(copy@) == path_view(path@).take(i as int),
        decreases path.len() - i,
    {
        let part = match &path[i] {
            PathPart::Root => PathPart::Root,
            PathPart::Current => PathPart::Current,
            PathPart::Parent => PathPart::Parent,
            PathPart::Normal(name) => PathPart::Normal(slice_to_vec(name.as_slice())),
        };
        assert(part@ == path@[i as int]@);
        let ghost before = copy@;
        copy.push(part);
        i = i + 1;
        assert(path_view(copy@) =~= path_view(before).push(part@));
        assert(path_view(path@).take(i as int) =~= path_view(path@).take(i - 1).push(
            path@[i - 1]@,
        ));
    }
    assert(path_view(path@).take(i as int) =~= path_view(path@));
    copy
}

} // verus!
