//! What the collector finds in a tree.
//!
//! The files below a directory are said by recursion on the tree; the
//! collector finds them through a worklist and a conversation with its
//! caller. Here a caller that answers truthfully is played through, and
//! the two are proved to agree.

use vstd::prelude::*;
use crate::collect::{
    spec_advance, spec_left_out, spec_step, AnswerView, CollectorView, RequestView, Waiting,
};
use crate::error::ArchiveError;
use crate::naming::{spec_archive_name, spec_base_len};
use crate::path::PartView;
use crate::select::CandidateView;
use crate::tree::{
    attach, lemma_attach_children, lemma_attach_weight, listing_of, node_of, work_weight, Named,
    Tree, Work,
};
use crate::walk::{spec_children, NodeView};

verus! {

/// The nodes of a worklist.
pub open spec fn nodes(work: Seq<Work>) -> Seq<NodeView> {
    work.map_values(|w: Work| w.node)
}

/// Whether every node of a worklist is a directory exactly when the
/// file system has a directory there.
pub open spec fn faithful(work: Seq<Work>) -> bool {
    forall|i: int| 0 <= i < work.len() ==> (#[trigger] work[i]).node.is_dir == (work[i].tree is Dir)
}

/// One after the other, or the first error.
pub open spec fn both(
    first: Result<Seq<CandidateView>, ArchiveError>,
    second: Result<Seq<CandidateView>, ArchiveError>,
) -> Result<Seq<CandidateView>, ArchiveError> {
    match first {
        Err(e) => Err(e),
        Ok(a) => match second {
            Err(e) => Err(e),
            Ok(b) => Ok(a + b),
        },
    }
}

/// The file at `path` as it is kept: under its name in the archive, with
/// its canonical path.
pub open spec fn spec_kept(
    path: Seq<PartView>,
    base: nat,
    canon: spec_fn(Seq<PartView>) -> Seq<PartView>,
) -> Result<Seq<CandidateView>, ArchiveError> {
    match spec_archive_name(path, base) {
        Ok(name) => Ok(seq![CandidateView { name, identity: canon(path) }]),
        Err(e) => Err(e),
    }
}

/// The files to pack below the directory at `dir`, in the order of the
/// walk: every file that is not left out, in every directory that is not
/// left out. The first name that is not UTF-8 is an error.
pub open spec fn spec_found(
    dir: Seq<PartView>,
    entries: Seq<Named>,
    include_dotfiles: bool,
    base: nat,
    canon: spec_fn(Seq<PartView>) -> Seq<PartView>,
) -> Result<Seq<CandidateView>, ArchiveError>
    decreases entries,
{
    if entries.len() == 0 {
        Ok(Seq::empty())
    } else {
        let node = node_of(dir, entries[0]);
        let first = if spec_left_out(include_dotfiles, node.path) {
            Ok(Seq::empty())
        } else {
            match entries[0].tree {
                Tree::Dir(inner) => spec_found(node.path, inner, include_dotfiles, base, canon),
                Tree::File => spec_kept(node.path, base, canon),
            }
        };
        both(first, spec_found(dir, entries.drop_first(), include_dotfiles, base, canon))
    }
}

/// The state of a collector when a caller that answers truthfully has
/// gone through the worklist `work`, which holds the collector's pending
/// nodes with what the file system has there.
pub open spec fn spec_exhaust(
    s: CollectorView,
    work: Seq<Work>,
    canon: spec_fn(Seq<PartView>) -> Seq<PartView>,
) -> Result<CollectorView, ArchiveError>
    decreases work_weight(work),
{
    if work.len() == 0 {
        Ok(s)
    } else {
        let first = work[0];
        let rest = work.drop_first();
        let path = first.node.path;
        if spec_left_out(s.include_dotfiles, path) {
            spec_exhaust(CollectorView { pending: nodes(rest), ..s }, rest, canon)
        } else {
            match first.tree {
                Tree::Dir(entries) => {
                    proof {
                        lemma_attach_weight(path, entries, rest);
                    }
                    spec_exhaust(
                        CollectorView { pending: nodes(attach(path, entries) + rest), ..s },
                        attach(path, entries) + rest,
                        canon,
                    )
                },
                Tree::File => match spec_archive_name(path, s.base) {
                    Ok(name) => spec_exhaust(
                        CollectorView {
                            pending: nodes(rest),
                            files: s.files.push(CandidateView { name, identity: canon(path) }),
                            ..s
                        },
                        rest,
                        canon,
                    ),
                    Err(e) => Err(e),
                },
            }
        }
    }
}

/// Each case of `spec_exhaust` is one exchange with the collector. With
/// a node at the front of the worklist, going on either passes over it
/// because it is left out; or asks to list it, and the answer puts its
/// entries in front; or asks to resolve it, and the answer keeps it; or
/// fails on its name.
pub proof fn lemma_exchange(
    s: CollectorView,
    work: Seq<Work>,
    canon: spec_fn(Seq<PartView>) -> Seq<PartView>,
)
    requires
        s.waiting is Nothing,
        s.pending == nodes(work),
        faithful(work),
        work.len() > 0,
    ensures
        ({
            let first = work[0];
            let rest = work.drop_first();
            let path = first.node.path;
            let after = CollectorView { pending: nodes(rest), ..s };
            if spec_left_out(s.include_dotfiles, path) {
                spec_advance(s) == spec_advance(after)
            } else {
                match first.tree {
                    Tree::Dir(entries) => {
                        let asked = CollectorView { waiting: Waiting::List(path), ..after };
                        &&& spec_advance(s) == (asked, Ok::<RequestView, ArchiveError>(RequestView::List(path)))
                        &&& spec_step(asked, AnswerView::Entries(listing_of(entries)))
                            == spec_advance(
                            CollectorView { pending: nodes(attach(path, entries) + rest), ..s },
                        )
                    },
                    Tree::File => match spec_archive_name(path, s.base) {
                        Ok(name) => {
                            let asked = CollectorView {
                                waiting: Waiting::Resolve(path, name),
                                ..after
                            };
                            &&& spec_advance(s) == (
                                asked,
                                Ok::<RequestView, ArchiveError>(RequestView::Resolve(path)),
                            )
                            &&& spec_step(asked, AnswerView::Canonical(canon(path)))
                                == spec_advance(
                                CollectorView {
                                    files: s.files.push(
                                        CandidateView { name, identity: canon(path) },
                                    ),
                                    ..after
                                },
                            )
                        },
                        Err(e) => spec_advance(s) == (after, Err::<RequestView, ArchiveError>(e)),
                    },
                }
            }
        }),
{
    let first = work[0];
    let rest = work.drop_first();
    let path = first.node.path;
    assert(s.pending[0] == first.node);
    assert(s.pending.drop_first() =~= nodes(rest));
    match first.tree {
        Tree::Dir(entries) => {
            lemma_attach_children(path, entries);
            assert(nodes(attach(path, entries) + rest) =~= spec_children(
                path,
                listing_of(entries),
            ) + nodes(rest));
            assert(first.node.is_dir);
        },
        Tree::File => {
            assert(!first.node.is_dir);
        },
    }
}

/// The collector finds what is to be found. Going through a worklist
/// that has the entries of a directory at its front keeps exactly the
/// files to pack below that directory, after those kept before and in
/// the order of the walk, and then goes on with the rest; or it fails
/// with the error of the first name that cannot be kept.
pub proof fn lemma_collects_found(
    s: CollectorView,
    dir: Seq<PartView>,
    entries: Seq<Named>,
    rest: Seq<Work>,
    canon: spec_fn(Seq<PartView>) -> Seq<PartView>,
)
    requires
        s.pending == nodes(attach(dir, entries) + rest),
    ensures
        spec_exhaust(s, attach(dir, entries) + rest, canon) == match spec_found(
            dir,
            entries,
            s.include_dotfiles,
            s.base,
            canon,
        ) {
            Ok(found) => spec_exhaust(
                CollectorView { pending: nodes(rest), files: s.files + found, ..s },
                rest,
                canon,
            ),
            Err(e) => Err(e),
        },
    decreases entries,
{
    let all = attach(dir, entries) + rest;
    if entries.len() == 0 {
        assert(all =~= rest);
        assert(s.files + Seq::<CandidateView>::empty() =~= s.files);
    } else {
        let tail = entries.drop_first();
        let node = node_of(dir, entries[0]);
        let after = attach(dir, tail) + rest;
        assert(all[0] == (Work { node, tree: entries[0].tree }));
        assert(all.drop_first() =~= after);
        let s1 = CollectorView { pending: nodes(after), ..s };
        if spec_left_out(s.include_dotfiles, node.path) {
            lemma_collects_found(s1, dir, tail, rest, canon);
            match spec_found(dir, tail, s.include_dotfiles, s.base, canon) {
                Ok(f2) => {
                    assert(Seq::<CandidateView>::empty() + f2 =~= f2);
                },
                Err(_) => {},
            }
        } else {
            match entries[0].tree {
                Tree::Dir(inner) => {
                    let s2 = CollectorView { pending: nodes(attach(node.path, inner) + after), ..s };
                    lemma_collects_found(s2, node.path, inner, after, canon);
                    match spec_found(node.path, inner, s.include_dotfiles, s.base, canon) {
                        Ok(f1) => {
                            let s3 = CollectorView { pending: nodes(after), files: s.files + f1, ..s };
                            lemma_collects_found(s3, dir, tail, rest, canon);
                            match spec_found(dir, tail, s.include_dotfiles, s.base, canon) {
                                Ok(f2) => {
                                    assert((s.files + f1) + f2 =~= s.files + (f1 + f2));
                                },
                                Err(_) => {},
                            }
                        },
                        Err(_) => {},
                    }
                },
                Tree::File => {
                    match spec_archive_name(node.path, s.base) {
                        Ok(name) => {
                            let kept = CandidateView { name, identity: canon(node.path) };
                            let s3 = CollectorView {
                                pending: nodes(after),
                                files: s.files.push(kept),
                                ..s
                            };
                            lemma_collects_found(s3, dir, tail, rest, canon);
                            match spec_found(dir, tail, s.include_dotfiles, s.base, canon) {
                                Ok(f2) => {
                                    assert(s.files.push(kept) + f2 =~= s.files + (seq![kept] + f2));
                                },
                                Err(_) => {},
                            }
                        },
                        Err(_) => {},
                    }
                },
            }
        }
    }
}

/// A root: its path, and what the file system has there.
pub ghost struct RootWorld {
    pub path: Seq<PartView>,
    pub tree: Tree,
}

/// The paths of some roots.
pub open spec fn root_paths(roots: Seq<RootWorld>) -> Seq<Seq<PartView>> {
    roots.map_values(|r: RootWorld| r.path)
}

/// The worklist with which a root is begun: the entries of a root that
/// is a directory, and a root that is a file by itself.
pub open spec fn root_work(root: RootWorld) -> Seq<Work> {
    match root.tree {
        Tree::Dir(entries) => attach(root.path, entries),
        Tree::File => seq![
            Work { node: NodeView { path: root.path, is_dir: false }, tree: Tree::File },
        ],
    }
}

/// The files to pack for one root: none if the root is left out; a root
/// that is a file, itself; and of a root that is a directory, what is to
/// be found below it. Their names leave out the root's parent.
pub open spec fn spec_found_root(
    root: RootWorld,
    include_dotfiles: bool,
    canon: spec_fn(Seq<PartView>) -> Seq<PartView>,
) -> Result<Seq<CandidateView>, ArchiveError> {
    if spec_left_out(include_dotfiles, root.path) {
        Ok(Seq::empty())
    } else {
        match root.tree {
            Tree::Dir(entries) => spec_found(
                root.path,
                entries,
                include_dotfiles,
                spec_base_len(root.path),
                canon,
            ),
            Tree::File => spec_kept(root.path, spec_base_len(root.path), canon),
        }
    }
}

/// The files to pack for the roots, root after root.
pub open spec fn spec_found_roots(
    roots: Seq<RootWorld>,
    include_dotfiles: bool,
    canon: spec_fn(Seq<PartView>) -> Seq<PartView>,
) -> Result<Seq<CandidateView>, ArchiveError>
    decreases roots.len(),
{
    if roots.len() == 0 {
        Ok(Seq::empty())
    } else {
        both(
            spec_found_root(roots[0], include_dotfiles, canon),
            spec_found_roots(roots.drop_first(), include_dotfiles, canon),
        )
    }
}

/// The state of the collector as a root is begun: the root is off the
/// list of roots, the names leave out its parent, and its worklist is
/// pending.
pub open spec fn spec_begun(s: CollectorView, root: RootWorld) -> CollectorView {
    CollectorView {
        roots: s.roots.drop_first(),
        base: spec_base_len(root.path),
        pending: nodes(root_work(root)),
        ..s
    }
}

/// The state of a collector when a caller that answers truthfully has
/// gone through all the roots.
pub open spec fn spec_exhaust_roots(
    s: CollectorView,
    roots: Seq<RootWorld>,
    canon: spec_fn(Seq<PartView>) -> Seq<PartView>,
) -> Result<CollectorView, ArchiveError>
    decreases roots.len(),
{
    if roots.len() == 0 {
        Ok(s)
    } else if spec_left_out(s.include_dotfiles, roots[0].path) {
        spec_exhaust_roots(
            CollectorView { roots: s.roots.drop_first(), ..s },
            roots.drop_first(),
            canon,
        )
    } else {
        match spec_exhaust(spec_begun(s, roots[0]), root_work(roots[0]), canon) {
            Ok(done) => spec_exhaust_roots(done, roots.drop_first(), canon),
            Err(e) => Err(e),
        }
    }
}

/// Beginning a root is two exchanges with the collector, or one. With
/// nothing pending, going on passes over a root that is left out, or
/// asks to probe it. If the answer is that it is a directory, the
/// collector asks to list it, and the answer to that makes its entries
/// pending. If the answer is that it is none, the root itself is
/// pending, as a file.
pub proof fn lemma_root_exchange(s: CollectorView, roots: Seq<RootWorld>)
    requires
        s.waiting is Nothing,
        s.pending.len() == 0,
        s.roots == root_paths(roots),
        roots.len() > 0,
    ensures
        ({
            let root = roots[0];
            let off = CollectorView { roots: s.roots.drop_first(), ..s };
            let probing = CollectorView {
                base: spec_base_len(root.path),
                waiting: Waiting::Probe(root.path),
                ..off
            };
            if spec_left_out(s.include_dotfiles, root.path) {
                spec_advance(s) == spec_advance(off)
            } else {
                &&& spec_advance(s) == (
                    probing,
                    Ok::<RequestView, ArchiveError>(RequestView::Probe(root.path)),
                )
                &&& match root.tree {
                    Tree::Dir(entries) => {
                        let listing = CollectorView { waiting: Waiting::List(root.path), ..probing };
                        &&& spec_step(probing, AnswerView::IsDir(true)) == (
                            listing,
                            Ok::<RequestView, ArchiveError>(RequestView::List(root.path)),
                        )
                        &&& spec_step(listing, AnswerView::Entries(listing_of(entries)))
                            == spec_advance(spec_begun(s, root))
                    },
                    Tree::File => spec_step(probing, AnswerView::IsDir(false)) == spec_advance(
                        spec_begun(s, root),
                    ),
                }
            }
        }),
{
    let root = roots[0];
    assert(s.roots[0] == root.path);
    assert(s.pending =~= Seq::<NodeView>::empty());
    match root.tree {
        Tree::Dir(entries) => {
            lemma_attach_children(root.path, entries);
            assert(spec_children(root.path, listing_of(entries)) + s.pending =~= nodes(
                root_work(root),
            ));
        },
        Tree::File => {
            assert(seq![NodeView { path: root.path, is_dir: false }] + s.pending =~= nodes(
                root_work(root),
            ));
        },
    }
}

/// What going through the worklist of a root keeps.
proof fn lemma_root_collected(
    s: CollectorView,
    root: RootWorld,
    canon: spec_fn(Seq<PartView>) -> Seq<PartView>,
)
    requires
        !spec_left_out(s.include_dotfiles, root.path),
    ensures
        spec_exhaust(spec_begun(s, root), root_work(root), canon) == match spec_found_root(
            root,
            s.include_dotfiles,
            canon,
        ) {
            Ok(found) => Ok::<CollectorView, ArchiveError>(
                CollectorView {
                    pending: Seq::empty(),
                    files: s.files + found,
                    ..spec_begun(s, root)
                },
            ),
            Err(e) => Err(e),
        },
{
    let begun = spec_begun(s, root);
    let none = Seq::<Work>::empty();
    assert(nodes(none) =~= Seq::<NodeView>::empty());
    match root.tree {
        Tree::Dir(entries) => {
            assert(attach(root.path, entries) + none =~= attach(root.path, entries));
            lemma_collects_found(begun, root.path, entries, none, canon);
            match spec_found(root.path, entries, s.include_dotfiles, begun.base, canon) {
                Ok(found) => {
                    let end = CollectorView {
                        pending: nodes(none),
                        files: begun.files + found,
                        ..begun
                    };
                    assert(spec_exhaust(end, none, canon) == Ok::<CollectorView, ArchiveError>(end));
                    assert(end == (CollectorView {
                        pending: Seq::empty(),
                        files: s.files + found,
                        ..begun
                    }));
                },
                Err(_) => {},
            }
        },
        Tree::File => {
            let work = root_work(root);
            assert(work.drop_first() =~= none);
            match spec_archive_name(root.path, begun.base) {
                Ok(name) => {
                    let kept = CandidateView { name, identity: canon(root.path) };
                    let end = CollectorView {
                        pending: nodes(none),
                        files: begun.files.push(kept),
                        ..begun
                    };
                    assert(spec_exhaust(end, none, canon) == Ok::<CollectorView, ArchiveError>(end));
                    assert(spec_exhaust(begun, work, canon) == spec_exhaust(end, none, canon));
                    assert(s.files.push(kept) =~= s.files + seq![kept]);
                },
                Err(_) => {},
            }
        },
    }
}

/// The collector finds what is to be found, root after root. A caller
/// that answers truthfully leaves the collector, when every root is
/// done, with exactly the files to pack: those kept before, then those
/// of each root that is not left out, in the order of the roots and of
/// the walk below each. Nothing is pending then and no root is left, so
/// that the collector has finished. If a name cannot be kept, the run
/// fails with the error of the first such name.
pub proof fn lemma_collects_roots(
    s: CollectorView,
    roots: Seq<RootWorld>,
    canon: spec_fn(Seq<PartView>) -> Seq<PartView>,
)
    requires
        s.waiting is Nothing,
        s.pending.len() == 0,
        s.roots == root_paths(roots),
    ensures
        match spec_found_roots(roots, s.include_dotfiles, canon) {
            Ok(found) => {
                &&& spec_exhaust_roots(s, roots, canon) matches Ok(end)
                &&& end.files == s.files + found
                &&& end.pending.len() == 0
                &&& end.roots.len() == 0
                &&& end.waiting is Nothing
                &&& spec_advance(end) == (end, Ok::<RequestView, ArchiveError>(RequestView::Finished))
            },
            Err(e) => spec_exhaust_roots(s, roots, canon) == Err::<CollectorView, ArchiveError>(e),
        },
    decreases roots.len(),
{
    if roots.len() == 0 {
        assert(s.files + Seq::<CandidateView>::empty() =~= s.files);
        assert(s == (CollectorView { waiting: Waiting::Nothing, ..s }));
    } else {
        let root = roots[0];
        let tail = roots.drop_first();
        assert(s.roots.drop_first() =~= root_paths(tail));
        if spec_left_out(s.include_dotfiles, root.path) {
            let off = CollectorView { roots: s.roots.drop_first(), ..s };
            lemma_collects_roots(off, tail, canon);
            match spec_found_roots(tail, s.include_dotfiles, canon) {
                Ok(f2) => {
                    assert(Seq::<CandidateView>::empty() + f2 =~= f2);
                },
                Err(_) => {},
            }
        } else {
            lemma_root_collected(s, root, canon);
            match spec_found_root(root, s.include_dotfiles, canon) {
                Ok(f1) => {
                    let done = CollectorView {
                        pending: Seq::empty(),
                        files: s.files + f1,
                        ..spec_begun(s, root)
                    };
                    lemma_collects_roots(done, tail, canon);
                    match spec_found_roots(tail, s.include_dotfiles, canon) {
                        Ok(f2) => {
                            assert((s.files + f1) + f2 =~= s.files + (f1 + f2));
                        },
                        Err(_) => {},
                    }
                },
                Err(_) => {},
            }
        }
    }
}

} // verus!
