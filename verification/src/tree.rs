//! What a walk visits, said by recursion on the tree, and the proof that
//! the worklist visits the same.
//!
//! A walk below a directory visits its entries in the order of the
//! listing. A directory among them is visited before anything in it,
//! and only when it is entered is anything in it visited: then all of
//! it is, before the entry that follows the directory.

use vstd::prelude::*;
use crate::path::PartView;
use crate::walk::{spec_children, DirEntryView, NodeView};

verus! {

/// A file, or a directory with its entries in the order of its listing.
pub ghost enum Tree {
    File,
    Dir(Seq<Named>),
}

/// An entry of a directory: its name and what it is.
pub ghost struct Named {
    pub name: Seq<u8>,
    pub tree: Tree,
}

/// The node that an entry of the directory at `dir` stands for.
pub open spec fn node_of(dir: Seq<PartView>, e: Named) -> NodeView {
    NodeView { path: dir.push(PartView::Normal(e.name)), is_dir: e.tree is Dir }
}

/// The listing of a directory with the given entries.
pub open spec fn listing_of(entries: Seq<Named>) -> Seq<DirEntryView> {
    entries.map_values(|e: Named| DirEntryView { name: e.name, is_dir: e.tree is Dir })
}

/// The nodes that a walk below the directory at `dir` visits, in order,
/// where `enter` says which directories are entered.
pub open spec fn spec_walk(
    dir: Seq<PartView>,
    entries: Seq<Named>,
    enter: spec_fn(NodeView) -> bool,
) -> Seq<NodeView>
    decreases entries,
{
    if entries.len() == 0 {
        Seq::empty()
    } else {
        let node = node_of(dir, entries[0]);
        let below = match entries[0].tree {
            Tree::Dir(inner) => if enter(node) {
                spec_walk(node.path, inner, enter)
            } else {
                Seq::empty()
            },
            Tree::File => Seq::empty(),
        };
        seq![node] + below + spec_walk(dir, entries.drop_first(), enter)
    }
}

/// A node on the worklist, with what the file system holds there.
pub ghost struct Work {
    pub node: NodeView,
    pub tree: Tree,
}

/// The entries of the directory at `dir` as they are put on the
/// worklist.
pub open spec fn attach(dir: Seq<PartView>, entries: Seq<Named>) -> Seq<Work> {
    entries.map_values(|e: Named| Work { node: node_of(dir, e), tree: e.tree })
}

/// How many nodes a tree has.
pub open spec fn tree_weight(t: Tree) -> nat
    decreases t,
{
    match t {
        Tree::File => 1,
        Tree::Dir(entries) => 1 + entries_weight(entries),
    }
}

/// How many nodes the trees of some entries have together.
pub open spec fn entries_weight(entries: Seq<Named>) -> nat
    decreases entries,
{
    if entries.len() == 0 {
        0
    } else {
        tree_weight(entries[0].tree) + entries_weight(entries.drop_first())
    }
}

/// How many nodes the trees on a worklist have together.
pub open spec fn work_weight(pending: Seq<Work>) -> nat
    decreases pending.len(),
{
    if pending.len() == 0 {
        0
    } else {
        tree_weight(pending[0].tree) + work_weight(pending.drop_first())
    }
}

/// Putting the entries of a directory in front of a worklist adds the
/// nodes of their trees.
pub proof fn lemma_attach_weight(dir: Seq<PartView>, entries: Seq<Named>, rest: Seq<Work>)
    ensures
        work_weight(attach(dir, entries) + rest) == entries_weight(entries) + work_weight(rest),
    decreases entries.len(),
{
    let all = attach(dir, entries) + rest;
    if entries.len() == 0 {
        assert(all =~= rest);
    } else {
        assert(all[0].tree == entries[0].tree);
        assert(all.drop_first() =~= attach(dir, entries.drop_first()) + rest);
        lemma_attach_weight(dir, entries.drop_first(), rest);
    }
}

/// The nodes that the worklist gives out, in order: the first node is
/// taken out; if it is a directory to enter, its entries are put in
/// front of the others; and so on until nothing is left.
pub open spec fn spec_run(pending: Seq<Work>, enter: spec_fn(NodeView) -> bool) -> Seq<NodeView>
    decreases work_weight(pending),
{
    if pending.len() == 0 {
        Seq::empty()
    } else {
        let first = pending[0];
        let rest = pending.drop_first();
        match first.tree {
            Tree::Dir(entries) => if enter(first.node) {
                proof {
                    lemma_attach_weight(first.node.path, entries, rest);
                }
                seq![first.node] + spec_run(attach(first.node.path, entries) + rest, enter)
            } else {
                seq![first.node] + spec_run(rest, enter)
            },
            Tree::File => seq![first.node] + spec_run(rest, enter),
        }
    }
}

/// What is put on the worklist for a directory is what the walker makes
/// of its listing.
pub proof fn lemma_attach_children(dir: Seq<PartView>, entries: Seq<Named>)
    ensures
        attach(dir, entries).map_values(|w: Work| w.node) == spec_children(
            dir,
            listing_of(entries),
        ),
{
    assert(attach(dir, entries).map_values(|w: Work| w.node) =~= spec_children(
        dir,
        listing_of(entries),
    ));
}

/// The worklist walks the tree. With the entries of a directory in
/// front of it, the worklist first gives out exactly what the walk below
/// that directory visits, in the same order, and then what it would have
/// given out without them.
pub proof fn lemma_worklist_walks(
    dir: Seq<PartView>,
    entries: Seq<Named>,
    rest: Seq<Work>,
    enter: spec_fn(NodeView) -> bool,
)
    ensures
        spec_run(attach(dir, entries) + rest, enter) == spec_walk(dir, entries, enter) + spec_run(
            rest,
            enter,
        ),
    decreases entries,
{
    let all = attach(dir, entries) + rest;
    if entries.len() == 0 {
        assert(all =~= rest);
        assert(Seq::<NodeView>::empty() + spec_run(rest, enter) =~= spec_run(rest, enter));
    } else {
        let tail = entries.drop_first();
        let node = node_of(dir, entries[0]);
        let after = attach(dir, tail) + rest;
        assert(all[0] == (Work { node, tree: entries[0].tree }));
        assert(all.drop_first() =~= after);
        lemma_worklist_walks(dir, tail, rest, enter);
        match entries[0].tree {
            Tree::Dir(inner) => {
                if enter(node) {
                    lemma_worklist_walks(node.path, inner, after, enter);
                    assert(seq![node] + (spec_walk(node.path, inner, enter) + (spec_walk(
                        dir,
                        tail,
                        enter,
                    ) + spec_run(rest, enter))) =~= (seq![node] + spec_walk(node.path, inner, enter)
                        + spec_walk(dir, tail, enter)) + spec_run(rest, enter));
                } else {
                    assert(seq![node] + (spec_walk(dir, tail, enter) + spec_run(rest, enter)) =~= (
                    seq![node] + Seq::<NodeView>::empty() + spec_walk(dir, tail, enter)) + spec_run(
                        rest,
                        enter,
                    ));
                }
            },
            Tree::File => {
                assert(seq![node] + (spec_walk(dir, tail, enter) + spec_run(rest, enter)) =~= (
                seq![node] + Seq::<NodeView>::empty() + spec_walk(dir, tail, enter)) + spec_run(
                    rest,
                    enter,
                ));
            },
        }
    }
}

/// A worklist that starts with the entries of a directory gives out
/// what the walk below that directory visits, in the same order.
pub proof fn lemma_worklist_is_walk(
    dir: Seq<PartView>,
    entries: Seq<Named>,
    enter: spec_fn(NodeView) -> bool,
)
    ensures
        spec_run(attach(dir, entries), enter) == spec_walk(dir, entries, enter),
{
    lemma_worklist_walks(dir, entries, Seq::empty(), enter);
    assert(attach(dir, entries) + Seq::<Work>::empty() =~= attach(dir, entries));
    assert(spec_walk(dir, entries, enter) + Seq::<NodeView>::empty() =~= spec_walk(
        dir,
        entries,
        enter,
    ));
}

} // verus!
