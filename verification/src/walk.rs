//! Walking a directory tree without recursion.
//!
//! The walker is a worklist of the nodes still to visit. It never
//! touches the file system: whoever drives it lists a directory and
//! hands the entries over, takes the nodes out one by one, and decides
//! for each directory whether to enter it. A directory that is not
//! entered is pruned: nothing below it is ever visited.

use vstd::prelude::*;
use crate::naming::copy_path;
use crate::path::{path_view, PartView, PathPart};

verus! {

/// One entry of a directory, as the file system reports it.
#[derive(Debug)]
pub struct DirEntry {
    /// The name of the entry within its directory.
    pub name: Vec<u8>,
    /// Whether the entry is a directory.
    pub is_dir: bool,
}

/// What a directory entry is, apart from how memory holds it.
pub ghost struct DirEntryView {
    pub name: Seq<u8>,
    pub is_dir: bool,
}

impl View for DirEntry {
    type V = DirEntryView;

    open spec fn view(&self) -> DirEntryView {
        DirEntryView { name: self.name@, is_dir: self.is_dir }
    }
}

/// The entries of a listing, each as what it is.
pub open spec fn entry_list_view(entries: Seq<DirEntry>) -> Seq<DirEntryView> {
    entries.map_values(|e: DirEntry| e@)
}

/// A node of the tree: where it is, and whether it is a directory.
#[derive(Debug)]
pub struct Node {
    /// The path of the node.
    pub path: Vec<PathPart>,
    /// Whether the node is a directory.
    pub is_dir: bool,
}

/// What a node is, apart from how memory holds it.
pub ghost struct NodeView {
    pub path: Seq<PartView>,
    pub is_dir: bool,
}

impl View for Node {
    type V = NodeView;

    open spec fn view(&self) -> NodeView {
        NodeView { path: path_view(self.path@), is_dir: self.is_dir }
    }
}

/// The nodes that the entries of a directory stand for, in the order of
/// the listing: each at the directory's path with its name added.
pub open spec fn spec_children(dir: Seq<PartView>, entries: Seq<DirEntryView>) -> Seq<NodeView> {
    entries.map_values(
        |e: DirEntryView| NodeView { path: dir.push(PartView::Normal(e.name)), is_dir: e.is_dir },
    )
}

/// The worklist of a walk.
#[derive(Debug)]
pub struct Walker {
    stack: Vec<Node>,
}

/// The nodes of a stack from the top down.
pub open spec fn top_down(stack: Seq<Node>) -> Seq<NodeView> {
    Seq::new(stack.len(), |i: int| stack[stack.len() - 1 - i]@)
}

impl Walker {
    /// The nodes still to visit, the next one first.
    pub closed spec fn pending(self) -> Seq<NodeView> {
        top_down(self.stack@)
    }

    /// A walker with nothing to visit.
    pub fn new() -> (walker: Walker)
        ensures
            walker.pending() == Seq::<NodeView>::empty(),
    {
        let walker = Walker { stack: Vec::new() };
        assert(walker.pending() =~= Seq::<NodeView>::empty());
        walker
    }

    /// Puts one node in front of all the others.
    pub fn push(&mut self, node: Node)
        ensures
            final(self).pending() == seq![node@] + old(self).pending(),
    {
        self.stack.push(node);
        assert(self.pending() =~= seq![node@] + old(self).pending());
    }

    /// Enters a directory: its entries are visited next, in the order of
    /// the listing, before anything that was waiting.
    pub fn enter(&mut self, dir: &Vec<PathPart>, entries: Vec<DirEntry>)
        ensures
            final(self).pending() == spec_children(path_view(dir@), entry_list_view(entries@))
                + old(self).pending(),
    {
        let ghost all = entry_list_view(entries@);
        let ghost children = spec_children(path_view(dir@), all);
        let mut entries = entries;
        proof {
            assert(children.skip(entries.len() as int) + old(self).pending() =~= old(
                self,
            ).pending());
        }
        while entries.len() > 0
            invariant
                entries@.len() <= all.len(),
                entry_list_view(entries@) == all.take(entries@.len() as int),
                children == spec_children(path_view(dir@), all),
                self.pending() == children.skip(entries@.len() as int) + old(self).pending(),
            decreases entries.len(),
        {
            let ghost before = entries@;
            let ghost n = entries@.len() as int;
            let entry = entries.pop().unwrap();
            proof {
                assert(entry@ == entry_list_view(before)[n - 1]);
                assert(entry@ == all[n - 1]);
                assert(entry_list_view(entries@) =~= all.take(n - 1));
            }
            let is_dir = entry.is_dir;
            let mut path = copy_path(dir);
            let ghost copied = path@;
            path.push(PathPart::Normal(entry.name));
            let node = Node { path, is_dir };
            proof {
                assert(path_view(node.path@) =~= path_view(copied).push(
                    PartView::Normal(entry.name@),
                ));
                assert(node@ == children[n - 1]);
            }
            let ghost waiting = self.pending();
            self.push(node);
            proof {
                assert(seq![children[n - 1]] + children.skip(n) =~= children.skip(n - 1));
                assert(self.pending() =~= children.skip(n - 1) + old(self).pending());
            }
        }
        proof {
            assert(children.skip(0) =~= children);
        }
    }

    /// Takes out the node to visit next, if any is left.
    pub fn next(&mut self) -> (r: Option<Node>)
        ensures
            match r {
                Some(node) => old(self).pending().len() > 0 && node@ == old(self).pending()[0]
                    && final(self).pending() == old(self).pending().drop_first(),
                None => old(self).pending().len() == 0 && final(self).pending() == old(
                    self,
                ).pending(),
            },
    {
        let r = self.stack.pop();
        proof {
            if r is Some {
                assert(self.pending() =~= old(self).pending().drop_first());
            }
        }
        r
    }

    /// Whether nothing is left to visit.
    pub fn is_done(&self) -> (done: bool)
        ensures
            done == (self.pending().len() == 0),
    {
        self.stack.len() == 0
    }
}

} // verus!
