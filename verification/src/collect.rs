//! Finding the files to pack.
//!
//! The collector decides; its caller touches the file system. The caller
//! starts with `Answer::Start` and then answers every request with what
//! the file system says, until the collector has `Finished`:
//!
//! - `Probe(path)`: is the path a directory? One is asked per root.
//! - `List(path)`: the entries of the directory, in the order reported.
//! - `Resolve(path)`: the canonical path of a file that will be packed.
//!
//! Roots are taken in the order given. A root that is a directory is
//! listed; what is found below it is visited depth first, in the order
//! of the listings. Unless dotfiles are included, a root that is a
//! dotfile is left out, and so is every dotfile met on the way: a hidden
//! directory is not entered, so nothing below it is visited.
//!
//! The collector knows no links. What is at a path, a file or a
//! directory, is what the caller says is there; whether a link is
//! followed is decided by how the caller looks.

use vstd::prelude::*;
use crate::error::ArchiveError;
use crate::naming::{
    archive_name, base_len, copy_path, is_hidden, part_hidden, spec_archive_name, spec_base_len,
    spec_clean, spec_clean_dir, spec_is_hidden,
};
use crate::path::{path_view, PartView, PathPart};
use crate::select::{candidate_views, Candidate, CandidateView};
use crate::walk::{entry_list_view, spec_children, DirEntry, DirEntryView, Node, NodeView, Walker};

verus! {

/// What the collector asks of its caller.
#[derive(Debug)]
pub enum Request {
    /// Tell whether the root at this path is a directory.
    Probe(Vec<PathPart>),
    /// List the directory at this path.
    List(Vec<PathPart>),
    /// Give the canonical path of the file at this path.
    Resolve(Vec<PathPart>),
    /// Nothing more: every root has been walked.
    Finished,
}

/// What a request is, apart from how memory holds it.
pub ghost enum RequestView {
    Probe(Seq<PartView>),
    List(Seq<PartView>),
    Resolve(Seq<PartView>),
    Finished,
}

impl View for Request {
    type V = RequestView;

    open spec fn view(&self) -> RequestView {
        match self {
            Request::Probe(p) => RequestView::Probe(path_view(p@)),
            Request::List(p) => RequestView::List(path_view(p@)),
            Request::Resolve(p) => RequestView::Resolve(path_view(p@)),
            Request::Finished => RequestView::Finished,
        }
    }
}

/// What the caller tells the collector.
#[derive(Debug)]
pub enum Answer {
    /// Nothing was asked yet.
    Start,
    /// Whether the probed root is a directory.
    IsDir(bool),
    /// The entries of the listed directory, in the order reported.
    Entries(Vec<DirEntry>),
    /// The canonical path of the file to resolve.
    Canonical(Vec<PathPart>),
    /// The file system refused.
    Failed,
}

/// What an answer is, apart from how memory holds it.
pub ghost enum AnswerView {
    Start,
    IsDir(bool),
    Entries(Seq<DirEntryView>),
    Canonical(Seq<PartView>),
    Failed,
}

impl View for Answer {
    type V = AnswerView;

    open spec fn view(&self) -> AnswerView {
        match self {
            Answer::Start => AnswerView::Start,
            Answer::IsDir(d) => AnswerView::IsDir(*d),
            Answer::Entries(es) => AnswerView::Entries(entry_list_view(es@)),
            Answer::Canonical(c) => AnswerView::Canonical(path_view(c@)),
            Answer::Failed => AnswerView::Failed,
        }
    }
}

/// The request that is waiting for its answer.
pub ghost enum Waiting {
    Nothing,
    Probe(Seq<PartView>),
    List(Seq<PartView>),
    Resolve(Seq<PartView>, Seq<char>),
}

/// The state of a collector.
pub ghost struct CollectorView {
    /// Whether dotfiles are packed too.
    pub include_dotfiles: bool,
    /// The roots not yet begun.
    pub roots: Seq<Seq<PartView>>,
    /// How many leading components the names under the present root
    /// leave out.
    pub base: nat,
    /// The nodes under the present root still to visit, the next first.
    pub pending: Seq<NodeView>,
    /// The request that is waiting for its answer.
    pub waiting: Waiting,
    /// The files found so far, in the order found.
    pub files: Seq<CandidateView>,
}

/// The state before anything was asked.
pub open spec fn spec_initial(roots: Seq<Seq<PartView>>, include_dotfiles: bool) -> CollectorView {
    CollectorView {
        include_dotfiles,
        roots,
        base: 0,
        pending: Seq::empty(),
        waiting: Waiting::Nothing,
        files: Seq::empty(),
    }
}

/// Whether a path is left out because it is a dotfile.
pub open spec fn spec_left_out(include_dotfiles: bool, path: Seq<PartView>) -> bool {
    !include_dotfiles && spec_is_hidden(path)
}

/// Goes on to the next request: passes over what is left out, asks to
/// list the next directory or to resolve the next file, begins the next
/// root when the present one is done, and finishes after the last.
pub open spec fn spec_advance(s: CollectorView) -> (CollectorView, Result<RequestView, ArchiveError>)
    decreases s.pending.len() + s.roots.len(),
{
    if s.pending.len() > 0 {
        let node = s.pending[0];
        let rest = CollectorView {
            pending: s.pending.drop_first(),
            waiting: Waiting::Nothing,
            ..s
        };
        if spec_left_out(s.include_dotfiles, node.path) {
            spec_advance(rest)
        } else if node.is_dir {
            (
                CollectorView { waiting: Waiting::List(node.path), ..rest },
                Ok(RequestView::List(node.path)),
            )
        } else {
            match spec_archive_name(node.path, s.base) {
                Ok(name) => (
                    CollectorView { waiting: Waiting::Resolve(node.path, name), ..rest },
                    Ok(RequestView::Resolve(node.path)),
                ),
                Err(e) => (rest, Err(e)),
            }
        }
    } else if s.roots.len() > 0 {
        let root = s.roots[0];
        let rest = CollectorView { roots: s.roots.drop_first(), waiting: Waiting::Nothing, ..s };
        if spec_left_out(s.include_dotfiles, root) {
            spec_advance(rest)
        } else {
            (
                CollectorView { base: spec_base_len(root), waiting: Waiting::Probe(root), ..rest },
                Ok(RequestView::Probe(root)),
            )
        }
    } else {
        (CollectorView { waiting: Waiting::Nothing, ..s }, Ok(RequestView::Finished))
    }
}

/// What the collector does with an answer. A root that is a directory
/// is listed without more ado; a root that is a file is visited as a
/// file. The entries of a listing are visited next, in order. A resolved
/// file is kept with its name and its canonical path. An answer to a
/// question that was not asked, and a failure, end the run with
/// `IoError` and change nothing.
pub open spec fn spec_step(s: CollectorView, answer: AnswerView) -> (
    CollectorView,
    Result<RequestView, ArchiveError>,
) {
    match (s.waiting, answer) {
        (Waiting::Nothing, AnswerView::Start) => spec_advance(s),
        (Waiting::Probe(root), AnswerView::IsDir(is_dir)) => if is_dir {
            (CollectorView { waiting: Waiting::List(root), ..s }, Ok(RequestView::List(root)))
        } else {
            spec_advance(
                CollectorView {
                    pending: seq![NodeView { path: root, is_dir: false }] + s.pending,
                    waiting: Waiting::Nothing,
                    ..s
                },
            )
        },
        (Waiting::List(dir), AnswerView::Entries(entries)) => spec_advance(
            CollectorView {
                pending: spec_children(dir, entries) + s.pending,
                waiting: Waiting::Nothing,
                ..s
            },
        ),
        (Waiting::Resolve(path, name), AnswerView::Canonical(identity)) => spec_advance(
            CollectorView {
                files: s.files.push(CandidateView { name, identity }),
                waiting: Waiting::Nothing,
                ..s
            },
        ),
        _ => (s, Err(ArchiveError::IoError)),
    }
}

/// The path that a request is about, if it is about one.
pub open spec fn request_path(r: Result<RequestView, ArchiveError>) -> Option<Seq<PartView>> {
    match r {
        Ok(RequestView::Probe(p)) => Some(p),
        Ok(RequestView::List(p)) => Some(p),
        Ok(RequestView::Resolve(p)) => Some(p),
        _ => None,
    }
}

/// Whether, with dotfiles left out, the collector has kept clear of
/// them so far: the request that is waiting is about a path without a
/// dotfile from the root on, and every node still to visit lies in a
/// directory with such a path.
pub open spec fn spec_tidy(s: CollectorView) -> bool {
    !s.include_dotfiles ==> {
        &&& forall|i: int|
            0 <= i < s.pending.len() ==> spec_clean_dir((#[trigger] s.pending[i]).path, s.base)
        &&& match s.waiting {
            Waiting::Nothing => true,
            Waiting::Probe(p) => spec_clean(p, s.base),
            Waiting::List(p) => spec_clean(p, s.base),
            Waiting::Resolve(p, _) => spec_clean(p, s.base),
        }
    }
}

/// Going on keeps clear of dotfiles.
proof fn lemma_tidy_advance(s: CollectorView)
    requires
        spec_tidy(s),
        s.waiting is Nothing,
    ensures
        spec_advance(s).0.include_dotfiles == s.include_dotfiles,
        spec_tidy(spec_advance(s).0),
        !s.include_dotfiles ==> match request_path(spec_advance(s).1) {
            Some(p) => spec_clean(p, spec_advance(s).0.base),
            None => true,
        },
    decreases s.pending.len() + s.roots.len(),
{
    if s.pending.len() > 0 {
        let node = s.pending[0];
        let rest = CollectorView {
            pending: s.pending.drop_first(),
            waiting: Waiting::Nothing,
            ..s
        };
        if !s.include_dotfiles {
            assert forall|i: int| 0 <= i < rest.pending.len() implies spec_clean_dir(
                (#[trigger] rest.pending[i]).path,
                rest.base,
            ) by {
                assert(rest.pending[i] == s.pending[i + 1]);
            }
        }
        if spec_left_out(s.include_dotfiles, node.path) {
            lemma_tidy_advance(rest);
        } else if !s.include_dotfiles {
            assert(spec_clean_dir(node.path, s.base));
            assert(spec_clean(node.path, s.base));
        }
    } else if s.roots.len() > 0 {
        let root = s.roots[0];
        let rest = CollectorView { roots: s.roots.drop_first(), waiting: Waiting::Nothing, ..s };
        if spec_left_out(s.include_dotfiles, root) {
            lemma_tidy_advance(rest);
        }
    }
}

/// The collector starts clear of dotfiles.
pub proof fn lemma_tidy_initial(roots: Seq<Seq<PartView>>, include_dotfiles: bool)
    ensures
        spec_tidy(spec_initial(roots, include_dotfiles)),
{
}

/// Dotfiles stay out. With dotfiles left out, a collector that has kept
/// clear of them keeps clear of them whatever it is answered: it never
/// asks to probe, list or resolve a path that has a dotfile among its
/// components from the root's own name on. So a dotfile is never kept,
/// a hidden directory is never entered, and nothing below one is ever
/// visited.
pub proof fn lemma_tidy_step(s: CollectorView, answer: AnswerView)
    requires
        spec_tidy(s),
    ensures
        spec_step(s, answer).0.include_dotfiles == s.include_dotfiles,
        spec_tidy(spec_step(s, answer).0),
        !s.include_dotfiles ==> match request_path(spec_step(s, answer).1) {
            Some(p) => spec_clean(p, spec_step(s, answer).0.base),
            None => true,
        },
{
    match (s.waiting, answer) {
        (Waiting::Nothing, AnswerView::Start) => {
            lemma_tidy_advance(s);
        },
        (Waiting::Probe(root), AnswerView::IsDir(is_dir)) => {
            if !is_dir {
                let next = CollectorView {
                    pending: seq![NodeView { path: root, is_dir: false }] + s.pending,
                    waiting: Waiting::Nothing,
                    ..s
                };
                if !s.include_dotfiles {
                    assert forall|i: int| 0 <= i < next.pending.len() implies spec_clean_dir(
                        (#[trigger] next.pending[i]).path,
                        next.base,
                    ) by {
                        if i > 0 {
                            assert(next.pending[i] == s.pending[i - 1]);
                        }
                    }
                }
                lemma_tidy_advance(next);
            }
        },
        (Waiting::List(dir), AnswerView::Entries(entries)) => {
            let children = spec_children(dir, entries);
            let next = CollectorView {
                pending: children + s.pending,
                waiting: Waiting::Nothing,
                ..s
            };
            if !s.include_dotfiles {
                assert forall|i: int| 0 <= i < next.pending.len() implies spec_clean_dir(
                    (#[trigger] next.pending[i]).path,
                    next.base,
                ) by {
                    if i < children.len() {
                        assert(next.pending[i] == children[i]);
                        let path = children[i].path;
                        assert forall|k: int| next.base <= k < path.len() - 1 implies !part_hidden(
                            #[trigger] path[k],
                        ) by {
                            assert(path[k] == dir[k]);
                        }
                    } else {
                        assert(next.pending[i] == s.pending[i - children.len()]);
                    }
                }
            }
            lemma_tidy_advance(next);
        },
        (Waiting::Resolve(path, name), AnswerView::Canonical(identity)) => {
            lemma_tidy_advance(
                CollectorView {
                    files: s.files.push(CandidateView { name, identity }),
                    waiting: Waiting::Nothing,
                    ..s
                },
            );
        },
        _ => {},
    }
}

/// Which kind of request is waiting.
#[derive(Debug, Clone, Copy, PartialEq, Eq, Structural)]
enum Asked {
    Nothing,
    Probe,
    List,
    Resolve,
}

/// Finds the files to pack, one request at a time.
#[derive(Debug)]
pub struct Collector {
    include_dotfiles: bool,
    roots: Vec<Vec<PathPart>>,
    next_root: usize,
    base: usize,
    walker: Walker,
    asked: Asked,
    target: Vec<PathPart>,
    name: String,
    files: Vec<Candidate>,
}

/// The paths of a vector, each as what it is.
pub open spec fn root_views(roots: Seq<Vec<PathPart>>) -> Seq<Seq<PartView>> {
    roots.map_values(|r: Vec<PathPart>| path_view(r@))
}

impl View for Collector {
    type V = CollectorView;

    closed spec fn view(&self) -> CollectorView {
        CollectorView {
            include_dotfiles: self.include_dotfiles,
            roots: root_views(self.roots@).skip(self.next_root as int),
            base: self.base as nat,
            pending: self.walker.pending(),
            waiting: match self.asked {
                Asked::Nothing => Waiting::Nothing,
                Asked::Probe => Waiting::Probe(path_view(self.target@)),
                Asked::List => Waiting::List(path_view(self.target@)),
                Asked::Resolve => Waiting::Resolve(path_view(self.target@), self.name@),
            },
            files: candidate_views(self.files@),
        }
    }
}

impl Collector {
    /// Whether the collector is in a state that `new` and `step` lead to.
    pub closed spec fn wf(&self) -> bool {
        &&& self.next_root <= self.roots@.len()
        &&& forall|i: int|
            0 <= i < self.walker.pending().len() ==> self.base <= (
            #[trigger] self.walker.pending()[i]).path.len()
        &&& (self.asked == Asked::Probe || self.asked == Asked::List) ==> self.base
            <= self.target@.len()
    }

    /// Begins with the roots given, in their order. Without any root
    /// there is nothing to pack: `NoInputPaths`.
    pub fn new(roots: Vec<Vec<PathPart>>, include_dotfiles: bool) -> (r: Result<
        Collector,
        ArchiveError,
    >)
        ensures
            match r {
                Ok(collector) => roots@.len() > 0 && collector.wf() && collector@ == spec_initial(
                    root_views(roots@),
                    include_dotfiles,
                ),
                Err(e) => roots@.len() == 0 && e == ArchiveError::NoInputPaths,
            },
    {
        if roots.len() == 0 {
            return Err(ArchiveError::NoInputPaths);
        }
        let collector = Collector {
            include_dotfiles,
            roots,
            next_root: 0,
            base: 0,
            walker: Walker::new(),
            asked: Asked::Nothing,
            target: Vec::new(),
            name: String::new(),
            files: Vec::new(),
        };
        proof {
            assert(collector@.roots =~= root_views(roots@));
            assert(collector@.files =~= Seq::<CandidateView>::empty());
        }
        Ok(collector)
    }

    /// Takes the answer to the last request and gives the next request.
    pub fn step(&mut self, answer: Answer) -> (r: Result<Request, ArchiveError>)
        requires
            old(self).wf(),
        ensures
            final(self).wf(),
            match r {
                Ok(request) => spec_step(old(self)@, answer@) == (
                    final(self)@,
                    Ok::<RequestView, ArchiveError>(request@),
                ),
                Err(e) => spec_step(old(self)@, answer@) == (
                    final(self)@,
                    Err::<RequestView, ArchiveError>(e),
                ),
            },
    {
        match (self.asked, answer) {
            (Asked::Nothing, Answer::Start) => self.advance(),
            (Asked::Probe, Answer::IsDir(is_dir)) => {
                if is_dir {
                    self.asked = Asked::List;
                    Ok(Request::List(copy_path(&self.target)))
                } else {
                    let node = Node { path: copy_path(&self.target), is_dir: false };
                    assert(path_view(node.path@).len() == path_view(self.target@).len());
                    self.asked = Asked::Nothing;
                    self.push_node(node);
                    self.advance()
                }
            },
            (Asked::List, Answer::Entries(entries)) => {
                self.asked = Asked::Nothing;
                self.enter_target(entries);
                self.advance()
            },
            (Asked::Resolve, Answer::Canonical(identity)) => {
                let mut name = String::new();
                self.take_name(&mut name);
                self.keep(Candidate { name, identity });
                self.advance()
            },
            _ => Err(ArchiveError::IoError),
        }
    }

    /// The files found, in the order found.
    pub fn finish(self) -> (files: Vec<Candidate>)
        ensures
            candidate_views(files@) == self@.files,
    {
        self.files
    }

    fn push_node(&mut self, node: Node)
        requires
            old(self).wf(),
            old(self).base <= node.path@.len(),
            old(self).asked == Asked::Nothing,
        ensures
            final(self).wf(),
            final(self)@ == (CollectorView {
                pending: seq![node@] + old(self)@.pending,
                ..old(self)@
            }),
            final(self).asked == Asked::Nothing,
    {
        let ghost before = self.walker.pending();
        self.walker.push(node);
        proof {
            assert forall|i: int| 0 <= i < self.walker.pending().len() implies self.base <= (
            #[trigger] self.walker.pending()[i]).path.len() by {
                if i > 0 {
                    assert(self.walker.pending()[i] == before[i - 1]);
                }
            }
        }
    }

    fn enter_target(&mut self, entries: Vec<DirEntry>)
        requires
            old(self).wf(),
            old(self).base <= old(self).target@.len(),
            old(self).asked == Asked::Nothing,
        ensures
            final(self).wf(),
            final(self)@ == (CollectorView {
                pending: spec_children(path_view(old(self).target@), entry_list_view(entries@))
                    + old(self)@.pending,
                ..old(self)@
            }),
            final(self).asked == Asked::Nothing,
    {
        let ghost before = self.walker.pending();
        let ghost children = spec_children(path_view(self.target@), entry_list_view(entries@));
        self.walker.enter(&self.target, entries);
        proof {
            assert forall|i: int| 0 <= i < self.walker.pending().len() implies self.base <= (
            #[trigger] self.walker.pending()[i]).path.len() by {
                if i < children.len() {
                    assert(self.walker.pending()[i] == children[i]);
                } else {
                    assert(self.walker.pending()[i] == before[i - children.len()]);
                }
            }
        }
    }

    fn take_name(&mut self, name: &mut String)
        requires
            old(self).wf(),
            old(self).asked == Asked::Resolve,
        ensures
            final(self).wf(),
            final(name)@ == old(self).name@,
            final(self).asked == Asked::Nothing,
            final(self)@ == (CollectorView { waiting: Waiting::Nothing, ..old(self)@ }),
    {
        self.asked = Asked::Nothing;
        std::mem::swap(name, &mut self.name);
    }

    fn keep(&mut self, file: Candidate)
        requires
            old(self).wf(),
            old(self).asked == Asked::Nothing,
        ensures
            final(self).wf(),
            final(self)@ == (CollectorView {
                files: old(self)@.files.push(file@),
                ..old(self)@
            }),
            final(self).asked == Asked::Nothing,
    {
        self.files.push(file);
        assert(candidate_views(self.files@) =~= candidate_views(old(self).files@).push(file@));
    }

    fn advance(&mut self) -> (r: Result<Request, ArchiveError>)
        requires
            old(self).wf(),
            old(self).asked == Asked::Nothing,
        ensures
            final(self).wf(),
            match r {
                Ok(request) => spec_advance(old(self)@) == (
                    final(self)@,
                    Ok::<RequestView, ArchiveError>(request@),
                ),
                Err(e) => spec_advance(old(self)@) == (
                    final(self)@,
                    Err::<RequestView, ArchiveError>(e),
                ),
            },
    {
        loop
            invariant
                self.wf(),
                self.asked == Asked::Nothing,
                spec_advance(self@) == spec_advance(old(self)@),
            decreases self@.pending.len() + self@.roots.len(),
        {
            let ghost before = self@;
            match self.walker.next() {
                Some(node) => {
                    proof {
                        assert(node@ == before.pending[0]);
                    }
                    if !self.include_dotfiles && is_hidden(&node.path) {
                        continue ;
                    }
                    if node.is_dir {
                        self.target = copy_path(&node.path);
                        self.asked = Asked::List;
                        return Ok(Request::List(node.path));
                    }
                    match archive_name(&node.path, self.base) {
                        Ok(name) => {
                            self.name = name;
                            self.target = copy_path(&node.path);
                            self.asked = Asked::Resolve;
                            return Ok(Request::Resolve(node.path));
                        },
                        Err(e) => {
                            return Err(e);
                        },
                    }
                },
                None => {
                    if self.next_root >= self.roots.len() {
                        proof {
                            assert(before.roots.len() == 0);
                        }
                        return Ok(Request::Finished);
                    }
                    let root = copy_path(&self.roots[self.next_root]);
                    proof {
                        assert(before.roots[0] == path_view(root@));
                        assert(root_views(self.roots@).skip(self.next_root + 1)
                            =~= before.roots.drop_first());
                    }
                    self.next_root = self.next_root + 1;
                    if !self.include_dotfiles && is_hidden(&root) {
                        continue ;
                    }
                    self.base = base_len(&root);
                    self.target = copy_path(&root);
                    self.asked = Asked::Probe;
                    return Ok(Request::Probe(root));
                },
            }
        }
    }
}

} // verus!
