//! Which of the files that were found go into the archive, and in which
//! order.
//!
//! Two paths given on the command line may lead to the same file. Every
//! file found is therefore kept with its canonical path, and of the
//! files with one canonical path only the one found first is archived.
//! The archive holds the files in the order of their canonical paths.

use vstd::prelude::*;
use crate::path::{lemma_path_order, order_paths, path_lt, path_view, Order, PartView, PathPart};

verus! {

/// A file that was found: the name it gets in the archive, and the
/// canonical path that tells which file it is.
#[derive(Debug, Clone)]
pub struct Candidate {
    /// The name the file gets in the archive.
    pub name: String,
    /// The canonical path of the file, component by component.
    pub identity: Vec<PathPart>,
}

/// What a candidate is, apart from how memory holds it.
pub ghost struct CandidateView {
    pub name: Seq<char>,
    pub identity: Seq<PartView>,
}

impl View for Candidate {
    type V = CandidateView;

    open spec fn view(&self) -> CandidateView {
        CandidateView { name: self.name@, identity: path_view(self.identity@) }
    }
}

/// The candidates of a vector, each as what it is.
pub open spec fn candidate_views(candidates: Seq<Candidate>) -> Seq<CandidateView> {
    candidates.map_values(|c: Candidate| c@)
}

/// Whether the candidate at `k` is the first with its canonical path.
#[verifier::opaque]
pub open spec fn is_first(input: Seq<CandidateView>, k: int) -> bool {
    &&& 0 <= k < input.len()
    &&& forall|m: int| 0 <= m < k ==> (#[trigger] input[m]).identity != input[k].identity
}

/// The canonical path of the `i`-th candidate picked.
pub open spec fn picked_identity(input: Seq<CandidateView>, picked: Seq<usize>, i: int) -> Seq<
    PartView,
> {
    input[picked[i] as int].identity
}

/// Whether every index picked is that of the first candidate with its
/// canonical path, and lies below `upto`.
pub open spec fn picks_firsts(input: Seq<CandidateView>, picked: Seq<usize>, upto: int) -> bool {
    forall|i: int|
        0 <= i < picked.len() ==> (#[trigger] picked[i]) < upto && is_first(input, picked[i] as int)
}

/// Whether the candidates picked stand in the strict order of their
/// canonical paths.
pub open spec fn picks_ascend(input: Seq<CandidateView>, picked: Seq<usize>) -> bool {
    forall|i: int, j: int|
        0 <= i < j < picked.len() ==> path_lt(
            #[trigger] picked_identity(input, picked, i),
            #[trigger] picked_identity(input, picked, j),
        )
}

/// Whether the canonical path of each of the first `upto` candidates is
/// that of a candidate picked.
#[verifier::opaque]
pub open spec fn picks_cover(input: Seq<CandidateView>, picked: Seq<usize>, upto: int) -> bool {
    forall|k: int|
        0 <= k < upto ==> exists|i: int|
            0 <= i < picked.len() && #[trigger] picked_identity(input, picked, i)
                == (#[trigger] input[k]).identity
}

/// Whether `picked` is the selection from the first `upto` candidates:
/// it picks, by index, the first candidate of every canonical path among
/// them, in the strict order of those paths.
pub open spec fn is_selection_upto(input: Seq<CandidateView>, picked: Seq<usize>, upto: int) -> bool {
    &&& picks_firsts(input, picked, upto)
    &&& picks_ascend(input, picked)
    &&& picks_cover(input, picked, upto)
}

/// Whether `picked` is the selection from `input`.
pub open spec fn is_selection(input: Seq<CandidateView>, picked: Seq<usize>) -> bool {
    is_selection_upto(input, picked, input.len() as int)
}

/// Selects the files to archive. The result holds indices into
/// `candidates`: for every canonical path the first candidate that has
/// it, and these in the order of their canonical paths.
pub fn select_files(candidates: &Vec<Candidate>) -> (picked: Vec<usize>)
    ensures
        is_selection(candidate_views(candidates@), picked@),
{
    let ghost input = candidate_views(candidates@);
    let mut picked: Vec<usize> = Vec::new();
    let mut k: usize = 0;
    proof {
        reveal(picks_cover);
    }
    while k < candidates.len()
        invariant
            k <= candidates.len(),
            input == candidate_views(candidates@),
            is_selection_upto(input, picked@, k as int),
        decreases candidates.len() - k,
    {
        let ghost key = input[k as int].identity;
        let ghost before = picked@;
        let mut lo: usize = 0;
        let mut hi: usize = picked.len();
        let mut known = false;
        proof {
            lemma_path_order();
            reveal(is_first);
            reveal(picks_cover);
        }
        while lo < hi && !known
            invariant
                lo <= hi <= picked.len(),
                k < candidates.len(),
                input == candidate_views(candidates@),
                key == input[k as int].identity,
                picked@ == before,
                is_selection_upto(input, picked@, k as int),
                forall|i: int| 0 <= i < lo ==> path_lt(#[trigger] picked_identity(input, picked@, i), key),
                forall|i: int|
                    hi <= i < picked.len() ==> path_lt(key, #[trigger] picked_identity(input, picked@, i)),
                known ==> exists|i: int|
                    0 <= i < picked.len() && #[trigger] picked_identity(input, picked@, i) == key,
            decreases (hi - lo) + (if known { 0int } else { 1int }),
        {
            proof {
                reveal(is_first);
                reveal(picks_cover);
            }
            let mid: usize = lo + (hi - lo) / 2;
            let at = picked[mid];
            assert(picked@[mid as int] < k);
            assert(input[at as int] == candidates@[at as int]@);
            assert(input[k as int] == candidates@[k as int]@);
            let ghost here = picked_identity(input, picked@, mid as int);
            match order_paths(&candidates[at].identity, &candidates[k].identity) {
                Order::Less => {
                    proof {
                        lemma_path_order();
                        assert forall|i: int| 0 <= i < mid + 1 implies path_lt(
                            #[trigger] picked_identity(input, picked@, i),
                            key,
                        ) by {
                            if i < mid {
                                assert(path_lt(picked_identity(input, picked@, i), here));
                            }
                        }
                    }
                    lo = mid + 1;
                },
                Order::Equal => {
                    known = true;
                },
                Order::Greater => {
                    proof {
                        lemma_path_order();
                        assert(path_lt(key, here));
                        assert forall|i: int| mid <= i < picked.len() implies path_lt(
                            key,
                            #[trigger] picked_identity(input, picked@, i),
                        ) by {
                            if i > mid {
                                assert(path_lt(here, picked_identity(input, picked@, i)));
                            }
                        }
                    }
                    hi = mid;
                },
            }
        }
        if !known {
            picked.insert(lo, k);
            proof {
                lemma_path_order();
                let after = picked@;
                assert(lo == hi);
                assert forall|i: int| 0 <= i < after.len() implies (#[trigger] after[i]) < k + 1
                    && is_first(input, after[i] as int) by {
                    if i < lo {
                        assert(after[i] == before[i]);
                    } else if i > lo {
                        assert(after[i] == before[i - 1]);
                    } else {
                        assert forall|m: int| 0 <= m < k implies (#[trigger] input[m]).identity
                            != key by {
                            let w = choose|w: int|
                                0 <= w < before.len() && #[trigger] picked_identity(input, before, w)
                                    == input[m].identity;
                            if w < lo {
                                assert(path_lt(picked_identity(input, before, w), key));
                            } else {
                                assert(path_lt(key, picked_identity(input, before, w)));
                            }
                        }
                    }
                }
                assert forall|i: int, j: int| 0 <= i < j < after.len() implies path_lt(
                    #[trigger] picked_identity(input, after, i),
                    #[trigger] picked_identity(input, after, j),
                ) by {
                    let bi = if i < lo { i } else { i - 1 };
                    let bj = if j < lo { j } else { j - 1 };
                    if i != lo {
                        assert(picked_identity(input, after, i) == picked_identity(input, before, bi));
                    }
                    if j != lo {
                        assert(picked_identity(input, after, j) == picked_identity(input, before, bj));
                    }
                    if i != lo && j != lo {
                        assert(path_lt(
                            picked_identity(input, before, bi),
                            picked_identity(input, before, bj),
                        ));
                    }
                }
                assert forall|m: int| 0 <= m < k + 1 implies exists|i: int|
                    0 <= i < after.len() && #[trigger] picked_identity(input, after, i)
                        == (#[trigger] input[m]).identity by {
                    if m == k {
                        assert(picked_identity(input, after, lo as int) == key);
                    } else {
                        let w = choose|w: int|
                            0 <= w < before.len() && #[trigger] picked_identity(input, before, w)
                                == input[m].identity;
                        let a = if w < lo { w } else { w + 1 };
                        assert(picked_identity(input, after, a) == picked_identity(input, before, w));
                    }
                }
            }
        } else {
            proof {
                assert forall|m: int| 0 <= m < k + 1 implies exists|i: int|
                    0 <= i < picked@.len() && #[trigger] picked_identity(input, picked@, i)
                        == (#[trigger] input[m]).identity by {
                    if m == k {
                        let w = choose|w: int|
                            0 <= w < picked@.len() && #[trigger] picked_identity(input, picked@, w)
                                == key;
                        assert(picked_identity(input, picked@, w) == input[m].identity);
                    }
                }
            }
        }
        k = k + 1;
    }
    picked
}

/// The candidate picked for a canonical path that the first `m` places
/// of another selection do not have is not among those places.
proof fn lemma_not_among_first(
    input: Seq<CandidateView>,
    a: Seq<usize>,
    b: Seq<usize>,
    m: int,
    j: int,
)
    requires
        picks_ascend(input, a),
        0 <= m < a.len(),
        0 <= j < b.len(),
        forall|i: int| 0 <= i < m ==> a[i] == b[i],
        picked_identity(input, b, j) == picked_identity(input, a, m),
    ensures
        m <= j,
{
    lemma_path_order();
    if j < m {
        assert(a[j] == b[j]);
        assert(picked_identity(input, b, j) == picked_identity(input, a, j));
        assert(path_lt(picked_identity(input, a, j), picked_identity(input, a, m)));
    }
}

/// Where two selections agree on their first `m` places, they have the
/// same canonical path at the next.
proof fn lemma_same_next(input: Seq<CandidateView>, a: Seq<usize>, b: Seq<usize>, m: int, i: int, j: int)
    requires
        picks_ascend(input, a),
        picks_ascend(input, b),
        0 <= m <= i < a.len(),
        m <= j < b.len(),
        picked_identity(input, b, j) == picked_identity(input, a, m),
        picked_identity(input, a, i) == picked_identity(input, b, m),
    ensures
        picked_identity(input, b, m) == picked_identity(input, a, m),
{
    lemma_path_order();
    if j > m {
        assert(path_lt(picked_identity(input, b, m), picked_identity(input, b, j)));
        if i > m {
            assert(path_lt(picked_identity(input, a, m), picked_identity(input, a, i)));
        }
    }
}

/// A place of the selection that has the canonical path of a given
/// candidate.
proof fn lemma_cover_witness(input: Seq<CandidateView>, picked: Seq<usize>, k: int) -> (i: int)
    requires
        picks_cover(input, picked, input.len() as int),
        0 <= k < input.len(),
    ensures
        0 <= i < picked.len(),
        picked_identity(input, picked, i) == input[k].identity,
{
    reveal(picks_cover);
    choose|i: int|
        0 <= i < picked.len() && #[trigger] picked_identity(input, picked, i) == input[k].identity
}

/// Two candidates that are each the first with one canonical path are
/// one candidate.
proof fn lemma_first_is_one(input: Seq<CandidateView>, x: int, y: int)
    requires
        is_first(input, x),
        is_first(input, y),
        input[x].identity == input[y].identity,
    ensures
        x == y,
{
    reveal(is_first);
}

/// Two selections from the same candidates agree on their first `n`
/// places, and where one has an `n`-th place the other has one too.
proof fn lemma_selection_prefix(input: Seq<CandidateView>, a: Seq<usize>, b: Seq<usize>, n: nat)
    requires
        is_selection(input, a),
        is_selection(input, b),
        n <= a.len(),
    ensures
        n <= b.len(),
        forall|i: int| 0 <= i < n ==> a[i] == b[i],
    decreases n,
{
    if n > 0 {
        lemma_selection_prefix(input, a, b, (n - 1) as nat);
        let m = n - 1;
        assert(a[m] < input.len() && is_first(input, a[m] as int));
        let j = lemma_cover_witness(input, b, a[m] as int);
        lemma_not_among_first(input, a, b, m, j);
        assert(b[m] < input.len() && is_first(input, b[m] as int));
        let i = lemma_cover_witness(input, a, b[m] as int);
        assert forall|k: int| 0 <= k < m implies b[k] == a[k] by {}
        lemma_not_among_first(input, b, a, m, i);
        lemma_same_next(input, a, b, m, i, j);
        lemma_first_is_one(input, a[m] as int, b[m] as int);
    }
}

/// The selection is determined: whatever picks the first candidate of
/// every canonical path, in the order of those paths, picks the same.
pub proof fn lemma_selection_unique(input: Seq<CandidateView>, a: Seq<usize>, b: Seq<usize>)
    requires
        is_selection(input, a),
        is_selection(input, b),
    ensures
        a == b,
{
    lemma_selection_prefix(input, a, b, a.len());
    lemma_selection_prefix(input, b, a, b.len());
    assert(a =~= b);
}

/// One entry per file. However many candidates lead to one file, the
/// selection holds exactly one entry for it: wherever a candidate stands
/// in the input, one place of the selection has its canonical path, and
/// no other has.
pub proof fn lemma_one_entry_per_file(input: Seq<CandidateView>, picked: Seq<usize>, k: int)
    requires
        is_selection(input, picked),
        0 <= k < input.len(),
    ensures
        exists|i: int|
            0 <= i < picked.len() && #[trigger] picked_identity(input, picked, i)
                == input[k].identity && forall|j: int|
                0 <= j < picked.len() && #[trigger] picked_identity(input, picked, j)
                    == input[k].identity ==> j == i,
{
    lemma_path_order();
    let i = lemma_cover_witness(input, picked, k);
    assert forall|j: int|
        0 <= j < picked.len() && #[trigger] picked_identity(input, picked, j)
            == input[k].identity implies j == i by {
        if j < i {
            assert(path_lt(picked_identity(input, picked, j), picked_identity(input, picked, i)));
        } else if i < j {
            assert(path_lt(picked_identity(input, picked, i), picked_identity(input, picked, j)));
        }
    }
}

} // verus!
