//! Paths as sequences of components, and the order in which files are
//! archived.
//!
//! A path is held as its components rather than as text, so that
//! nothing here depends on how a platform writes separators. Paths are
//! ordered component by component, a shorter path before any extension
//! of it; components are ordered by kind, and names byte by byte.

use vstd::prelude::*;

verus! {

/// One component of a path.
#[derive(Debug, Clone)]
pub enum PathPart {
    /// The root of the file system.
    Root,
    /// The directory itself, written `.`.
    Current,
    /// The directory above, written `..`.
    Parent,
    /// A file or a directory, by its name.
    Normal(Vec<u8>),
}

/// What a component is, apart from how memory holds it.
pub ghost enum PartView {
    Root,
    Current,
    Parent,
    Normal(Seq<u8>),
}

impl View for PathPart {
    type V = PartView;

    open spec fn view(&self) -> PartView {
        match self {
            PathPart::Root => PartView::Root,
            PathPart::Current => PartView::Current,
            PathPart::Parent => PartView::Parent,
            PathPart::Normal(name) => PartView::Normal(name@),
        }
    }
}

/// The components of a path, each as what it is.
pub open spec fn path_view(parts: Seq<PathPart>) -> Seq<PartView> {
    parts.map_values(|p: PathPart| p@)
}

/// How two values stand to each other in an order.
#[derive(Debug, Clone, Copy, PartialEq, Eq, Structural)]
pub enum Order {
    /// The first comes before the second.
    Less,
    /// They are the same.
    Equal,
    /// The first comes after the second.
    Greater,
}

/// Whether `lt` orders all values of a type in one strict line.
pub open spec fn strict_total<T>(lt: spec_fn(T, T) -> bool) -> bool {
    &&& forall|x: T| !#[trigger] lt(x, x)
    &&& forall|x: T, y: T| x != y ==> #[trigger] lt(x, y) || #[trigger] lt(y, x)
    &&& forall|x: T, y: T, z: T| #[trigger] lt(x, y) && #[trigger] lt(y, z) ==> lt(x, z)
}

/// The lexicographic order on sequences that `lt` gives: at the first
/// place where two sequences differ the smaller element decides, and a
/// sequence comes before every extension of it.
pub open spec fn lex_lt<T>(lt: spec_fn(T, T) -> bool, a: Seq<T>, b: Seq<T>) -> bool
    decreases a.len(),
{
    if b.len() == 0 {
        false
    } else if a.len() == 0 {
        true
    } else if lt(a[0], b[0]) {
        true
    } else if lt(b[0], a[0]) {
        false
    } else {
        lex_lt(lt, a.drop_first(), b.drop_first())
    }
}

/// No sequence comes before itself.
pub proof fn lemma_lex_irreflexive<T>(lt: spec_fn(T, T) -> bool, a: Seq<T>)
    requires
        strict_total(lt),
    ensures
        !lex_lt(lt, a, a),
    decreases a.len(),
{
    if a.len() > 0 {
        lemma_lex_irreflexive(lt, a.drop_first());
    }
}

/// Of two different sequences one comes before the other.
pub proof fn lemma_lex_total<T>(lt: spec_fn(T, T) -> bool, a: Seq<T>, b: Seq<T>)
    requires
        strict_total(lt),
        a != b,
    ensures
        lex_lt(lt, a, b) || lex_lt(lt, b, a),
    decreases a.len(),
{
    if a.len() > 0 && b.len() > 0 {
        if a[0] == b[0] {
            assert(!lt(a[0], b[0]));
            if a.drop_first() == b.drop_first() {
                assert(a =~= seq![a[0]] + a.drop_first());
                assert(b =~= seq![b[0]] + b.drop_first());
            }
            lemma_lex_total(lt, a.drop_first(), b.drop_first());
        } else {
            assert(lt(a[0], b[0]) || lt(b[0], a[0]));
        }
    } else if a.len() == 0 && b.len() == 0 {
        assert(a =~= b);
    }
}

/// Before is transitive.
pub proof fn lemma_lex_transitive<T>(lt: spec_fn(T, T) -> bool, a: Seq<T>, b: Seq<T>, c: Seq<T>)
    requires
        strict_total(lt),
        lex_lt(lt, a, b),
        lex_lt(lt, b, c),
    ensures
        lex_lt(lt, a, c),
    decreases a.len(),
{
    if a.len() > 0 {
        assert(b.len() > 0 && c.len() > 0);
        let (x, y, z) = (a[0], b[0], c[0]);
        assert(!lt(x, x) && !lt(y, y) && !lt(z, z));
        if lt(x, y) {
            if lt(y, z) {
                assert(lt(x, z));
            } else {
                assert(!lt(z, y));
                assert(y == z) by {
                    if y != z {
                        assert(lt(y, z) || lt(z, y));
                    }
                }
            }
        } else {
            assert(!lt(y, x));
            assert(x == y) by {
                if x != y {
                    assert(lt(x, y) || lt(y, x));
                }
            }
            if lt(y, z) {
            } else {
                assert(y == z) by {
                    if y != z {
                        assert(lt(y, z) || lt(z, y));
                    }
                }
                lemma_lex_transitive(lt, a.drop_first(), b.drop_first(), c.drop_first());
            }
        }
    }
}

/// A common front does not decide: the rest does.
pub proof fn lemma_lex_skip_common<T>(lt: spec_fn(T, T) -> bool, a: Seq<T>, b: Seq<T>, k: int)
    requires
        strict_total(lt),
        0 <= k <= a.len(),
        k <= b.len(),
        a.take(k) == b.take(k),
    ensures
        lex_lt(lt, a, b) == lex_lt(lt, a.skip(k), b.skip(k)),
    decreases k,
{
    if k == 0 {
        assert(a.skip(0) =~= a);
        assert(b.skip(0) =~= b);
    } else {
        assert(a[0] == a.take(k)[0] && b[0] == b.take(k)[0]);
        assert(!lt(a[0], a[0]));
        assert(a.drop_first().take(k - 1) =~= a.take(k).drop_first());
        assert(b.drop_first().take(k - 1) =~= b.take(k).drop_first());
        lemma_lex_skip_common(lt, a.drop_first(), b.drop_first(), k - 1);
        assert(a.drop_first().skip(k - 1) =~= a.skip(k));
        assert(b.drop_first().skip(k - 1) =~= b.skip(k));
    }
}

/// The order of bytes.
pub open spec fn byte_lt() -> spec_fn(u8, u8) -> bool {
    |x: u8, y: u8| x < y
}

/// The order of names: byte by byte.
pub open spec fn name_lt(a: Seq<u8>, b: Seq<u8>) -> bool {
    lex_lt(byte_lt(), a, b)
}

/// Where a kind of component stands among the kinds.
pub open spec fn kind_rank(p: PartView) -> int {
    match p {
        PartView::Root => 0,
        PartView::Current => 1,
        PartView::Parent => 2,
        PartView::Normal(_) => 3,
    }
}

/// The order of components: the root first, then `.`, then `..`, then
/// the names in their order.
pub open spec fn part_lt() -> spec_fn(PartView, PartView) -> bool {
    |p: PartView, q: PartView|
        if kind_rank(p) != kind_rank(q) {
            kind_rank(p) < kind_rank(q)
        } else {
            match (p, q) {
                (PartView::Normal(a), PartView::Normal(b)) => name_lt(a, b),
                _ => false,
            }
        }
}

/// The order of paths: component by component.
pub open spec fn path_lt(a: Seq<PartView>, b: Seq<PartView>) -> bool {
    lex_lt(part_lt(), a, b)
}

/// Bytes stand in one strict line.
pub proof fn lemma_byte_order()
    ensures
        strict_total(byte_lt()),
{
}

/// Components stand in one strict line.
pub proof fn lemma_part_order()
    ensures
        strict_total(part_lt()),
{
    let lt = part_lt();
    lemma_byte_order();
    assert forall|x: PartView| !#[trigger] lt(x, x) by {
        match x {
            PartView::Normal(a) => {
                lemma_lex_irreflexive(byte_lt(), a);
            },
            _ => {},
        }
    }
    assert forall|x: PartView, y: PartView| x != y implies #[trigger] lt(x, y) || #[trigger] lt(
        y,
        x,
    ) by {
        match (x, y) {
            (PartView::Normal(a), PartView::Normal(b)) => {
                lemma_lex_total(byte_lt(), a, b);
            },
            _ => {},
        }
    }
    assert forall|x: PartView, y: PartView, z: PartView| #[trigger]
        lt(x, y) && #[trigger] lt(y, z) implies lt(x, z) by {
        match (x, y, z) {
            (PartView::Normal(a), PartView::Normal(b), PartView::Normal(c)) => {
                lemma_lex_transitive(byte_lt(), a, b, c);
            },
            _ => {},
        }
    }
}

/// Paths stand in one strict line: no path comes before itself, of two
/// different paths one comes before the other, and before is transitive.
pub proof fn lemma_path_order()
    ensures
        forall|a: Seq<PartView>| !#[trigger] path_lt(a, a),
        forall|a: Seq<PartView>, b: Seq<PartView>|
            a != b ==> #[trigger] path_lt(a, b) || #[trigger] path_lt(b, a),
        forall|a: Seq<PartView>, b: Seq<PartView>, c: Seq<PartView>| #[trigger]
            path_lt(a, b) && #[trigger] path_lt(b, c) ==> path_lt(a, c),
{
    lemma_part_order();
    assert forall|a: Seq<PartView>| !#[trigger] path_lt(a, a) by {
        lemma_lex_irreflexive(part_lt(), a);
    }
    assert forall|a: Seq<PartView>, b: Seq<PartView>| a != b implies #[trigger] path_lt(a, b)
        || #[trigger] path_lt(b, a) by {
        lemma_lex_total(part_lt(), a, b);
    }
    assert forall|a: Seq<PartView>, b: Seq<PartView>, c: Seq<PartView>| #[trigger]
        path_lt(a, b) && #[trigger] path_lt(b, c) implies path_lt(a, c) by {
        lemma_lex_transitive(part_lt(), a, b, c);
    }
}

/// How `a` stands to `b` under the strict order `lt`.
pub open spec fn spec_order<T>(lt: spec_fn(T, T) -> bool, a: T, b: T) -> Order {
    if a == b {
        Order::Equal
    } else if lt(a, b) {
        Order::Less
    } else {
        Order::Greater
    }
}

/// Compares two names byte by byte.
pub fn order_names(a: &[u8], b: &[u8]) -> (o: Order)
    ensures
        o == spec_order(|x: Seq<u8>, y: Seq<u8>| name_lt(x, y), a@, b@),
{
    let mut i: usize = 0;
    proof {
        lemma_byte_order();
    }
    while i < a.len() && i < b.len()
        invariant
            i <= a.len(),
            i <= b.len(),
            a@.take(i as int) == b@.take(i as int),
            strict_total(byte_lt()),
        decreases a.len() - i,
    {
        if a[i] != b[i] {
            proof {
                lemma_lex_skip_common(byte_lt(), a@, b@, i as int);
                lemma_lex_skip_common(byte_lt(), b@, a@, i as int);
                assert(a@.skip(i as int)[0] == a@[i as int]);
                assert(b@.skip(i as int)[0] == b@[i as int]);
            }
            if a[i] < b[i] {
                return Order::Less;
            } else {
                return Order::Greater;
            }
        }
        i = i + 1;
        assert(a@.take(i as int) =~= a@.take(i - 1).push(a@[i - 1]));
        assert(b@.take(i as int) =~= b@.take(i - 1).push(b@[i - 1]));
    }
    proof {
        lemma_lex_skip_common(byte_lt(), a@, b@, i as int);
        lemma_lex_skip_common(byte_lt(), b@, a@, i as int);
    }
    if a.len() == b.len() {
        assert(a@ =~= a@.take(i as int));
        assert(b@ =~= b@.take(i as int));
        Order::Equal
    } else if a.len() < b.len() {
        Order::Less
    } else {
        Order::Greater
    }
}

/// Compares two components: by kind, and two names byte by byte.
pub fn order_parts(p: &PathPart, q: &PathPart) -> (o: Order)
    ensures
        o == spec_order(part_lt(), p@, q@),
{
    match (p, q) {
        (PathPart::Normal(a), PathPart::Normal(b)) => order_names(a.as_slice(), b.as_slice()),
        (PathPart::Root, PathPart::Root) => Order::Equal,
        (PathPart::Root, _) => Order::Less,
        (PathPart::Current, PathPart::Root) => Order::Greater,
        (PathPart::Current, PathPart::Current) => Order::Equal,
        (PathPart::Current, _) => Order::Less,
        (PathPart::Parent, PathPart::Parent) => Order::Equal,
        (PathPart::Parent, PathPart::Normal(_)) => Order::Less,
        (PathPart::Parent, _) => Order::Greater,
        (PathPart::Normal(_), _) => Order::Greater,
    }
}

/// Compares two paths component by component.
pub fn order_paths(a: &Vec<PathPart>, b: &Vec<PathPart>) -> (o: Order)
    ensures
        o == spec_order(
            |x: Seq<PartView>, y: Seq<PartView>| path_lt(x, y),
            path_view(a@),
            path_view(b@),
        ),
{
    let ghost av = path_view(a@);
    let ghost bv = path_view(b@);
    let mut i: usize = 0;
    proof {
        lemma_part_order();
    }
    while i < a.len() && i < b.len()
        invariant
            i <= a.len(),
            i <= b.len(),
            av == path_view(a@),
            bv == path_view(b@),
            av.take(i as int) == bv.take(i as int),
            strict_total(part_lt()),
        decreases a.len() - i,
    {
        let o = order_parts(&a[i], &b[i]);
        proof {
            assert(av[i as int] == a@[i as int]@);
            assert(bv[i as int] == b@[i as int]@);
        }
        match o {
            Order::Equal => {},
            _ => {
                proof {
                    lemma_lex_skip_common(part_lt(), av, bv, i as int);
                    lemma_lex_skip_common(part_lt(), bv, av, i as int);
                    assert(av.skip(i as int)[0] == av[i as int]);
                    assert(bv.skip(i as int)[0] == bv[i as int]);
                    let (x, y) = (av[i as int], bv[i as int]);
                    assert(part_lt()(x, y) || part_lt()(y, x));
                    if part_lt()(x, y) && part_lt()(y, x) {
                        assert(part_lt()(x, x));
                    }
                    assert(!part_lt()(x, x));
                }
                return o;
            },
        }
        i = i + 1;
        assert(av.take(i as int) =~= av.take(i - 1).push(av[i - 1]));
        assert(bv.take(i as int) =~= bv.take(i - 1).push(bv[i - 1]));
    }
    proof {
        lemma_lex_skip_common(part_lt(), av, bv, i as int);
        lemma_lex_skip_common(part_lt(), bv, av, i as int);
    }
    if a.len() == b.len() {
        assert(av =~= av.take(i as int));
        assert(bv =~= bv.take(i as int));
        Order::Equal
    } else if a.len() < b.len() {
        Order::Less
    } else {
        Order::Greater
    }
}

} // verus!
