//! What it means for a live subtree to match a snapshot, and what leaves a
//! match untouched.

use crate::layout::{forest_laid, laid, slots};
use crate::node::{child_size, forest_size, ChildView};
use crate::tree::{stored, LiveView};
use vstd::prelude::*;

verus! {

/// The node `y` has in `f` the text, tag, attributes and children that it has
/// in `e`.
pub open spec fn kept(e: Seq<LiveView>, f: Seq<LiveView>, y: int) -> bool {
    &&& f[y].text == e[y].text
    &&& f[y].tag == e[y].tag
    &&& f[y].attributes == e[y].attributes
    &&& f[y].children == e[y].children
}

/// Every node of `s` is kept from `e` to `f`.
pub open spec fn same_on(e: Seq<LiveView>, f: Seq<LiveView>, s: Set<int>) -> bool {
    forall|y: int| #[trigger] s.contains(y) ==> kept(e, f, y)
}

/// The numbers from `lo` up to `hi`.
pub open spec fn block(lo: int, hi: int) -> Set<int> {
    Set::new(|y: int| lo <= y < hi)
}

/// The live subtree under `id` matches the child `c`: a text node with the
/// same text, or an element with the same tag, the attributes that the
/// snapshot's attributes store, and children that match pairwise. Listeners
/// play no part. Every node of the subtree is one of `s`.
pub open spec fn mirrors_in(e: Seq<LiveView>, id: usize, c: ChildView, s: Set<int>) -> bool
    decreases c, 0nat,
{
    &&& id < e.len()
    &&& s.contains(id as int)
    &&& match c {
        ChildView::Text(t) => e[id as int].text == Some(t),
        ChildView::Node(n) => {
            &&& e[id as int].text is None
            &&& e[id as int].tag == n.tag
            &&& e[id as int].attributes == stored(n.attributes)
            &&& e[id as int].children.len() == n.children.len()
            &&& forest_mirrors_in(e, e[id as int].children, n.children, n.children.len(), s)
        },
    }
}

/// The live subtrees under the first `k` of `ids` match the first `k` of
/// `cs`, pair by pair.
pub open spec fn forest_mirrors_in(
    e: Seq<LiveView>,
    ids: Seq<usize>,
    cs: Seq<ChildView>,
    k: nat,
    s: Set<int>,
) -> bool
    decreases cs, k,
{
    if k == 0 || k > cs.len() || k > ids.len() {
        k == 0
    } else {
        forest_mirrors_in(e, ids, cs, (k - 1) as nat, s) && mirrors_in(e, ids[k - 1], cs[k - 1], s)
    }
}

/// The live subtree under `id` matches the child `c`.
pub open spec fn mirrors(e: Seq<LiveView>, id: usize, c: ChildView) -> bool {
    mirrors_in(e, id, c, block(0, e.len() as int))
}

/// A match holds in every arena that keeps the nodes of the subtree.
pub proof fn lemma_mirrors_frame(
    e: Seq<LiveView>,
    f: Seq<LiveView>,
    id: usize,
    c: ChildView,
    s: Set<int>,
)
    requires
        mirrors_in(e, id, c, s),
        e.len() <= f.len(),
        same_on(e, f, s),
    ensures
        mirrors_in(f, id, c, s),
    decreases c, 0nat,
{
    assert(kept(e, f, id as int));
    match c {
        ChildView::Text(_) => {},
        ChildView::Node(n) => {
            lemma_forest_mirrors_frame(e, f, e[id as int].children, n.children, n.children.len(), s);
        },
    }
}

/// `lemma_mirrors_frame` for the first `k` pairs.
pub proof fn lemma_forest_mirrors_frame(
    e: Seq<LiveView>,
    f: Seq<LiveView>,
    ids: Seq<usize>,
    cs: Seq<ChildView>,
    k: nat,
    s: Set<int>,
)
    requires
        forest_mirrors_in(e, ids, cs, k, s),
        e.len() <= f.len(),
        same_on(e, f, s),
    ensures
        forest_mirrors_in(f, ids, cs, k, s),
    decreases cs, k,
{
    if k > 0 {
        lemma_forest_mirrors_frame(e, f, ids, cs, (k - 1) as nat, s);
        lemma_mirrors_frame(e, f, ids[k - 1], cs[k - 1], s);
    }
}

/// A match within some nodes is a match within any nodes that include them.
pub proof fn lemma_mirrors_widen(
    e: Seq<LiveView>,
    id: usize,
    c: ChildView,
    s: Set<int>,
    t: Set<int>,
)
    requires
        mirrors_in(e, id, c, s),
        s.subset_of(t),
    ensures
        mirrors_in(e, id, c, t),
    decreases c, 0nat,
{
    match c {
        ChildView::Text(_) => {},
        ChildView::Node(n) => {
            lemma_forest_mirrors_widen(e, e[id as int].children, n.children, n.children.len(), s, t);
        },
    }
}

/// `lemma_mirrors_widen` for the first `k` pairs.
pub proof fn lemma_forest_mirrors_widen(
    e: Seq<LiveView>,
    ids: Seq<usize>,
    cs: Seq<ChildView>,
    k: nat,
    s: Set<int>,
    t: Set<int>,
)
    requires
        forest_mirrors_in(e, ids, cs, k, s),
        s.subset_of(t),
    ensures
        forest_mirrors_in(e, ids, cs, k, t),
    decreases cs, k,
{
    if k > 0 {
        lemma_forest_mirrors_widen(e, ids, cs, (k - 1) as nat, s, t);
        lemma_mirrors_widen(e, ids[k - 1], cs[k - 1], s, t);
    }
}

/// Whether the first `k` pairs match depends on the first `k` numbers alone.
pub proof fn lemma_forest_mirrors_ids(
    e: Seq<LiveView>,
    ids: Seq<usize>,
    other: Seq<usize>,
    cs: Seq<ChildView>,
    k: nat,
    s: Set<int>,
)
    requires
        forest_mirrors_in(e, ids, cs, k, s),
        k <= other.len(),
        forall|j: int| 0 <= j < k ==> other[j] == ids[j],
    ensures
        forest_mirrors_in(e, other, cs, k, s),
    decreases k,
{
    if k > 0 {
        lemma_forest_mirrors_ids(e, ids, other, cs, (k - 1) as nat, s);
    }
}

/// Pairs that match one by one match as a list.
pub proof fn lemma_forest_mirrors_extend(
    f: Seq<LiveView>,
    ids: Seq<usize>,
    cs: Seq<ChildView>,
    from: nat,
    to: nat,
    s: Set<int>,
)
    requires
        from <= to <= cs.len(),
        to <= ids.len(),
        forest_mirrors_in(f, ids, cs, from, s),
        forall|j: int| from <= j < to ==> mirrors_in(f, #[trigger] ids[j], cs[j], s),
    ensures
        forest_mirrors_in(f, ids, cs, to, s),
    decreases to - from,
{
    if from < to {
        lemma_forest_mirrors_extend(f, ids, cs, from, (to - 1) as nat, s);
        assert(mirrors_in(f, ids[to - 1], cs[to - 1], s));
    }
}

/// A pair among the first `k` that match matches.
pub proof fn lemma_forest_mirrors_at(
    e: Seq<LiveView>,
    ids: Seq<usize>,
    cs: Seq<ChildView>,
    k: nat,
    j: int,
    s: Set<int>,
)
    requires
        forest_mirrors_in(e, ids, cs, k, s),
        0 <= j < k,
    ensures
        mirrors_in(e, ids[j], cs[j], s),
        k <= cs.len(),
        k <= ids.len(),
    decreases k,
{
    if j < k - 1 {
        lemma_forest_mirrors_at(e, ids, cs, (k - 1) as nat, j, s);
    }
}

/// Child `j` of a forest that lies in the arena lies there itself.
pub proof fn lemma_forest_laid_at(
    e: Seq<LiveView>,
    first: int,
    cs: Seq<ChildView>,
    k: nat,
    j: int,
)
    requires
        forest_laid(e, first, cs, k),
        0 <= j < k <= cs.len(),
    ensures
        laid(e, first + forest_size(cs, j as nat), cs[j]),
    decreases k,
{
    if j < k - 1 {
        lemma_forest_laid_at(e, first, cs, (k - 1) as nat, j);
    }
}

/// A subtree that lies in the arena from `b` on matches its snapshot, within
/// the numbers it lies at.
pub proof fn lemma_laid_mirrors(e: Seq<LiveView>, b: int, c: ChildView)
    requires
        laid(e, b, c),
        b + child_size(c) <= usize::MAX,
    ensures
        mirrors_in(e, b as usize, c, block(b, b + child_size(c))),
    decreases c, 0nat,
{
    match c {
        ChildView::Text(_) => {},
        ChildView::Node(n) => {
            lemma_forest_laid_mirrors(e, b, n.children, n.children.len(), n.children.len());
        },
    }
}

/// `lemma_laid_mirrors` for the first `k` children of an element at `b`.
pub proof fn lemma_forest_laid_mirrors(
    e: Seq<LiveView>,
    b: int,
    cs: Seq<ChildView>,
    k: nat,
    all: nat,
)
    requires
        0 <= b,
        forest_laid(e, b + 1, cs, k),
        k <= all,
        all == cs.len(),
        b + 1 + forest_size(cs, all) <= usize::MAX,
    ensures
        forest_mirrors_in(e, slots(b, cs), cs, k, block(b, b + 1 + forest_size(cs, all))),
    decreases cs, k,
{
    if k > 0 {
        lemma_forest_laid_mirrors(e, b, cs, (k - 1) as nat, all);
        let at = b + 1 + forest_size(cs, (k - 1) as nat);
        crate::node::lemma_forest_size_grows(cs, k, all);
        lemma_laid_mirrors(e, at, cs[k - 1]);
        lemma_mirrors_widen(
            e,
            at as usize,
            cs[k - 1],
            block(at, at + child_size(cs[k - 1])),
            block(b, b + 1 + forest_size(cs, all)),
        );
    }
}

} // verus!
